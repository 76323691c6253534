use version_upgrader::patcher::{find_last_marked, patch_lines, rewrite_line, LineRule};
use version_upgrader::upgrader::AndroidVersionUpgrader;
use version_upgrader::version::{ReleaseTypes, SemanticVersion};

fn cs(s: &str) -> Vec<char> {
    s.chars().collect()
}

fn rule(marker: &str, from: &str, to: &str) -> LineRule {
    LineRule { marker: cs(marker), from: cs(from), to: cs(to) }
}

fn lines(text: &[&str]) -> Vec<String> {
    text.iter().map(|l| l.to_string()).collect()
}

#[test]
fn last_matching_rule_wins() {
    let rules = vec![rule("a", "x", "1"), rule("b", "x", "2")];
    let out: String = rewrite_line(&cs("ab x"), &rules).iter().collect();
    assert_eq!(out, "ab 2");
    let out: String = rewrite_line(&cs("a x"), &rules).iter().collect();
    assert_eq!(out, "a 1");
    let out: String = rewrite_line(&cs("c x"), &rules).iter().collect();
    assert_eq!(out, "c x");
}

#[test]
fn patching_keeps_unmarked_lines() {
    let rules = vec![rule("key", "1.0", "2.0")];
    let input = lines(&["1.0", "key 1.0", "", "other 1.0"]);
    let out = patch_lines(&input, &rules);
    assert_eq!(out, lines(&["1.0", "key 2.0", "", "other 1.0"]));
}

#[test]
fn last_marked_line_is_found() {
    let input = lines(&["m 1", "x", "m 2", "y"]);
    assert_eq!(find_last_marked(&input, &cs("m ")), Some(2));
    assert_eq!(find_last_marked(&input, &cs("z")), None);
}

#[test]
fn counter_with_leading_zeros_reads_back() {
    let v = SemanticVersion { major: 1, minor: 0, patch: 0 };
    let input = lines(&["versionCode 0099"]);
    let a = AndroidVersionUpgrader::new("g", &input, v).unwrap();
    assert_eq!(a.current_version_code, 99);
    let out = a.upgrade(&ReleaseTypes::PATCH, &input).unwrap();
    assert_eq!(out, lines(&["versionCode 00100"]));
    assert_eq!(AndroidVersionUpgrader::new("g", &out, v).unwrap().current_version_code, 100);
}

#[test]
fn zero_counter_with_leading_zeros_is_rewritten_literally() {
    let v = SemanticVersion { major: 1, minor: 0, patch: 0 };
    let input = lines(&["versionCode 00"]);
    let a = AndroidVersionUpgrader::new("g", &input, v).unwrap();
    let out = a.upgrade(&ReleaseTypes::PATCH, &input).unwrap();
    assert_eq!(out, lines(&["versionCode 11"]));
}

#[test]
fn version_text_elsewhere_on_a_watched_line_is_replaced_too() {
    let v = SemanticVersion { major: 1, minor: 2, patch: 3 };
    let input = lines(&["versionCode 1", "versionName \"1.2.3\" // was 1.2.3"]);
    let a = AndroidVersionUpgrader::new("g", &input, v).unwrap();
    let out = a.upgrade(&ReleaseTypes::MAJOR, &input).unwrap();
    assert_eq!(out, lines(&["versionCode 2", "versionName \"2.0.0\" // was 2.0.0"]));
}
