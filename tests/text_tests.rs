use version_upgrader::text::{
    chars_of, contains_chars, decimal_string, last_token_chars, parse_u64, replace_chars,
    split_chars, string_of,
};

fn cs(s: &str) -> Vec<char> {
    s.chars().collect()
}

#[test]
fn decimal_spelling() {
    assert_eq!(decimal_string(0), "0");
    assert_eq!(decimal_string(42), "42");
    assert_eq!(decimal_string(u64::MAX), "18446744073709551615");
}

#[test]
fn numeral_parsing() {
    assert_eq!(parse_u64(&cs("7")), Some(7));
    assert_eq!(parse_u64(&cs("007")), Some(7));
    assert_eq!(parse_u64(&cs("")), None);
    assert_eq!(parse_u64(&cs("1a")), None);
    assert_eq!(parse_u64(&cs("+1")), None);
    assert_eq!(parse_u64(&cs("18446744073709551615")), Some(u64::MAX));
    assert_eq!(parse_u64(&cs("18446744073709551616")), None);
}

#[test]
fn chars_and_strings_convert() {
    assert_eq!(chars_of("aé.b"), cs("aé.b"));
    assert_eq!(string_of(&cs("x y")), "x y");
}

#[test]
fn splitting_on_dots() {
    let parts: Vec<String> = split_chars(&cs("1..23."), '.').iter().map(|p| string_of(p)).collect();
    assert_eq!(parts, vec!["1", "", "23", ""]);
    assert_eq!(split_chars(&cs(""), '.').len(), 1);
}

#[test]
fn substring_search() {
    assert!(contains_chars(&cs("  versionCode 7"), &cs("versionCode ")));
    assert!(!contains_chars(&cs("versionCode"), &cs("versionCode ")));
    assert!(contains_chars(&cs("abc"), &cs("")));
    assert!(!contains_chars(&cs(""), &cs("a")));
}

#[test]
fn literal_replacement() {
    assert_eq!(string_of(&replace_chars(&cs("a1.2.3b1.2.3"), &cs("1.2.3"), &cs("1.3.0"))), "a1.3.0b1.3.0");
    assert_eq!(string_of(&replace_chars(&cs("aaa"), &cs("aa"), &cs("b"))), "ba");
    assert_eq!(string_of(&replace_chars(&cs("\"1.2\","), &cs("\""), &cs(""))), "1.2,");
    assert_eq!(string_of(&replace_chars(&cs("none"), &cs("x"), &cs("y"))), "none");
}

#[test]
fn last_whitespace_token() {
    assert_eq!(string_of(&last_token_chars(&cs("  versionCode 7  "))), "7");
    assert_eq!(string_of(&last_token_chars(&cs("\tone\ttwo"))), "two");
    assert_eq!(string_of(&last_token_chars(&cs("   "))), "");
    assert_eq!(string_of(&last_token_chars(&cs(""))), "");
}
