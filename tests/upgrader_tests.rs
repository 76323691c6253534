use version_upgrader::error::UpgradeError;
use version_upgrader::version::{ReleaseTypes, SemanticVersion};
use version_upgrader::upgrader::{AndroidVersionUpgrader, PackageJsonUpgrader};

fn lines(text: &[&str]) -> Vec<String> {
    text.iter().map(|l| l.to_string()).collect()
}

fn manifest() -> Vec<String> {
    lines(&["{", "  \"name\": \"app\",", "  \"version\": \"1.2.3\",", "  \"dep\": \"1.2.3\"", "}"])
}

fn descriptor() -> Vec<String> {
    lines(&[
        "android {",
        "    defaultConfig {",
        "        versionCode 7",
        "        versionName \"1.2.3\"",
        "        minSdkVersion 21",
        "    }",
        "}",
    ])
}

#[test]
fn manifest_version_is_read() {
    let m = PackageJsonUpgrader::new("package.json", &manifest()).unwrap();
    assert_eq!(m.current_version, SemanticVersion { major: 1, minor: 2, patch: 3 });
    assert_eq!(m.file_path, "package.json");
}

#[test]
fn manifest_without_version_line() {
    let r = PackageJsonUpgrader::new("p", &lines(&["{", "  \"name\": \"x\"", "}"]));
    assert_eq!(r.err(), Some(UpgradeError::FieldNotFound));
}

#[test]
fn descriptor_counter_is_read() {
    let v = SemanticVersion { major: 1, minor: 2, patch: 3 };
    let a = AndroidVersionUpgrader::new("build.gradle", &descriptor(), v).unwrap();
    assert_eq!(a.current_version_code, 7);
    assert_eq!(a.get_next_version_code(), Ok(8));
    assert_eq!(a.get_current_version_name(), "1.2.3");
    assert_eq!(a.get_next_version_name(&ReleaseTypes::MAJOR), Ok(String::from("2.0.0")));
}

#[test]
fn descriptor_without_counter() {
    let v = SemanticVersion { major: 1, minor: 2, patch: 3 };
    let r = AndroidVersionUpgrader::new("g", &lines(&["versionName \"1.2.3\""]), v);
    assert_eq!(r.err(), Some(UpgradeError::FieldNotFound));
}

#[test]
fn descriptor_counter_not_numeric() {
    let v = SemanticVersion { major: 1, minor: 2, patch: 3 };
    let r = AndroidVersionUpgrader::new("g", &lines(&["versionCode seven"]), v);
    assert_eq!(r.err(), Some(UpgradeError::Parse));
}

#[test]
fn descriptor_last_counter_line_wins() {
    let v = SemanticVersion { major: 1, minor: 2, patch: 3 };
    let a = AndroidVersionUpgrader::new("g", &lines(&["versionCode 3", "x", "versionCode 9"]), v).unwrap();
    assert_eq!(a.current_version_code, 9);
}

#[test]
fn counter_overflow_is_an_error() {
    let v = SemanticVersion { major: 1, minor: 2, patch: 3 };
    let a = AndroidVersionUpgrader::new("g", &lines(&["versionCode 18446744073709551615"]), v).unwrap();
    assert_eq!(a.get_next_version_code(), Err(UpgradeError::VersionOverflow));
    assert_eq!(a.upgrade(&ReleaseTypes::PATCH, &lines(&["versionCode 18446744073709551615"])), Err(UpgradeError::VersionOverflow));
}

fn end_to_end(release: ReleaseTypes) -> (Vec<String>, Vec<String>) {
    let m = PackageJsonUpgrader::new("package.json", &manifest()).unwrap();
    let a = AndroidVersionUpgrader::new("build.gradle", &descriptor(), m.current_version).unwrap();
    let new_descriptor = a.upgrade(&release, &descriptor()).unwrap();
    let new_manifest = m.upgrade(&release, &manifest()).unwrap();
    (new_manifest, new_descriptor)
}

#[test]
fn end_to_end_patch() {
    let (m, d) = end_to_end(ReleaseTypes::PATCH);
    assert_eq!(m[2], "  \"version\": \"1.2.4\",");
    assert_eq!(d[2], "        versionCode 8");
    assert_eq!(d[3], "        versionName \"1.2.4\"");
}

#[test]
fn end_to_end_minor() {
    let (m, d) = end_to_end(ReleaseTypes::MINOR);
    assert_eq!(m[2], "  \"version\": \"1.3.0\",");
    assert_eq!(d[2], "        versionCode 8");
    assert_eq!(d[3], "        versionName \"1.3.0\"");
}

#[test]
fn end_to_end_malformed_manifest() {
    let bad = lines(&["{", "  \"version\": \"1.2\",", "}"]);
    let r = PackageJsonUpgrader::new("package.json", &bad);
    assert_eq!(r.err(), Some(UpgradeError::MalformedVersion));
    assert_eq!(bad, lines(&["{", "  \"version\": \"1.2\",", "}"]));
}

#[test]
fn other_lines_are_kept() {
    let (m, d) = end_to_end(ReleaseTypes::MAJOR);
    let om = manifest();
    let od = descriptor();
    assert_eq!(m.len(), om.len());
    assert_eq!(d.len(), od.len());
    for i in [0, 1, 3, 4] {
        assert_eq!(m[i], om[i]);
    }
    for i in [0, 1, 4, 5, 6] {
        assert_eq!(d[i], od[i]);
    }
    assert_eq!(m[2], "  \"version\": \"2.0.0\",");
}

#[test]
fn upgraded_counter_reads_back() {
    let v = SemanticVersion { major: 1, minor: 2, patch: 3 };
    let a = AndroidVersionUpgrader::new("g", &descriptor(), v).unwrap();
    let next = a.get_next_version_code().unwrap();
    let out = a.upgrade(&ReleaseTypes::PATCH, &descriptor()).unwrap();
    let again = AndroidVersionUpgrader::new("g", &out, v).unwrap();
    assert_eq!(again.current_version_code, next);
}
