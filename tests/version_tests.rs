use version_upgrader::error::UpgradeError;
use version_upgrader::version::{ReleaseTypes, SemanticVersion};

fn v(major: u64, minor: u64, patch: u64) -> SemanticVersion {
    SemanticVersion { major, minor, patch }
}

#[test]
fn parses_a_dotted_triple() {
    assert_eq!(SemanticVersion::from_string("1.2.3"), Ok(v(1, 2, 3)));
    assert_eq!(SemanticVersion::from_string("0.0.0"), Ok(v(0, 0, 0)));
    assert_eq!(SemanticVersion::from_string("10.20.300"), Ok(v(10, 20, 300)));
}

#[test]
fn rejects_two_fields() {
    assert_eq!(SemanticVersion::from_string("1.2"), Err(UpgradeError::MalformedVersion));
}

#[test]
fn rejects_four_fields() {
    assert_eq!(SemanticVersion::from_string("1.2.3.4"), Err(UpgradeError::MalformedVersion));
}

#[test]
fn rejects_non_numeric_and_empty_fields() {
    assert_eq!(SemanticVersion::from_string("1.x.3"), Err(UpgradeError::MalformedVersion));
    assert_eq!(SemanticVersion::from_string("1..3"), Err(UpgradeError::MalformedVersion));
    assert_eq!(SemanticVersion::from_string(""), Err(UpgradeError::MalformedVersion));
    assert_eq!(SemanticVersion::from_string("-1.2.3"), Err(UpgradeError::MalformedVersion));
    assert_eq!(SemanticVersion::from_string("1.2.3 "), Err(UpgradeError::MalformedVersion));
}

#[test]
fn rejects_out_of_range_field() {
    assert_eq!(
        SemanticVersion::from_string("18446744073709551616.0.0"),
        Err(UpgradeError::MalformedVersion)
    );
    assert_eq!(
        SemanticVersion::from_string("18446744073709551615.0.0"),
        Ok(v(u64::MAX, 0, 0))
    );
}

#[test]
fn formats_with_dots() {
    assert_eq!(v(1, 2, 3).to_string(), "1.2.3");
    assert_eq!(v(0, 10, 255).to_string(), "0.10.255");
    assert_eq!(v(u64::MAX, 0, 7).to_string(), "18446744073709551615.0.7");
}

#[test]
fn format_version_name_joins_three_parts() {
    let parts = [String::from("4"), String::from("05"), String::from("x")];
    assert_eq!(v(0, 0, 0).format_version_name(&parts), "4.05.x");
}

#[test]
fn round_trip_on_values() {
    for t in [v(0, 0, 0), v(1, 2, 3), v(255, 255, 255), v(u64::MAX, 9, 10)] {
        assert_eq!(SemanticVersion::from_string(&t.to_string()), Ok(t));
    }
}

#[test]
fn successor_resets_lower_components() {
    let base = v(1, 9, 9);
    assert_eq!(base.next_version(&ReleaseTypes::MINOR).unwrap().to_string(), "1.10.0");
    assert_eq!(base.next_version(&ReleaseTypes::MAJOR).unwrap().to_string(), "2.0.0");
    assert_eq!(base.next_version(&ReleaseTypes::PATCH).unwrap().to_string(), "1.9.10");
}

#[test]
fn successor_leaves_receiver_unchanged() {
    let base = v(1, 2, 3);
    let _ = base.next_version(&ReleaseTypes::MAJOR);
    assert_eq!(base, v(1, 2, 3));
}

#[test]
fn successor_overflow_is_an_error() {
    assert_eq!(
        v(u64::MAX, 1, 1).next_version(&ReleaseTypes::MAJOR),
        Err(UpgradeError::VersionOverflow)
    );
    assert_eq!(
        v(1, u64::MAX, 1).next_version(&ReleaseTypes::MINOR),
        Err(UpgradeError::VersionOverflow)
    );
    assert_eq!(
        v(1, 1, u64::MAX).next_version(&ReleaseTypes::PATCH),
        Err(UpgradeError::VersionOverflow)
    );
    assert_eq!(
        v(1, u64::MAX, u64::MAX).next_version(&ReleaseTypes::MAJOR),
        Ok(v(2, 0, 0))
    );
}
