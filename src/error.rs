//! Failures of the version model and of the upgraders.
use vstd::prelude::*;

verus! {

/// Why reading or bumping a version failed.
#[derive(Clone, Copy, Debug, PartialEq, Eq, Structural)]
pub enum UpgradeError {
    /// The text is not three dot-separated non-negative integers.
    MalformedVersion,
    /// No line holds the watched field's marker.
    FieldNotFound,
    /// The watched field's value is not a number.
    Parse,
    /// The incremented component or counter does not fit.
    VersionOverflow,
}

} // verus!
