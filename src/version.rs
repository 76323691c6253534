//! The semantic version triple and its successor for each release class.
use vstd::prelude::*;

use crate::error::UpgradeError;
use crate::text::{
    chars_of, decimal, decimal_string, lemma_decimal_numeral, lemma_split_append,
    parse_u64, push_char, split_chars, split_on, u64_of_text,
};

verus! {

/// Which component a release increments.
#[derive(Clone, Copy, Debug, PartialEq, Eq, Structural)]
pub enum ReleaseTypes {
    MAJOR,
    MINOR,
    PATCH,
}

/// A `major.minor.patch` version.
#[derive(Clone, Copy, Debug, PartialEq, Eq, Structural)]
pub struct SemanticVersion {
    pub major: u64,
    pub minor: u64,
    pub patch: u64,
}

/// The three components joined by dots.
pub open spec fn version_text(v: SemanticVersion) -> Seq<char> {
    decimal(v.major as nat) + seq!['.'] + decimal(v.minor as nat) + seq!['.'] + decimal(
        v.patch as nat,
    )
}

/// The version a text spells: exactly three dot-separated numerals, each
/// within range.
pub open spec fn version_of_text(s: Seq<char>) -> Option<SemanticVersion> {
    let f = split_on(s, '.');
    if f.len() == 3 && u64_of_text(f[0]) is Some && u64_of_text(f[1]) is Some && u64_of_text(
        f[2],
    ) is Some {
        Some(
            SemanticVersion {
                major: u64_of_text(f[0])->0,
                minor: u64_of_text(f[1])->0,
                patch: u64_of_text(f[2])->0,
            },
        )
    } else {
        None
    }
}

/// The successor of `v` for a release class: the chosen component goes up by
/// one and every lower-order component resets to zero; `None` when the chosen
/// component is already at its largest value.
pub open spec fn next_of(v: SemanticVersion, release_type: ReleaseTypes) -> Option<SemanticVersion> {
    match release_type {
        ReleaseTypes::MAJOR => if v.major < u64::MAX {
            Some(SemanticVersion { major: (v.major + 1) as u64, minor: 0, patch: 0 })
        } else {
            None
        },
        ReleaseTypes::MINOR => if v.minor < u64::MAX {
            Some(SemanticVersion { major: v.major, minor: (v.minor + 1) as u64, patch: 0 })
        } else {
            None
        },
        ReleaseTypes::PATCH => if v.patch < u64::MAX {
            Some(SemanticVersion { major: v.major, minor: v.minor, patch: (v.patch + 1) as u64 })
        } else {
            None
        },
    }
}

/// Formatting a version and parsing the text back gives the same version.
pub proof fn lemma_round_trip(v: SemanticVersion)
    ensures
        version_of_text(version_text(v)) == Some(v),
{
    let a = decimal(v.major as nat);
    let b = decimal(v.minor as nat);
    let c = decimal(v.patch as nat);
    lemma_decimal_numeral(v.major as nat);
    lemma_decimal_numeral(v.minor as nat);
    lemma_decimal_numeral(v.patch as nat);
    let e = Seq::<char>::empty();
    lemma_split_append(e, a, '.');
    assert(e + a =~= a);
    assert(split_on(e, '.') =~= seq![e]);
    assert(split_on(a, '.') =~= seq![a]);
    let a1 = a + seq!['.'];
    assert(a1.drop_last() =~= a);
    assert(split_on(a1, '.') =~= seq![a, e]);
    lemma_split_append(a1, b, '.');
    assert(split_on(a1 + b, '.') =~= seq![a, b]);
    let b1 = a1 + b + seq!['.'];
    assert(b1.drop_last() =~= a1 + b);
    assert(split_on(b1, '.') =~= seq![a, b, e]);
    lemma_split_append(b1, c, '.');
    assert(split_on(b1 + c, '.') =~= seq![a, b, c]);
    assert(b1 + c =~= version_text(v));
}

impl SemanticVersion {
    /// Parses `major.minor.patch`; any other shape is `MalformedVersion`.
    pub fn from_string(version_string: &str) -> (r: Result<SemanticVersion, UpgradeError>)
        ensures
            r == match version_of_text(version_string@) {
                Some(v) => Ok(v),
                None => Err(UpgradeError::MalformedVersion),
            },
    {
        let chars = chars_of(version_string);
        let fields = split_chars(chars.as_slice(), '.');
        if fields.len() != 3 {
            return Err(UpgradeError::MalformedVersion);
        }
        let major = parse_u64(fields[0].as_slice());
        let minor = parse_u64(fields[1].as_slice());
        let patch = parse_u64(fields[2].as_slice());
        match (major, minor, patch) {
            (Some(major), Some(minor), Some(patch)) => Ok(SemanticVersion { major, minor, patch }),
            _ => Err(UpgradeError::MalformedVersion),
        }
    }

    /// Joins three component texts with dots.
    pub fn format_version_name(&self, vec: &[String; 3]) -> (r: String)
        ensures
            r@ == vec@[0]@ + seq!['.'] + vec@[1]@ + seq!['.'] + vec@[2]@,
    {
        let mut r = vec[0].clone();
        push_char(&mut r, '.');
        r.append(vec[1].as_str());
        push_char(&mut r, '.');
        r.append(vec[2].as_str());
        r
    }

    /// The version as `major.minor.patch`.
    pub fn to_string(&self) -> (r: String)
        ensures
            r@ == version_text(*self),
    {
        let parts = [
            decimal_string(self.major),
            decimal_string(self.minor),
            decimal_string(self.patch),
        ];
        self.format_version_name(&parts)
    }

    /// The successor for `release_type`; `VersionOverflow` when the chosen
    /// component cannot grow.
    pub fn next_version(&self, release_type: &ReleaseTypes) -> (r: Result<
        SemanticVersion,
        UpgradeError,
    >)
        ensures
            r == match next_of(*self, *release_type) {
                Some(v) => Ok(v),
                None => Err(UpgradeError::VersionOverflow),
            },
    {
        match release_type {
            ReleaseTypes::MAJOR => {
                if self.major == u64::MAX {
                    return Err(UpgradeError::VersionOverflow);
                }
                Ok(SemanticVersion { major: self.major + 1, minor: 0, patch: 0 })
            },
            ReleaseTypes::MINOR => {
                if self.minor == u64::MAX {
                    return Err(UpgradeError::VersionOverflow);
                }
                Ok(SemanticVersion { major: self.major, minor: self.minor + 1, patch: 0 })
            },
            ReleaseTypes::PATCH => {
                if self.patch == u64::MAX {
                    return Err(UpgradeError::VersionOverflow);
                }
                Ok(SemanticVersion { major: self.major, minor: self.minor, patch: self.patch + 1 })
            },
        }
    }
}

} // verus!
