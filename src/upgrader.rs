//! The build-descriptor and manifest upgraders: read the current values out of
//! a file's lines, and produce the file's lines for the next release.
use vstd::prelude::*;

use crate::error::UpgradeError;
use crate::patcher::{
    apply_rules, find_last_marked, last_marked, patch_lines, rules_wf,
    texts, LineRule,
};
use crate::text::{
    chars_of, contains_text, decimal, decimal_string, last_token, last_token_chars,
    lemma_decimal_numeral, parse_u64, replace_all, replace_chars, u64_of_text,
};
use crate::version::{next_of, version_of_text, version_text, ReleaseTypes, SemanticVersion};

verus! {

/// Marks the descriptor line that holds the version name.
pub open spec fn name_marker() -> Seq<char> {
    "versionName"@
}

/// Marks the descriptor line that holds the build counter.
pub open spec fn code_marker() -> Seq<char> {
    "versionCode "@
}

/// Marks the manifest line that holds the version.
pub open spec fn manifest_marker() -> Seq<char> {
    "\"version\""@
}

/// The build counter of a descriptor: the last token of the last line that
/// holds the counter marker.
pub open spec fn build_counter_of(lines: Seq<Seq<char>>) -> Result<u64, UpgradeError> {
    match last_marked(lines, code_marker()) {
        None => Err(UpgradeError::FieldNotFound),
        Some(l) => match u64_of_text(last_token(l)) {
            Some(n) => Ok(n),
            None => Err(UpgradeError::Parse),
        },
    }
}

/// The value on a manifest's version line: its last token once quotes and
/// commas are removed.
pub open spec fn manifest_value(l: Seq<char>) -> Seq<char> {
    last_token(replace_all(replace_all(l, seq!['"'], Seq::empty()), seq![','], Seq::empty()))
}

/// The version that a manifest holds.
pub open spec fn manifest_version_of(lines: Seq<Seq<char>>) -> Result<SemanticVersion, UpgradeError> {
    match last_marked(lines, manifest_marker()) {
        None => Err(UpgradeError::FieldNotFound),
        Some(l) => match version_of_text(manifest_value(l)) {
            Some(v) => Ok(v),
            None => Err(UpgradeError::MalformedVersion),
        },
    }
}

/// A descriptor line after an upgrade: on the counter line the counter text is
/// replaced, on the version-name line the version text; other lines stay.
pub open spec fn descriptor_line(
    l: Seq<char>,
    cur_name: Seq<char>,
    next_name: Seq<char>,
    cur_code: Seq<char>,
    next_code: Seq<char>,
) -> Seq<char> {
    if contains_text(l, code_marker()) {
        replace_all(l, cur_code, next_code)
    } else if contains_text(l, name_marker()) {
        replace_all(l, cur_name, next_name)
    } else {
        l
    }
}

/// A manifest line after an upgrade: on the version line the version text is
/// replaced; other lines stay.
pub open spec fn manifest_line(l: Seq<char>, cur: Seq<char>, next: Seq<char>) -> Seq<char> {
    if contains_text(l, manifest_marker()) {
        replace_all(l, cur, next)
    } else {
        l
    }
}

/// An upgrade of the descriptor changes no line that holds neither marker.
pub proof fn lemma_descriptor_keeps_other_lines(
    l: Seq<char>,
    cur_name: Seq<char>,
    next_name: Seq<char>,
    cur_code: Seq<char>,
    next_code: Seq<char>,
)
    requires
        !contains_text(l, code_marker()),
        !contains_text(l, name_marker()),
    ensures
        descriptor_line(l, cur_name, next_name, cur_code, next_code) == l,
{
}

/// An upgrade of the manifest changes no line that lacks the version marker.
pub proof fn lemma_manifest_keeps_other_lines(l: Seq<char>, cur: Seq<char>, next: Seq<char>)
    requires
        !contains_text(l, manifest_marker()),
    ensures
        manifest_line(l, cur, next) == l,
{
}

fn rule(marker: &str, from: &str, to: &str) -> (r: LineRule)
    ensures
        r.marker@ == marker@,
        r.from@ == from@,
        r.to@ == to@,
{
    LineRule { marker: chars_of(marker), from: chars_of(from), to: chars_of(to) }
}

/// Keeps the path and counter of a build descriptor and the current version.
pub struct AndroidVersionUpgrader {
    pub file_path: String,
    pub current_version_code: u64,
    pub current_version: SemanticVersion,
}

impl AndroidVersionUpgrader {
    /// Reads the build counter out of the descriptor's lines.
    pub fn new(gradle_path: &str, lines: &Vec<String>, current_version: SemanticVersion) -> (r:
        Result<AndroidVersionUpgrader, UpgradeError>)
        ensures
            match build_counter_of(texts(lines@)) {
                Ok(n) => r is Ok && r->Ok_0.file_path@ == gradle_path@
                    && r->Ok_0.current_version_code == n && r->Ok_0.current_version
                    == current_version,
                Err(e) => r is Err && r->Err_0 == e,
            },
    {
        proof {
            reveal_strlit("versionCode ");
        }
        let marker = chars_of("versionCode ");
        match find_last_marked(lines, marker.as_slice()) {
            None => Err(UpgradeError::FieldNotFound),
            Some(i) => {
                let line = chars_of(lines[i].as_str());
                let token = last_token_chars(line.as_slice());
                match parse_u64(token.as_slice()) {
                    None => Err(UpgradeError::Parse),
                    Some(n) => Ok(
                        AndroidVersionUpgrader {
                            file_path: String::from_str(gradle_path),
                            current_version_code: n,
                            current_version,
                        },
                    ),
                }
            },
        }
    }

    /// The counter after this upgrade: one more than the current one.
    pub fn get_next_version_code(&self) -> (r: Result<u64, UpgradeError>)
        ensures
            self.current_version_code < u64::MAX ==> r == Ok::<u64, UpgradeError>(
                (self.current_version_code + 1) as u64,
            ),
            self.current_version_code == u64::MAX ==> r == Err::<u64, UpgradeError>(
                UpgradeError::VersionOverflow,
            ),
    {
        if self.current_version_code == u64::MAX {
            Err(UpgradeError::VersionOverflow)
        } else {
            Ok(self.current_version_code + 1)
        }
    }

    /// The current version as text.
    pub fn get_current_version_name(&self) -> (r: String)
        ensures
            r@ == version_text(self.current_version),
    {
        self.current_version.to_string()
    }

    /// The next version for `release_type` as text.
    pub fn get_next_version_name(&self, release_type: &ReleaseTypes) -> (r: Result<String, UpgradeError>)
        ensures
            match next_of(self.current_version, *release_type) {
                Some(w) => r is Ok && r->Ok_0@ == version_text(w),
                None => r is Err && r->Err_0 == UpgradeError::VersionOverflow,
            },
    {
        match self.current_version.next_version(release_type) {
            Ok(w) => Ok(w.to_string()),
            Err(e) => Err(e),
        }
    }

    /// The descriptor's lines for the next release: the version name and the
    /// counter replaced on their lines, every other line unchanged. The
    /// upgrader is used up.
    pub fn upgrade(self, release_type: &ReleaseTypes, lines: &Vec<String>) -> (r: Result<
        Vec<String>,
        UpgradeError,
    >)
        ensures
            match next_of(self.current_version, *release_type) {
                Some(w) => if self.current_version_code < u64::MAX {
                    r is Ok && r->Ok_0@.len() == lines@.len() && forall|i: int|
                        0 <= i < lines@.len() ==> (#[trigger] r->Ok_0@[i])@ == descriptor_line(
                            lines@[i]@,
                            version_text(self.current_version),
                            version_text(w),
                            decimal(self.current_version_code as nat),
                            decimal((self.current_version_code + 1) as nat),
                        )
                } else {
                    r is Err && r->Err_0 == UpgradeError::VersionOverflow
                },
                None => r is Err && r->Err_0 == UpgradeError::VersionOverflow,
            },
    {
        let next_name = match self.get_next_version_name(release_type) {
            Ok(s) => s,
            Err(e) => return Err(e),
        };
        let next_code = match self.get_next_version_code() {
            Ok(n) => n,
            Err(e) => return Err(e),
        };
        let cur_name = self.get_current_version_name();
        let cur_code = decimal_string(self.current_version_code);
        let next_code_text = decimal_string(next_code);
        proof {
            reveal_strlit("versionName");
            reveal_strlit("versionCode ");
            lemma_decimal_numeral(self.current_version_code as nat);
        }
        let mut rules: Vec<LineRule> = Vec::new();
        rules.push(rule("versionName", cur_name.as_str(), next_name.as_str()));
        rules.push(rule("versionCode ", cur_code.as_str(), next_code_text.as_str()));
        proof {
            let v = version_text(self.current_version);
            assert(v.len() > 0);
            assert(rules_wf(rules@));
            assert forall|l: Seq<char>| #[trigger] apply_rules(l, rules@) == descriptor_line(
                l,
                version_text(self.current_version),
                next_name@,
                cur_code@,
                next_code_text@,
            ) by {
                reveal_with_fuel(apply_rules, 3);
                assert(rules@.drop_last().drop_last() =~= Seq::<LineRule>::empty());
                assert(rules@.drop_last().last() == rules@[0]);
            }
        }
        Ok(patch_lines(lines, &rules))
    }
}

/// Keeps the path of a package manifest and the version it holds.
pub struct PackageJsonUpgrader {
    pub file_path: String,
    pub current_version: SemanticVersion,
}

impl PackageJsonUpgrader {
    /// Reads the version out of the manifest's lines.
    pub fn new(package_path: &str, lines: &Vec<String>) -> (r: Result<PackageJsonUpgrader, UpgradeError>)
        ensures
            match manifest_version_of(texts(lines@)) {
                Ok(v) => r is Ok && r->Ok_0.file_path@ == package_path@
                    && r->Ok_0.current_version == v,
                Err(e) => r is Err && r->Err_0 == e,
            },
    {
        proof {
            reveal_strlit("\"version\"");
            reveal_strlit("\"");
            reveal_strlit(",");
            reveal_strlit("");
        }
        let marker = chars_of("\"version\"");
        match find_last_marked(lines, marker.as_slice()) {
            None => Err(UpgradeError::FieldNotFound),
            Some(i) => {
                let line = chars_of(lines[i].as_str());
                let quote = chars_of("\"");
                let comma = chars_of(",");
                let nothing = chars_of("");
                assert(quote@ =~= seq!['"']);
                assert(comma@ =~= seq![',']);
                assert(nothing@ =~= Seq::<char>::empty());
                let unquoted = replace_chars(line.as_slice(), quote.as_slice(), nothing.as_slice());
                let bare = replace_chars(unquoted.as_slice(), comma.as_slice(), nothing.as_slice());
                let token = last_token_chars(bare.as_slice());
                let text = crate::text::string_of(token.as_slice());
                match SemanticVersion::from_string(text.as_str()) {
                    Err(e) => Err(e),
                    Ok(v) => Ok(
                        PackageJsonUpgrader { file_path: String::from_str(package_path), current_version: v },
                    ),
                }
            },
        }
    }

    /// The manifest's lines for the next release: the version text replaced on
    /// the version line, every other line unchanged. The upgrader is used up.
    pub fn upgrade(self, release_type: &ReleaseTypes, lines: &Vec<String>) -> (r: Result<
        Vec<String>,
        UpgradeError,
    >)
        ensures
            match next_of(self.current_version, *release_type) {
                Some(w) => r is Ok && r->Ok_0@.len() == lines@.len() && forall|i: int|
                    0 <= i < lines@.len() ==> (#[trigger] r->Ok_0@[i])@ == manifest_line(
                        lines@[i]@,
                        version_text(self.current_version),
                        version_text(w),
                    ),
                None => r is Err && r->Err_0 == UpgradeError::VersionOverflow,
            },
    {
        let next = match self.current_version.next_version(release_type) {
            Ok(w) => w,
            Err(e) => return Err(e),
        };
        let cur_name = self.current_version.to_string();
        let next_name = next.to_string();
        proof {
            reveal_strlit("\"version\"");
        }
        let mut rules: Vec<LineRule> = Vec::new();
        rules.push(rule("\"version\"", cur_name.as_str(), next_name.as_str()));
        proof {
            assert(version_text(self.current_version).len() > 0);
            assert(rules_wf(rules@));
            assert forall|l: Seq<char>| #[trigger] apply_rules(l, rules@) == manifest_line(
                l,
                cur_name@,
                next_name@,
            ) by {
                reveal_with_fuel(apply_rules, 2);
                assert(rules@.drop_last() =~= Seq::<LineRule>::empty());
            }
        }
        Ok(patch_lines(lines, &rules))
    }
}

} // verus!
