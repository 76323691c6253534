//! Line rewriting shared by both upgraders: literal-substring rules applied to
//! each line that holds a rule's marker, every other line kept as it is.
use vstd::prelude::*;

use crate::text::{chars_of, contains_chars, contains_text, replace_all, replace_chars, string_of};

verus! {

/// On a line that contains `marker`, replace each occurrence of `from` by `to`.
pub struct LineRule {
    pub marker: Vec<char>,
    pub from: Vec<char>,
    pub to: Vec<char>,
}

/// The texts of a sequence of strings.
pub open spec fn texts(lines: Seq<String>) -> Seq<Seq<char>> {
    lines.map_values(|l: String| l@)
}

/// The rules a patcher may be given: each replaces a non-empty text.
pub open spec fn rules_wf(rules: Seq<LineRule>) -> bool {
    forall|k: int| 0 <= k < rules.len() ==> (#[trigger] rules[k]).from@.len() > 0
}

/// A line after rewriting: the last rule whose marker the line contains
/// applies; a line that holds no marker is unchanged.
pub open spec fn apply_rules(l: Seq<char>, rules: Seq<LineRule>) -> Seq<char>
    decreases rules.len(),
{
    if rules.len() == 0 {
        l
    } else if contains_text(l, rules.last().marker@) {
        replace_all(l, rules.last().from@, rules.last().to@)
    } else {
        apply_rules(l, rules.drop_last())
    }
}

/// The last line that contains `marker`, if any.
pub open spec fn last_marked(lines: Seq<Seq<char>>, marker: Seq<char>) -> Option<Seq<char>>
    decreases lines.len(),
{
    if lines.len() == 0 {
        None
    } else if contains_text(lines.last(), marker) {
        Some(lines.last())
    } else {
        last_marked(lines.drop_last(), marker)
    }
}

/// A line that holds no rule's marker is left as it is.
pub proof fn lemma_unmarked_line_kept(l: Seq<char>, rules: Seq<LineRule>)
    requires
        forall|k: int| 0 <= k < rules.len() ==> !contains_text(l, (#[trigger] rules[k]).marker@),
    ensures
        apply_rules(l, rules) == l,
    decreases rules.len(),
{
    if rules.len() > 0 {
        assert(!contains_text(l, rules[rules.len() - 1].marker@));
        assert forall|k: int| 0 <= k < rules.drop_last().len() implies !contains_text(
            l,
            (#[trigger] rules.drop_last()[k]).marker@,
        ) by {
            assert(rules.drop_last()[k] == rules[k]);
        }
        lemma_unmarked_line_kept(l, rules.drop_last());
    }
}

/// Applies the rules to one line.
pub fn rewrite_line(line: &[char], rules: &Vec<LineRule>) -> (r: Vec<char>)
    requires
        rules_wf(rules@),
    ensures
        r@ == apply_rules(line@, rules@),
{
    let mut k: usize = rules.len();
    assert(rules@.take(k as int) =~= rules@);
    while k > 0
        invariant
            k <= rules@.len(),
            rules_wf(rules@),
            apply_rules(line@, rules@) == apply_rules(line@, rules@.take(k as int)),
        decreases k,
    {
        let rule = &rules[k - 1];
        assert(rules@.take(k as int).drop_last() =~= rules@.take(k - 1));
        assert(rules@.take(k as int).last() == rules@[k - 1]);
        if contains_chars(line, rule.marker.as_slice()) {
            assert(rule.from@.len() > 0);
            return replace_chars(line, rule.from.as_slice(), rule.to.as_slice());
        }
        k = k - 1;
    }
    let mut r: Vec<char> = Vec::new();
    let mut i: usize = 0;
    while i < line.len()
        invariant
            i <= line@.len(),
            r@ == line@.take(i as int),
        decreases line.len() - i,
    {
        r.push(line[i]);
        i = i + 1;
        assert(r@ =~= line@.take(i as int));
    }
    assert(line@.take(i as int) =~= line@);
    r
}

/// Rewrites every line by the rules, keeping the number and order of lines.
pub fn patch_lines(lines: &Vec<String>, rules: &Vec<LineRule>) -> (r: Vec<String>)
    requires
        rules_wf(rules@),
    ensures
        r@.len() == lines@.len(),
        forall|i: int| 0 <= i < lines@.len() ==> (#[trigger] r@[i])@ == apply_rules(lines@[i]@, rules@),
{
    let mut out: Vec<String> = Vec::new();
    let mut i: usize = 0;
    while i < lines.len()
        invariant
            i <= lines@.len(),
            rules_wf(rules@),
            out@.len() == i,
            forall|j: int| 0 <= j < i ==> (#[trigger] out@[j])@ == apply_rules(lines@[j]@, rules@),
        decreases lines.len() - i,
    {
        let chars = chars_of(lines[i].as_str());
        let patched = rewrite_line(chars.as_slice(), rules);
        out.push(string_of(patched.as_slice()));
        i = i + 1;
    }
    out
}

/// The index of the last line that contains `marker`, if any.
pub fn find_last_marked(lines: &Vec<String>, marker: &[char]) -> (r: Option<usize>)
    ensures
        match r {
            Some(i) => i < lines@.len() && last_marked(texts(lines@), marker@) == Some(lines@[i as int]@),
            None => last_marked(texts(lines@), marker@) is None,
        },
{
    let mut i: usize = lines.len();
    assert(texts(lines@).take(i as int) =~= texts(lines@));
    while i > 0
        invariant
            i <= lines@.len(),
            last_marked(texts(lines@), marker@) == last_marked(texts(lines@).take(i as int), marker@),
        decreases i,
    {
        let chars = chars_of(lines[i - 1].as_str());
        assert(texts(lines@).take(i as int).drop_last() =~= texts(lines@).take(i - 1));
        assert(texts(lines@).take(i as int).last() == lines@[i - 1]@);
        if contains_chars(chars.as_slice(), marker) {
            return Some(i - 1);
        }
        i = i - 1;
    }
    None
}

} // verus!
