//! Reading the build counter back out of an upgraded descriptor.
use vstd::prelude::*;

use crate::patcher::last_marked;
use crate::text::{
    decimal, digit_char, digit_value, is_digit, is_numeral, is_space, last_token,
    lemma_decimal_numeral, numeral_value, occurs_at, contains_text, replace_all, trailing_word,
    trim_end, u64_of_text,
};
use crate::error::UpgradeError;
use crate::upgrader::{build_counter_of, code_marker, descriptor_line};
use crate::version::{version_text, SemanticVersion};

verus! {

/// No character of `a` occurs in `b`.
pub open spec fn chars_apart(a: Seq<char>, b: Seq<char>) -> bool {
    forall|i: int, j: int| 0 <= i < a.len() && 0 <= j < b.len() ==> a[i] != b[j]
}

pub open spec fn all_spaces(s: Seq<char>) -> bool {
    forall|i: int| 0 <= i < s.len() ==> is_space(#[trigger] s[i])
}

pub open spec fn all_zeros(s: Seq<char>) -> bool {
    forall|i: int| 0 <= i < s.len() ==> #[trigger] s[i] == '0'
}

proof fn lemma_occurs_shift(x: Seq<char>, y: Seq<char>, p: Seq<char>, i: int)
    requires
        0 <= i,
    ensures
        occurs_at(x + y, p, x.len() + i) == occurs_at(y, p, i),
{
    if 0 <= i && i + p.len() <= y.len() {
        assert((x + y).subrange(x.len() + i, x.len() + i + p.len()) =~= y.subrange(i, i + p.len()));
    }
}

/// Replacing in a text that has no occurrence leaves it unchanged.
proof fn lemma_replace_absent(s: Seq<char>, f: Seq<char>, t: Seq<char>)
    requires
        f.len() > 0,
        forall|i: int| !occurs_at(s, f, i),
    ensures
        replace_all(s, f, t) == s,
    decreases s.len(),
{
    if s.len() > 0 {
        assert(!occurs_at(s, f, 0));
        let s1 = s.skip(1);
        assert forall|i: int| !occurs_at(s1, f, i) by {
            assert(s =~= seq![s[0]] + s1);
            if i >= 0 {
                lemma_occurs_shift(seq![s[0]], s1, f, i);
            }
        }
        lemma_replace_absent(s1, f, t);
        assert(seq![s[0]] + s1 =~= s);
    }
}

/// Replacing distributes over a concatenation that no occurrence straddles.
proof fn lemma_replace_concat(x: Seq<char>, y: Seq<char>, f: Seq<char>, t: Seq<char>)
    requires
        f.len() > 0,
        forall|i: int| 0 <= i < x.len() && i + f.len() > x.len() ==> !occurs_at(x + y, f, i),
    ensures
        replace_all(x + y, f, t) == replace_all(x, f, t) + replace_all(y, f, t),
    decreases x.len(),
{
    if x.len() == 0 {
        assert(x + y =~= y);
        assert(replace_all(x, f, t) + replace_all(y, f, t) =~= replace_all(y, f, t));
    } else {
        let k: int = if occurs_at(x + y, f, 0) { f.len() as int } else { 1 };
        if occurs_at(x + y, f, 0) {
            assert(x.subrange(0, f.len() as int) =~= (x + y).subrange(0, f.len() as int));
            assert(occurs_at(x, f, 0));
        } else {
            if occurs_at(x, f, 0) {
                assert(x.subrange(0, f.len() as int) =~= (x + y).subrange(0, f.len() as int));
            }
        }
        let xs = x.skip(k);
        assert((x + y).skip(k) =~= xs + y);
        assert forall|i: int| 0 <= i < xs.len() && i + f.len() > xs.len() implies !occurs_at(
            xs + y,
            f,
            i,
        ) by {
            let pre = x.take(k);
            assert(x + y =~= pre + (xs + y));
            lemma_occurs_shift(pre, xs + y, f, i);
        }
        lemma_replace_concat(xs, y, f, t);
        if occurs_at(x + y, f, 0) {
            assert(replace_all(x + y, f, t) =~= t + replace_all(xs + y, f, t));
        } else {
            assert(replace_all(x + y, f, t) =~= seq![x[0]] + replace_all(xs + y, f, t));
        }
    }
}

/// With `p` apart from `f` and `t`, a text begins with `p` after replacing
/// exactly when it did before.
proof fn lemma_replace_prefix(s: Seq<char>, p: Seq<char>, f: Seq<char>, t: Seq<char>)
    requires
        f.len() > 0,
        t.len() > 0,
        chars_apart(p, f),
        chars_apart(p, t),
    ensures
        occurs_at(replace_all(s, f, t), p, 0) == occurs_at(s, p, 0),
    decreases s.len(),
{
    let r = replace_all(s, f, t);
    if p.len() == 0 {
        assert(r.subrange(0, 0) =~= p);
        assert(s.subrange(0, 0) =~= p);
    } else if s.len() == 0 {
    } else if occurs_at(s, f, 0) {
        assert(s[0] == s.subrange(0, f.len() as int)[0]);
        if occurs_at(s, p, 0) {
            assert(s[0] == s.subrange(0, p.len() as int)[0]);
        }
        assert(r == t + replace_all(s.skip(f.len() as int), f, t));
        if occurs_at(r, p, 0) {
            assert(r[0] == r.subrange(0, p.len() as int)[0]);
            assert(r[0] == t[0]);
        }
    } else {
        let s1 = s.skip(1);
        let r1 = replace_all(s1, f, t);
        let p_rest = p.skip(1);
        assert(r =~= seq![s[0]] + r1);
        assert(chars_apart(p_rest, f) && chars_apart(p_rest, t)) by {
            assert forall|i: int, j: int| 0 <= i < p_rest.len() && 0 <= j < f.len() implies p_rest[i] != f[j] by {
                assert(p_rest[i] == p[i + 1]);
            }
            assert forall|i: int, j: int| 0 <= i < p_rest.len() && 0 <= j < t.len() implies p_rest[i] != t[j] by {
                assert(p_rest[i] == p[i + 1]);
            }
        }
        lemma_replace_prefix(s1, p_rest, f, t);
        assert(p =~= seq![p[0]] + p_rest);
        if occurs_at(r, p, 0) {
            assert(r1.subrange(0, p_rest.len() as int) =~= r.subrange(0, p.len() as int).skip(1));
            assert(r1.subrange(0, p_rest.len() as int) =~= p_rest);
            assert(occurs_at(r1, p_rest, 0));
            assert(r[0] == r.subrange(0, p.len() as int)[0]);
            assert(s.subrange(0, p.len() as int) =~= seq![s[0]] + s1.subrange(0, p_rest.len() as int));
        }
        if occurs_at(s, p, 0) {
            assert(s1.subrange(0, p_rest.len() as int) =~= s.subrange(0, p.len() as int).skip(1));
            assert(s[0] == s.subrange(0, p.len() as int)[0]);
            assert(occurs_at(s1, p_rest, 0));
            assert(r.subrange(0, p.len() as int) =~= seq![s[0]] + r1.subrange(0, p_rest.len() as int));
        }
    }
}

/// With a non-empty `m` apart from `f` and `t`, replacing neither creates nor
/// destroys an occurrence of `m`.
proof fn lemma_replace_keeps_marker(s: Seq<char>, m: Seq<char>, f: Seq<char>, t: Seq<char>)
    requires
        f.len() > 0,
        t.len() > 0,
        m.len() > 0,
        chars_apart(m, f),
        chars_apart(m, t),
    ensures
        contains_text(replace_all(s, f, t), m) == contains_text(s, m),
    decreases s.len(),
{
    let r = replace_all(s, f, t);
    if s.len() == 0 {
        if contains_text(r, m) {
            let i = choose|i: int| occurs_at(r, m, i);
        }
    } else {
        let k: int = if occurs_at(s, f, 0) { f.len() as int } else { 1 };
        let head = if occurs_at(s, f, 0) { t } else { seq![s[0]] };
        let s1 = s.skip(k);
        let r1 = replace_all(s1, f, t);
        lemma_replace_keeps_marker(s1, m, f, t);
        assert(r =~= head + r1);
        assert(s =~= s.take(k) + s1);
        // occurrences in the tail carry over both ways
        if contains_text(r1, m) {
            let i = choose|i: int| occurs_at(r1, m, i);
            lemma_occurs_shift(head, r1, m, i);
        }
        if contains_text(s1, m) {
            let i = choose|i: int| occurs_at(s1, m, i);
            lemma_occurs_shift(s.take(k), s1, m, i);
        }
        if contains_text(r, m) && !contains_text(r1, m) {
            let i = choose|i: int| occurs_at(r, m, i);
            if i >= head.len() {
                lemma_occurs_shift(head, r1, m, i - head.len());
            } else if occurs_at(s, f, 0) {
                assert(r[i] == r.subrange(i, i + m.len())[0]);
                assert(r[i] == t[i]);
            } else {
                lemma_replace_prefix(s, m, f, t);
                assert(occurs_at(s, m, 0));
            }
        }
        if contains_text(s, m) && !contains_text(s1, m) {
            let i = choose|i: int| occurs_at(s, m, i);
            if i >= k {
                lemma_occurs_shift(s.take(k), s1, m, i - k);
            } else if occurs_at(s, f, 0) {
                assert(s[i] == s.subrange(i, i + m.len())[0]);
                assert(s[i] == s.subrange(0, f.len() as int)[i]);
            } else {
                lemma_replace_prefix(s, m, f, t);
                assert(occurs_at(r, m, 0));
            }
        }
    }
}

proof fn lemma_trim_split(l: Seq<char>) -> (w: Seq<char>)
    ensures
        l == trim_end(l) + w,
        all_spaces(w),
        trim_end(l).len() == 0 || !is_space(trim_end(l).last()),
    decreases l.len(),
{
    if l.len() > 0 && is_space(l.last()) {
        let w0 = lemma_trim_split(l.drop_last());
        let w = w0.push(l.last());
        assert(trim_end(l) == trim_end(l.drop_last()));
        assert(l =~= l.drop_last().push(l.last()));
        assert(l =~= trim_end(l) + w);
        w
    } else {
        assert(l =~= l + Seq::<char>::empty());
        Seq::empty()
    }
}

proof fn lemma_word_split(s: Seq<char>) -> (a: Seq<char>)
    ensures
        s == a + trailing_word(s),
        a.len() == 0 || is_space(a.last()),
        forall|i: int| 0 <= i < trailing_word(s).len() ==> !is_space(#[trigger] trailing_word(s)[i]),
    decreases s.len(),
{
    if s.len() > 0 && !is_space(s.last()) {
        let a = lemma_word_split(s.drop_last());
        let tw = trailing_word(s);
        assert(tw == trailing_word(s.drop_last()).push(s.last()));
        assert(s =~= s.drop_last().push(s.last()));
        assert(s =~= a + tw);
        assert forall|i: int| 0 <= i < tw.len() implies !is_space(#[trigger] tw[i]) by {
            if i < tw.len() - 1 {
                assert(tw[i] == trailing_word(s.drop_last())[i]);
            }
        }
        a
    } else {
        assert(s =~= s + Seq::<char>::empty());
        s
    }
}

proof fn lemma_trim_spaces(x: Seq<char>, w: Seq<char>)
    requires
        x.len() == 0 || !is_space(x.last()),
        all_spaces(w),
    ensures
        trim_end(x + w) == x,
    decreases w.len(),
{
    if w.len() == 0 {
        assert(x + w =~= x);
    } else {
        assert((x + w).drop_last() =~= x + w.drop_last());
        assert((x + w).last() == w[w.len() - 1]);
        lemma_trim_spaces(x, w.drop_last());
    }
}

proof fn lemma_word_after(b: Seq<char>, tok: Seq<char>)
    requires
        b.len() == 0 || is_space(b.last()),
        forall|i: int| 0 <= i < tok.len() ==> !is_space(#[trigger] tok[i]),
    ensures
        trailing_word(b + tok) == tok,
    decreases tok.len(),
{
    if tok.len() == 0 {
        assert(b + tok =~= b);
    } else {
        assert((b + tok).drop_last() =~= b + tok.drop_last());
        assert((b + tok).last() == tok[tok.len() - 1]);
        lemma_word_after(b, tok.drop_last());
        assert(tok.drop_last().push(tok.last()) =~= tok);
    }
}

proof fn lemma_digit_round(c: char)
    requires
        is_digit(c),
    ensures
        digit_value(c) < 10,
        digit_char(digit_value(c)) == c,
{
}

proof fn lemma_zeros_value(z: Seq<char>)
    requires
        all_zeros(z),
    ensures
        numeral_value(z) == 0,
    decreases z.len(),
{
    if z.len() > 0 {
        lemma_zeros_value(z.drop_last());
        assert(z.last() == z[z.len() - 1]);
    }
}

proof fn lemma_zeros_prefix(z: Seq<char>, x: Seq<char>)
    requires
        all_zeros(z),
    ensures
        numeral_value(z + x) == numeral_value(x),
    decreases x.len(),
{
    if x.len() == 0 {
        assert(z + x =~= z);
        lemma_zeros_value(z);
    } else {
        assert((z + x).drop_last() =~= z + x.drop_last());
        assert((z + x).last() == x.last());
        lemma_zeros_prefix(z, x.drop_last());
    }
}

/// A numeral is its value's decimal spelling after some leading zeros.
proof fn lemma_numeral_zeros(t: Seq<char>) -> (z: Seq<char>)
    requires
        is_numeral(t),
    ensures
        t == z + decimal(numeral_value(t)),
        all_zeros(z),
    decreases t.len(),
{
    let d = t.last();
    assert(is_digit(t[t.len() - 1]));
    lemma_digit_round(d);
    let t0 = t.drop_last();
    let n = numeral_value(t);
    if t0.len() == 0 {
        assert(numeral_value(t0) == 0);
        assert(n == digit_value(d));
        assert(t =~= Seq::<char>::empty() + decimal(n));
        Seq::empty()
    } else {
        assert(is_numeral(t0)) by {
            assert forall|i: int| 0 <= i < t0.len() implies is_digit(#[trigger] t0[i]) by {
                assert(t0[i] == t[i]);
            }
        }
        let z0 = lemma_numeral_zeros(t0);
        let v0 = numeral_value(t0);
        assert(n == v0 * 10 + digit_value(d));
        if v0 == 0 {
            let z = t0;
            assert forall|i: int| 0 <= i < z.len() implies #[trigger] z[i] == '0' by {
                if i < z0.len() {
                    assert(z[i] == z0[i]);
                } else {
                    assert(z[i] == decimal(0)[i - z0.len()]);
                }
            }
            assert(t =~= z + decimal(n));
            z
        } else {
            assert(n / 10 == v0 && n % 10 == digit_value(d)) by (nonlinear_arith)
                requires
                    n == v0 * 10 + digit_value(d),
                    digit_value(d) < 10,
            ;
            assert(decimal(n) == decimal(v0).push(d));
            assert(t =~= t0.push(d));
            assert((z0 + decimal(v0)).push(d) =~= z0 + decimal(v0).push(d));
            assert(t =~= z0 + decimal(n));
            z0
        }
    }
}

proof fn lemma_decimal_first(n: nat)
    requires
        n > 0,
    ensures
        decimal(n)[0] != '0',
    decreases n,
{
    if n >= 10 {
        lemma_decimal_first(n / 10);
        lemma_decimal_numeral(n / 10);
        assert(decimal(n)[0] == decimal(n / 10)[0]);
    }
}

proof fn lemma_replace_whole(f: Seq<char>, t: Seq<char>)
    requires
        f.len() > 0,
    ensures
        replace_all(f, f, t) == t,
{
    assert(f.subrange(0, f.len() as int) =~= f);
    assert(occurs_at(f, f, 0));
    assert(f.skip(f.len() as int) =~= Seq::<char>::empty());
    assert(replace_all(Seq::<char>::empty(), f, t) == Seq::<char>::empty());
    assert(replace_all(f, f, t) == t + replace_all(f.skip(f.len() as int), f, t));
    assert(t + Seq::<char>::empty() =~= t);
}

/// Rewriting the counter's line `l` from `n` to `n + 1` leaves `n + 1` as the
/// value of its last token.
proof fn lemma_counter_line(l: Seq<char>, n: u64)
    requires
        u64_of_text(last_token(l)) == Some(n),
        n < u64::MAX,
        n == 0 ==> last_token(l).len() == 1,
    ensures
        u64_of_text(last_token(replace_all(l, decimal(n as nat), decimal((n + 1) as nat))))
            == Some((n + 1) as u64),
{
    let f = decimal(n as nat);
    let t = decimal((n + 1) as nat);
    lemma_decimal_numeral(n as nat);
    lemma_decimal_numeral((n + 1) as nat);
    let tok = last_token(l);
    let w = lemma_trim_split(l);
    let a = lemma_word_split(trim_end(l));
    assert(l =~= a + tok + w);
    let z = lemma_numeral_zeros(tok);
    assert(tok == z + f);
    assert(n == 0 ==> z.len() == 0);
    assert(!is_space(f[0]) && f[0] != ' ');
    // an occurrence of f holds digits only
    assert forall|x: Seq<char>, i: int, j: int| occurs_at(x, f, i) && 0 <= j < f.len() implies
        is_digit(#[trigger] x[i + j]) by {
        assert(x[i + j] == x.subrange(i, i + f.len())[j]);
    }
    // the last token and what follows it
    assert forall|i: int| 0 <= i < tok.len() && i + f.len() > tok.len() implies !occurs_at(tok + w, f, i) by {
        if occurs_at(tok + w, f, i) {
            assert((tok + w)[tok.len() as int] == w[0]);
            assert(is_digit((tok + w)[i + (tok.len() - i)]));
        }
    }
    lemma_replace_concat(tok, w, f, t);
    assert forall|i: int| !occurs_at(w, f, i) by {
        if occurs_at(w, f, i) {
            assert(is_digit(w[i + 0]));
        }
    }
    lemma_replace_absent(w, f, t);
    if z.len() > 0 {
        lemma_decimal_first(n as nat);
        assert forall|i: int| 0 <= i < z.len() && i + f.len() > z.len() implies !occurs_at(z + f, f, i) by {
            if occurs_at(z + f, f, i) {
                assert((z + f)[i] == (z + f).subrange(i, i + f.len())[0]);
                assert((z + f)[i] == z[i]);
            }
        }
        assert forall|i: int| !occurs_at(z, f, i) by {
            if occurs_at(z, f, i) {
                assert(z[i] == z.subrange(i, i + f.len())[0]);
            }
        }
        lemma_replace_concat(z, f, f, t);
        lemma_replace_absent(z, f, t);
    } else {
        assert(z + f =~= f);
    }
    lemma_replace_whole(f, t);
    assert(replace_all(tok, f, t) == z + t) by {
        if z.len() == 0 {
            assert(z + t =~= t);
        }
    }
    // what precedes the last token
    let b = replace_all(a, f, t);
    assert forall|i: int| 0 <= i < a.len() && i + f.len() > a.len() implies !occurs_at(a + (tok + w), f, i) by {
        if occurs_at(a + (tok + w), f, i) {
            assert((a + (tok + w))[a.len() - 1] == a.last());
            assert(is_digit((a + (tok + w))[i + (a.len() - 1 - i)]));
        }
    }
    assert(l =~= a + (tok + w));
    lemma_replace_concat(a, tok + w, f, t);
    assert(b.len() == 0 || is_space(b.last())) by {
        if a.len() > 0 {
            let a0 = a.drop_last();
            let sp = seq![a.last()];
            assert(a =~= a0 + sp);
            assert forall|i: int| 0 <= i < a0.len() && i + f.len() > a0.len() implies !occurs_at(a0 + sp, f, i) by {
                if occurs_at(a0 + sp, f, i) {
                    assert((a0 + sp)[a0.len() as int] == a.last());
                    assert(is_digit((a0 + sp)[i + (a0.len() - i)]));
                }
            }
            lemma_replace_concat(a0, sp, f, t);
            assert forall|i: int| !occurs_at(sp, f, i) by {
                if occurs_at(sp, f, i) {
                    assert(is_digit(sp[i + 0]));
                }
            }
            lemma_replace_absent(sp, f, t);
            assert(b =~= replace_all(a0, f, t) + sp);
        } else {
            assert(a =~= Seq::<char>::empty());
        }
    }
    let nt = z + t;
    let r = replace_all(l, f, t);
    assert(r =~= (b + nt) + w);
    assert(nt.last() == t.last());
    assert(is_digit(t[t.len() - 1]));
    lemma_trim_spaces(b + nt, w);
    assert forall|i: int| 0 <= i < nt.len() implies !is_space(#[trigger] nt[i]) by {
        if i < z.len() {
            assert(nt[i] == z[i]);
        } else {
            assert(nt[i] == t[i - z.len()]);
        }
    }
    lemma_word_after(b, nt);
    lemma_zeros_prefix(z, t);
    assert(is_numeral(nt)) by {
        assert forall|i: int| 0 <= i < nt.len() implies is_digit(#[trigger] nt[i]) by {
            if i < z.len() {
                assert(nt[i] == z[i]);
            } else {
                assert(nt[i] == t[i - z.len()]);
            }
        }
    }
}

proof fn lemma_marker_chars()
    ensures
        code_marker().len() > 0,
        forall|i: int| 0 <= i < code_marker().len() ==> !is_digit(#[trigger] code_marker()[i]) && code_marker()[i] != '.',
{
    reveal_strlit("versionCode ");
    assert(code_marker() =~= seq!['v', 'e', 'r', 's', 'i', 'o', 'n', 'C', 'o', 'd', 'e', ' ']);
}

proof fn lemma_marker_apart(s: Seq<char>)
    requires
        forall|j: int| 0 <= j < s.len() ==> is_digit(#[trigger] s[j]) || s[j] == '.',
    ensures
        chars_apart(code_marker(), s),
{
    lemma_marker_chars();
    assert forall|i: int, j: int| 0 <= i < code_marker().len() && 0 <= j < s.len() implies code_marker()[i] != s[j] by {
        assert(is_digit(s[j]) || s[j] == '.');
    }
}

proof fn lemma_version_text_chars(v: SemanticVersion)
    ensures
        version_text(v).len() > 0,
        forall|j: int| 0 <= j < version_text(v).len() ==> is_digit(#[trigger] version_text(v)[j]) || version_text(v)[j] == '.',
{
    let a = decimal(v.major as nat);
    let b = decimal(v.minor as nat);
    let c = decimal(v.patch as nat);
    lemma_decimal_numeral(v.major as nat);
    lemma_decimal_numeral(v.minor as nat);
    lemma_decimal_numeral(v.patch as nat);
    let s = version_text(v);
    assert forall|j: int| 0 <= j < s.len() implies is_digit(#[trigger] s[j]) || s[j] == '.' by {
        if j < a.len() {
            assert(s[j] == a[j]);
        } else if j == a.len() {
        } else if j < a.len() + 1 + b.len() {
            assert(s[j] == b[j - a.len() - 1]);
        } else if j == a.len() + 1 + b.len() {
        } else {
            assert(s[j] == c[j - a.len() - 2 - b.len()]);
        }
    }
}

proof fn lemma_descriptor_line_marker(l: Seq<char>, v: SemanticVersion, w: SemanticVersion, n: u64)
    requires
        n < u64::MAX,
    ensures
        contains_text(
            descriptor_line(l, version_text(v), version_text(w), decimal(n as nat), decimal((n + 1) as nat)),
            code_marker(),
        ) == contains_text(l, code_marker()),
{
    lemma_marker_chars();
    if contains_text(l, code_marker()) {
        lemma_decimal_numeral(n as nat);
        lemma_decimal_numeral((n + 1) as nat);
        lemma_marker_apart(decimal(n as nat));
        lemma_marker_apart(decimal((n + 1) as nat));
        lemma_replace_keeps_marker(l, code_marker(), decimal(n as nat), decimal((n + 1) as nat));
    } else {
        lemma_version_text_chars(v);
        lemma_version_text_chars(w);
        lemma_marker_apart(version_text(v));
        lemma_marker_apart(version_text(w));
        lemma_replace_keeps_marker(l, code_marker(), version_text(v), version_text(w));
    }
}

proof fn lemma_last_marked_map(lines: Seq<Seq<char>>, m: Seq<char>, rw: spec_fn(Seq<char>) -> Seq<char>)
    requires
        forall|l: Seq<char>| contains_text(#[trigger] rw(l), m) == contains_text(l, m),
    ensures
        last_marked(lines.map_values(rw), m) == match last_marked(lines, m) {
            Some(l) => Some(rw(l)),
            None => None,
        },
    decreases lines.len(),
{
    if lines.len() > 0 {
        let mapped = lines.map_values(rw);
        assert(mapped.drop_last() =~= lines.drop_last().map_values(rw));
        assert(mapped.last() == rw(lines.last()));
        lemma_last_marked_map(lines.drop_last(), m, rw);
    }
}

/// After an upgrade, the build counter read back from the descriptor's lines
/// is one more than the counter they held, for every descriptor whose counter
/// is not a zero spelled with leading zeros (`00` would become `11`).
pub proof fn lemma_counter_reads_back(
    lines: Seq<Seq<char>>,
    v: SemanticVersion,
    w: SemanticVersion,
    n: u64,
)
    requires
        build_counter_of(lines) == Ok::<u64, UpgradeError>(n),
        n < u64::MAX,
        n == 0 ==> last_token(last_marked(lines, code_marker())->0).len() == 1,
    ensures
        build_counter_of(
            lines.map_values(
                |l: Seq<char>|
                    descriptor_line(
                        l,
                        version_text(v),
                        version_text(w),
                        decimal(n as nat),
                        decimal((n + 1) as nat),
                    ),
            ),
        ) == Ok::<u64, UpgradeError>((n + 1) as u64),
{
    let rw = |l: Seq<char>|
        descriptor_line(l, version_text(v), version_text(w), decimal(n as nat), decimal((n + 1) as nat));
    assert forall|l: Seq<char>| contains_text(#[trigger] rw(l), code_marker()) == contains_text(l, code_marker()) by {
        lemma_descriptor_line_marker(l, v, w, n);
    }
    lemma_last_marked_map(lines, code_marker(), rw);
    let l = last_marked(lines, code_marker())->0;
    assert(contains_text(l, code_marker())) by {
        lemma_last_marked_holds(lines, code_marker());
    }
    lemma_counter_line(l, n);
}

proof fn lemma_last_marked_holds(lines: Seq<Seq<char>>, m: Seq<char>)
    ensures
        last_marked(lines, m) matches Some(l) ==> contains_text(l, m),
    decreases lines.len(),
{
    if lines.len() > 0 {
        lemma_last_marked_holds(lines.drop_last(), m);
    }
}

} // verus!
