//! Character-level utilities shared by the path normalizer, the server-URL
//! parser and the route matcher: conversion between strings and character
//! vectors, ASCII lower-casing, prefix-up-to-a-delimiter, and splitting at
//! a delimiter.
//!
//! All specifications are stated over `Seq<char>`; the executable code
//! works on `Vec<char>` and converts at the string boundary.

use vstd::prelude::*;
use vstd::string::*;

verus! {

/// ASCII lower-casing of a single character; everything outside 'A'..'Z'
/// is left unchanged.
pub open spec fn lower_char(c: char) -> char {
    if 'A' <= c && c <= 'Z' {
        (((c as u8) + 32) as char)
    } else {
        c
    }
}

/// ASCII lower-casing of a character sequence.
pub open spec fn lower_chars(s: Seq<char>) -> Seq<char> {
    s.map_values(|c: char| lower_char(c))
}

/// Whether `c` occurs in `s`.
pub open spec fn has_char(s: Seq<char>, c: char) -> bool {
    exists|i: int| 0 <= i < s.len() && s[i] == c
}

/// The prefix of `s` up to (excluding) the first occurrence of `c`, or all
/// of `s` when `c` does not occur.
pub open spec fn take_until(s: Seq<char>, c: char) -> Seq<char>
    decreases s.len(),
{
    if s.len() == 0 {
        s
    } else if s[0] == c {
        Seq::empty()
    } else {
        seq![s[0]] + take_until(s.drop_first(), c)
    }
}

/// Splitting `s` at every occurrence of `c`. The result always has at
/// least one element; empty pieces are kept.
pub open spec fn split_at(s: Seq<char>, c: char) -> Seq<Seq<char>>
    decreases s.len(),
{
    if s.len() == 0 {
        seq![Seq::<char>::empty()]
    } else if s[0] == c {
        seq![Seq::<char>::empty()] + split_at(s.drop_first(), c)
    } else {
        let rest = split_at(s.drop_first(), c);
        seq![seq![s[0]] + rest[0]] + rest.drop_first()
    }
}

pub proof fn lemma_split_at_len(s: Seq<char>, c: char)
    ensures
        split_at(s, c).len() >= 1,
    decreases s.len(),
{
    if s.len() != 0 {
        lemma_split_at_len(s.drop_first(), c);
    }
}

/// A sequence without the delimiter splits into itself alone.
pub proof fn lemma_split_at_no_delim(s: Seq<char>, c: char)
    requires
        !has_char(s, c),
    ensures
        split_at(s, c) =~= seq![s],
    decreases s.len(),
{
    if s.len() == 0 {
        assert(s =~= Seq::<char>::empty());
    } else {
        assert(s[0] != c);
        assert(!has_char(s.drop_first(), c)) by {
            assert(forall|i: int|
                0 <= i < s.drop_first().len() ==> s.drop_first()[i] == s[i + 1]);
        }
        lemma_split_at_no_delim(s.drop_first(), c);
        assert(seq![s[0]] + s.drop_first() =~= s);
    }
}

/// Splitting `u + [c] + w` when `u` is delimiter-free cuts exactly at
/// that delimiter.
pub proof fn lemma_split_at_glue(u: Seq<char>, w: Seq<char>, c: char)
    requires
        !has_char(u, c),
    ensures
        split_at(u + seq![c] + w, c) =~= seq![u] + split_at(w, c),
    decreases u.len(),
{
    let s = u + seq![c] + w;
    if u.len() == 0 {
        assert(s[0] == c);
        assert(s.drop_first() =~= w);
        assert(split_at(s, c) =~= seq![Seq::<char>::empty()] + split_at(w, c));
        assert(u =~= Seq::<char>::empty());
    } else {
        assert(s[0] == u[0]);
        assert(s[0] != c);
        assert(!has_char(u.drop_first(), c)) by {
            assert(forall|i: int|
                0 <= i < u.drop_first().len() ==> u.drop_first()[i] == u[i + 1]);
        }
        assert(s.drop_first() =~= u.drop_first() + seq![c] + w);
        lemma_split_at_glue(u.drop_first(), w, c);
        lemma_split_at_len(w, c);
        let rest = split_at(s.drop_first(), c);
        assert(rest =~= seq![u.drop_first()] + split_at(w, c));
        assert(rest[0] =~= u.drop_first());
        assert(seq![s[0]] + rest[0] =~= u);
        assert(rest.drop_first() =~= split_at(w, c));
    }
}

/// `take_until` never contains the delimiter, and a delimiter-free
/// sequence is returned unchanged.
pub proof fn lemma_take_until_props(s: Seq<char>, c: char)
    ensures
        !has_char(take_until(s, c), c),
        !has_char(s, c) ==> take_until(s, c) =~= s,
        forall|i: int|
            0 <= i < take_until(s, c).len() ==> take_until(s, c)[i] == s[i],
        take_until(s, c).len() <= s.len(),
    decreases s.len(),
{
    if s.len() == 0 {
    } else if s[0] == c {
    } else {
        lemma_take_until_props(s.drop_first(), c);
        let t = take_until(s, c);
        let t1 = take_until(s.drop_first(), c);
        assert(t =~= seq![s[0]] + t1);
        assert(forall|i: int| 0 <= i < t1.len() ==> t1[i] == s.drop_first()[i]);
        assert(forall|i: int| 1 <= i < t.len() ==> t[i] == t1[i - 1] && t1[i - 1] == s[i]);
        if !has_char(s, c) {
            assert(!has_char(s.drop_first(), c)) by {
                assert(forall|i: int|
                    0 <= i < s.drop_first().len() ==> s.drop_first()[i] == s[i + 1]);
            }
            assert(t1 =~= s.drop_first());
            assert(t =~= s);
        }
        assert(!has_char(t, c)) by {
            assert(forall|i: int| 0 <= i < t.len() ==> t[i] != c);
        }
    }
}

/// The prefix of `s` before the first occurrence of `c` is `s.take(i)`
/// when no occurrence lies before position `i` and position `i` is an
/// occurrence or the end.
pub proof fn lemma_take_until_at_index(s: Seq<char>, c: char, i: int)
    requires
        0 <= i <= s.len(),
        forall|j: int| 0 <= j < i ==> s[j] != c,
        i == s.len() || s[i] == c,
    ensures
        take_until(s, c) =~= s.take(i),
    decreases s.len(),
{
    if s.len() == 0 {
    } else if i == 0 {
        assert(s[0] == c);
    } else {
        assert(s[0] != c);
        let s1 = s.drop_first();
        assert(forall|j: int| 0 <= j < i - 1 ==> s1[j] == s[j + 1] && s[j + 1] != c);
        assert(i - 1 == s1.len() || s1[i - 1] == c);
        lemma_take_until_at_index(s1, c, i - 1);
        assert(take_until(s, c) =~= seq![s[0]] + s1.take(i - 1));
        assert(seq![s[0]] + s1.take(i - 1) =~= s.take(i));
    }
}

/// Converts a string to the vector of its characters.
pub fn str_to_chars(s: &str) -> (v: Vec<char>)
    ensures
        v@ == s@,
{
    let len = s.unicode_len();
    let mut v: Vec<char> = Vec::new();
    let mut i: usize = 0;
    while i < len
        invariant
            i <= len,
            len == s@.len(),
            v@ =~= s@.take(i as int),
        decreases len - i,
    {
        v.push(s.get_char(i));
        proof {
            assert(s@.take(i + 1 as int) =~= s@.take(i as int).push(s@[i as int]));
        }
        i = i + 1;
    }
    proof {
        assert(s@.take(len as int) =~= s@);
    }
    v
}

/// Builds a string from a vector of characters.
///
/// Relies on `String`'s `FromIterator<char>` implementation (through
/// `Iterator::collect`): the collected string consists of exactly the
/// characters of the iterator, in order.
#[verifier::external_body]
pub(crate) fn chars_to_string(v: &Vec<char>) -> (s: String)
    ensures
        s@ == v@,
{
    v.iter().collect()
}

/// Character-vector equality.
pub fn chars_eq(a: &Vec<char>, b: &Vec<char>) -> (r: bool)
    ensures
        r == (a@ == b@),
{
    if a.len() != b.len() {
        return false;
    }
    let mut i: usize = 0;
    while i < a.len()
        invariant
            i <= a@.len(),
            a@.len() == b@.len(),
            forall|j: int| 0 <= j < i ==> a@[j] == b@[j],
        decreases a@.len() - i,
    {
        if a[i] != b[i] {
            return false;
        }
        i = i + 1;
    }
    proof {
        assert(a@ =~= b@);
    }
    true
}

/// Lower-cases the ASCII letters of a character vector.
pub fn lower_vec(v: &Vec<char>) -> (r: Vec<char>)
    ensures
        r@ == lower_chars(v@),
{
    let mut out: Vec<char> = Vec::new();
    let mut i: usize = 0;
    while i < v.len()
        invariant
            i <= v@.len(),
            out@ =~= v@.take(i as int).map_values(|c: char| lower_char(c)),
        decreases v@.len() - i,
    {
        let c = v[i];
        let lc: char = if 'A' <= c && c <= 'Z' {
            (((c as u8) + 32) as char)
        } else {
            c
        };
        out.push(lc);
        proof {
            assert(v@.take(i + 1 as int).map_values(|ch: char| lower_char(ch)) =~= v@.take(
                i as int,
            ).map_values(|ch: char| lower_char(ch)).push(lower_char(v@[i as int])));
        }
        i = i + 1;
    }
    proof {
        assert(v@.take(v@.len() as int) =~= v@);
    }
    out
}

/// Lower-cases the ASCII letters of a string, returning a new string.
pub fn lower_str_owned(s: &str) -> (r: String)
    ensures
        r@ == lower_chars(s@),
{
    let v = str_to_chars(s);
    let lv = lower_vec(&v);
    chars_to_string(&lv)
}

/// The vector of characters of `v` before the first occurrence of `c`.
pub fn cut_at(v: &Vec<char>, c: char) -> (r: Vec<char>)
    ensures
        r@ == take_until(v@, c),
{
    let mut out: Vec<char> = Vec::new();
    let mut i: usize = 0;
    while i < v.len()
        invariant
            i <= v@.len(),
            out@ =~= v@.take(i as int),
            forall|j: int| 0 <= j < i ==> v@[j] != c,
        decreases v@.len() - i,
    {
        if v[i] == c {
            proof {
                lemma_take_until_at_index(v@, c, i as int);
            }
            return out;
        }
        out.push(v[i]);
        proof {
            assert(v@.take(i + 1 as int) =~= v@.take(i as int).push(v@[i as int]));
        }
        i = i + 1;
    }
    proof {
        lemma_take_until_at_index(v@, c, v@.len() as int);
        assert(v@.take(v@.len() as int) =~= v@);
    }
    out
}

/// Appends all characters of `part` to `out`.
pub fn push_all(out: &mut Vec<char>, part: &Vec<char>)
    ensures
        final(out)@ == old(out)@ + part@,
{
    let mut i: usize = 0;
    while i < part.len()
        invariant
            i <= part@.len(),
            out@ =~= old(out)@ + part@.take(i as int),
        decreases part@.len() - i,
    {
        out.push(part[i]);
        proof {
            assert(old(out)@ + part@.take(i + 1 as int) =~= (old(out)@ + part@.take(
                i as int,
            )).push(part@[i as int]));
        }
        i = i + 1;
    }
    proof {
        assert(old(out)@ + part@.take(part@.len() as int) =~= old(out)@ + part@);
    }
}

/// Whether `pat` is a prefix of `s`.
pub open spec fn starts_with(s: Seq<char>, pat: Seq<char>) -> bool {
    pat.len() <= s.len() && s.take(pat.len() as int) == pat
}

/// The first index at which `pat` occurs in `s`, or `-1`.
pub open spec fn find_sub(s: Seq<char>, pat: Seq<char>) -> int
    decreases s.len(),
{
    if s.len() < pat.len() {
        -1
    } else if starts_with(s, pat) {
        0
    } else if s.len() == 0 {
        -1
    } else {
        let r = find_sub(s.drop_first(), pat);
        if r == -1 {
            -1
        } else {
            r + 1
        }
    }
}

/// `s` with every (leftmost-first, non-overlapping) occurrence of the
/// non-empty `pat` replaced by `val`; an empty pattern replaces nothing.
pub open spec fn spec_replace(s: Seq<char>, pat: Seq<char>, val: Seq<char>) -> Seq<char>
    decreases s.len(),
{
    if pat.len() == 0 || s.len() < pat.len() {
        s
    } else if starts_with(s, pat) {
        val + spec_replace(s.skip(pat.len() as int), pat, val)
    } else {
        seq![s[0]] + spec_replace(s.drop_first(), pat, val)
    }
}

/// ASCII whitespace.
pub open spec fn is_space(c: char) -> bool {
    c == ' ' || c == '\t' || c == '\n' || c == '\r'
}

/// `s` without its leading whitespace.
pub open spec fn trim_start(s: Seq<char>) -> Seq<char>
    decreases s.len(),
{
    if s.len() > 0 && is_space(s[0]) {
        trim_start(s.drop_first())
    } else {
        s
    }
}

/// `s` without its trailing whitespace.
pub open spec fn trim_end(s: Seq<char>) -> Seq<char>
    decreases s.len(),
{
    if s.len() > 0 && is_space(s[s.len() - 1]) {
        trim_end(s.drop_last())
    } else {
        s
    }
}

/// `s` without leading and trailing ASCII whitespace.
pub open spec fn spec_trim(s: Seq<char>) -> Seq<char> {
    trim_end(trim_start(s))
}

pub proof fn lemma_trim_start_at(s: Seq<char>, a: int)
    requires
        0 <= a <= s.len(),
        forall|j: int| 0 <= j < a ==> is_space(#[trigger] s[j]),
        a == s.len() || !is_space(s[a]),
    ensures
        trim_start(s) =~= s.skip(a),
    decreases s.len(),
{
    if a == 0 {
        assert(s.skip(0) =~= s);
    } else {
        assert(is_space(s[0]));
        let s1 = s.drop_first();
        assert(forall|j: int| 0 <= j < a - 1 ==> s1[j] == s[j + 1] && is_space(#[trigger] s[j + 1]));
        assert(a - 1 == s1.len() || !is_space(s1[a - 1]));
        lemma_trim_start_at(s1, a - 1);
        assert(s1.skip(a - 1) =~= s.skip(a));
    }
}

pub proof fn lemma_trim_end_at(s: Seq<char>, b: int)
    requires
        0 <= b <= s.len(),
        forall|j: int| b <= j < s.len() ==> is_space(#[trigger] s[j]),
        b == 0 || !is_space(s[b - 1]),
    ensures
        trim_end(s) =~= s.take(b),
    decreases s.len(),
{
    if b == s.len() {
        assert(s.take(b) =~= s);
    } else {
        assert(is_space(s[s.len() - 1]));
        let s1 = s.drop_last();
        assert(forall|j: int| 0 <= j < s1.len() ==> s1[j] == s[j]);
        lemma_trim_end_at(s1, b);
        assert(s1.take(b) =~= s.take(b));
    }
}

/// Whether `pat` occurs at position `i` of `v`.
#[verifier::loop_isolation(false)]
pub fn starts_at(v: &Vec<char>, i: usize, pat: &Vec<char>) -> (r: bool)
    requires
        i <= v@.len(),
    ensures
        r == starts_with(v@.skip(i as int), pat@),
{
    if v.len() - i < pat.len() {
        return false;
    }
    let mut k: usize = 0;
    while k < pat.len()
        invariant
            k <= pat@.len(),
            i + pat@.len() <= v@.len(),
            forall|j: int| 0 <= j < k ==> v@[i + j] == pat@[j],
        decreases pat@.len() - k,
    {
        if v[i + k] != pat[k] {
            proof {
                assert(v@.skip(i as int)[k as int] == v@[i + k]);
                assert(v@.skip(i as int).take(pat@.len() as int)[k as int] != pat@[k as int]);
            }
            return false;
        }
        k = k + 1;
    }
    proof {
        assert(v@.skip(i as int).take(pat@.len() as int) =~= pat@) by {
            assert(forall|j: int|
                0 <= j < pat@.len() ==> v@.skip(i as int).take(pat@.len() as int)[j] == v@[i + j]);
        }
    }
    true
}

/// `v` with every occurrence of the non-empty `pat` replaced by `val`.
#[verifier::loop_isolation(false)]
pub fn replace_all(v: &Vec<char>, pat: &Vec<char>, val: &Vec<char>) -> (r: Vec<char>)
    requires
        pat@.len() > 0,
    ensures
        r@ == spec_replace(v@, pat@, val@),
{
    let mut out: Vec<char> = Vec::new();
    let mut i: usize = 0;
    proof {
        assert(v@.skip(0) =~= v@);
    }
    while i < v.len()
        invariant
            i <= v@.len(),
            spec_replace(v@, pat@, val@) =~= out@ + spec_replace(v@.skip(i as int), pat@, val@),
        decreases v@.len() - i,
    {
        if starts_at(v, i, pat) {
            proof {
                assert(v@.skip(i as int).skip(pat@.len() as int) =~= v@.skip(
                    i + pat@.len() as int,
                ));
                assert(spec_replace(v@.skip(i as int), pat@, val@) == val@ + spec_replace(
                    v@.skip(i + pat@.len() as int),
                    pat@,
                    val@,
                ));
            }
            push_all(&mut out, val);
            i = i + pat.len();
        } else {
            proof {
                let rem = v@.skip(i as int);
                assert(rem.drop_first() =~= v@.skip(i + 1 as int));
                if rem.len() >= pat@.len() {
                    assert(spec_replace(rem, pat@, val@) == seq![rem[0]] + spec_replace(
                        rem.drop_first(),
                        pat@,
                        val@,
                    ));
                } else {
                    // The remainder is shorter than the pattern: it is
                    // copied out unchanged, one character at a time.
                    assert(spec_replace(rem, pat@, val@) == rem);
                    assert(spec_replace(rem.drop_first(), pat@, val@) == rem.drop_first());
                    assert(rem =~= seq![rem[0]] + rem.drop_first());
                }
                assert(out@ + spec_replace(rem, pat@, val@) =~= out@.push(rem[0])
                    + spec_replace(v@.skip(i + 1 as int), pat@, val@));
                assert(rem[0] == v@[i as int]);
            }
            out.push(v[i]);
            i = i + 1;
        }
    }
    proof {
        assert(v@.skip(v@.len() as int) =~= Seq::<char>::empty());
        assert(spec_replace(Seq::<char>::empty(), pat@, val@) =~= Seq::<char>::empty());
        assert(out@ + Seq::<char>::empty() =~= out@);
    }
    out
}

/// `v` without leading and trailing ASCII whitespace.
#[verifier::loop_isolation(false)]
pub fn trim_spaces(v: &Vec<char>) -> (r: Vec<char>)
    ensures
        r@ == spec_trim(v@),
{
    let mut a: usize = 0;
    while a < v.len() && (v[a] == ' ' || v[a] == '\t' || v[a] == '\n' || v[a] == '\r')
        invariant
            a <= v@.len(),
            forall|j: int| 0 <= j < a ==> is_space(#[trigger] v@[j]),
        decreases v@.len() - a,
    {
        a = a + 1;
    }
    proof {
        lemma_trim_start_at(v@, a as int);
    }
    let mut b: usize = v.len();
    while b > a && (v[b - 1] == ' ' || v[b - 1] == '\t' || v[b - 1] == '\n' || v[b - 1] == '\r')
        invariant
            a <= b <= v@.len(),
            forall|j: int| b <= j < v@.len() ==> is_space(#[trigger] v@[j]),
        decreases b,
    {
        b = b - 1;
    }
    let ghost ts = trim_start(v@);
    proof {
        assert(ts =~= v@.skip(a as int));
        assert(forall|j: int| 0 <= j < ts.len() ==> ts[j] == v@[j + a]);
        lemma_trim_end_at(ts, b - a as int);
        assert(ts.take(b - a as int) =~= v@.subrange(a as int, b as int));
    }
    let mut out: Vec<char> = Vec::new();
    let mut i: usize = a;
    while i < b
        invariant
            a <= i <= b,
            out@ =~= v@.subrange(a as int, i as int),
        decreases b - i,
    {
        out.push(v[i]);
        proof {
            assert(v@.subrange(a as int, i + 1 as int) =~= v@.subrange(a as int, i as int).push(
                v@[i as int],
            ));
        }
        i = i + 1;
    }
    out
}

/// The characters of `v` from `a` (inclusive) to `b` (exclusive).
pub fn sub_vec(v: &Vec<char>, a: usize, b: usize) -> (r: Vec<char>)
    requires
        a <= b <= v@.len(),
    ensures
        r@ == v@.subrange(a as int, b as int),
{
    let mut out: Vec<char> = Vec::new();
    let mut i: usize = a;
    while i < b
        invariant
            a <= i <= b <= v@.len(),
            out@ =~= v@.subrange(a as int, i as int),
        decreases b - i,
    {
        out.push(v[i]);
        proof {
            assert(v@.subrange(a as int, i + 1 as int) =~= v@.subrange(a as int, i as int).push(
                v@[i as int],
            ));
        }
        i = i + 1;
    }
    out
}

/// The first index of `c` in `v`, if any.
pub fn find_char_vec(v: &Vec<char>, c: char) -> (r: Option<usize>)
    ensures
        match r {
            Some(i) => i < v@.len() && v@[i as int] == c && forall|j: int| 0 <= j < i ==> v@[j] != c,
            None => !has_char(v@, c),
        },
{
    let mut i: usize = 0;
    while i < v.len()
        invariant
            i <= v@.len(),
            forall|j: int| 0 <= j < i ==> v@[j] != c,
        decreases v@.len() - i,
    {
        if v[i] == c {
            return Some(i);
        }
        i = i + 1;
    }
    None
}

pub proof fn lemma_find_sub_at(s: Seq<char>, pat: Seq<char>, i: int)
    requires
        pat.len() > 0,
        0 <= i,
        i + pat.len() <= s.len(),
        forall|j: int| 0 <= j < i ==> !starts_with(#[trigger] s.skip(j), pat),
        starts_with(s.skip(i), pat),
    ensures
        find_sub(s, pat) == i,
    decreases s.len(),
{
    if i == 0 {
        assert(s.skip(0) =~= s);
    } else {
        assert(s.skip(0) =~= s);
        assert(!starts_with(s, pat));
        let s1 = s.drop_first();
        assert(forall|j: int| 0 <= j <= s1.len() ==> s1.skip(j) =~= s.skip(j + 1));
        lemma_find_sub_at(s1, pat, i - 1);
    }
}

pub proof fn lemma_find_sub_none(s: Seq<char>, pat: Seq<char>)
    requires
        pat.len() > 0,
        forall|j: int| 0 <= j <= s.len() ==> !starts_with(#[trigger] s.skip(j), pat),
    ensures
        find_sub(s, pat) == -1,
    decreases s.len(),
{
    assert(s.skip(0) =~= s);
    if s.len() < pat.len() {
    } else {
        let s1 = s.drop_first();
        assert(forall|j: int| 0 <= j <= s1.len() ==> s1.skip(j) =~= s.skip(j + 1));
        lemma_find_sub_none(s1, pat);
    }
}

/// The first index at which `pat` occurs in `v`, if any.
#[verifier::loop_isolation(false)]
pub fn find_sub_vec(v: &Vec<char>, pat: &Vec<char>) -> (r: Option<usize>)
    requires
        pat@.len() > 0,
    ensures
        match r {
            Some(i) => find_sub(v@, pat@) == i && i + pat@.len() <= v@.len(),
            None => find_sub(v@, pat@) == -1,
        },
{
    if v.len() < pat.len() {
        proof {
            assert forall|j: int| 0 <= j <= v@.len() implies !starts_with(
                #[trigger] v@.skip(j),
                pat@,
            ) by {
                assert(v@.skip(j).len() == v@.len() - j);
            }
            lemma_find_sub_none(v@, pat@);
        }
        return None;
    }
    let mut i: usize = 0;
    while i <= v.len() - pat.len()
        invariant
            i <= v@.len(),
            forall|j: int| 0 <= j < i ==> !starts_with(#[trigger] v@.skip(j), pat@),
        decreases v@.len() - i,
    {
        if starts_at(v, i, pat) {
            proof {
                lemma_find_sub_at(v@, pat@, i as int);
            }
            return Some(i);
        }
        i = i + 1;
    }
    proof {
        assert forall|j: int| 0 <= j <= v@.len() implies !starts_with(
            #[trigger] v@.skip(j),
            pat@,
        ) by {
            if j >= i {
                assert(v@.skip(j).len() == v@.len() - j);
                assert(v@.len() - j < pat@.len());
            }
        }
        lemma_find_sub_none(v@, pat@);
    }
    None
}

/// The deep view of a vector of character vectors.
pub open spec fn views_of(parts: Seq<Vec<char>>) -> Seq<Seq<char>> {
    parts.map_values(|p: Vec<char>| p@)
}

/// Splits `v` at every occurrence of `c`, keeping empty pieces.
pub fn split_vec(v: &Vec<char>, c: char) -> (parts: Vec<Vec<char>>)
    ensures
        views_of(parts@) == split_at(v@, c),
{
    let mut parts: Vec<Vec<char>> = Vec::new();
    let mut cur: Vec<char> = Vec::new();
    let mut i: usize = 0;
    proof {
        assert(cur@ + v@.skip(0) =~= v@);
        assert(views_of(parts@) + split_at(cur@ + v@.skip(0), c) =~= split_at(v@, c));
    }
    while i < v.len()
        invariant
            i <= v@.len(),
            !has_char(cur@, c),
            split_at(v@, c) =~= views_of(parts@) + split_at(cur@ + v@.skip(i as int), c),
        decreases v@.len() - i,
    {
        let x = v[i];
        if x == c {
            proof {
                assert(cur@ + v@.skip(i as int) =~= cur@ + seq![c] + v@.skip(i + 1 as int));
                lemma_split_at_glue(cur@, v@.skip(i + 1 as int), c);
                assert(views_of(parts@.push(cur)) =~= views_of(parts@).push(cur@));
            }
            parts.push(cur);
            cur = Vec::new();
        } else {
            proof {
                assert((cur@.push(x)) + v@.skip(i + 1 as int) =~= cur@ + v@.skip(i as int));
                assert(forall|j: int|
                    0 <= j < cur@.push(x).len() ==> cur@.push(x)[j] != c);
            }
            cur.push(x);
        }
        i = i + 1;
    }
    proof {
        assert(cur@ + v@.skip(v@.len() as int) =~= cur@);
        lemma_split_at_no_delim(cur@, c);
        assert(views_of(parts@.push(cur)) =~= views_of(parts@).push(cur@));
    }
    parts.push(cur);
    parts
}

} // verus!
