//! Text primitives: prefix and suffix tests on string slices, and the few
//! operations of the standard library on characters and strings that the
//! rest of the crate builds on.

use vstd::prelude::*;
use vstd::utf8::{encode_utf8, valid_utf8};

verus! {

/// Names what `char::is_whitespace` answers for `c`: whether `c` has the
/// Unicode property `White_Space`.
pub uninterp spec fn white_space(c: char) -> bool;

/// Names what `char::is_alphabetic` answers for `c`: whether `c` has the
/// Unicode property `Alphabetic`.
pub uninterp spec fn alphabetic(c: char) -> bool;

/// Calls `char::is_whitespace`. Trusted: the answer is a function of the
/// character alone, and `white_space` is the name of that function.
#[verifier::external_body]
pub(crate) fn is_white_space(c: char) -> (r: bool)
    ensures
        r == white_space(c),
{
    c.is_whitespace()
}

/// Calls `char::is_alphabetic`. Trusted: the answer is a function of the
/// character alone, and `alphabetic` is the name of that function.
#[verifier::external_body]
pub(crate) fn is_alphabetic(c: char) -> (r: bool)
    ensures
        r == alphabetic(c),
{
    c.is_alphabetic()
}

/// Calls `String::push`. Trusted: the string afterwards is the string before
/// with `c` appended as its last character.
#[verifier::external_body]
pub(crate) fn push_char(s: &mut String, c: char)
    ensures
        final(s)@ == old(s)@.push(c),
{
    s.push(c)
}

/// Calls `core::str::from_utf8`. Trusted: where it accepts the bytes, the
/// string slice it hands back is made of exactly those bytes; it refuses them
/// only where they are not well-formed UTF-8.
#[verifier::external_body]
pub(crate) fn decode<'a>(bytes: &'a [u8]) -> (r: Option<&'a str>)
    ensures
        match r {
            Some(s) => encode_utf8(s@) == bytes@,
            None => !valid_utf8(bytes@),
        },
{
    match core::str::from_utf8(bytes) {
        Ok(s) => Some(s),
        Err(_) => None,
    }
}

/// The text of each string of a list.
pub open spec fn texts(list: Seq<String>) -> Seq<Seq<char>> {
    Seq::new(list.len(), |i: int| list[i]@)
}

/// The character at index `i` of `s`, or a space where `s` has none there.
pub open spec fn char_or_space(s: Seq<char>, i: int) -> char {
    if 0 <= i < s.len() {
        s[i]
    } else {
        ' '
    }
}

/// Whether `p` stands in `s` at index `at`.
pub open spec fn occurs_at(s: Seq<char>, at: int, p: Seq<char>) -> bool {
    0 <= at && at + p.len() <= s.len() && s.subrange(at, at + p.len()) =~= p
}

/// To find `a` followed by `b` is to find `a` and, right behind it, `b`.
pub proof fn lemma_occurs_at_concat(s: Seq<char>, at: int, a: Seq<char>, b: Seq<char>)
    ensures
        occurs_at(s, at, a + b) <==> occurs_at(s, at, a) && occurs_at(s, at + a.len(), b),
{
    if occurs_at(s, at, a + b) {
        assert forall|k: int| 0 <= k < a.len() implies s.subrange(at, at + a.len())[k] == a[k] by {
            assert(s.subrange(at, at + (a + b).len())[k] == (a + b)[k]);
        }
        assert forall|k: int| 0 <= k < b.len() implies s.subrange(
            at + a.len(),
            at + a.len() + b.len(),
        )[k] == b[k] by {
            assert(s.subrange(at, at + (a + b).len())[a.len() + k] == (a + b)[a.len() + k]);
        }
    }
    if occurs_at(s, at, a) && occurs_at(s, at + a.len(), b) {
        assert forall|k: int| 0 <= k < (a + b).len() implies s.subrange(
            at,
            at + (a + b).len(),
        )[k] == (a + b)[k] by {
            if k < a.len() {
                assert(s.subrange(at, at + a.len())[k] == a[k]);
            } else {
                assert(s.subrange(at + a.len(), at + a.len() + b.len())[k - a.len()] == b[k
                    - a.len()]);
            }
        }
    }
}

/// Whether `pattern` stands in `s` at index `at`, counted in characters.
pub fn matches_at(s: &str, at: usize, pattern: &str) -> (r: bool)
    ensures
        r == occurs_at(s@, at as int, pattern@),
{
    let n: usize = s.unicode_len();
    let m: usize = pattern.unicode_len();
    if at > n || m > n - at {
        return false;
    }
    let mut i: usize = 0;
    while i < m
        invariant
            i <= m,
            at + m <= n,
            n == s@.len(),
            m == pattern@.len(),
            forall|k: int| 0 <= k < i ==> s@[at + k] == pattern@[k],
        decreases m - i,
    {
        if s.get_char(at + i) != pattern.get_char(i) {
            assert(s@.subrange(at as int, at + m)[i as int] == s@[at + i]);
            return false;
        }
        i += 1;
    }
    assert(pattern@ =~= s@.subrange(at as int, at + m));
    true
}

/// Whether `s` begins with `prefix`.
pub fn starts_with(s: &str, prefix: &str) -> (r: bool)
    ensures
        r == prefix@.is_prefix_of(s@),
{
    matches_at(s, 0, prefix)
}

/// Whether `s` ends with `suffix`.
pub fn ends_with(s: &str, suffix: &str) -> (r: bool)
    ensures
        r == suffix@.is_suffix_of(s@),
{
    let n: usize = s.unicode_len();
    let m: usize = suffix.unicode_len();
    if m > n {
        return false;
    }
    matches_at(s, n - m, suffix)
}

} // verus!
