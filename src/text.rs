//! Character-level helpers on text slices: splitting off the first character,
//! white space, and comparing suffixes by length.

use vstd::prelude::*;
use vstd::string::{StrSliceExecFns, StringSliceAdditionalSpecFns};
use vstd::utf8::{encode_scalar, encode_utf8};

verus! {

/// Relies on `str::strip_prefix` with a `char` pattern: where `s` starts
/// with `c`, the slice that follows it; else nothing.
#[verifier::external_body]
fn strip_char<'a>(s: &'a str, c: char) -> (r: Option<&'a str>)
    ensures
        r is Some <==> (s@.len() > 0 && s@[0] == c),
        r matches Some(rest) ==> rest@ == s@.drop_first(),
{
    s.strip_prefix(c)
}

/// The first character of `s` and the slice that follows it.
pub(crate) fn split_first<'a>(s: &'a str) -> (r: Option<(char, &'a str)>)
    ensures
        s@.len() == 0 <==> r is None,
        r matches Some((c, rest)) ==> c == s@[0] && rest@ == s@.drop_first(),
{
    if s.is_empty() {
        return None;
    }
    let c = s.get_char(0);
    match strip_char(s, c) {
        Some(rest) => Some((c, rest)),
        None => None,
    }
}

/// Characters with the Unicode `White_Space` property.
pub open spec fn is_space(c: char) -> bool {
    ('\u{9}' <= c && c <= '\u{d}') || c == ' ' || c == '\u{85}' || c == '\u{a0}'
        || c == '\u{1680}' || ('\u{2000}' <= c && c <= '\u{200a}') || c == '\u{2028}'
        || c == '\u{2029}' || c == '\u{202f}' || c == '\u{205f}' || c == '\u{3000}'
}

/// Whether `c` is white space, in the sense of `is_space`.
pub fn is_whitespace(c: char) -> (r: bool)
    ensures
        r == is_space(c),
{
    ('\u{9}' <= c && c <= '\u{d}') || c == ' ' || c == '\u{85}' || c == '\u{a0}'
        || c == '\u{1680}' || ('\u{2000}' <= c && c <= '\u{200a}') || c == '\u{2028}'
        || c == '\u{2029}' || c == '\u{202f}' || c == '\u{205f}' || c == '\u{3000}'
}

/// Whether `s` contains the character `c`.
pub fn contains_char(s: &str, c: char) -> (r: bool)
    ensures
        r == s@.contains(c),
{
    let mut rest = s;
    let ghost mut skipped: int = 0;
    loop
        invariant
            0 <= skipped <= s@.len(),
            rest@ == s@.skip(skipped),
            forall|i: int| 0 <= i < skipped ==> s@[i] != c,
        decreases rest@.len(),
    {
        match split_first(rest) {
            None => {
                return false;
            },
            Some((d, tail)) => {
                if d == c {
                    assert(s@[skipped] == c);
                    return true;
                }
                rest = tail;
                proof {
                    skipped = skipped + 1;
                }
                assert(rest@ =~= s@.skip(skipped));
            },
        }
    }
}


/// `r` is what is left of `s` once a prefix has been taken off.
pub open spec fn suffix_of(r: Seq<char>, s: Seq<char>) -> bool {
    r.len() <= s.len() && r == s.skip(s.len() - r.len())
}

/// A suffix of a suffix is a suffix.
pub proof fn lemma_suffix_trans(a: Seq<char>, b: Seq<char>, c: Seq<char>)
    requires
        suffix_of(a, b),
        suffix_of(b, c),
    ensures
        suffix_of(a, c),
{
    assert(a =~= c.skip(c.len() - a.len()));
}

proof fn lemma_encode_concat(a: Seq<char>, b: Seq<char>)
    ensures
        encode_utf8(a + b) == encode_utf8(a) + encode_utf8(b),
    decreases a.len(),
{
    if a.len() == 0 {
        assert(a + b =~= b);
        assert(encode_utf8(a) + encode_utf8(b) =~= encode_utf8(b));
    } else {
        assert((a + b).drop_first() =~= a.drop_first() + b);
        lemma_encode_concat(a.drop_first(), b);
        assert(encode_utf8(a + b) =~= encode_scalar(a[0] as u32) + (encode_utf8(a.drop_first())
            + encode_utf8(b)));
    }
}

proof fn lemma_encode_len(a: Seq<char>)
    ensures
        encode_utf8(a).len() >= a.len(),
    decreases a.len(),
{
    if a.len() > 0 {
        lemma_encode_len(a.drop_first());
        assert(encode_scalar(a[0] as u32).len() >= 1);
    }
}

/// The number of characters of `s` fits in a `usize`.
pub fn note_len_bound(s: &str)
    ensures
        s@.len() <= usize::MAX,
{
    broadcast use vstd::slice::group_slice_axioms;

    let bytes: usize = s.as_bytes().len();
    proof {
        lemma_encode_len(s@);
    }
    assert(s@.len() <= bytes);
}

/// For a suffix, fewer bytes means fewer characters.
pub proof fn lemma_suffix_bytes(r: &str, s: &str)
    requires
        suffix_of(r@, s@),
    ensures
        r@.len() < s@.len() <==> r.spec_bytes().len() < s.spec_bytes().len(),
{
    let k = s@.len() - r@.len();
    assert(s@ =~= s@.take(k) + r@);
    lemma_encode_concat(s@.take(k), r@);
    lemma_encode_len(s@.take(k));
}

/// The rest of `s` is shorter than `s`: compares byte lengths, which for a
/// suffix agree with character counts.
pub fn shorter(rest: &str, s: &str) -> (r: bool)
    requires
        suffix_of(rest@, s@),
    ensures
        r == (rest@.len() < s@.len()),
{
    broadcast use vstd::slice::group_slice_axioms;

    proof {
        lemma_suffix_bytes(rest, s);
    }
    rest.as_bytes().len() < s.as_bytes().len()
}

} // verus!
