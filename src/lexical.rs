//! Lexical parsers: literals, lookahead, scanning up to a character, white
//! space and single digits.

use vstd::prelude::*;
use vstd::string::StrSliceExecFns;
use crate::combinators::Parser;
use crate::text::{is_space, is_whitespace, note_len_bound, split_first, suffix_of};

verus! {

/// The first position of `s` that holds one of `cs`.
pub open spec fn first_of(s: Seq<char>, cs: Seq<char>) -> Option<nat>
    decreases s.len(),
{
    if s.len() == 0 {
        None
    } else if cs.contains(s[0]) {
        Some(0)
    } else {
        match first_of(s.drop_first(), cs) {
            None => None,
            Some(n) => Some(n + 1),
        }
    }
}

/// What scanning for the first of `cs` does: the text from that character on
/// and the text before it; where none occurs, all of `s` and nothing.
pub open spec fn spec_until(s: Seq<char>, cs: Seq<char>) -> (Seq<char>, Seq<char>) {
    match first_of(s, cs) {
        None => (s, Seq::empty()),
        Some(n) => (s.skip(n as int), s.take(n as int)),
    }
}

/// The number of white-space characters at the start of `s`.
pub open spec fn leading_spaces(s: Seq<char>) -> nat
    decreases s.len(),
{
    if s.len() > 0 && is_space(s[0]) {
        1 + leading_spaces(s.drop_first())
    } else {
        0
    }
}

/// The value of an ASCII decimal digit; 0 for any other character.
pub open spec fn digit_value(c: char) -> u32 {
    if is_digit(c) {
        (c as u32 - '0' as u32) as u32
    } else {
        0
    }
}

pub open spec fn is_digit(c: char) -> bool {
    '0' <= c && c <= '9'
}

pub proof fn lemma_first_of(s: Seq<char>, cs: Seq<char>)
    ensures
        match first_of(s, cs) {
            None => forall|i: int| 0 <= i < s.len() ==> !cs.contains(#[trigger] s[i]),
            Some(n) => n < s.len() && cs.contains(s[n as int]) && forall|i: int|
                0 <= i < n ==> !cs.contains(#[trigger] s[i]),
        },
    decreases s.len(),
{
    if s.len() > 0 && !cs.contains(s[0]) {
        lemma_first_of(s.drop_first(), cs);
        assert forall|i: int| 1 <= i < s.len() implies s[i] == s.drop_first()[i - 1] by {}
    }
}

/// Scans from the start of `s` for the first of `cs`; gives the position and
/// the text from there on.
fn scan_for<'a>(s: &'a str, cs: &Vec<char>) -> (r: Option<(usize, &'a str)>)
    ensures
        match first_of(s@, cs@) {
            None => r is None,
            Some(n) => r matches Some((k, rest)) && k == n && rest@ == s@.skip(n as int),
        },
{
    note_len_bound(s);
    let mut rest = s;
    let mut n: usize = 0;
    proof {
        lemma_first_of(s@, cs@);
        assert(s@.skip(0) =~= s@);
    }
    loop
        invariant
            n <= s@.len() <= usize::MAX,
            rest@ == s@.skip(n as int),
            forall|i: int| 0 <= i < n ==> !cs@.contains(#[trigger] s@[i]),
            match first_of(s@, cs@) {
                None => forall|i: int| 0 <= i < s@.len() ==> !cs@.contains(#[trigger] s@[i]),
                Some(k) => k < s@.len() && cs@.contains(s@[k as int]) && forall|i: int|
                    0 <= i < k ==> !cs@.contains(#[trigger] s@[i]),
            },
        decreases rest@.len(),
    {
        match split_first(rest) {
            None => {
                return None;
            },
            Some((c, tail)) => {
                assert(c == s@[n as int]);
                let mut j: usize = 0;
                let mut hit = false;
                while j < cs.len()
                    invariant
                        j <= cs@.len(),
                        hit == exists|k: int| 0 <= k < j && cs@[k] == c,
                    decreases cs@.len() - j,
                {
                    if cs[j] == c {
                        hit = true;
                    }
                    j += 1;
                }
                if hit {
                    return Some((n, rest));
                }
                assert(!cs@.contains(c));
                rest = tail;
                n = n + 1;
                assert(rest@ =~= s@.skip(n as int));
            },
        }
    }
}

/// The number of characters of `s`.
pub fn char_count(s: &str) -> (r: usize)
    ensures
        r == s@.len(),
{
    note_len_bound(s);
    s.unicode_len()
}

/// Scans up to the first occurrence of `c`.
pub struct Until {
    pub c: char,
}

/// Scans up to the earliest occurrence of any of `cs`.
pub struct UntilAny {
    pub cs: Vec<char>,
}

/// Consumes all leading white space, of which there must be some.
pub struct Whitespace;

/// Matches a literal prefix.
pub struct Token<'b> {
    pub token: &'b str,
}

/// Succeeds, consuming nothing, where the text starts with a literal.
pub struct Lookahead<'b> {
    pub token: &'b str,
}

/// One ASCII decimal digit, giving its value.
pub struct Digit;

fn until_impl<'a>(input: &'a str, cs: &Vec<char>) -> (r: Option<(&'a str, &'a str)>)
    ensures
        r matches Some((rest, v)) && (rest@, v@) == spec_until(input@, cs@),
{
    proof {
        lemma_first_of(input@, cs@);
    }
    match scan_for(input, cs) {
        None => {
            let e = "";
            proof {
                reveal_strlit("");
            }
            assert(e@ =~= Seq::<char>::empty());
            Some((input, e))
        },
        Some((n, rest)) => {
            let v = input.substring_char(0, n);
            assert(v@ =~= input@.take(n as int));
            Some((rest, v))
        },
    }
}


/// `t` is a prefix of `s`.
pub open spec fn starts_with(s: Seq<char>, t: Seq<char>) -> bool {
    t.len() <= s.len() && s.take(t.len() as int) == t
}

/// Whether `s` starts with `t`; where it does, the text after it.
pub(crate) fn strip_literal<'a>(s: &'a str, t: &str) -> (r: Option<&'a str>)
    ensures
        starts_with(s@, t@) <==> r is Some,
        r matches Some(rest) ==> rest@ == s@.skip(t@.len() as int),
{
    let mut rest = s;
    let mut lit = t;
    let ghost mut k: int = 0;
    assert(s@.skip(0) =~= s@);
    assert(t@.skip(0) =~= t@);
    loop
        invariant
            0 <= k <= t@.len(),
            k <= s@.len(),
            rest@ == s@.skip(k),
            lit@ == t@.skip(k),
            s@.take(k) == t@.take(k),
        decreases lit@.len(),
    {
        match split_first(lit) {
            None => {
                assert(k == t@.len());
                assert(t@.take(k) =~= t@);
                return Some(rest);
            },
            Some((c, lit_tail)) => match split_first(rest) {
                None => {
                    assert(s@.len() < t@.len());
                    return None;
                },
                Some((d, rest_tail)) => {
                    if c != d {
                        assert(s@[k] != t@[k]);
                        assert(!starts_with(s@, t@)) by {
                            if starts_with(s@, t@) {
                                assert(s@.take(t@.len() as int)[k] == s@[k]);
                            }
                        }
                        return None;
                    }
                    assert(s@.take(k + 1) =~= s@.take(k).push(d));
                    assert(t@.take(k + 1) =~= t@.take(k).push(c));
                    rest = rest_tail;
                    lit = lit_tail;
                    proof {
                        k = k + 1;
                    }
                    assert(rest@ =~= s@.skip(k));
                    assert(lit@ =~= t@.skip(k));
                },
            },
        }
    }
}

impl<'a> Parser<'a, &'a str> for Until {
    open spec fn spec_parse(&self, s: Seq<char>) -> Option<(Seq<char>, Seq<char>)> {
        Some(spec_until(s, seq![self.c]))
    }

    open spec fn wf(&self) -> bool {
        true
    }

    fn parse(&self, input: &'a str) -> (r: Option<(&'a str, &'a str)>) {
        let cs = vec![self.c];
        assert(cs@ =~= seq![self.c]);
        until_impl(input, &cs)
    }

    proof fn lemma_parse_suffix(&self, s: Seq<char>) {
        lemma_until_suffix(s, seq![self.c]);
    }
}

pub proof fn lemma_until_suffix(s: Seq<char>, cs: Seq<char>)
    ensures
        suffix_of(spec_until(s, cs).0, s),
{
    lemma_first_of(s, cs);
    assert(s.skip(0) =~= s);
}

impl<'a> Parser<'a, &'a str> for UntilAny {
    open spec fn spec_parse(&self, s: Seq<char>) -> Option<(Seq<char>, Seq<char>)> {
        Some(spec_until(s, self.cs@))
    }

    open spec fn wf(&self) -> bool {
        true
    }

    fn parse(&self, input: &'a str) -> (r: Option<(&'a str, &'a str)>) {
        until_impl(input, &self.cs)
    }

    proof fn lemma_parse_suffix(&self, s: Seq<char>) {
        lemma_until_suffix(s, self.cs@);
    }
}

/// What consuming white space does.
pub open spec fn spec_ws(s: Seq<char>) -> Option<(Seq<char>, ())> {
    if s.len() > 0 && is_space(s[0]) {
        Some((s.skip(leading_spaces(s) as int), ()))
    } else {
        None
    }
}

pub proof fn lemma_leading_spaces(s: Seq<char>)
    ensures
        leading_spaces(s) <= s.len(),
        forall|i: int| 0 <= i < leading_spaces(s) ==> is_space(#[trigger] s[i]),
        leading_spaces(s) < s.len() ==> !is_space(s[leading_spaces(s) as int]),
    decreases s.len(),
{
    if s.len() > 0 && is_space(s[0]) {
        lemma_leading_spaces(s.drop_first());
        assert forall|i: int| 1 <= i < s.len() implies s[i] == s.drop_first()[i - 1] by {}
    }
}

/// The text after the white space at the start of `s`.
fn skip_spaces<'a>(s: &'a str) -> (r: &'a str)
    ensures
        r@ == s@.skip(leading_spaces(s@) as int),
{
    let mut rest = s;
    let ghost mut k: int = 0;
    assert(s@.skip(0) =~= s@);
    loop
        invariant
            0 <= k <= s@.len(),
            rest@ == s@.skip(k),
            leading_spaces(s@) == k + leading_spaces(rest@),
        decreases rest@.len(),
    {
        match split_first(rest) {
            None => {
                return rest;
            },
            Some((c, tail)) => {
                if !is_whitespace(c) {
                    return rest;
                }
                assert(tail@ =~= rest@.drop_first());
                rest = tail;
                proof {
                    k = k + 1;
                }
                assert(rest@ =~= s@.skip(k));
            },
        }
    }
}

impl<'a> Parser<'a, ()> for Whitespace {
    open spec fn spec_parse(&self, s: Seq<char>) -> Option<(Seq<char>, ())> {
        spec_ws(s)
    }

    open spec fn wf(&self) -> bool {
        true
    }

    fn parse(&self, input: &'a str) -> (r: Option<(&'a str, ())>) {
        match split_first(input) {
            None => None,
            Some((c, _)) => {
                if is_whitespace(c) {
                    Some((skip_spaces(input), ()))
                } else {
                    None
                }
            },
        }
    }

    proof fn lemma_parse_suffix(&self, s: Seq<char>) {
        lemma_leading_spaces(s);
    }
}

/// What matching the literal `t` does.
pub open spec fn spec_token(s: Seq<char>, t: Seq<char>) -> Option<(Seq<char>, Seq<char>)> {
    if starts_with(s, t) {
        Some((s.skip(t.len() as int), t))
    } else {
        None
    }
}

impl<'a, 'b> Parser<'a, &'a str> for Token<'b> {
    open spec fn spec_parse(&self, s: Seq<char>) -> Option<(Seq<char>, Seq<char>)> {
        spec_token(s, self.token@)
    }

    open spec fn wf(&self) -> bool {
        true
    }

    fn parse(&self, input: &'a str) -> (r: Option<(&'a str, &'a str)>) {
        match strip_literal(input, self.token) {
            None => None,
            Some(rest) => {
                note_len_bound(self.token);
                let n = self.token.unicode_len();
                let v = input.substring_char(0, n);
                Some((rest, v))
            },
        }
    }

    proof fn lemma_parse_suffix(&self, s: Seq<char>) {
    }
}

impl<'a, 'b> Parser<'a, ()> for Lookahead<'b> {
    open spec fn spec_parse(&self, s: Seq<char>) -> Option<(Seq<char>, ())> {
        if starts_with(s, self.token@) {
            Some((s, ()))
        } else {
            None
        }
    }

    open spec fn wf(&self) -> bool {
        true
    }

    fn parse(&self, input: &'a str) -> (r: Option<(&'a str, ())>) {
        match strip_literal(input, self.token) {
            None => None,
            Some(_) => Some((input, ())),
        }
    }

    proof fn lemma_parse_suffix(&self, s: Seq<char>) {
        assert(s.skip(0) =~= s);
    }
}

/// What reading one digit does.
pub open spec fn spec_digit(s: Seq<char>) -> Option<(Seq<char>, u32)> {
    if s.len() > 0 && is_digit(s[0]) {
        Some((s.drop_first(), digit_value(s[0])))
    } else {
        None
    }
}

impl<'a> Parser<'a, u32> for Digit {
    open spec fn spec_parse(&self, s: Seq<char>) -> Option<(Seq<char>, u32)> {
        spec_digit(s)
    }

    open spec fn wf(&self) -> bool {
        true
    }

    fn parse(&self, input: &'a str) -> (r: Option<(&'a str, u32)>) {
        match split_first(input) {
            None => None,
            Some((c, rest)) => {
                if '0' <= c && c <= '9' {
                    Some((rest, c as u32 - '0' as u32))
                } else {
                    None
                }
            },
        }
    }

    proof fn lemma_parse_suffix(&self, s: Seq<char>) {
        assert(s.drop_first() =~= s.skip(1));
    }
}

/// Scans up to the first occurrence of `c`: gives the text before it and
/// leaves the text from it on; where `c` does not occur, gives nothing and
/// leaves all of the text.
pub fn parse_until(c: char) -> (r: Until)
    ensures
        r.c == c,
{
    Until { c }
}

/// Scans up to the earliest occurrence of any of `cs`, as `parse_until` does
/// for one character.
pub fn parse_until_l(cs: Vec<char>) -> (r: UntilAny)
    ensures
        r.cs@ == cs@,
{
    UntilAny { cs }
}

/// Succeeds where the text starts with white space, and consumes all of it.
pub fn parse_ws() -> (r: Whitespace) {
    Whitespace
}

/// Succeeds where the text starts with `token`, and consumes it.
pub fn parse_token<'b>(token: &'b str) -> (r: Token<'b>)
    ensures
        r.token == token,
{
    Token { token }
}

/// Succeeds where the text starts with `token`, consuming nothing.
pub fn parse_lookahead<'b>(token: &'b str) -> (r: Lookahead<'b>)
    ensures
        r.token == token,
{
    Lookahead { token }
}

/// One ASCII decimal digit.
pub fn parse_digit() -> (r: Digit) {
    Digit
}

} // verus!
