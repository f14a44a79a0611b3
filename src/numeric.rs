//! Numeric parsers: integers, decimals and scientific notation, with numbers
//! kept exactly as written.

use vstd::prelude::*;
use vstd::arithmetic::div_mod::{
    lemma_add_mod_noop, lemma_mod_add_multiples_vanish, lemma_mul_mod_noop_left, lemma_small_mod,
};
use vstd::string::StrSliceExecFns;
use crate::combinators::{Many, Parser, outcome, spec_star};
use crate::lexical::{Digit, digit_value, is_digit, parse_digit};
use crate::text::{split_first, suffix_of};

verus! {

/// The number of decimal digits at the start of `s`.
pub open spec fn digit_run(s: Seq<char>) -> nat
    decreases s.len(),
{
    if s.len() > 0 && is_digit(s[0]) {
        1 + digit_run(s.drop_first())
    } else {
        0
    }
}

/// The values of the digit characters `ds`.
pub open spec fn digit_values(ds: Seq<char>) -> Seq<u32> {
    ds.map_values(|c: char| digit_value(c))
}

/// The number that the digit values `vs` write, the last one least
/// significant.
pub open spec fn decimal(vs: Seq<u32>) -> int
    decreases vs.len(),
{
    if vs.len() == 0 {
        0
    } else {
        decimal(vs.drop_last()) * 10 + vs.last()
    }
}

/// `x` brought into the range of `i32` by wrapping around modulo 2^32.
pub open spec fn wrap_i32(x: int) -> i32 {
    if x % 0x1_0000_0000 > i32::MAX {
        (x % 0x1_0000_0000 - 0x1_0000_0000) as i32
    } else {
        (x % 0x1_0000_0000) as i32
    }
}

pub proof fn lemma_digit_run(s: Seq<char>)
    ensures
        digit_run(s) <= s.len(),
        forall|i: int| 0 <= i < digit_run(s) ==> is_digit(#[trigger] s[i]),
        digit_run(s) < s.len() ==> !is_digit(s[digit_run(s) as int]),
    decreases s.len(),
{
    if s.len() > 0 && is_digit(s[0]) {
        lemma_digit_run(s.drop_first());
        assert forall|i: int| 1 <= i < s.len() implies s[i] == s.drop_first()[i - 1] by {}
    }
}

/// Repeating a digit reads the whole run of digits.
pub proof fn lemma_digits_star(s: Seq<char>)
    ensures
        spec_star::<u32, Digit>(Digit, s) == (
            s.skip(digit_run(s) as int),
            digit_values(s.take(digit_run(s) as int)),
        ),
    decreases s.len(),
{
    if s.len() > 0 && is_digit(s[0]) {
        let t = s.drop_first();
        lemma_digits_star(t);
        lemma_digit_run(t);
        assert(t.skip(digit_run(t) as int) =~= s.skip(digit_run(s) as int));
        assert(seq![digit_value(s[0])] + digit_values(t.take(digit_run(t) as int)) =~= digit_values(
            s.take(digit_run(s) as int),
        ));
    } else {
        assert(s.skip(0) =~= s);
        assert(digit_values(s.take(0)) =~= Seq::<u32>::empty());
    }
}

/// What one or more digits read: the run of digits and its values.
pub open spec fn spec_digits(s: Seq<char>) -> Option<(Seq<char>, Seq<u32>)> {
    if digit_run(s) > 0 {
        Some((s.skip(digit_run(s) as int), digit_values(s.take(digit_run(s) as int))))
    } else {
        None
    }
}

pub proof fn lemma_many_digits(s: Seq<char>)
    ensures
        (Many { f: Digit }).spec_parse(s) == spec_digits(s),
{
    lemma_digits_star(s);
}

proof fn lemma_wrap_mod(x: int)
    ensures
        wrap_i32(x) as int % 0x1_0000_0000 == x % 0x1_0000_0000,
{
    let m = x % 0x1_0000_0000;
    if m > i32::MAX {
        lemma_mod_add_multiples_vanish(m - 0x1_0000_0000, 0x1_0000_0000);
    }
}

proof fn lemma_wrap_step(a: int, d: int)
    ensures
        wrap_i32(wrap_i32(wrap_i32(a) * 10) + d) == wrap_i32(a * 10 + d),
{
    let r: int = 0x1_0000_0000;
    lemma_wrap_mod(a);
    lemma_wrap_mod(wrap_i32(a) * 10);
    lemma_mul_mod_noop_left(wrap_i32(a) as int, 10, r);
    lemma_mul_mod_noop_left(a, 10, r);
    lemma_add_mod_noop(wrap_i32(wrap_i32(a) * 10) as int, d, r);
    lemma_add_mod_noop(wrap_i32(a) * 10, d, r);
    lemma_add_mod_noop(a * 10, d, r);
}

proof fn lemma_wrap_neg(a: int)
    ensures
        wrap_i32(-wrap_i32(a)) == wrap_i32(-a),
{
    let r: int = 0x1_0000_0000;
    lemma_wrap_mod(a);
    lemma_mul_mod_noop_left(wrap_i32(a) as int, -1, r);
    lemma_mul_mod_noop_left(a, -1, r);
}

/// On sums and differences of two `i32`s, wrapping moves by at most one turn.
pub proof fn lemma_wrap_range(z: int)
    requires
        2 * (i32::MIN as int) <= z <= 2 * (i32::MAX as int),
    ensures
        wrap_i32(z) == (if z > i32::MAX {
            z - 0x1_0000_0000
        } else if z < i32::MIN {
            z + 0x1_0000_0000
        } else {
            z
        }),
{
    let r: int = 0x1_0000_0000;
    if z >= 0 {
        lemma_small_mod(z as nat, r as nat);
    } else {
        lemma_mod_add_multiples_vanish(z, r);
        lemma_small_mod((z + r) as nat, r as nat);
    }
}

/// The number that the digit values `ds` write, wrapped into `i32`.
fn decimal_i32(ds: &Vec<u32>) -> (r: i32)
    requires
        forall|i: int| 0 <= i < ds@.len() ==> ds@[i] <= 9,
    ensures
        r == wrap_i32(decimal(ds@)),
{
    let mut acc: i32 = 0;
    let mut i: usize = 0;
    while i < ds.len()
        invariant
            i <= ds@.len(),
            forall|j: int| 0 <= j < ds@.len() ==> ds@[j] <= 9,
            acc == wrap_i32(decimal(ds@.take(i as int))),
        decreases ds@.len() - i,
    {
        let d = ds[i];
        proof {
            assert(ds@.take(i + 1).drop_last() =~= ds@.take(i as int));
            lemma_wrap_step(decimal(ds@.take(i as int)), d as int);
            lemma_wrap_range(wrap_i32(acc * 10) + d);
        }
        let scaled = acc.wrapping_mul(10);
        acc = scaled.wrapping_add(d as i32);
        i += 1;
    }
    assert(ds@.take(ds@.len() as int) =~= ds@);
    acc
}

/// What reading an integer does: an optional `-` and one or more digits,
/// wrapped into `i32`.
pub open spec fn spec_integer(s: Seq<char>) -> Option<(Seq<char>, i32)> {
    if s.len() > 0 && s[0] == '-' && digit_run(s.drop_first()) > 0 {
        let t = s.drop_first();
        let k = digit_run(t);
        Some((t.skip(k as int), wrap_i32(-decimal(digit_values(t.take(k as int))))))
    } else if digit_run(s) > 0 {
        let k = digit_run(s);
        Some((s.skip(k as int), wrap_i32(decimal(digit_values(s.take(k as int))))))
    } else {
        None
    }
}

/// An integer: an optional `-` and one or more digits.
pub struct Integer;

/// Reads one or more digits.
fn read_digits<'a>(input: &'a str) -> (r: Option<(&'a str, Vec<u32>)>)
    ensures
        outcome(r) == spec_digits(input@),
        r matches Some((_, ds)) ==> forall|i: int| 0 <= i < ds@.len() ==> ds@[i] <= 9,
{
    proof {
        lemma_many_digits(input@);
        lemma_digit_run(input@);
    }
    let r = parse_digit().many().parse(input);
    proof {
        if let Some((_, ds)) = &r {
            let k = digit_run(input@) as int;
            assert(ds.deep_view() == digit_values(input@.take(k)));
            assert forall|i: int| 0 <= i < ds@.len() implies ds@[i] <= 9 by {
                assert(ds.deep_view()[i] == ds@[i]);
                assert(digit_values(input@.take(k))[i] == digit_value(input@.take(k)[i]));
                assert(input@.take(k)[i] == input@[i]);
                assert(is_digit(input@[i]));
            }
        }
    }
    r
}

impl<'a> Parser<'a, i32> for Integer {
    open spec fn spec_parse(&self, s: Seq<char>) -> Option<(Seq<char>, i32)> {
        spec_integer(s)
    }

    open spec fn wf(&self) -> bool {
        true
    }

    fn parse(&self, input: &'a str) -> (r: Option<(&'a str, i32)>) {
        match split_first(input) {
            Some((c, tail)) if c == '-' => {
                if let Some((rest, ds)) = read_digits(tail) {
                    let n = decimal_i32(&ds);
                    proof {
                        assert(ds.deep_view() =~= ds@);
                        lemma_wrap_neg(decimal(ds@));
                        lemma_wrap_range(0 - n);
                    }
                    return Some((rest, 0i32.wrapping_sub(n)));
                }
            },
            _ => {},
        }
        match read_digits(input) {
            None => None,
            Some((rest, ds)) => {
                assert(ds.deep_view() =~= ds@);
                Some((rest, decimal_i32(&ds)))
            },
        }
    }

    proof fn lemma_parse_suffix(&self, s: Seq<char>) {
        lemma_digit_run(s);
        if s.len() > 0 {
            lemma_digit_run(s.drop_first());
            assert(s.drop_first().skip(digit_run(s.drop_first()) as int) =~= s.skip(
                1 + digit_run(s.drop_first()) as int,
            ));
        }
    }
}

/// An optional `-` followed by one or more digits, as an `i32` that wraps
/// around where the digits write a number out of its range.
pub fn parse_integer() -> (r: Integer) {
    Integer
}


/// A decimal number as written: a sign, the digits before and after the
/// point, and a power of ten. Its value is the digits of `whole` and `frac`
/// read as one integer, times ten to `exponent` less the length of `frac`,
/// negated where `negative`.
#[derive(Clone, Copy, Debug, PartialEq)]
pub struct Number<'a> {
    pub negative: bool,
    pub whole: &'a str,
    pub frac: &'a str,
    pub exponent: i32,
}

/// The model of a `Number`.
pub struct NumberModel {
    pub negative: bool,
    pub whole: Seq<char>,
    pub frac: Seq<char>,
    pub exponent: i32,
}

impl<'a> DeepView for Number<'a> {
    type V = NumberModel;

    open spec fn deep_view(&self) -> NumberModel {
        NumberModel { negative: self.negative, whole: self.whole@, frac: self.frac@, exponent: self.exponent }
    }
}

impl NumberModel {
    /// All the digits, read as one integer.
    pub open spec fn mantissa(self) -> int {
        decimal(digit_values(self.whole + self.frac))
    }

    /// The power of ten that the mantissa is scaled by.
    pub open spec fn scale(self) -> int {
        self.exponent - self.frac.len()
    }
}

/// What reading an unsigned decimal does: one or more digits, then
/// optionally a `.` and one or more digits.
pub open spec fn spec_float(s: Seq<char>) -> Option<(Seq<char>, NumberModel)> {
    let k = digit_run(s);
    let t = s.skip(k as int);
    if k == 0 {
        None
    } else if t.len() > 0 && t[0] == '.' && digit_run(t.drop_first()) > 0 {
        let u = t.drop_first();
        let m = digit_run(u);
        Some((
            u.skip(m as int),
            NumberModel { negative: false, whole: s.take(k as int), frac: u.take(m as int), exponent: 0 },
        ))
    } else {
        Some((t, NumberModel { negative: false, whole: s.take(k as int), frac: Seq::empty(), exponent: 0 }))
    }
}

/// An exponent marker `e` followed by an integer, at the start of `s`.
pub open spec fn spec_exponent(s: Seq<char>) -> Option<(Seq<char>, i32)> {
    if s.len() > 0 && s[0] == 'e' {
        spec_integer(s.drop_first())
    } else {
        None
    }
}

/// `n` with its sign set to negative.
pub open spec fn negated(n: NumberModel) -> NumberModel {
    NumberModel { negative: true, ..n }
}

/// `n` scaled by ten to `e`.
pub open spec fn with_exponent(n: NumberModel, e: i32) -> NumberModel {
    NumberModel { exponent: e, ..n }
}

/// What reading a number in scientific notation does. Tried in order: `-`,
/// a decimal and an exponent; a decimal and an exponent; `-` and a decimal;
/// a decimal. The first that matches gives the result.
pub open spec fn spec_scientific(s: Seq<char>) -> Option<(Seq<char>, NumberModel)> {
    let minus = s.len() > 0 && s[0] == '-';
    let negative_part = if minus {
        spec_float(s.drop_first())
    } else {
        None
    };
    match negative_part {
        Some((r, f)) if spec_exponent(r) is Some => {
            let (r2, e) = spec_exponent(r).unwrap();
            Some((r2, with_exponent(negated(f), e)))
        },
        _ => match spec_float(s) {
            Some((r, f)) if spec_exponent(r) is Some => {
                let (r2, e) = spec_exponent(r).unwrap();
                Some((r2, with_exponent(f, e)))
            },
            _ => match negative_part {
                Some((r, f)) => Some((r, negated(f))),
                None => spec_float(s),
            },
        },
    }
}

pub struct Float;

pub struct Scientific;

proof fn lemma_float_suffix(s: Seq<char>)
    ensures
        spec_float(s) matches Some((r, _)) ==> suffix_of(r, s),
{
    lemma_digit_run(s);
    let k = digit_run(s);
    let t = s.skip(k as int);
    if t.len() > 0 {
        lemma_digit_run(t.drop_first());
        assert(t.drop_first().skip(digit_run(t.drop_first()) as int) =~= s.skip(
            k + 1 + digit_run(t.drop_first()) as int,
        ));
    }
}

proof fn lemma_integer_suffix(s: Seq<char>)
    ensures
        spec_integer(s) matches Some((r, _)) ==> suffix_of(r, s),
{
    Integer.lemma_parse_suffix(s);
}

fn read_float<'a>(input: &'a str) -> (r: Option<(&'a str, Number<'a>)>)
    ensures
        outcome(r) == spec_float(input@),
{
    proof {
        lemma_digit_run(input@);
    }
    match read_digits(input) {
        None => None,
        Some((rest, ds)) => {
            assert(ds.deep_view().len() == ds@.len());
            let whole = input.substring_char(0, ds.len());
            assert(whole@ =~= input@.take(digit_run(input@) as int));
            let plain = Number { negative: false, whole, frac: "", exponent: 0 };
            proof {
                reveal_strlit("");
            }
            assert(plain.frac@ =~= Seq::<char>::empty());
            match split_first(rest) {
                Some((c, after)) if c == '.' => {
                    proof {
                        lemma_digit_run(after@);
                    }
                    match read_digits(after) {
                        Some((rest2, fs)) => {
                            assert(fs.deep_view().len() == fs@.len());
                            let frac = after.substring_char(0, fs.len());
                            assert(frac@ =~= after@.take(digit_run(after@) as int));
                            Some((rest2, Number { negative: false, whole, frac, exponent: 0 }))
                        },
                        None => Some((rest, plain)),
                    }
                },
                _ => Some((rest, plain)),
            }
        },
    }
}

fn read_exponent<'a>(input: &'a str) -> (r: Option<(&'a str, i32)>)
    ensures
        outcome(r) == spec_exponent(input@),
{
    match split_first(input) {
        Some((c, after)) if c == 'e' => Integer.parse(after),
        _ => None,
    }
}

impl<'a> Parser<'a, Number<'a>> for Float {
    open spec fn spec_parse(&self, s: Seq<char>) -> Option<(Seq<char>, NumberModel)> {
        spec_float(s)
    }

    open spec fn wf(&self) -> bool {
        true
    }

    fn parse(&self, input: &'a str) -> (r: Option<(&'a str, Number<'a>)>) {
        read_float(input)
    }

    proof fn lemma_parse_suffix(&self, s: Seq<char>) {
        lemma_float_suffix(s);
    }
}

impl<'a> Parser<'a, Number<'a>> for Scientific {
    open spec fn spec_parse(&self, s: Seq<char>) -> Option<(Seq<char>, NumberModel)> {
        spec_scientific(s)
    }

    open spec fn wf(&self) -> bool {
        true
    }

    fn parse(&self, input: &'a str) -> (r: Option<(&'a str, Number<'a>)>) {
        let negative_part = match split_first(input) {
            Some((c, after)) if c == '-' => read_float(after),
            _ => None,
        };
        if let Some((r, f)) = negative_part {
            if let Some((r2, e)) = read_exponent(r) {
                return Some((r2, Number { negative: true, exponent: e, ..f }));
            }
        }
        if let Some((r, f)) = read_float(input) {
            if let Some((r2, e)) = read_exponent(r) {
                return Some((r2, Number { exponent: e, ..f }));
            }
        }
        match negative_part {
            Some((r, f)) => Some((r, Number { negative: true, ..f })),
            None => read_float(input),
        }
    }

    proof fn lemma_parse_suffix(&self, s: Seq<char>) {
        lemma_float_suffix(s);
        if s.len() > 0 {
            lemma_float_suffix(s.drop_first());
            if let Some((r, _)) = spec_float(s.drop_first()) {
                assert(suffix_of(s.drop_first(), s)) by {
                    assert(s.drop_first() =~= s.skip(1));
                }
                crate::text::lemma_suffix_trans(r, s.drop_first(), s);
                if r.len() > 0 {
                    lemma_integer_suffix(r.drop_first());
                    if let Some((r2, _)) = spec_integer(r.drop_first()) {
                        assert(r.drop_first() =~= r.skip(1));
                        crate::text::lemma_suffix_trans(r2, r.drop_first(), r);
                        crate::text::lemma_suffix_trans(r2, r, s);
                    }
                }
            }
        }
        if let Some((r, _)) = spec_float(s) {
            if r.len() > 0 {
                lemma_integer_suffix(r.drop_first());
                if let Some((r2, _)) = spec_integer(r.drop_first()) {
                    assert(r.drop_first() =~= r.skip(1));
                    crate::text::lemma_suffix_trans(r2, r.drop_first(), r);
                    crate::text::lemma_suffix_trans(r2, r, s);
                }
            }
        }
    }
}

/// One or more digits, optionally followed by `.` and one or more digits.
pub fn parse_float() -> (r: Float) {
    Float
}

/// A decimal with an optional leading `-` and an optional exponent `e`
/// followed by an integer.
pub fn parse_scientific() -> (r: Scientific) {
    Scientific
}

} // verus!
