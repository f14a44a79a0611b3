//! Writing a tree back as text, and the proof that a tree of the supported
//! form reads back as itself.

use vstd::prelude::*;
use vstd::string::StringExecFns;
use crate::combinators::spec_delimited;
use crate::document::{
    Attr, Collada, Doc, TagParameter, TagParameterP, closed_stops, open_stops, skip_ws, spec_attr_list,
    spec_closed, spec_content, spec_doc, spec_more_docs, spec_numbers, spec_param, spec_param_head,
    spec_param_int, spec_param_str, spec_tag, spec_tag_close, spec_tag_open,
};
use crate::lexical::{Whitespace, digit_value, first_of, is_digit, leading_spaces, spec_until, starts_with};
use crate::numeric::{Number, NumberModel, Scientific, decimal, digit_run, digit_values, spec_integer};
use crate::text::{is_space, suffix_of};

verus! {

/// The decimal digits of `n`, most significant first.
pub open spec fn digits_of(n: nat) -> Seq<char>
    decreases n,
{
    if n < 10 {
        seq![digit_char(n)]
    } else {
        digits_of(n / 10).push(digit_char(n % 10))
    }
}

/// The character of the digit `d`.
pub open spec fn digit_char(d: nat) -> char {
    if d == 0 {
        '0'
    } else if d == 1 {
        '1'
    } else if d == 2 {
        '2'
    } else if d == 3 {
        '3'
    } else if d == 4 {
        '4'
    } else if d == 5 {
        '5'
    } else if d == 6 {
        '6'
    } else if d == 7 {
        '7'
    } else if d == 8 {
        '8'
    } else {
        '9'
    }
}

/// An integer written in decimal, with `-` before a negative one.
pub open spec fn int_text(v: i32) -> Seq<char> {
    if v < 0 {
        seq!['-'] + digits_of((-v) as nat)
    } else {
        digits_of(v as nat)
    }
}

/// An attribute written as `name="value"`.
pub open spec fn attr_text(a: Attr) -> Seq<char> {
    match a {
        Attr::Str(n, v) => n + seq!['=', '"'] + v + seq!['"'],
        Attr::Int(n, v) => n + seq!['=', '"'] + int_text(v) + seq!['"'],
    }
}

/// Attributes, each written after a space.
pub open spec fn attrs_text(attrs: Seq<Attr>) -> Seq<char>
    decreases attrs.len(),
{
    if attrs.len() == 0 {
        Seq::empty()
    } else {
        seq![' '] + attr_text(attrs[0]) + attrs_text(attrs.drop_first())
    }
}

/// The sign, whole digits and, where there are any, a point and the
/// fraction digits of a number.
pub open spec fn mantissa_text(n: NumberModel) -> Seq<char> {
    (if n.negative {
        seq!['-']
    } else {
        Seq::empty()
    }) + n.whole + (if n.frac.len() > 0 {
        seq!['.'] + n.frac
    } else {
        Seq::empty()
    })
}

/// An exponent other than zero, written as `e` and an integer.
pub open spec fn exponent_text(e: i32) -> Seq<char> {
    if e == 0 {
        Seq::empty()
    } else {
        seq!['e'] + int_text(e)
    }
}

/// A number written as its mantissa and its exponent.
pub open spec fn number_text(n: NumberModel) -> Seq<char> {
    mantissa_text(n) + exponent_text(n.exponent)
}

/// Numbers separated by single spaces.
pub open spec fn numbers_text(ns: Seq<NumberModel>) -> Seq<char>
    decreases ns.len(),
{
    if ns.len() == 0 {
        Seq::empty()
    } else if ns.len() == 1 {
        number_text(ns[0])
    } else {
        number_text(ns[0]) + seq![' '] + numbers_text(ns.drop_first())
    }
}

/// A document tree written back as text.
pub open spec fn doc_text(d: Doc) -> Seq<char>
    decreases d, 0nat,
{
    match d {
        Doc::Empty => Seq::empty(),
        Doc::Header(b) => seq!['<', '?', '?', '>'] + doc_text(*b),
        Doc::Text(t) => t,
        Doc::Numbers(ns) => numbers_text(ns),
        Doc::Tag(n, attrs, cs) => seq!['<'] + n + attrs_text(attrs) + seq!['>'] + children_text(cs, 0)
            + seq!['<', '/'] + n + seq!['>'],
        Doc::Closed(n, attrs) => seq!['<'] + n + attrs_text(attrs) + seq!['/', '>'],
    }
}

/// The texts of `cs` from position `i` on, one after another.
pub open spec fn children_text(cs: Seq<Doc>, i: int) -> Seq<char>
    decreases cs, cs.len() - i,
{
    if 0 <= i < cs.len() {
        doc_text(cs[i]) + children_text(cs, i + 1)
    } else {
        Seq::empty()
    }
}


pub proof fn lemma_until_concat(a: Seq<char>, b: Seq<char>, cs: Seq<char>)
    requires
        forall|i: int| 0 <= i < a.len() ==> !cs.contains(#[trigger] a[i]),
        b.len() > 0,
        cs.contains(b[0]),
    ensures
        spec_until(a + b, cs) == (b, a),
    decreases a.len(),
{
    lemma_first_of_concat(a, b, cs);
    assert((a + b).skip(a.len() as int) =~= b);
    assert((a + b).take(a.len() as int) =~= a);
}

proof fn lemma_first_of_concat(a: Seq<char>, b: Seq<char>, cs: Seq<char>)
    requires
        forall|i: int| 0 <= i < a.len() ==> !cs.contains(#[trigger] a[i]),
        b.len() > 0,
        cs.contains(b[0]),
    ensures
        first_of(a + b, cs) == Some(a.len()),
    decreases a.len(),
{
    if a.len() > 0 {
        assert(!cs.contains(a[0]));
        assert((a + b).drop_first() =~= a.drop_first() + b);
        assert forall|i: int| 0 <= i < a.drop_first().len() implies !cs.contains(#[trigger] a.drop_first()[i]) by {
            assert(a.drop_first()[i] == a[i + 1]);
        }
        lemma_first_of_concat(a.drop_first(), b, cs);
    } else {
        assert(a + b =~= b);
    }
}

pub proof fn lemma_starts_concat(t: Seq<char>, b: Seq<char>)
    ensures
        starts_with(t + b, t),
        (t + b).skip(t.len() as int) == b,
{
    assert((t + b).take(t.len() as int) =~= t);
    assert((t + b).skip(t.len() as int) =~= b);
}

pub proof fn lemma_leading_spaces_concat(a: Seq<char>, b: Seq<char>)
    requires
        forall|i: int| 0 <= i < a.len() ==> is_space(#[trigger] a[i]),
        b.len() == 0 || !is_space(b[0]),
    ensures
        leading_spaces(a + b) == a.len(),
        skip_ws(a + b) == b,
    decreases a.len(),
{
    if a.len() > 0 {
        assert((a + b).drop_first() =~= a.drop_first() + b);
        assert forall|i: int| 0 <= i < a.drop_first().len() implies is_space(#[trigger] a.drop_first()[i]) by {
            assert(a.drop_first()[i] == a[i + 1]);
        }
        lemma_leading_spaces_concat(a.drop_first(), b);
    } else {
        assert(a + b =~= b);
    }
    assert((a + b).skip(a.len() as int) =~= b);
}

pub proof fn lemma_digit_run_concat(a: Seq<char>, b: Seq<char>)
    requires
        forall|i: int| 0 <= i < a.len() ==> is_digit(#[trigger] a[i]),
        b.len() == 0 || !is_digit(b[0]),
    ensures
        digit_run(a + b) == a.len(),
    decreases a.len(),
{
    if a.len() > 0 {
        assert((a + b).drop_first() =~= a.drop_first() + b);
        assert forall|i: int| 0 <= i < a.drop_first().len() implies is_digit(#[trigger] a.drop_first()[i]) by {
            assert(a.drop_first()[i] == a[i + 1]);
        }
        lemma_digit_run_concat(a.drop_first(), b);
    } else {
        assert(a + b =~= b);
    }
}

pub proof fn lemma_digits_of(n: nat)
    ensures
        digits_of(n).len() > 0,
        forall|i: int| 0 <= i < digits_of(n).len() ==> is_digit(#[trigger] digits_of(n)[i]),
        decimal(digit_values(digits_of(n))) == n,
    decreases n,
{
    if n >= 10 {
        lemma_digits_of(n / 10);
        let p = digits_of(n / 10);
        let c = digit_char(n % 10);
        assert(digit_values(p.push(c)) =~= digit_values(p).push(digit_value(c)));
        assert(digit_values(p).push(digit_value(c)).drop_last() =~= digit_values(p));
        assert(digit_value(c) == n % 10);
        let dv = digit_values(p).push(digit_value(c));
        assert(decimal(dv) == decimal(dv.drop_last()) * 10 + dv.last());
        vstd::arithmetic::div_mod::lemma_fundamental_div_mod(n as int, 10);
        assert(digits_of(n) == p.push(c));
        assert(digit_values(digits_of(n)) == dv);
        assert(decimal(dv) == (n / 10) * 10 + n % 10);
        assert forall|i: int| 0 <= i < digits_of(n).len() implies is_digit(#[trigger] digits_of(n)[i]) by {
            if i < p.len() {
                assert(digits_of(n)[i] == p[i]);
            }
        }
    } else {
        assert(digit_value(digit_char(n)) == n);
        let dv = digit_values(seq![digit_char(n)]);
        assert(dv.drop_last() =~= Seq::<u32>::empty());
        assert(decimal(dv) == decimal(dv.drop_last()) * 10 + dv.last());
        assert(digit_values(seq![digit_char(n)]) =~= seq![digit_value(digit_char(n))]);
        assert(seq![digit_value(digit_char(n))].drop_last() =~= Seq::<u32>::empty());
    }
}

pub proof fn lemma_int_text(v: i32, b: Seq<char>)
    requires
        b.len() == 0 || !is_digit(b[0]),
    ensures
        spec_integer(int_text(v) + b) == Some((b, v)),
{
    if v < 0 {
        let d = digits_of((-v) as nat);
        lemma_digits_of((-v) as nat);
        lemma_digit_run_concat(d, b);
        let s = int_text(v) + b;
        assert(s.drop_first() =~= d + b);
        assert((d + b).skip(d.len() as int) =~= b);
        assert((d + b).take(d.len() as int) =~= d);
        crate::numeric::lemma_wrap_range(v as int);
    } else {
        let d = digits_of(v as nat);
        lemma_digits_of(v as nat);
        lemma_digit_run_concat(d, b);
        assert((d + b).skip(d.len() as int) =~= b);
        assert((d + b).take(d.len() as int) =~= d);
        assert(is_digit((d + b)[0]));
        crate::numeric::lemma_wrap_range(v as int);
    }
}


/// A character that may stand in a tag's name.
pub open spec fn is_tag_char(c: char) -> bool {
    c != '>' && c != ' ' && c != '/'
}

/// A character that may stand in an attribute's name.
pub open spec fn is_attr_char(c: char) -> bool {
    c != '=' && c != '/' && c != '>' && c != '<'
}

/// A tag's name that reads back as itself: not empty, without `>`, space or
/// `/`, and not starting with `?`.
pub open spec fn wf_tag_name(n: Seq<char>) -> bool {
    n.len() > 0 && n[0] != '?' && forall|i: int| 0 <= i < n.len() ==> is_tag_char(#[trigger] n[i])
}

/// An attribute's name that reads back as itself: not empty, without `=`,
/// `/`, `<` or `>`, and not starting with white space.
pub open spec fn wf_attr_name(n: Seq<char>) -> bool {
    n.len() > 0 && !is_space(n[0]) && forall|i: int| 0 <= i < n.len() ==> is_attr_char(#[trigger] n[i])
}

/// Digits only, at least one.
pub open spec fn all_digits(v: Seq<char>) -> bool {
    v.len() > 0 && forall|i: int| 0 <= i < v.len() ==> is_digit(#[trigger] v[i])
}

/// Text that is an integer as written: digits, after an optional `-`.
pub open spec fn int_literal(v: Seq<char>) -> bool {
    all_digits(v) || (v.len() > 1 && v[0] == '-' && all_digits(v.drop_first()))
}

/// An attribute that reads back as itself: a proper name, and a string value
/// without `"` that is not an integer as written.
pub open spec fn wf_attr(a: Attr) -> bool {
    match a {
        Attr::Str(n, v) => wf_attr_name(n) && !v.contains('"') && !int_literal(v),
        Attr::Int(n, _) => wf_attr_name(n),
    }
}

/// A string value that is not an integer as written does not read as an
/// integer up to the closing quote.
proof fn lemma_int_stops(v: Seq<char>, q: Seq<char>)
    requires
        q.len() > 0,
        q[0] == '"',
        !v.contains('"'),
        !int_literal(v),
    ensures
        !(spec_integer(v + q) matches Some((r2, _)) && r2.len() > 0 && r2[0] == '"'),
{
    let s = v + q;
    if v.len() == 0 {
        assert(s =~= q);
        crate::numeric::lemma_digit_run(s);
        return;
    }
    assert(s[0] == v[0]);
    if s[0] == '-' && digit_run(s.drop_first()) > 0 {
        let t = s.drop_first();
        let k = digit_run(t);
        crate::numeric::lemma_digit_run(t);
        assert(t =~= v.drop_first() + q);
        assert(t[v.len() - 1] == '"');
        assert(k <= v.len() - 1);
        if k == v.len() - 1 {
            assert forall|i: int| 0 <= i < v.drop_first().len() implies is_digit(#[trigger] v.drop_first()[i]) by {
                assert(t[i] == v.drop_first()[i]);
            }
            assert(int_literal(v));
        } else {
            assert(t.skip(k as int)[0] == v[(k + 1) as int]);
            if v[(k + 1) as int] == '"' {
                assert(v.contains('"'));
            }
        }
    } else if digit_run(s) > 0 {
        let k = digit_run(s);
        crate::numeric::lemma_digit_run(s);
        assert(s[v.len() as int] == '"');
        assert(k <= v.len());
        if k == v.len() {
            assert forall|i: int| 0 <= i < v.len() implies is_digit(#[trigger] v[i]) by {
                assert(s[i] == v[i]);
            }
            assert(int_literal(v));
        } else {
            assert(s.skip(k as int)[0] == v[k as int]);
            if v[k as int] == '"' {
                assert(v.contains('"'));
            }
        }
    }
}

pub open spec fn wf_attrs(attrs: Seq<Attr>) -> bool {
    forall|i: int| 0 <= i < attrs.len() ==> wf_attr(#[trigger] attrs[i])
}

proof fn lemma_name_no(n: Seq<char>, p: spec_fn(char) -> bool, c: char)
    requires
        forall|i: int| 0 <= i < n.len() ==> p(#[trigger] n[i]),
        !p(c),
    ensures
        forall|i: int| 0 <= i < n.len() ==> !seq![c].contains(#[trigger] n[i]),
        !n.contains(c),
{
    assert forall|i: int| 0 <= i < n.len() implies !seq![c].contains(#[trigger] n[i]) by {
        assert(p(n[i]));
        if seq![c].contains(n[i]) {
            let k = choose|k: int| 0 <= k < 1 && seq![c][k] == n[i];
        }
    }
    if n.contains(c) {
        let k = choose|k: int| 0 <= k < n.len() && n[k] == c;
        assert(p(n[k]));
    }
}

/// An attribute reads back as itself, whatever follows it.
pub proof fn lemma_attr_read(a: Attr, b: Seq<char>)
    requires
        wf_attr(a),
    ensures
        spec_param(attr_text(a) + b) == Some((b, a)),
{
    let (n, val) = match a {
        Attr::Str(n, v) => (n, v),
        Attr::Int(n, v) => (n, int_text(v)),
    };
    let s = attr_text(a) + b;
    let after_name = seq!['=', '"'] + val + seq!['"'] + b;
    assert(s =~= n + after_name);
    lemma_name_no(n, |c: char| is_attr_char(c), '=');
    assert(seq!['='].contains(after_name[0])) by {
        assert(seq!['='][0] == after_name[0]);
    }
    lemma_until_concat(n, after_name, seq!['=']);
    lemma_starts_concat(seq!['=', '"'], val + seq!['"'] + b);
    assert(after_name =~= seq!['=', '"'] + (val + seq!['"'] + b));
    let r = val + seq!['"'] + b;
    assert(spec_param_head(s) == Some((r, n)));
    assert(!n.contains('/') && !n.contains('>') && !n.contains('<')) by {
        lemma_name_no(n, |c: char| is_attr_char(c), '/');
        lemma_name_no(n, |c: char| is_attr_char(c), '>');
        lemma_name_no(n, |c: char| is_attr_char(c), '<');
    }
    match a {
        Attr::Str(_, v) => {
            let q = seq!['"'] + b;
            assert(r =~= v + q);
            lemma_int_stops(v, q);
            assert(spec_param_int(s) is None);
            assert forall|i: int| 0 <= i < v.len() implies !seq!['"'].contains(#[trigger] v[i]) by {
                if seq!['"'].contains(v[i]) {
                    let k = choose|k: int| 0 <= k < 1 && seq!['"'][k] == v[i];
                    assert(v.contains('"'));
                }
            }
            assert(seq!['"'].contains(q[0])) by {
                assert(seq!['"'][0] == q[0]);
            }
            lemma_until_concat(v, q, seq!['"']);
            lemma_starts_concat(seq!['"'], b);
            assert(spec_param_str(s) == Some((b, a)));
        },
        Attr::Int(_, v) => {
            let q = seq!['"'] + b;
            assert(r =~= int_text(v) + q);
            lemma_int_text(v, q);
            lemma_starts_concat(seq!['"'], b);
            assert(spec_param_int(s) == Some((b, a)));
        },
    }
}


/// Where the text starts with `>` or `/`, no attribute is read.
pub proof fn lemma_param_fails(b: Seq<char>)
    requires
        b.len() > 0,
        b[0] == '>' || b[0] == '/',
    ensures
        spec_param(b) is None,
{
    crate::lexical::lemma_first_of(b, seq!['=']);
    match first_of(b, seq!['=']) {
        None => {
            assert(!starts_with(b, seq!['=', '"'])) by {
                if starts_with(b, seq!['=', '"']) {
                    assert(b.take(2)[0] == b[0]);
                }
            }
        },
        Some(k) => {
            if k == 0 {
                assert(seq!['='].contains(b[0]));
                let j = choose|j: int| 0 <= j < 1 && seq!['='][j] == b[0];
            } else {
                let name = b.take(k as int);
                assert(name[0] == b[0]);
                assert(name.contains('>') || name.contains('/'));
            }
        },
    }
}

proof fn lemma_attr_text_start(a: Attr)
    requires
        wf_attr(a),
    ensures
        attr_text(a).len() > 0,
        !is_space(attr_text(a)[0]),
{
    match a {
        Attr::Str(n, v) => {
            assert(attr_text(a)[0] == n[0]);
        },
        Attr::Int(n, v) => {
            assert(attr_text(a)[0] == n[0]);
        },
    }
}

proof fn lemma_attrs_delimited(attrs: Seq<Attr>, b: Seq<char>)
    requires
        wf_attrs(attrs),
        b.len() > 0,
        b[0] == '>' || b[0] == '/',
    ensures
        spec_delimited::<TagParameter<'static>, (), TagParameterP, Whitespace>(
            TagParameterP,
            Whitespace,
            attrs_text(attrs) + b,
        ) == (b, attrs),
    decreases attrs.len(),
{
    let s = attrs_text(attrs) + b;
    if attrs.len() == 0 {
        assert(s =~= b);
        assert(crate::lexical::spec_ws(b) is None);
        assert(attrs =~= Seq::<Attr>::empty());
    } else {
        let a = attrs[0];
        let rest = attrs.drop_first();
        assert(wf_attr(a));
        assert(wf_attrs(rest)) by {
            assert forall|i: int| 0 <= i < rest.len() implies wf_attr(#[trigger] rest[i]) by {
                assert(rest[i] == attrs[i + 1]);
            }
        }
        let r1 = attr_text(a) + (attrs_text(rest) + b);
        assert(s =~= seq![' '] + r1);
        lemma_attr_text_start(a);
        assert(is_space(' '));
        lemma_leading_spaces_concat(seq![' '], r1);
        assert(crate::lexical::spec_ws(s) == Some((r1, ())));
        lemma_attr_read(a, attrs_text(rest) + b);
        lemma_attrs_delimited(rest, b);
        assert(seq![a] + rest =~= attrs);
    }
}

/// The attributes written after a tag's name read back as themselves, up to
/// the `>` or `/` that follows them.
pub proof fn lemma_attr_list_read(attrs: Seq<Attr>, b: Seq<char>)
    requires
        wf_attrs(attrs),
        b.len() > 0,
        b[0] == '>' || b[0] == '/',
    ensures
        spec_attr_list(skip_ws(attrs_text(attrs) + b)) == (b, attrs),
{
    let s = attrs_text(attrs) + b;
    assert(!is_space(b[0]));
    if attrs.len() == 0 {
        assert(s =~= Seq::<char>::empty() + b);
        lemma_leading_spaces_concat(Seq::<char>::empty(), b);
        lemma_param_fails(b);
        assert(attrs =~= Seq::<Attr>::empty());
    } else {
        let a = attrs[0];
        let rest = attrs.drop_first();
        assert(wf_attr(a));
        assert(wf_attrs(rest)) by {
            assert forall|i: int| 0 <= i < rest.len() implies wf_attr(#[trigger] rest[i]) by {
                assert(rest[i] == attrs[i + 1]);
            }
        }
        let r1 = attr_text(a) + (attrs_text(rest) + b);
        assert(s =~= seq![' '] + r1);
        lemma_attr_text_start(a);
        assert(is_space(' '));
        lemma_leading_spaces_concat(seq![' '], r1);
        lemma_attr_read(a, attrs_text(rest) + b);
        lemma_attrs_delimited(rest, b);
        assert(seq![a] + rest =~= attrs);
    }
}


/// A number that reads back as itself: at least one whole digit, and
/// digits only.
pub open spec fn wf_number(n: NumberModel) -> bool {
    &&& n.whole.len() > 0
    &&& forall|i: int| 0 <= i < n.whole.len() ==> is_digit(#[trigger] n.whole[i])
    &&& forall|i: int| 0 <= i < n.frac.len() ==> is_digit(#[trigger] n.frac[i])
}

pub open spec fn wf_numbers(ns: Seq<NumberModel>) -> bool {
    ns.len() > 0 && forall|i: int| 0 <= i < ns.len() ==> wf_number(#[trigger] ns[i])
}

/// Text that reads back as itself: not empty, without `<`, and not starting
/// with white space or like a number.
pub open spec fn wf_text(t: Seq<char>) -> bool {
    &&& t.len() > 0
    &&& !t.contains('<')
    &&& !is_space(t[0])
    &&& exists|i: int| 0 <= i < t.len() && !number_char(#[trigger] t[i])
}

/// A character that can stand in a run of numbers.
pub open spec fn number_char(c: char) -> bool {
    is_digit(c) || c == '.' || c == '-' || c == 'e' || is_space(c)
}

/// `r` is what is left of `s` after a prefix of characters that can stand
/// in a run of numbers.
pub open spec fn numeric_prefix(s: Seq<char>, r: Seq<char>) -> bool {
    &&& suffix_of(r, s)
    &&& forall|i: int| 0 <= i < s.len() - r.len() ==> number_char(#[trigger] s[i])
}

proof fn lemma_numeric_prefix_trans(a: Seq<char>, b: Seq<char>, c: Seq<char>)
    requires
        numeric_prefix(a, b),
        numeric_prefix(b, c),
    ensures
        numeric_prefix(a, c),
{
    crate::text::lemma_suffix_trans(c, b, a);
    assert forall|i: int| 0 <= i < a.len() - c.len() implies number_char(#[trigger] a[i]) by {
        if i >= a.len() - b.len() {
            let j = i - (a.len() - b.len());
            assert(b[j] == a[i]);
            assert(number_char(b[j]));
        }
    }
}

proof fn lemma_digits_prefix(s: Seq<char>)
    ensures
        numeric_prefix(s, s.skip(digit_run(s) as int)),
{
    crate::numeric::lemma_digit_run(s);
    assert(s.skip(digit_run(s) as int) =~= s.skip(s.len() - s.skip(digit_run(s) as int).len()));
}

proof fn lemma_one_prefix(s: Seq<char>)
    requires
        s.len() > 0,
        number_char(s[0]),
    ensures
        numeric_prefix(s, s.drop_first()),
{
    assert(s.drop_first() =~= s.skip(1));
}

proof fn lemma_float_prefix(s: Seq<char>)
    ensures
        crate::numeric::spec_float(s) matches Some((r, _)) ==> numeric_prefix(s, r),
{
    let k = digit_run(s);
    let t = s.skip(k as int);
    lemma_digits_prefix(s);
    if k > 0 && t.len() > 0 && t[0] == '.' && digit_run(t.drop_first()) > 0 {
        lemma_one_prefix(t);
        lemma_digits_prefix(t.drop_first());
        lemma_numeric_prefix_trans(s, t, t.drop_first());
        lemma_numeric_prefix_trans(s, t.drop_first(), t.drop_first().skip(digit_run(t.drop_first()) as int));
    }
}

proof fn lemma_integer_prefix(s: Seq<char>)
    ensures
        spec_integer(s) matches Some((r, _)) ==> numeric_prefix(s, r),
{
    lemma_digits_prefix(s);
    if s.len() > 0 && s[0] == '-' {
        lemma_one_prefix(s);
        lemma_digits_prefix(s.drop_first());
        lemma_numeric_prefix_trans(s, s.drop_first(), s.drop_first().skip(digit_run(s.drop_first()) as int));
    }
}

proof fn lemma_exponent_prefix(s: Seq<char>)
    ensures
        crate::numeric::spec_exponent(s) matches Some((r, _)) ==> numeric_prefix(s, r),
{
    if s.len() > 0 && s[0] == 'e' {
        lemma_one_prefix(s);
        lemma_integer_prefix(s.drop_first());
        if let Some((r, _)) = spec_integer(s.drop_first()) {
            lemma_numeric_prefix_trans(s, s.drop_first(), r);
        }
    }
}

proof fn lemma_scientific_prefix(s: Seq<char>)
    ensures
        crate::numeric::spec_scientific(s) matches Some((r, _)) ==> numeric_prefix(s, r),
{
    lemma_float_prefix(s);
    if let Some((r, _)) = crate::numeric::spec_float(s) {
        lemma_exponent_prefix(r);
        if let Some((r2, _)) = crate::numeric::spec_exponent(r) {
            lemma_numeric_prefix_trans(s, r, r2);
        }
    }
    if s.len() > 0 && s[0] == '-' {
        let t = s.drop_first();
        lemma_one_prefix(s);
        lemma_float_prefix(t);
        if let Some((r, _)) = crate::numeric::spec_float(t) {
            lemma_numeric_prefix_trans(s, t, r);
            lemma_exponent_prefix(r);
            if let Some((r2, _)) = crate::numeric::spec_exponent(r) {
                lemma_numeric_prefix_trans(s, r, r2);
            }
        }
    }
}

proof fn lemma_numbers_delimited_prefix(s: Seq<char>)
    ensures
        numeric_prefix(s, spec_delimited::<Number<'static>, (), Scientific, Whitespace>(Scientific, Whitespace, s).0),
    decreases s.len(),
{
    assert(s.skip(0) =~= s);
    if let Some((r1, _)) = crate::lexical::spec_ws(s) {
        crate::lexical::lemma_leading_spaces(s);
        assert(r1 =~= s.skip(s.len() - r1.len()));
        assert(numeric_prefix(s, r1));
        lemma_scientific_prefix(r1);
        if let Some((r2, _)) = crate::numeric::spec_scientific(r1) {
            lemma_numeric_prefix_trans(s, r1, r2);
            if r2.len() < s.len() {
                lemma_numbers_delimited_prefix(r2);
                lemma_numeric_prefix_trans(
                    s,
                    r2,
                    spec_delimited::<Number<'static>, (), Scientific, Whitespace>(Scientific, Whitespace, r2).0,
                );
            }
        }
    }
}

/// Text holding a character that cannot stand in a run of numbers does not
/// read as one.
proof fn lemma_text_not_numbers(t: Seq<char>, b: Seq<char>)
    requires
        wf_text(t),
        b.len() > 0,
        b[0] == '<',
    ensures
        spec_numbers(t + b) is None,
{
    let s = t + b;
    lemma_scientific_prefix(s);
    if let Some((r, n)) = crate::numeric::spec_scientific(s) {
        lemma_numbers_delimited_prefix(r);
        let r2 = spec_delimited::<Number<'static>, (), Scientific, Whitespace>(Scientific, Whitespace, r).0;
        lemma_numeric_prefix_trans(s, r, r2);
        if starts_with(r2, seq!['<']) {
            let k = s.len() - r2.len();
            assert(r2[0] == s[k]);
            assert(r2.take(1)[0] == r2[0]);
            let bad = choose|i: int| 0 <= i < t.len() && !number_char(#[trigger] t[i]);
            if k < t.len() {
                assert(s[k] == t[k]);
                assert(t.contains('<'));
            } else {
                assert(s[bad] == t[bad]);
            }
        }
    }
}

/// The only child of a tag that is not an element.
pub open spec fn wf_leaf(d: Doc) -> bool {
    match d {
        Doc::Empty => true,
        Doc::Text(t) => wf_text(t),
        Doc::Numbers(ns) => wf_numbers(ns),
        _ => false,
    }
}

/// An element that reads back as itself: proper names and attributes, and
/// as content either one leaf or one or more such elements.
pub open spec fn wf_element(d: Doc) -> bool
    decreases d, 0nat,
{
    match d {
        Doc::Tag(n, attrs, cs) => wf_tag_name(n) && wf_attrs(attrs) && cs.len() > 0 && ((cs.len() == 1
            && wf_leaf(cs[0])) || wf_elements(cs, 0)),
        Doc::Closed(n, attrs) => wf_tag_name(n) && wf_attrs(attrs),
        _ => false,
    }
}

/// Each of `cs` from position `i` on is such an element.
pub open spec fn wf_elements(cs: Seq<Doc>, i: int) -> bool
    decreases cs, cs.len() - i,
{
    if 0 <= i < cs.len() {
        wf_element(cs[i]) && wf_elements(cs, i + 1)
    } else {
        true
    }
}

/// A document that reads back as itself: such an element, alone or after a
/// header.
pub open spec fn wf_doc(d: Doc) -> bool {
    match d {
        Doc::Header(b) => wf_element(*b),
        _ => wf_element(d),
    }
}

proof fn lemma_float_read(n: NumberModel, b: Seq<char>)
    requires
        wf_number(n),
        n.exponent == 0,
        b.len() > 0,
        !is_digit(b[0]),
        b[0] != '.',
    ensures
        crate::numeric::spec_float(mantissa_text(NumberModel { negative: false, ..n }) + b) == Some((
            b,
            NumberModel { negative: false, ..n },
        )),
{
    let m = NumberModel { negative: false, ..n };
    let tail = (if n.frac.len() > 0 {
        seq!['.'] + n.frac
    } else {
        Seq::empty()
    }) + b;
    let s = mantissa_text(m) + b;
    assert(s =~= n.whole + tail);
    assert(tail.len() > 0 && !is_digit(tail[0]));
    lemma_digit_run_concat(n.whole, tail);
    assert(s.skip(n.whole.len() as int) =~= tail);
    assert(s.take(n.whole.len() as int) =~= n.whole);
    if n.frac.len() > 0 {
        assert(tail.drop_first() =~= n.frac + b);
        lemma_digit_run_concat(n.frac, b);
        assert((n.frac + b).skip(n.frac.len() as int) =~= b);
        assert((n.frac + b).take(n.frac.len() as int) =~= n.frac);
    } else {
        assert(tail =~= b);
        assert(n.frac =~= Seq::<char>::empty());
    }
}

proof fn lemma_number_read(n: NumberModel, b: Seq<char>)
    requires
        wf_number(n),
        b.len() > 0,
        b[0] == ' ' || b[0] == '<',
    ensures
        crate::numeric::spec_scientific(number_text(n) + b) == Some((b, n)),
{
    let m = NumberModel { negative: false, exponent: 0, ..n };
    let b2 = exponent_text(n.exponent) + b;
    let s = number_text(n) + b;
    assert(s =~= mantissa_text(n) + b2);
    assert(b2.len() > 0 && !is_digit(b2[0]) && b2[0] != '.');
    lemma_float_read(m, b2);
    assert(mantissa_text(NumberModel { negative: false, ..m }) == mantissa_text(NumberModel { negative: false, ..n }));
    if n.exponent == 0 {
        assert(b2 =~= b);
        assert(crate::numeric::spec_exponent(b) is None);
    } else {
        assert(b2.drop_first() =~= int_text(n.exponent) + b);
        lemma_int_text(n.exponent, b);
    }
    if n.negative {
        assert(s.drop_first() =~= mantissa_text(NumberModel { negative: false, ..n }) + b2);
        assert(crate::numeric::digit_run(s) == 0);
    } else {
        assert(s[0] == n.whole[0]);
    }
}

proof fn lemma_number_text_start(n: NumberModel)
    requires
        wf_number(n),
    ensures
        number_text(n).len() > 0,
        is_digit(number_text(n)[0]) || number_text(n)[0] == '-',
{
    if n.negative {
        assert(number_text(n)[0] == '-');
    } else {
        assert(number_text(n)[0] == n.whole[0]);
    }
}

proof fn lemma_numbers_delimited(ns: Seq<NumberModel>, b: Seq<char>)
    requires
        forall|i: int| 0 <= i < ns.len() ==> wf_number(#[trigger] ns[i]),
        b.len() > 0,
        b[0] == '<',
    ensures
        spec_delimited::<Number<'static>, (), Scientific, Whitespace>(
            Scientific,
            Whitespace,
            (if ns.len() > 0 {
                seq![' '] + numbers_text(ns)
            } else {
                Seq::empty()
            }) + b,
        ) == (b, ns),
    decreases ns.len(),
{
    if ns.len() == 0 {
        assert(Seq::<char>::empty() + b =~= b);
        assert(ns =~= Seq::<NumberModel>::empty());
    } else {
        let n = ns[0];
        let rest = ns.drop_first();
        assert forall|i: int| 0 <= i < rest.len() implies wf_number(#[trigger] rest[i]) by {
            assert(rest[i] == ns[i + 1]);
        }
        let after = (if rest.len() > 0 {
            seq![' '] + numbers_text(rest)
        } else {
            Seq::empty()
        }) + b;
        assert(numbers_text(ns) =~= number_text(n) + (if rest.len() > 0 {
            seq![' '] + numbers_text(rest)
        } else {
            Seq::empty()
        }));
        let r1 = number_text(n) + after;
        let s = seq![' '] + numbers_text(ns) + b;
        assert(s =~= seq![' '] + r1);
        lemma_number_text_start(n);
        assert(is_space(' '));
        lemma_leading_spaces_concat(seq![' '], r1);
        assert(after.len() > 0 && (after[0] == ' ' || after[0] == '<'));
        lemma_number_read(n, after);
        lemma_numbers_delimited(rest, b);
        assert(seq![n] + rest =~= ns);
    }
}

/// A run of numbers reads back as itself up to the `<` that follows it.
pub proof fn lemma_numbers_read(ns: Seq<NumberModel>, b: Seq<char>)
    requires
        wf_numbers(ns),
        b.len() > 0,
        b[0] == '<',
    ensures
        spec_numbers(numbers_text(ns) + b) == Some((b, ns)),
{
    let n = ns[0];
    let rest = ns.drop_first();
    assert forall|i: int| 0 <= i < rest.len() implies wf_number(#[trigger] rest[i]) by {
        assert(rest[i] == ns[i + 1]);
    }
    let after = (if rest.len() > 0 {
        seq![' '] + numbers_text(rest)
    } else {
        Seq::empty()
    }) + b;
    assert(numbers_text(ns) + b =~= number_text(n) + after);
    assert(after.len() > 0 && (after[0] == ' ' || after[0] == '<'));
    lemma_number_read(n, after);
    lemma_numbers_delimited(rest, b);
    assert(seq![n] + rest =~= ns);
    lemma_starts_concat(seq!['<'], b.drop_first());
    assert(seq!['<'] + b.drop_first() =~= b);
}


/// The text `b` closes a tag: `</`, then not `>`.
pub open spec fn closes(b: Seq<char>) -> bool {
    b.len() >= 3 && b[0] == '<' && b[1] == '/' && b[2] != '>'
}

proof fn lemma_no_ws(b: Seq<char>)
    requires
        b.len() > 0,
        !is_space(b[0]),
    ensures
        skip_ws(b) == b,
{
    lemma_leading_spaces_concat(Seq::empty(), b);
    assert(Seq::<char>::empty() + b =~= b);
}

/// No element starts where a tag is closed.
proof fn lemma_close_fails(b: Seq<char>)
    requires
        closes(b),
    ensures
        spec_doc(b) is None,
{
    let t = b.skip(1);
    assert(t[0] == '/' && t[1] == b[2]);
    assert(!starts_with(b, seq!['<', '?'])) by {
        if starts_with(b, seq!['<', '?']) {
            assert(b.take(2)[1] == b[1]);
        }
    }
    assert(starts_with(b, seq!['<'])) by {
        assert(b.take(1) =~= seq!['<']);
    }
    lemma_no_ws(t);
    lemma_param_fails(t);
    assert(!starts_with(t, seq!['>'])) by {
        if starts_with(t, seq!['>']) {
            assert(t.take(1)[0] == t[0]);
        }
    }
    assert(!starts_with(t, seq!['/', '>'])) by {
        if starts_with(t, seq!['/', '>']) {
            assert(t.take(2)[1] == t[1]);
        }
    }
    crate::lexical::lemma_first_of(t, open_stops());
    match first_of(t, open_stops()) {
        None => {
            assert(t.skip(0) =~= t);
        },
        Some(k) => {
            if k == 0 {
                assert(open_stops().contains(t[0]));
                let j = choose|j: int| 0 <= j < 2 && open_stops()[j] == t[0];
            }
            assert(t.take(k as int)[0] == '/');
        },
    }
    assert(closed_stops()[0] == t[0]);
    assert(first_of(t, closed_stops()) == Some(0nat));
    assert(t.take(0) =~= Seq::<char>::empty());
    assert(t.skip(0) =~= t);
}

proof fn lemma_name_not_in(n: Seq<char>, stops: Seq<char>)
    requires
        wf_tag_name(n),
        forall|j: int| 0 <= j < stops.len() ==> !is_tag_char(#[trigger] stops[j]),
    ensures
        forall|i: int| 0 <= i < n.len() ==> !stops.contains(#[trigger] n[i]),
{
    assert forall|i: int| 0 <= i < n.len() implies !stops.contains(#[trigger] n[i]) by {
        assert(is_tag_char(n[i]));
        if stops.contains(n[i]) {
            let j = choose|j: int| 0 <= j < stops.len() && stops[j] == n[i];
        }
    }
}

proof fn lemma_tag_open_read(n: Seq<char>, attrs: Seq<Attr>, r: Seq<char>)
    requires
        wf_tag_name(n),
        wf_attrs(attrs),
    ensures
        spec_tag_open(seq!['<'] + n + attrs_text(attrs) + seq!['>'] + r) == Some((skip_ws(r), n, attrs)),
{
    let after_name = attrs_text(attrs) + (seq!['>'] + r);
    let s = seq!['<'] + n + attrs_text(attrs) + seq!['>'] + r;
    assert(s =~= seq!['<'] + (n + after_name));
    lemma_starts_concat(seq!['<'], n + after_name);
    assert(!is_tag_char('>') && !is_tag_char(' '));
    lemma_name_not_in(n, open_stops());
    assert(open_stops().contains(after_name[0])) by {
        if attrs.len() > 0 {
            assert(after_name[0] == ' ');
            assert(open_stops()[1] == ' ');
        } else {
            assert(after_name[0] == '>');
            assert(open_stops()[0] == '>');
        }
    }
    lemma_until_concat(n, after_name, open_stops());
    lemma_name_no(n, |c: char| is_tag_char(c), '/');
    lemma_attr_list_read(attrs, seq!['>'] + r);
    lemma_starts_concat(seq!['>'], r);
}

proof fn lemma_tag_close_read(n: Seq<char>, b: Seq<char>)
    requires
        wf_tag_name(n),
    ensures
        spec_tag_close(seq!['<', '/'] + n + seq!['>'] + b) == Some(b),
{
    let close = seq!['<', '/'] + n + seq!['>'] + b;
    assert(close =~= seq!['<', '/'] + (n + (seq!['>'] + b)));
    lemma_no_ws(close);
    lemma_starts_concat(seq!['<', '/'], n + (seq!['>'] + b));
    assert(!is_tag_char('>'));
    lemma_name_not_in(n, seq!['>']);
    assert(seq!['>'].contains((seq!['>'] + b)[0])) by {
        assert(seq!['>'][0] == (seq!['>'] + b)[0]);
    }
    lemma_until_concat(n, seq!['>'] + b, seq!['>']);
    lemma_starts_concat(seq!['>'], b);
}

proof fn lemma_closed_read(n: Seq<char>, attrs: Seq<Attr>, b: Seq<char>)
    requires
        wf_tag_name(n),
        wf_attrs(attrs),
    ensures
        spec_doc(doc_text(Doc::Closed(n, attrs)) + b) == Some((b, Doc::Closed(n, attrs))),
{
    let d = Doc::Closed(n, attrs);
    let end = seq!['/', '>'] + b;
    let after_name = attrs_text(attrs) + end;
    let s = doc_text(d) + b;
    assert(s =~= seq!['<'] + (n + after_name));
    assert(s[1] == n[0]);
    assert(!starts_with(s, seq!['<', '?'])) by {
        if starts_with(s, seq!['<', '?']) {
            assert(s.take(2)[1] == s[1]);
        }
    }
    lemma_starts_concat(seq!['<'], n + after_name);
    assert(!is_tag_char('/') && !is_tag_char(' ') && !is_tag_char('>'));
    lemma_name_not_in(n, closed_stops());
    lemma_name_no(n, |c: char| is_tag_char(c), '/');
    lemma_attr_list_read(attrs, end);
    lemma_starts_concat(seq!['/', '>'], b);
    assert(closed_stops().contains(after_name[0])) by {
        if attrs.len() > 0 {
            assert(after_name[0] == ' ');
            assert(closed_stops()[1] == ' ');
        } else {
            assert(after_name[0] == '/');
            assert(closed_stops()[0] == '/');
        }
    }
    lemma_until_concat(n, after_name, closed_stops());
    assert(spec_closed(s) == Some((b, d)));
    assert(!starts_with(end, seq!['>'])) by {
        if starts_with(end, seq!['>']) {
            assert(end.take(1)[0] == end[0]);
        }
    }
    if attrs.len() > 0 {
        lemma_name_not_in(n, open_stops());
        assert(open_stops().contains(after_name[0])) by {
            assert(open_stops()[1] == after_name[0]);
        }
        lemma_until_concat(n, after_name, open_stops());
    } else {
        let n2 = n.push('/');
        assert(after_name =~= end);
        assert(n + after_name =~= n2 + (seq!['>'] + b));
        lemma_name_not_in(n, open_stops());
        assert forall|i: int| 0 <= i < n2.len() implies !open_stops().contains(#[trigger] n2[i]) by {
            if i < n.len() {
                assert(n2[i] == n[i]);
            } else {
                assert(n2[i] == '/');
                if open_stops().contains('/') {
                    let j = choose|j: int| 0 <= j < 2 && open_stops()[j] == '/';
                }
            }
        }
        assert(open_stops().contains((seq!['>'] + b)[0])) by {
            assert(open_stops()[0] == (seq!['>'] + b)[0]);
        }
        lemma_until_concat(n2, seq!['>'] + b, open_stops());
        assert(n2[n.len() as int] == '/');
    }
    assert(spec_tag(s) is None);
}

/// An element reads back as itself, whatever follows it.
pub proof fn lemma_element_read(d: Doc, b: Seq<char>)
    requires
        wf_element(d),
    ensures
        spec_doc(doc_text(d) + b) == Some((b, d)),
        doc_text(d).len() > 0,
        doc_text(d)[0] == '<',
    decreases d, 3nat,
{
    match d {
        Doc::Tag(n, attrs, cs) => {
            lemma_tag_read(d, b);
        },
        Doc::Closed(n, attrs) => {
            lemma_closed_read(n, attrs, b);
        },
        _ => {},
    }
}

proof fn lemma_tag_read(d: Doc, b: Seq<char>)
    requires
        wf_element(d),
        d is Tag,
    ensures
        spec_doc(doc_text(d) + b) == Some((b, d)),
    decreases d, 2nat,
{
    let n = d->Tag_0;
    let attrs = d->Tag_1;
    let cs = d->Tag_2;
    let close = seq!['<', '/'] + n + seq!['>'] + b;
    let c = children_text(cs, 0);
    let s = doc_text(d) + b;
    assert(s =~= seq!['<'] + n + attrs_text(attrs) + seq!['>'] + (c + close));
    assert(s[1] == n[0]);
    assert(!starts_with(s, seq!['<', '?'])) by {
        if starts_with(s, seq!['<', '?']) {
            assert(s.take(2)[1] == s[1]);
        }
    }
    lemma_tag_open_read(n, attrs, c + close);
    lemma_content_read(d, b);
    lemma_no_ws(c + close);
    lemma_tag_close_read(n, b);
}

/// The content of a well-formed tag reads back as its children, up to the
/// text that closes the tag.
proof fn lemma_content_read(d: Doc, b: Seq<char>)
    requires
        wf_element(d),
        d is Tag,
    ensures
        ({
            let close = seq!['<', '/'] + d->Tag_0 + seq!['>'] + b;
            let c = children_text(d->Tag_2, 0);
            &&& spec_content(c + close) == (close, d->Tag_2)
            &&& !is_space((c + close)[0])
        }),
    decreases d, 1nat,
{
    let n = d->Tag_0;
    let cs = d->Tag_2;
    let close = seq!['<', '/'] + n + seq!['>'] + b;
    assert(closes(close)) by {
        assert(close[2] == n[0]);
        assert(is_tag_char(n[0]));
    }
    lemma_close_fails(close);
    let c = children_text(cs, 0);
    let s = c + close;
    if cs.len() == 1 && wf_leaf(cs[0]) {
        assert(children_text(cs, 1) =~= Seq::<char>::empty());
        assert(c =~= doc_text(cs[0]));
        assert(cs =~= seq![cs[0]]);
        match cs[0] {
            Doc::Empty => {
                assert(s =~= close);
                crate::numeric::lemma_digit_run(close);
                assert(seq!['<'][0] == close[0]);
                assert(first_of(close, seq!['<']) == Some(0nat));
                assert(close.take(0) =~= Seq::<char>::empty());
                assert(close.skip(0) =~= close);
            },
            Doc::Text(t) => {
                assert(s =~= t + close);
                assert(s[0] == t[0]);
                assert(!starts_with(s, seq!['<', '?']) && !starts_with(s, seq!['<'])) by {
                    if starts_with(s, seq!['<', '?']) {
                        assert(s.take(2)[0] == s[0]);
                    }
                    if starts_with(s, seq!['<']) {
                        assert(s.take(1)[0] == s[0]);
                    }
                }
                lemma_text_not_numbers(t, close);
                assert forall|i: int| 0 <= i < t.len() implies !seq!['<'].contains(#[trigger] t[i]) by {
                    if seq!['<'].contains(t[i]) {
                        let j = choose|j: int| 0 <= j < 1 && seq!['<'][j] == t[i];
                        assert(t.contains('<'));
                    }
                }
                assert(seq!['<'].contains(close[0])) by {
                    assert(seq!['<'][0] == close[0]);
                }
                lemma_until_concat(t, close, seq!['<']);
            },
            Doc::Numbers(ns) => {
                assert(s =~= numbers_text(ns) + close);
                lemma_number_text_start(ns[0]);
                assert(numbers_text(ns)[0] == number_text(ns[0])[0]);
                assert(s[0] == numbers_text(ns)[0]);
                assert(!starts_with(s, seq!['<', '?']) && !starts_with(s, seq!['<'])) by {
                    if starts_with(s, seq!['<', '?']) {
                        assert(s.take(2)[0] == s[0]);
                    }
                    if starts_with(s, seq!['<']) {
                        assert(s.take(1)[0] == s[0]);
                    }
                }
                lemma_numbers_read(ns, close);
            },
            _ => {},
        }
    } else {
        assert(wf_elements(cs, 0));
        let rest = children_text(cs, 1) + close;
        lemma_element_read(cs[0], rest);
        assert(s =~= doc_text(cs[0]) + rest);
        lemma_more_read(cs, 1, b, n);
        assert(cs.skip(1) =~= cs.drop_first());
        assert(seq![cs[0]] + cs.skip(1) =~= cs);
        assert(s[0] == '<');
    }
}

/// After the first of several elements, the others read back as themselves.
proof fn lemma_more_read(cs: Seq<Doc>, i: int, b: Seq<char>, n: Seq<char>)
    requires
        1 <= i <= cs.len(),
        wf_elements(cs, i),
        wf_tag_name(n),
    ensures
        ({
            let close = seq!['<', '/'] + n + seq!['>'] + b;
            spec_more_docs(children_text(cs, i) + close) == (close, cs.skip(i))
        }),
    decreases cs, cs.len() - i,
{
    let close = seq!['<', '/'] + n + seq!['>'] + b;
    assert(closes(close)) by {
        assert(close[2] == n[0]);
        assert(is_tag_char(n[0]));
    }
    let s = children_text(cs, i) + close;
    if i == cs.len() {
        assert(s =~= close);
        lemma_no_ws(close);
        lemma_close_fails(close);
        assert(cs.skip(i) =~= Seq::<Doc>::empty());
    } else {
        let rest = children_text(cs, i + 1) + close;
        lemma_element_read(cs[i], rest);
        assert(s =~= doc_text(cs[i]) + rest);
        lemma_no_ws(s);
        lemma_more_read(cs, i + 1, b, n);
        assert(seq![cs[i]] + cs.skip(i + 1) =~= cs.skip(i));
    }
}


/// A document of the form that reads back as itself does so, whatever
/// follows it.
pub proof fn lemma_doc_read(d: Doc, b: Seq<char>)
    requires
        wf_doc(d),
    ensures
        spec_doc(doc_text(d) + b) == Some((b, d)),
{
    match d {
        Doc::Header(e) => {
            let inner = doc_text(*e) + b;
            lemma_element_read(*e, b);
            let s = doc_text(d) + b;
            assert(s =~= seq!['<', '?'] + (seq!['?', '>'] + inner));
            lemma_starts_concat(seq!['<', '?'], seq!['?', '>'] + inner);
            assert(seq!['?'].contains((seq!['?', '>'] + inner)[0])) by {
                assert(seq!['?'][0] == (seq!['?', '>'] + inner)[0]);
            }
            lemma_until_concat(Seq::empty(), seq!['?', '>'] + inner, seq!['?']);
            assert(Seq::<char>::empty() + (seq!['?', '>'] + inner) =~= seq!['?', '>'] + inner);
            lemma_starts_concat(seq!['?', '>'], inner);
            assert(inner[0] == '<');
            lemma_no_ws(inner);
            assert(Doc::Header(Box::new(*e)) == d);
        },
        _ => {
            lemma_element_read(d, b);
        },
    }
}

/// Reading a document, writing its tree back as text and reading that text
/// gives the same tree, and nothing is left over; for trees of the form that
/// `wf_doc` describes.
pub proof fn lemma_round_trip(s: Seq<char>, rest: Seq<char>, d: Doc)
    requires
        spec_doc(s) == Some((rest, d)),
        wf_doc(d),
    ensures
        spec_doc(doc_text(d)) == Some((Seq::<char>::empty(), d)),
{
    lemma_doc_read(d, Seq::empty());
    assert(doc_text(d) + Seq::<char>::empty() =~= doc_text(d));
}


fn lt() -> (r: &'static str)
    ensures
        r@ == seq!['<'],
{
    let r = "<";
    proof {
        reveal_strlit("<");
    }
    assert(r@ =~= seq!['<']);
    r
}

fn gt() -> (r: &'static str)
    ensures
        r@ == seq!['>'],
{
    let r = ">";
    proof {
        reveal_strlit(">");
    }
    assert(r@ =~= seq!['>']);
    r
}

fn end_open() -> (r: &'static str)
    ensures
        r@ == seq!['<', '/'],
{
    let r = "</";
    proof {
        reveal_strlit("</");
    }
    assert(r@ =~= seq!['<', '/']);
    r
}

fn end_closed() -> (r: &'static str)
    ensures
        r@ == seq!['/', '>'],
{
    let r = "/>";
    proof {
        reveal_strlit("/>");
    }
    assert(r@ =~= seq!['/', '>']);
    r
}

fn space() -> (r: &'static str)
    ensures
        r@ == seq![' '],
{
    let r = " ";
    proof {
        reveal_strlit(" ");
    }
    assert(r@ =~= seq![' ']);
    r
}

fn eq_quote() -> (r: &'static str)
    ensures
        r@ == seq!['=', '"'],
{
    let r = "=\"";
    proof {
        reveal_strlit("=\"");
    }
    assert(r@ =~= seq!['=', '"']);
    r
}

fn quote() -> (r: &'static str)
    ensures
        r@ == seq!['"'],
{
    let r = "\"";
    proof {
        reveal_strlit("\"");
    }
    assert(r@ =~= seq!['"']);
    r
}

fn prologue() -> (r: &'static str)
    ensures
        r@ == seq!['<', '?', '?', '>'],
{
    let r = "<??>";
    proof {
        reveal_strlit("<??>");
    }
    assert(r@ =~= seq!['<', '?', '?', '>']);
    r
}

fn minus() -> (r: &'static str)
    ensures
        r@ == seq!['-'],
{
    let r = "-";
    proof {
        reveal_strlit("-");
    }
    assert(r@ =~= seq!['-']);
    r
}

fn point() -> (r: &'static str)
    ensures
        r@ == seq!['.'],
{
    let r = ".";
    proof {
        reveal_strlit(".");
    }
    assert(r@ =~= seq!['.']);
    r
}

fn exponent_mark() -> (r: &'static str)
    ensures
        r@ == seq!['e'],
{
    let r = "e";
    proof {
        reveal_strlit("e");
    }
    assert(r@ =~= seq!['e']);
    r
}

fn digit_str(d: u64) -> (r: &'static str)
    requires
        d < 10,
    ensures
        r@ == seq![digit_char(d as nat)],
{
    if d == 0 {
        let r = "0";
        proof {
            reveal_strlit("0");
        }
        assert(r@ =~= seq!['0']);
        r
    } else if d == 1 {
        let r = "1";
        proof {
            reveal_strlit("1");
        }
        assert(r@ =~= seq!['1']);
        r
    } else if d == 2 {
        let r = "2";
        proof {
            reveal_strlit("2");
        }
        assert(r@ =~= seq!['2']);
        r
    } else if d == 3 {
        let r = "3";
        proof {
            reveal_strlit("3");
        }
        assert(r@ =~= seq!['3']);
        r
    } else if d == 4 {
        let r = "4";
        proof {
            reveal_strlit("4");
        }
        assert(r@ =~= seq!['4']);
        r
    } else if d == 5 {
        let r = "5";
        proof {
            reveal_strlit("5");
        }
        assert(r@ =~= seq!['5']);
        r
    } else if d == 6 {
        let r = "6";
        proof {
            reveal_strlit("6");
        }
        assert(r@ =~= seq!['6']);
        r
    } else if d == 7 {
        let r = "7";
        proof {
            reveal_strlit("7");
        }
        assert(r@ =~= seq!['7']);
        r
    } else if d == 8 {
        let r = "8";
        proof {
            reveal_strlit("8");
        }
        assert(r@ =~= seq!['8']);
        r
    } else {
        let r = "9";
        proof {
            reveal_strlit("9");
        }
        assert(r@ =~= seq!['9']);
        r
    }
}

fn digits_string(m: u64) -> (r: String)
    ensures
        r@ == digits_of(m as nat),
    decreases m,
{
    if m < 10 {
        digit_str(m).to_owned()
    } else {
        let mut out = digits_string(m / 10);
        out.append(digit_str(m % 10));
        out
    }
}

/// An integer in decimal, with `-` before a negative one.
pub fn int_string(v: i32) -> (r: String)
    ensures
        r@ == int_text(v),
{
    if v < 0 {
        let m: u64 = (0 - (v as i64)) as u64;
        let mut out = minus().to_owned();
        let digits = digits_string(m);
        out.append(digits.as_str());
        out
    } else {
        digits_string(v as u64)
    }
}

fn append_attr(out: &mut String, a: &TagParameter)
    ensures
        final(out)@ == old(out)@ + seq![' '] + attr_text(a.deep_view()),
{
    out.append(space());
    match a {
        TagParameter::ParameterString(n, v) => {
            out.append(n);
            out.append(eq_quote());
            out.append(v);
            out.append(quote());
        },
        TagParameter::ParameterInt(n, v) => {
            out.append(n);
            out.append(eq_quote());
            let t = int_string(*v);
            out.append(t.as_str());
            out.append(quote());
        },
    }
    assert(final(out)@ =~= old(out)@ + seq![' '] + attr_text(a.deep_view()));
}

fn append_attrs(out: &mut String, attrs: &Vec<TagParameter>)
    ensures
        final(out)@ == old(out)@ + attrs_text(attrs.deep_view()),
{
    let ghost start = out@;
    let ghost all = attrs.deep_view();
    let mut i: usize = 0;
    assert(all.skip(0) =~= all);
    assert(start =~= start + Seq::<char>::empty());
    while i < attrs.len()
        invariant
            i <= attrs@.len(),
            all == attrs.deep_view(),
            start + attrs_text(all) == out@ + attrs_text(all.skip(i as int)),
        decreases attrs@.len() - i,
    {
        let ghost before = out@;
        append_attr(out, &attrs[i]);
        assert(all.skip(i as int).drop_first() =~= all.skip(i + 1));
        assert(all.skip(i as int)[0] == attrs@[i as int].deep_view());
        assert(attrs_text(all.skip(i as int)) == seq![' '] + attr_text(all.skip(i as int)[0]) + attrs_text(
            all.skip(i + 1),
        ));
        assert(before + attrs_text(all.skip(i as int)) =~= out@ + attrs_text(all.skip(i + 1)));
        i += 1;
    }
    assert(all.skip(i as int) =~= Seq::<Attr>::empty());
    assert(out@ + attrs_text(Seq::<Attr>::empty()) =~= out@);
}

fn append_number(out: &mut String, n: &Number)
    ensures
        final(out)@ == old(out)@ + number_text(n.deep_view()),
{
    if n.negative {
        out.append(minus());
    }
    out.append(n.whole);
    if !n.frac.is_empty() {
        out.append(point());
        out.append(n.frac);
    }
    if n.exponent != 0 {
        out.append(exponent_mark());
        let t = int_string(n.exponent);
        out.append(t.as_str());
    }
    assert(final(out)@ =~= old(out)@ + number_text(n.deep_view()));
}

fn append_numbers(out: &mut String, ns: &Vec<Number>, i: usize)
    requires
        i <= ns@.len(),
    ensures
        final(out)@ == old(out)@ + numbers_text(ns.deep_view().skip(i as int)),
    decreases ns@.len() - i,
{
    let ghost rest = ns.deep_view().skip(i as int);
    if i == ns.len() {
        assert(rest =~= Seq::<NumberModel>::empty());
        assert(out@ + numbers_text(rest) =~= out@);
        return;
    }
    assert(rest[0] == ns@[i as int].deep_view());
    append_number(out, &ns[i]);
    if i + 1 < ns.len() {
        out.append(space());
        append_numbers(out, ns, i + 1);
        assert(rest.drop_first() =~= ns.deep_view().skip(i + 1));
    } else {
        assert(rest.len() == 1);
    }
    assert(final(out)@ =~= old(out)@ + numbers_text(rest));
}

/// A document tree written as text, as `doc_text` describes.
pub fn collada_text(c: &Collada) -> (r: String)
    ensures
        r@ == doc_text(c.deep_view()),
    decreases c,
{
    let mut out = String::from_str("");
    proof {
        reveal_strlit("");
    }
    append_doc(&mut out, c);
    assert(out@ =~= doc_text(c.deep_view()));
    out
}

fn append_doc(out: &mut String, c: &Collada)
    ensures
        final(out)@ == old(out)@ + doc_text(c.deep_view()),
    decreases c,
{
    match c {
        Collada::ColladaNone => {
            assert(old(out)@ + doc_text(c.deep_view()) =~= old(out)@);
        },
        Collada::ColladaHeader(b) => {
            out.append(prologue());
            append_doc(out, b);
            assert(final(out)@ =~= old(out)@ + doc_text(c.deep_view()));
        },
        Collada::ColladaString(t) => {
            out.append(t);
        },
        Collada::ColladaFloats(ns) => {
            append_numbers(out, ns, 0);
            assert(ns.deep_view().skip(0) =~= ns.deep_view());
        },
        Collada::ColladaTag(n, attrs, cont) => {
            out.append(lt());
            out.append(n);
            append_attrs(out, attrs);
            out.append(gt());
            let ghost cs = c.deep_view()->Tag_2;
            assert forall|j: int| 0 <= j < cs.len() implies cs[j] == (**cont)@[j].deep_view() by {}
            append_children(out, &**cont, 0, Ghost(cs));
            out.append(end_open());
            out.append(n);
            out.append(gt());
            assert(final(out)@ =~= old(out)@ + doc_text(c.deep_view()));
        },
        Collada::ColladaTagClosed(n, attrs) => {
            out.append(lt());
            out.append(n);
            append_attrs(out, attrs);
            out.append(end_closed());
            assert(final(out)@ =~= old(out)@ + doc_text(c.deep_view()));
        },
    }
}


fn append_children(out: &mut String, cont: &Vec<Collada>, i: usize, cs: Ghost<Seq<Doc>>)
    requires
        i <= cont@.len(),
        cs@.len() == cont@.len(),
        forall|j: int| 0 <= j < cs@.len() ==> cs@[j] == cont@[j].deep_view(),
    ensures
        final(out)@ == old(out)@ + children_text(cs@, i as int),
    decreases cont, cont@.len() - i,
{
    if i == cont.len() {
        assert(old(out)@ + children_text(cs@, i as int) =~= old(out)@);
        return;
    }
    proof {
        broadcast use vstd::std_specs::vec::axiom_vec_index_decreases;

        assert(decreases_to!(*cont => cont[i as int]));
    }
    append_doc(out, &cont[i]);
    append_children(out, cont, i + 1, cs);
    assert(final(out)@ =~= old(out)@ + children_text(cs@, i as int));
}

} // verus!
