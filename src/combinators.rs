//! The parser abstraction and its composition operators: mapping,
//! sequencing, ordered alternation, repetition and optional parsing.

use vstd::prelude::*;
use crate::text::{shorter, suffix_of, lemma_suffix_trans};

verus! {

/// What a run of a parser gives, seen through views: `None` on failure, else
/// the text left over and the model of the value produced.
pub open spec fn outcome<'a, T: DeepView>(r: Option<(&'a str, T)>) -> Option<(Seq<char>, T::V)> {
    match r {
        None => None,
        Some((rest, v)) => Some((rest@, v.deep_view())),
    }
}

/// Pushing onto a vector pushes the model of the value onto its model.
pub proof fn lemma_push_deep_view<T: DeepView>(prev: Vec<T>, next: Vec<T>, x: T)
    requires
        next@ == prev@.push(x),
    ensures
        next.deep_view() == prev.deep_view().push(x.deep_view()),
{
    assert(next.deep_view() =~= prev.deep_view().push(x.deep_view())) by {
        assert forall|j: int| 0 <= j < prev@.len() implies next.deep_view()[j] == prev.deep_view()[j] by {
            assert(next@[j] == prev@[j]);
        }
    }
}

/// A parser: a pure function from text to either failure or the text left
/// over together with a value.
pub trait Parser<'a, T: DeepView>: Sized {
    /// What the parser does on the text `s`.
    spec fn spec_parse(&self, s: Seq<char>) -> Option<(Seq<char>, T::V)>;

    /// The parser can be run on any text.
    spec fn wf(&self) -> bool;

    fn parse(&self, input: &'a str) -> (r: Option<(&'a str, T)>)
        requires
            self.wf(),
        ensures
            outcome(r) == self.spec_parse(input@),
    ;

    /// What a success leaves is a suffix of the text it was given.
    proof fn lemma_parse_suffix(&self, s: Seq<char>)
        requires
            self.wf(),
        ensures
            self.spec_parse(s) matches Some((r, _)) ==> suffix_of(r, s),
    ;

    /// Applies `g` to the value of a success.
    fn map<G>(self, g: G) -> (r: Mapping<Self, G, T>)
        ensures
            r.f == self,
            r.g == g,
    {
        Mapping { f: self, g, phantom: core::marker::PhantomData }
    }

    /// One or more repetitions.
    fn many(self) -> (r: Many<Self>)
        ensures
            r.f == self,
    {
        Many { f: self }
    }

    /// One or more repetitions, separated by what `g` accepts.
    fn many_delim<U, G>(self, g: G) -> (r: ManyDelim<Self, G, U>)
        ensures
            r.f == self,
            r.g == g,
    {
        ManyDelim { f: self, g, phantom: core::marker::PhantomData }
    }

    /// `self`, then `g` on what is left.
    fn and<G>(self, g: G) -> (r: And<Self, G>)
        ensures
            r.f == self,
            r.g == g,
    {
        And { f: self, g }
    }

    /// `self`, or `g` on the same text where `self` fails.
    fn or<G>(self, g: G) -> (r: Or<Self, G>)
        ensures
            r.f == self,
            r.g == g,
    {
        Or { f: self, g }
    }

    /// `self`, or an empty value and no text consumed where `self` fails.
    fn maybe(self) -> (r: Maybe<Self>)
        ensures
            r.f == self,
    {
        Maybe { f: self }
    }
}

/// Values with a designated empty value, produced by `Maybe` on failure.
pub trait Fallback: DeepView + Sized {
    spec fn spec_fallback() -> Self::V;

    fn fallback() -> (r: Self)
        ensures
            r.deep_view() == Self::spec_fallback(),
    ;
}

impl Fallback for () {
    open spec fn spec_fallback() -> () {
        ()
    }

    fn fallback() -> (r: ()) {
        ()
    }
}

impl Fallback for u32 {
    open spec fn spec_fallback() -> u32 {
        0
    }

    fn fallback() -> (r: u32) {
        0
    }
}

impl Fallback for i32 {
    open spec fn spec_fallback() -> i32 {
        0
    }

    fn fallback() -> (r: i32) {
        0
    }
}

impl<'b> Fallback for &'b str {
    open spec fn spec_fallback() -> Seq<char> {
        Seq::empty()
    }

    fn fallback() -> (r: &'b str) {
        let e = "";
        proof {
            reveal_strlit("");
        }
        assert(e@ =~= Seq::<char>::empty());
        e
    }
}

impl<T: DeepView> Fallback for Vec<T> {
    open spec fn spec_fallback() -> Seq<T::V> {
        Seq::empty()
    }

    fn fallback() -> (r: Vec<T>) {
        let v: Vec<T> = Vec::new();
        assert(v.deep_view() =~= Seq::<T::V>::empty());
        v
    }
}

pub struct Mapping<F, G, T> {
    pub f: F,
    pub g: G,
    pub phantom: core::marker::PhantomData<T>,
}

pub struct Many<F> {
    pub f: F,
}

pub struct ManyDelim<F, G, U> {
    pub f: F,
    pub g: G,
    pub phantom: core::marker::PhantomData<U>,
}

pub struct And<F, G> {
    pub f: F,
    pub g: G,
}

pub struct Or<F, G> {
    pub f: F,
    pub g: G,
}

pub struct Maybe<F> {
    pub f: F,
}

/// Every result of `g` on a value whose model is `v` has the model `u`.
pub open spec fn yields<T: DeepView, U: DeepView, G: Fn(T) -> U>(g: G, v: T::V, u: U::V) -> bool {
    forall|x: T, y: U| x.deep_view() == v && #[trigger] call_ensures(g, (x,), y) ==> y.deep_view() == u
}

/// The model of `g`'s result on a value whose model is `v`.
pub open spec fn spec_apply<T: DeepView, U: DeepView, G: Fn(T) -> U>(g: G, v: T::V) -> U::V {
    choose|u: U::V| yields::<T, U, G>(g, v, u)
}

/// `g` can be called on any value, and values with equal models give results
/// with equal models.
pub open spec fn applicable<T: DeepView, U: DeepView, G: Fn(T) -> U>(g: G) -> bool {
    &&& forall|x: T| call_requires(g, (x,))
    &&& forall|x1: T, x2: T, y1: U, y2: U|
        x1.deep_view() == x2.deep_view() && #[trigger] call_ensures(g, (x1,), y1)
            && #[trigger] call_ensures(g, (x2,), y2) ==> y1.deep_view() == y2.deep_view()
}

impl<'a, T: DeepView, U: DeepView, F: Parser<'a, T>, G: Fn(T) -> U> Parser<'a, U> for Mapping<F, G, T> {
    open spec fn spec_parse(&self, s: Seq<char>) -> Option<(Seq<char>, U::V)> {
        match self.f.spec_parse(s) {
            None => None,
            Some((rest, v)) => Some((rest, spec_apply::<T, U, G>(self.g, v))),
        }
    }

    open spec fn wf(&self) -> bool {
        self.f.wf() && applicable::<T, U, G>(self.g)
    }

    fn parse(&self, input: &'a str) -> (r: Option<(&'a str, U)>) {
        match self.f.parse(input) {
            None => None,
            Some((rest, x)) => {
                let y = (self.g)(x);
                proof {
                    let v = x.deep_view();
                    assert(yields::<T, U, G>(self.g, v, y.deep_view()));
                    let u = spec_apply::<T, U, G>(self.g, v);
                    assert(yields::<T, U, G>(self.g, v, u));
                    assert(y.deep_view() == u);
                }
                Some((rest, y))
            },
        }
    }

    proof fn lemma_parse_suffix(&self, s: Seq<char>) {
        self.f.lemma_parse_suffix(s);
    }
}


impl<'a, T: DeepView, U: DeepView, F: Parser<'a, T>, G: Parser<'a, U>> Parser<'a, (T, U)> for And<F, G> {
    open spec fn spec_parse(&self, s: Seq<char>) -> Option<(Seq<char>, (T::V, U::V))> {
        match self.f.spec_parse(s) {
            None => None,
            Some((r1, x)) => match self.g.spec_parse(r1) {
                None => None,
                Some((r2, y)) => Some((r2, (x, y))),
            },
        }
    }

    open spec fn wf(&self) -> bool {
        self.f.wf() && self.g.wf()
    }

    fn parse(&self, input: &'a str) -> (r: Option<(&'a str, (T, U))>) {
        match self.f.parse(input) {
            None => None,
            Some((rest1, x)) => match self.g.parse(rest1) {
                None => None,
                Some((rest2, y)) => Some((rest2, (x, y))),
            },
        }
    }

    proof fn lemma_parse_suffix(&self, s: Seq<char>) {
        self.f.lemma_parse_suffix(s);
        if let Some((r1, _)) = self.f.spec_parse(s) {
            self.g.lemma_parse_suffix(r1);
            if let Some((r2, _)) = self.g.spec_parse(r1) {
                lemma_suffix_trans(r2, r1, s);
            }
        }
    }
}

impl<'a, T: DeepView, F: Parser<'a, T>, G: Parser<'a, T>> Parser<'a, T> for Or<F, G> {
    open spec fn spec_parse(&self, s: Seq<char>) -> Option<(Seq<char>, T::V)> {
        match self.f.spec_parse(s) {
            Some(r) => Some(r),
            None => self.g.spec_parse(s),
        }
    }

    open spec fn wf(&self) -> bool {
        self.f.wf() && self.g.wf()
    }

    fn parse(&self, input: &'a str) -> (r: Option<(&'a str, T)>) {
        match self.f.parse(input) {
            Some(r) => Some(r),
            None => self.g.parse(input),
        }
    }

    proof fn lemma_parse_suffix(&self, s: Seq<char>) {
        self.f.lemma_parse_suffix(s);
        self.g.lemma_parse_suffix(s);
    }
}

impl<'a, T: Fallback, F: Parser<'a, T>> Parser<'a, T> for Maybe<F> {
    open spec fn spec_parse(&self, s: Seq<char>) -> Option<(Seq<char>, T::V)> {
        match self.f.spec_parse(s) {
            Some(r) => Some(r),
            None => Some((s, T::spec_fallback())),
        }
    }

    open spec fn wf(&self) -> bool {
        self.f.wf()
    }

    fn parse(&self, input: &'a str) -> (r: Option<(&'a str, T)>) {
        match self.f.parse(input) {
            Some(r) => Some(r),
            None => Some((input, T::fallback())),
        }
    }

    proof fn lemma_parse_suffix(&self, s: Seq<char>) {
        self.f.lemma_parse_suffix(s);
        assert(s.skip(0) =~= s);
    }
}

/// Repeats `f` from `s` until it fails; a success that consumes nothing is
/// kept and ends the repetition, as repeating it would give the same success
/// again. Gives the text left and the values produced, in order.
pub open spec fn spec_star<'a, T: DeepView, F: Parser<'a, T>>(f: F, s: Seq<char>) -> (Seq<char>, Seq<T::V>)
    decreases s.len(),
{
    match f.spec_parse(s) {
        None => (s, Seq::empty()),
        Some((r, v)) => if r.len() < s.len() {
            let (r2, vs) = spec_star::<T, F>(f, r);
            (r2, seq![v] + vs)
        } else {
            (r, seq![v])
        },
    }
}

/// After one element: repeats a delimiter `g` followed by an element `f`.
/// Where `g` fails, the text before it is left; where `g` succeeds and `f`
/// fails, the delimiter stays consumed. A round that consumes nothing is kept
/// and ends the repetition.
pub open spec fn spec_delimited<'a, T: DeepView, U: DeepView, F: Parser<'a, T>, G: Parser<'a, U>>(
    f: F,
    g: G,
    s: Seq<char>,
) -> (Seq<char>, Seq<T::V>)
    decreases s.len(),
{
    match g.spec_parse(s) {
        None => (s, Seq::empty()),
        Some((r1, _d)) => match f.spec_parse(r1) {
            None => (r1, Seq::empty()),
            Some((r2, v)) => if r2.len() < s.len() {
                let (r3, vs) = spec_delimited::<T, U, F, G>(f, g, r2);
                (r3, seq![v] + vs)
            } else {
                (r2, seq![v])
            },
        },
    }
}

pub proof fn lemma_star_suffix<'a, T: DeepView, F: Parser<'a, T>>(f: F, s: Seq<char>)
    requires
        f.wf(),
    ensures
        suffix_of(spec_star::<T, F>(f, s).0, s),
    decreases s.len(),
{
    f.lemma_parse_suffix(s);
    assert(s.skip(0) =~= s);
    if let Some((r, v)) = f.spec_parse(s) {
        if r.len() < s.len() {
            lemma_star_suffix::<T, F>(f, r);
            lemma_suffix_trans(spec_star::<T, F>(f, r).0, r, s);
        }
    }
}

pub proof fn lemma_delimited_suffix<'a, T: DeepView, U: DeepView, F: Parser<'a, T>, G: Parser<'a, U>>(
    f: F,
    g: G,
    s: Seq<char>,
)
    requires
        f.wf(),
        g.wf(),
    ensures
        suffix_of(spec_delimited::<T, U, F, G>(f, g, s).0, s),
    decreases s.len(),
{
    g.lemma_parse_suffix(s);
    assert(s.skip(0) =~= s);
    if let Some((r1, _d)) = g.spec_parse(s) {
        f.lemma_parse_suffix(r1);
        if let Some((r2, v)) = f.spec_parse(r1) {
            lemma_suffix_trans(r2, r1, s);
            if r2.len() < s.len() {
                lemma_delimited_suffix::<T, U, F, G>(f, g, r2);
                lemma_suffix_trans(spec_delimited::<T, U, F, G>(f, g, r2).0, r2, s);
            }
        }
    }
}

impl<'a, T: DeepView, F: Parser<'a, T>> Parser<'a, Vec<T>> for Many<F> {
    open spec fn spec_parse(&self, s: Seq<char>) -> Option<(Seq<char>, Seq<T::V>)> {
        match self.f.spec_parse(s) {
            None => None,
            Some(_) => Some(spec_star::<T, F>(self.f, s)),
        }
    }

    open spec fn wf(&self) -> bool {
        self.f.wf()
    }

    fn parse(&self, input: &'a str) -> (r: Option<(&'a str, Vec<T>)>) {
        if self.f.parse(input).is_none() {
            return None;
        }
        let mut res: Vec<T> = Vec::new();
        let mut i = input;
        assert(input@.skip(0) =~= input@);
        loop
            invariant
                self.wf(),
                self.f.spec_parse(input@) is Some,
                suffix_of(i@, input@),
                spec_star::<T, F>(self.f, input@) == (spec_star::<T, F>(self.f, i@).0, res.deep_view()
                    + spec_star::<T, F>(self.f, i@).1),
            decreases i@.len(),
        {
            let ghost prev = res.deep_view();
            match self.f.parse(i) {
                None => {
                    assert(res.deep_view() + Seq::<T::V>::empty() =~= res.deep_view());
                    return Some((i, res));
                },
                Some((rest, x)) => {
                    let ghost xv = x.deep_view();
                    proof {
                        self.f.lemma_parse_suffix(i@);
                        lemma_suffix_trans(rest@, i@, input@);
                    }
                    res.push(x);
                    assert(res.deep_view() =~= prev.push(xv));
                    if shorter(rest, i) {
                        assert(prev + (seq![xv] + spec_star::<T, F>(self.f, rest@).1)
                            =~= res.deep_view() + spec_star::<T, F>(self.f, rest@).1);
                        i = rest;
                    } else {
                        assert(prev + seq![xv] =~= res.deep_view());
                        return Some((rest, res));
                    }
                },
            }
        }
    }

    proof fn lemma_parse_suffix(&self, s: Seq<char>) {
        lemma_star_suffix::<T, F>(self.f, s);
    }
}

impl<'a, T: DeepView, U: DeepView, F: Parser<'a, T>, G: Parser<'a, U>> Parser<'a, Vec<T>> for ManyDelim<F, G, U> {
    open spec fn spec_parse(&self, s: Seq<char>) -> Option<(Seq<char>, Seq<T::V>)> {
        match self.f.spec_parse(s) {
            None => None,
            Some((r, v)) => {
                let (r2, vs) = spec_delimited::<T, U, F, G>(self.f, self.g, r);
                Some((r2, seq![v] + vs))
            },
        }
    }

    open spec fn wf(&self) -> bool {
        self.f.wf() && self.g.wf()
    }

    fn parse(&self, input: &'a str) -> (r: Option<(&'a str, Vec<T>)>) {
        match self.f.parse(input) {
            None => None,
            Some((first_rest, x)) => {
                let mut res: Vec<T> = Vec::new();
                res.push(x);
                assert(res.deep_view() =~= seq![x.deep_view()]);
                let mut i = first_rest;
                proof {
                    self.f.lemma_parse_suffix(input@);
                }
                loop
                    invariant
                        self.wf(),
                        suffix_of(i@, input@),
                        self.spec_parse(input@) == Some((
                            spec_delimited::<T, U, F, G>(self.f, self.g, i@).0,
                            res.deep_view() + spec_delimited::<T, U, F, G>(self.f, self.g, i@).1,
                        )),
                    decreases i@.len(),
                {
                    let ghost prev = res.deep_view();
                    match self.g.parse(i) {
                        None => {
                            assert(res.deep_view() + Seq::<T::V>::empty() =~= res.deep_view());
                            return Some((i, res));
                        },
                        Some((after_delim, _d)) => match {
                            proof {
                                self.g.lemma_parse_suffix(i@);
                                lemma_suffix_trans(after_delim@, i@, input@);
                            }
                            self.f.parse(after_delim)
                        } {
                            None => {
                                assert(res.deep_view() + Seq::<T::V>::empty() =~= res.deep_view());
                                return Some((after_delim, res));
                            },
                            Some((rest, y)) => {
                                let ghost yv = y.deep_view();
                                proof {
                                    self.f.lemma_parse_suffix(after_delim@);
                                    lemma_suffix_trans(rest@, after_delim@, i@);
                                    lemma_suffix_trans(rest@, i@, input@);
                                }
                                res.push(y);
                                assert(res.deep_view() =~= prev.push(yv));
                                if shorter(rest, i) {
                                    assert(prev + (seq![yv] + spec_delimited::<T, U, F, G>(self.f, self.g, rest@).1)
                                        =~= res.deep_view() + spec_delimited::<T, U, F, G>(self.f, self.g, rest@).1);
                                    i = rest;
                                } else {
                                    assert(prev + seq![yv] =~= res.deep_view());
                                    return Some((rest, res));
                                }
                            },
                        },
                    }
                }
            },
        }
    }

    proof fn lemma_parse_suffix(&self, s: Seq<char>) {
        self.f.lemma_parse_suffix(s);
        if let Some((r, v)) = self.f.spec_parse(s) {
            lemma_delimited_suffix::<T, U, F, G>(self.f, self.g, r);
            lemma_suffix_trans(spec_delimited::<T, U, F, G>(self.f, self.g, r).0, r, s);
        }
    }
}

} // verus!
