//! Queries over a parsed tree: the last child with a given name, and the
//! numbers of a tag.

use vstd::prelude::*;
use crate::document::{Collada, Doc, doc_view};
use crate::numeric::{Number, NumberModel};

verus! {

/// `d` is a tag with content named `name`.
pub open spec fn is_tag_named(d: Doc, name: Seq<char>) -> bool {
    d matches Doc::Tag(n, _, _) && n == name
}

/// The position of the last of `cs` that is a tag named `name`.
pub open spec fn last_named(cs: Seq<Doc>, name: Seq<char>) -> Option<int>
    decreases cs.len(),
{
    if cs.len() == 0 {
        None
    } else if is_tag_named(cs.last(), name) {
        Some(cs.len() - 1)
    } else {
        last_named(cs.drop_last(), name)
    }
}

/// The last child of the tag `d` that is a tag named `name`.
pub open spec fn spec_find_child(d: Doc, name: Seq<char>) -> Option<Doc> {
    match d {
        Doc::Tag(_, _, cs) => match last_named(cs, name) {
            Some(i) => Some(cs[i]),
            None => None,
        },
        _ => None,
    }
}

/// The numbers of the tag `d`, where its first child is a run of numbers.
pub open spec fn spec_first_numbers(d: Doc) -> Option<Seq<NumberModel>> {
    match d {
        Doc::Tag(_, _, cs) => if cs.len() > 0 && cs[0] is Numbers {
            Some(cs[0]->Numbers_0)
        } else {
            None
        },
        _ => None,
    }
}

pub proof fn lemma_last_named(cs: Seq<Doc>, name: Seq<char>)
    ensures
        match last_named(cs, name) {
            None => forall|j: int| 0 <= j < cs.len() ==> !is_tag_named(#[trigger] cs[j], name),
            Some(i) => 0 <= i < cs.len() && is_tag_named(cs[i], name) && forall|j: int|
                i < j < cs.len() ==> !is_tag_named(#[trigger] cs[j], name),
        },
    decreases cs.len(),
{
    if cs.len() > 0 && !is_tag_named(cs.last(), name) {
        lemma_last_named(cs.drop_last(), name);
        assert forall|j: int| 0 <= j < cs.len() - 1 implies cs[j] == cs.drop_last()[j] by {}
    }
}

/// Of the children of a tag, the last that is a tag with the name asked for
/// is found: a later one takes the place of an earlier one.
pub proof fn lemma_find_child_is_last(n: Seq<char>, attrs: Seq<crate::document::Attr>, cs: Seq<Doc>, name: Seq<char>, i: int)
    requires
        0 <= i < cs.len(),
        is_tag_named(cs[i], name),
        forall|j: int| i < j < cs.len() ==> !is_tag_named(#[trigger] cs[j], name),
    ensures
        spec_find_child(Doc::Tag(n, attrs, cs), name) == Some(cs[i]),
{
    lemma_last_named(cs, name);
}

/// The last child of `source` that is a tag named `name`; nothing where
/// `source` is not a tag with content or no child has that name.
pub fn find_tag_name<'b, 'a>(source: &'b Collada<'a>, name: &str) -> (r: Option<&'b Collada<'a>>)
    ensures
        match spec_find_child(source.deep_view(), name@) {
            None => r is None,
            Some(d) => r matches Some(c) && c.deep_view() == d,
        },
{
    match source {
        Collada::ColladaTag(_, _, cont) => {
            let ghost cs = source.deep_view()->Tag_2;
            let mut res: Option<&'b Collada<'a>> = None;
            let mut i: usize = 0;
            assert(cs.len() == cont@.len());
            while i < cont.len()
                invariant
                    i <= cont@.len(),
                    cs.len() == cont@.len(),
                    forall|j: int| 0 <= j < cs.len() ==> cs[j] == doc_view(&cont@[j]),
                    match last_named(cs.take(i as int), name@) {
                        None => res is None,
                        Some(k) => res matches Some(c) && c.deep_view() == cs[k],
                    },
                decreases cont@.len() - i,
            {
                let item = &cont[i];
                assert(cs.take(i + 1).drop_last() =~= cs.take(i as int));
                assert(cs.take(i + 1).last() == doc_view(item));
                match item {
                    Collada::ColladaTag(tag_name, _, _) => {
                        if str_eq(tag_name, name) {
                            res = Some(item);
                        }
                    },
                    _ => {},
                }
                i += 1;
            }
            assert(cs.take(cs.len() as int) =~= cs);
            res
        },
        _ => None,
    }
}

/// Whether two strings hold the same characters.
pub fn str_eq(a: &str, b: &str) -> (r: bool)
    ensures
        r == (a@ == b@),
{
    proof {
        if a@ == b@ {
            assert(a@.take(b@.len() as int) =~= a@);
        }
    }
    match crate::lexical::strip_literal(a, b) {
        None => false,
        Some(rest) => {
            let e = rest.is_empty();
            proof {
                if e {
                    assert(a@ =~= b@);
                }
            }
            e
        },
    }
}

/// The numbers of `source`, where it is a tag with content whose first child
/// is a run of numbers; nothing otherwise.
pub fn find_floats<'a>(source: &Collada<'a>) -> (r: Option<Vec<Number<'a>>>)
    ensures
        match spec_first_numbers(source.deep_view()) {
            None => r is None,
            Some(ns) => r matches Some(v) && v.deep_view() == ns,
        },
{
    match source {
        Collada::ColladaTag(_, _, cont) => {
            if cont.len() == 0 {
                return None;
            }
            assert(source.deep_view()->Tag_2[0] == doc_view(&cont@[0]));
            match &cont[0] {
                Collada::ColladaFloats(ns) => {
                    let mut out: Vec<Number<'a>> = Vec::new();
                    let mut i: usize = 0;
                    while i < ns.len()
                        invariant
                            i <= ns@.len(),
                            out@.len() == i,
                            out.deep_view() == ns.deep_view().take(i as int),
                        decreases ns@.len() - i,
                    {
                        let x = ns[i];
                        let ghost prev = out@;
                        let ghost prev_dv = out.deep_view();
                        out.push(x);
                        assert(out@ == prev.push(x));
                        assert(out.deep_view()[i as int] == x.deep_view());
                        assert(out.deep_view() =~= ns.deep_view().take(i + 1)) by {
                            assert forall|j: int| 0 <= j < i implies out.deep_view()[j] == ns.deep_view()[j] by {
                                assert(out.deep_view()[j] == out@[j].deep_view());
                                assert(out@[j] == prev[j]);
                                assert(prev_dv[j] == prev[j].deep_view());
                                assert(prev_dv[j] == ns.deep_view().take(i as int)[j]);
                            }
                        }
                        i += 1;
                    }
                    assert(ns.deep_view().take(ns@.len() as int) =~= ns.deep_view());
                    Some(out)
                },
                _ => None,
            }
        },
        _ => None,
    }
}

} // verus!
