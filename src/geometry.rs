//! Geometry extraction along fixed paths of a document, and packing of the
//! extracted arrays into vertices.

use vstd::prelude::*;
use crate::combinators::lemma_push_deep_view;
use crate::document::{Attr, Collada, Doc, TagParameter};
use crate::lexical::strip_literal;
use crate::numeric::{Number, NumberModel, digit_values};
use crate::query::{find_floats, find_tag_name, spec_find_child, spec_first_numbers, str_eq};
use crate::text::{note_len_bound, split_first};

verus! {

/// A vertex position.
#[derive(Clone, Copy, Debug, PartialEq)]
pub struct Position<'a> {
    pub position: (Number<'a>, Number<'a>, Number<'a>),
}

/// A vertex normal.
#[derive(Clone, Copy, Debug, PartialEq)]
pub struct Normal<'a> {
    pub normal: (Number<'a>, Number<'a>, Number<'a>),
}

/// A pair of texture coordinates.
#[derive(Clone, Copy, Debug, PartialEq)]
pub struct TextureCoordinates<'a> {
    pub coordinates: (Number<'a>, Number<'a>),
}

/// One vertex: a position, a normal and texture coordinates.
#[derive(Clone, Copy, Debug, PartialEq)]
pub struct Vertex<'a> {
    pub position: (Number<'a>, Number<'a>, Number<'a>),
    pub normal: (Number<'a>, Number<'a>, Number<'a>),
    pub tex_coords: (Number<'a>, Number<'a>),
}

pub type Triple = (NumberModel, NumberModel, NumberModel);

pub type Pair = (NumberModel, NumberModel);

impl<'a> DeepView for Position<'a> {
    type V = Triple;

    open spec fn deep_view(&self) -> Triple {
        self.position.deep_view()
    }
}

impl<'a> DeepView for Normal<'a> {
    type V = Triple;

    open spec fn deep_view(&self) -> Triple {
        self.normal.deep_view()
    }
}

impl<'a> DeepView for TextureCoordinates<'a> {
    type V = Pair;

    open spec fn deep_view(&self) -> Pair {
        self.coordinates.deep_view()
    }
}

impl<'a> DeepView for Vertex<'a> {
    type V = (Triple, Triple, Pair);

    open spec fn deep_view(&self) -> (Triple, Triple, Pair) {
        (self.position.deep_view(), self.normal.deep_view(), self.tex_coords.deep_view())
    }
}

/// Consecutive groups of three of `fs`; a last group of fewer is dropped.
pub open spec fn triples(fs: Seq<NumberModel>) -> Seq<Triple> {
    Seq::new(fs.len() / 3, |i: int| (fs[3 * i], fs[3 * i + 1], fs[3 * i + 2]))
}

/// Consecutive pairs of `fs`; a last single value is dropped.
pub open spec fn pairs(fs: Seq<NumberModel>) -> Seq<Pair> {
    Seq::new(fs.len() / 2, |i: int| (fs[2 * i], fs[2 * i + 1]))
}

fn group3<'a>(floats: &Vec<Number<'a>>) -> (r: Vec<(Number<'a>, Number<'a>, Number<'a>)>)
    ensures
        r.deep_view() == triples(floats.deep_view()),
{
    let mut res: Vec<(Number<'a>, Number<'a>, Number<'a>)> = Vec::new();
    let mut k: usize = 0;
    let ghost fs = floats.deep_view();
    while k < floats.len() / 3
        invariant
            fs == floats.deep_view(),
            k <= floats@.len() / 3,
            res.deep_view() == triples(fs).take(k as int),
        decreases floats@.len() / 3 - k,
    {
        let t = (floats[3 * k], floats[3 * k + 1], floats[3 * k + 2]);
        let ghost prev = res;
        res.push(t);
        proof {
            lemma_push_deep_view(prev, res, t);
        }
        assert(res.deep_view() =~= triples(fs).take(k + 1));
        k += 1;
    }
    assert(triples(fs).take(k as int) =~= triples(fs));
    res
}

/// Groups the values three by three into positions.
pub fn group_to_positions<'a>(floats: Vec<Number<'a>>) -> (r: Vec<Position<'a>>)
    ensures
        r.deep_view() == triples(floats.deep_view()),
{
    let groups = group3(&floats);
    let mut res: Vec<Position<'a>> = Vec::new();
    let mut k: usize = 0;
    while k < groups.len()
        invariant
            k <= groups@.len(),
            res.deep_view() == groups.deep_view().take(k as int),
        decreases groups@.len() - k,
    {
        let p = Position { position: groups[k] };
        let ghost prev = res;
        res.push(p);
        proof {
            lemma_push_deep_view(prev, res, p);
        }
        assert(res.deep_view() =~= groups.deep_view().take(k + 1));
        k += 1;
    }
    assert(groups.deep_view().take(k as int) =~= groups.deep_view());
    res
}

/// Groups the values three by three into normals.
pub fn group_to_normals<'a>(floats: Vec<Number<'a>>) -> (r: Vec<Normal<'a>>)
    ensures
        r.deep_view() == triples(floats.deep_view()),
{
    let groups = group3(&floats);
    let mut res: Vec<Normal<'a>> = Vec::new();
    let mut k: usize = 0;
    while k < groups.len()
        invariant
            k <= groups@.len(),
            res.deep_view() == groups.deep_view().take(k as int),
        decreases groups@.len() - k,
    {
        let p = Normal { normal: groups[k] };
        let ghost prev = res;
        res.push(p);
        proof {
            lemma_push_deep_view(prev, res, p);
        }
        assert(res.deep_view() =~= groups.deep_view().take(k + 1));
        k += 1;
    }
    assert(groups.deep_view().take(k as int) =~= groups.deep_view());
    res
}

/// Groups the values two by two into texture coordinates.
pub fn group_to_tex_coords<'a>(floats: Vec<Number<'a>>) -> (r: Vec<TextureCoordinates<'a>>)
    ensures
        r.deep_view() == pairs(floats.deep_view()),
{
    let mut res: Vec<TextureCoordinates<'a>> = Vec::new();
    let mut k: usize = 0;
    let ghost fs = floats.deep_view();
    while k < floats.len() / 2
        invariant
            fs == floats.deep_view(),
            k <= floats@.len() / 2,
            res.deep_view() == pairs(fs).take(k as int),
        decreases floats@.len() / 2 - k,
    {
        let t = TextureCoordinates { coordinates: (floats[2 * k], floats[2 * k + 1]) };
        let ghost prev = res;
        res.push(t);
        proof {
            lemma_push_deep_view(prev, res, t);
        }
        assert(res.deep_view() =~= pairs(fs).take(k + 1));
        k += 1;
    }
    assert(pairs(fs).take(k as int) =~= pairs(fs));
    res
}


/// The number that the first `j` of the digit values `d` write, with zeros
/// past the last of them.
pub open spec fn leading_value(d: Seq<u32>, j: int) -> int
    decreases j,
{
    if j <= 0 {
        0
    } else {
        leading_value(d, j - 1) * 10 + (if j - 1 < d.len() {
            d[j - 1] as int
        } else {
            0
        })
    }
}

/// The largest index.
pub const INDEX_MAX: u16 = 65535;

/// `n` as an index: its value truncated toward zero, with negative values
/// giving 0 and values past the largest index giving the largest index.
pub open spec fn index_of(n: NumberModel) -> u16 {
    let d = digit_values(n.whole + n.frac);
    let k = n.whole.len() + n.exponent;
    if n.negative || k <= 0 {
        0
    } else if leading_value(d, k) > INDEX_MAX {
        INDEX_MAX
    } else {
        leading_value(d, k) as u16
    }
}

proof fn lemma_leading_value_mono(d: Seq<u32>, a: int, b: int)
    requires
        a <= b,
    ensures
        0 <= leading_value(d, a) <= leading_value(d, b),
    decreases b - a,
{
    if a < b {
        lemma_leading_value_mono(d, a, b - 1);
        lemma_leading_value_nonneg(d, b - 1);
    } else {
        lemma_leading_value_nonneg(d, a);
    }
}

proof fn lemma_leading_value_nonneg(d: Seq<u32>, a: int)
    ensures
        0 <= leading_value(d, a),
    decreases a,
{
    if a > 0 {
        lemma_leading_value_nonneg(d, a - 1);
    }
}

proof fn lemma_leading_value_zero(d: Seq<u32>, a: int, b: int)
    requires
        d.len() <= a <= b,
        leading_value(d, a) == 0,
    ensures
        leading_value(d, b) == 0,
    decreases b - a,
{
    if a < b {
        lemma_leading_value_zero(d, a, b - 1);
    }
}

/// The index that `n` stands for.
pub fn to_index(n: &Number) -> (r: u16)
    ensures
        r == index_of(n.deep_view()),
{
    if n.negative {
        return 0;
    }
    note_len_bound(n.whole);
    note_len_bound(n.frac);
    let ghost all = n.whole@ + n.frac@;
    let ghost d = digit_values(all);
    let wl = crate::lexical::char_count(n.whole);
    let k: i128 = wl as i128 + n.exponent as i128;
    if k <= 0 {
        return 0;
    }
    let mut acc: u32 = 0;
    let mut j: i128 = 0;
    let mut rest_w = n.whole;
    let mut rest_f = n.frac;
    assert(n.whole@.skip(0) =~= n.whole@);
    assert(n.frac@.skip(0) =~= n.frac@);
    while j < k
        invariant
            !n.negative,
            0 <= j <= k,
            k == n.whole@.len() + n.exponent,
            d == digit_values(all),
            all == n.whole@ + n.frac@,
            acc as int == leading_value(d, j as int),
            acc <= INDEX_MAX,
            j <= n.whole@.len() ==> rest_w@ == n.whole@.skip(j as int) && rest_f@ == n.frac@,
            n.whole@.len() < j <= all.len() ==> rest_w@.len() == 0 && rest_f@ == n.frac@.skip(
                j - n.whole@.len(),
            ),
            j > all.len() ==> rest_w@.len() == 0 && rest_f@.len() == 0,
        decreases k - j,
    {
        let ghost jj = j as int;
        let dv: u32 = match split_first(rest_w) {
            Some((c, t)) => {
                assert(c == all[jj]);
                rest_w = t;
                assert(rest_w@ =~= n.whole@.skip(jj + 1));
                if '0' <= c && c <= '9' {
                    c as u32 - '0' as u32
                } else {
                    0
                }
            },
            None => match split_first(rest_f) {
                Some((c, t)) => {
                    assert(c == all[jj]);
                    rest_f = t;
                    assert(rest_f@ =~= n.frac@.skip(jj + 1 - n.whole@.len()));
                    if '0' <= c && c <= '9' {
                        c as u32 - '0' as u32
                    } else {
                        0
                    }
                },
                None => {
                    if acc == 0 {
                        proof {
                            lemma_leading_value_zero(d, jj, k as int);
                        }
                        return 0;
                    }
                    0
                },
            },
        };
        assert(jj < d.len() ==> d[jj] == dv);
        assert(jj >= d.len() ==> dv == 0);
        acc = acc * 10 + dv;
        assert(acc as int == leading_value(d, jj + 1));
        j = j + 1;
        if acc > INDEX_MAX as u32 {
            proof {
                lemma_leading_value_mono(d, j as int, k as int);
            }
            assert(leading_value(d, k as int) > INDEX_MAX);
            return INDEX_MAX;
        }
    }
    acc as u16
}

/// Each value as an index, in order.
pub fn to_indices(floats: Vec<Number>) -> (r: Vec<u16>)
    ensures
        r@ == floats.deep_view().map_values(|n: NumberModel| index_of(n)),
{
    let mut res: Vec<u16> = Vec::new();
    let mut i: usize = 0;
    while i < floats.len()
        invariant
            i <= floats@.len(),
            res@ == floats.deep_view().take(i as int).map_values(|n: NumberModel| index_of(n)),
        decreases floats@.len() - i,
    {
        let x = to_index(&floats[i]);
        res.push(x);
        assert(res@ =~= floats.deep_view().take(i + 1).map_values(|n: NumberModel| index_of(n)));
        i += 1;
    }
    assert(floats.deep_view().take(i as int) =~= floats.deep_view());
    res
}

/// The matrix written by sixteen values: the value at `4 * row + col` goes to
/// `m[col][row]`; any other count of values gives nothing.
pub fn to_matrix<'a>(floats: Vec<Number<'a>>) -> (r: Option<[[Number<'a>; 4]; 4]>)
    ensures
        floats@.len() == 16 <==> r is Some,
        r matches Some(m) ==> forall|i: int, j: int|
            0 <= i < 4 && 0 <= j < 4 ==> #[trigger] m@[i]@[j] == floats@[4 * j + i],
{
    if floats.len() != 16 {
        None
    } else {
        let m = [
            [floats[0], floats[4], floats[8], floats[12]],
            [floats[1], floats[5], floats[9], floats[13]],
            [floats[2], floats[6], floats[10], floats[14]],
            [floats[3], floats[7], floats[11], floats[15]],
        ];
        Some(m)
    }
}


/// `k` occurs in `h`.
pub open spec fn contains_seq(h: Seq<char>, k: Seq<char>) -> bool {
    exists|i: int| 0 <= i && i + k.len() <= h.len() && #[trigger] h.subrange(i, i + k.len()) == k
}

/// Whether `needle` occurs in `hay`.
pub fn contains_str(hay: &str, needle: &str) -> (r: bool)
    ensures
        r == contains_seq(hay@, needle@),
{
    let mut rest = hay;
    let ghost mut i: int = 0;
    assert(hay@.skip(0) =~= hay@);
    loop
        invariant
            0 <= i <= hay@.len(),
            rest@ == hay@.skip(i),
            forall|p: int| 0 <= p < i && p + needle@.len() <= hay@.len() ==> #[trigger] hay@.subrange(p, p + needle@.len()) != needle@,
        decreases rest@.len(),
    {
        if strip_literal(rest, needle).is_some() {
            assert(hay@.subrange(i, i + needle@.len()) =~= rest@.take(needle@.len() as int));
            return true;
        }
        assert(i + needle@.len() <= hay@.len() ==> hay@.subrange(i, i + needle@.len()) =~= rest@.take(
            needle@.len() as int,
        ));
        match split_first(rest) {
            None => {
                return false;
            },
            Some((_, tail)) => {
                rest = tail;
                proof {
                    i = i + 1;
                }
                assert(rest@ =~= hay@.skip(i));
            },
        }
    }
}

/// `d` is a tag whose first attribute is a string attribute `id` whose value
/// holds `key`.
pub open spec fn has_id_with(d: Doc, key: Seq<char>) -> bool {
    &&& d is Tag
    &&& d->Tag_1.len() > 0
    &&& d->Tag_1[0] matches Attr::Str(n, v) && n == "id"@ && contains_seq(v, key)
}

/// The position of the last of `cs` with an `id` holding `key`.
pub open spec fn last_with_id(cs: Seq<Doc>, key: Seq<char>) -> Option<int>
    decreases cs.len(),
{
    if cs.len() == 0 {
        None
    } else if has_id_with(cs.last(), key) {
        Some(cs.len() - 1)
    } else {
        last_with_id(cs.drop_last(), key)
    }
}

/// The `mesh` tag of a document: `library_geometries`, `geometry`, `mesh`
/// under its header.
pub open spec fn mesh_of(d: Doc) -> Option<Doc> {
    match d {
        Doc::Header(b) => match spec_find_child(*b, "library_geometries"@) {
            Some(x1) => match spec_find_child(x1, "geometry"@) {
                Some(x2) => spec_find_child(x2, "mesh"@),
                None => None,
            },
            None => None,
        },
        _ => None,
    }
}

/// The numbers of the `float_array` of the last child of the mesh whose `id`
/// holds `key`.
pub open spec fn source_numbers(d: Doc, key: Seq<char>) -> Option<Seq<NumberModel>> {
    match mesh_of(d) {
        Some(Doc::Tag(_, _, cs)) => match last_with_id(cs, key) {
            Some(i) => match spec_find_child(cs[i], "float_array"@) {
                Some(fa) => spec_first_numbers(fa),
                None => None,
            },
            None => None,
        },
        _ => None,
    }
}

/// The numbers under `p` of `triangles` of the mesh.
pub open spec fn index_numbers(d: Doc) -> Option<Seq<NumberModel>> {
    match mesh_of(d) {
        Some(m) => match spec_find_child(m, "triangles"@) {
            Some(t) => match spec_find_child(t, "p"@) {
                Some(p) => spec_first_numbers(p),
                None => None,
            },
            None => None,
        },
        None => None,
    }
}

/// The numbers of `matrix` under `library_visual_scenes`, `visual_scene`
/// and `node`.
pub open spec fn matrix_numbers(d: Doc) -> Option<Seq<NumberModel>> {
    match d {
        Doc::Header(b) => match spec_find_child(*b, "library_visual_scenes"@) {
            Some(x1) => match spec_find_child(x1, "visual_scene"@) {
                Some(x2) => match spec_find_child(x2, "node"@) {
                    Some(x3) => match spec_find_child(x3, "matrix"@) {
                        Some(m) => spec_first_numbers(m),
                        None => None,
                    },
                    None => None,
                },
                None => None,
            },
            None => None,
        },
        _ => None,
    }
}

proof fn lemma_last_with_id(cs: Seq<Doc>, key: Seq<char>)
    ensures
        match last_with_id(cs, key) {
            None => true,
            Some(i) => 0 <= i < cs.len(),
        },
    decreases cs.len(),
{
    if cs.len() > 0 && !has_id_with(cs.last(), key) {
        lemma_last_with_id(cs.drop_last(), key);
    }
}

fn find_mesh<'b, 'a>(source: &'b Collada<'a>) -> (r: Option<&'b Collada<'a>>)
    ensures
        match mesh_of(source.deep_view()) {
            None => r is None,
            Some(d) => r matches Some(c) && c.deep_view() == d,
        },
{
    match source {
        Collada::ColladaHeader(b) => {
            assert(source.deep_view() == Doc::Header(Box::new((**b).deep_view())));
            match find_tag_name(b, "library_geometries") {
                Some(x1) => match find_tag_name(x1, "geometry") {
                    Some(x2) => find_tag_name(x2, "mesh"),
                    None => None,
                },
                None => None,
            }
        },
        _ => None,
    }
}

/// Whether `item` is a tag whose first attribute is a string attribute `id`
/// whose value holds `key`.
fn is_source_with(item: &Collada, key: &str) -> (r: bool)
    ensures
        r == has_id_with(item.deep_view(), key@),
{
    match item {
        Collada::ColladaTag(_, params, _) => {
            if params.len() == 0 {
                return false;
            }
            assert(item.deep_view()->Tag_1[0] == params@[0].deep_view());
            match &params[0] {
                TagParameter::ParameterString(name, val) => str_eq(name, "id") && contains_str(val, key),
                _ => false,
            }
        },
        _ => false,
    }
}

fn source_floats<'a>(source: &Collada<'a>, key: &str) -> (r: Option<Vec<Number<'a>>>)
    ensures
        match source_numbers(source.deep_view(), key@) {
            None => r is None,
            Some(ns) => r matches Some(v) && v.deep_view() == ns,
        },
{
    let mesh = match find_mesh(source) {
        None => {
            return None;
        },
        Some(m) => m,
    };
    match mesh {
        Collada::ColladaTag(_, _, cont) => {
            let ghost cs = mesh.deep_view()->Tag_2;
            let mut res: Option<&Collada<'a>> = None;
            let mut i: usize = 0;
            while i < cont.len()
                invariant
                    i <= cont@.len(),
                    cs.len() == cont@.len(),
                    forall|j: int| 0 <= j < cs.len() ==> cs[j] == crate::document::doc_view(&cont@[j]),
                    match last_with_id(cs.take(i as int), key@) {
                        None => res is None,
                        Some(k) => res matches Some(c) && c.deep_view() == cs[k],
                    },
                decreases cont@.len() - i,
            {
                let item = &cont[i];
                assert(cs.take(i + 1).drop_last() =~= cs.take(i as int));
                if is_source_with(item, key) {
                    res = Some(item);
                }
                i += 1;
            }
            assert(cs.take(cs.len() as int) =~= cs);
            proof {
                lemma_last_with_id(cs, key@);
            }
            match res {
                None => None,
                Some(x) => match find_tag_name(x, "float_array") {
                    Some(floats_tag) => find_floats(floats_tag),
                    None => None,
                },
            }
        },
        _ => None,
    }
}

/// The positions of a document: the numbers of the mesh's source whose `id`
/// holds `position`, three by three.
pub fn extract_positions<'a>(source: &Collada<'a>) -> (r: Option<Vec<Position<'a>>>)
    ensures
        match source_numbers(source.deep_view(), "position"@) {
            None => r is None,
            Some(ns) => r matches Some(v) && v.deep_view() == triples(ns),
        },
{
    match source_floats(source, "position") {
        Some(vec) => Some(group_to_positions(vec)),
        None => None,
    }
}

/// The normals of a document: the numbers of the mesh's source whose `id`
/// holds `normal`, three by three.
pub fn extract_normals<'a>(source: &Collada<'a>) -> (r: Option<Vec<Normal<'a>>>)
    ensures
        match source_numbers(source.deep_view(), "normal"@) {
            None => r is None,
            Some(ns) => r matches Some(v) && v.deep_view() == triples(ns),
        },
{
    match source_floats(source, "normal") {
        Some(vec) => Some(group_to_normals(vec)),
        None => None,
    }
}

/// The texture coordinates of a document: the numbers of the mesh's source
/// whose `id` holds `map`, two by two.
pub fn extract_texture_coordinates<'a>(source: &Collada<'a>) -> (r: Option<Vec<TextureCoordinates<'a>>>)
    ensures
        match source_numbers(source.deep_view(), "map"@) {
            None => r is None,
            Some(ns) => r matches Some(v) && v.deep_view() == pairs(ns),
        },
{
    match source_floats(source, "map") {
        Some(vec) => Some(group_to_tex_coords(vec)),
        None => None,
    }
}

/// The triangle indices of a document: the numbers under `triangles` and
/// `p` of the mesh, each as an index.
pub fn extract_indices<'a>(source: &Collada<'a>) -> (r: Option<Vec<u16>>)
    ensures
        match index_numbers(source.deep_view()) {
            None => r is None,
            Some(ns) => r matches Some(v) && v@ == ns.map_values(|n: NumberModel| index_of(n)),
        },
{
    match find_mesh(source) {
        Some(x3) => match find_tag_name(x3, "triangles") {
            Some(x4) => match find_tag_name(x4, "p") {
                Some(x5) => match find_floats(x5) {
                    Some(floats) => Some(to_indices(floats)),
                    None => None,
                },
                None => None,
            },
            None => None,
        },
        None => None,
    }
}

/// The transform of a document: the sixteen numbers of `matrix` under
/// `library_visual_scenes`, `visual_scene` and `node`, with the value at
/// `4 * row + col` at `m[col][row]`. Any other count of numbers gives nothing.
pub fn extract_transform_mat<'a>(source: &Collada<'a>) -> (r: Option<[[Number<'a>; 4]; 4]>)
    ensures
        match matrix_numbers(source.deep_view()) {
            None => r is None,
            Some(ns) => (ns.len() == 16 <==> r is Some) && (r matches Some(m) ==> forall|i: int, j: int|
                0 <= i < 4 && 0 <= j < 4 ==> #[trigger] m@[i]@[j].deep_view() == ns[4 * j + i]),
        },
{
    match source {
        Collada::ColladaHeader(b) => {
            assert(source.deep_view() == Doc::Header(Box::new((**b).deep_view())));
            match find_tag_name(b, "library_visual_scenes") {
                Some(x1) => match find_tag_name(x1, "visual_scene") {
                    Some(x2) => match find_tag_name(x2, "node") {
                        Some(x3) => match find_tag_name(x3, "matrix") {
                            Some(mat) => match find_floats(mat) {
                                Some(vec) => {
                                    let ghost ns = vec.deep_view();
                                    let r = to_matrix(vec);
                                    assert forall|i: int, j: int| 0 <= i < 4 && 0 <= j < 4 && r is Some
                                        implies #[trigger] r->0@[i]@[j].deep_view() == ns[4 * j + i] by {
                                        assert(ns[4 * j + i] == vec@[4 * j + i].deep_view());
                                    }
                                    r
                                },
                                None => None,
                            },
                            None => None,
                        },
                        None => None,
                    },
                    None => None,
                },
                None => None,
            }
        },
        _ => None,
    }
}


/// The `g`-th group of three indices resolves against arrays of the given
/// lengths: position, normal and texture coordinates, in that order.
pub open spec fn group_in_range(indices: Seq<u16>, g: int, n_pos: nat, n_norm: nat, n_tex: nat) -> bool {
    &&& (indices[3 * g] as nat) < n_pos
    &&& (indices[3 * g + 1] as nat) < n_norm
    &&& (indices[3 * g + 2] as nat) < n_tex
}

/// The vertices that the groups of three indices resolve to, in order.
pub open spec fn packed(pos: Seq<Triple>, norm: Seq<Triple>, tex: Seq<Pair>, indices: Seq<u16>) -> Seq<
    (Triple, Triple, Pair),
> {
    Seq::new(
        indices.len() / 3,
        |g: int|
            (pos[indices[3 * g] as int], norm[indices[3 * g + 1] as int], tex[indices[3 * g + 2] as int]),
    )
}

/// Joins the arrays into vertices: each group of three indices (position,
/// normal, texture coordinates) gives one vertex; a last group of fewer than
/// three is dropped. Nothing is returned where any index is out of range for
/// its array.
pub fn pack_verts<'a>(
    pos: Vec<Position<'a>>,
    norm: Vec<Normal<'a>>,
    tex_coords: Vec<TextureCoordinates<'a>>,
    indices: Vec<u16>,
) -> (r: Option<Vec<Vertex<'a>>>)
    ensures
        (forall|g: int|
            0 <= g < indices@.len() / 3 ==> #[trigger] group_in_range(
                indices@,
                g,
                pos@.len(),
                norm@.len(),
                tex_coords@.len(),
            )) <==> r is Some,
        r matches Some(v) ==> v.deep_view() == packed(
            pos.deep_view(),
            norm.deep_view(),
            tex_coords.deep_view(),
            indices@,
        ),
{
    let ghost want = packed(pos.deep_view(), norm.deep_view(), tex_coords.deep_view(), indices@);
    let mut res: Vec<Vertex<'a>> = Vec::new();
    let mut g: usize = 0;
    while g < indices.len() / 3
        invariant
            g <= indices@.len() / 3,
            want == packed(pos.deep_view(), norm.deep_view(), tex_coords.deep_view(), indices@),
            forall|h: int|
                0 <= h < g ==> #[trigger] group_in_range(indices@, h, pos@.len(), norm@.len(), tex_coords@.len()),
            res.deep_view() == want.take(g as int),
        decreases indices@.len() / 3 - g,
    {
        let pi = indices[3 * g] as usize;
        let ni = indices[3 * g + 1] as usize;
        let ti = indices[3 * g + 2] as usize;
        if pi >= pos.len() || ni >= norm.len() || ti >= tex_coords.len() {
            assert(!group_in_range(indices@, g as int, pos@.len(), norm@.len(), tex_coords@.len()));
            return None;
        }
        let v = Vertex { position: pos[pi].position, normal: norm[ni].normal, tex_coords: tex_coords[ti].coordinates };
        let ghost prev = res;
        res.push(v);
        proof {
            lemma_push_deep_view(prev, res, v);
            assert(pos.deep_view()[pi as int] == pos@[pi as int].deep_view());
            assert(norm.deep_view()[ni as int] == norm@[ni as int].deep_view());
            assert(tex_coords.deep_view()[ti as int] == tex_coords@[ti as int].deep_view());
        }
        assert(res.deep_view() =~= want.take(g + 1));
        g += 1;
    }
    assert(want.take(g as int) =~= want);
    Some(res)
}

/// Packing into separate indexed buffers is not provided: always nothing.
pub fn pack_indexed_verts<'a>(
    pos: Vec<Position<'a>>,
    norm: Vec<Normal<'a>>,
    tex_coords: Vec<TextureCoordinates<'a>>,
    indices: Vec<u16>,
) -> (r: Option<(Vec<Position<'a>>, Vec<Normal<'a>>, Vec<TextureCoordinates<'a>>, Vec<u16>)>)
    ensures
        r is None,
{
    None
}

} // verus!
