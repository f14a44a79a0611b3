//! The document grammar: attributes, tags with content, self-closing tags, a
//! prologue, text and runs of numbers, building one tree.

use vstd::prelude::*;
use crate::combinators::{Parser, outcome, spec_delimited};
use crate::lexical::{
    leading_spaces, parse_ws, strip_literal, spec_until, starts_with, Token, Until, UntilAny, Whitespace,
};
use crate::numeric::{
    parse_scientific, Integer, Number, NumberModel, Scientific, spec_integer, spec_scientific,
};
use crate::text::{contains_char, shorter, suffix_of, lemma_suffix_trans};

verus! {

/// An attribute of a tag: a name with a string or an integer value.
#[derive(Debug, PartialEq)]
pub enum TagParameter<'a> {
    ParameterString(&'a str, &'a str),
    ParameterInt(&'a str, i32),
}

/// The model of an attribute.
pub enum Attr {
    Str(Seq<char>, Seq<char>),
    Int(Seq<char>, i32),
}

impl<'a> DeepView for TagParameter<'a> {
    type V = Attr;

    open spec fn deep_view(&self) -> Attr {
        match self {
            TagParameter::ParameterString(n, v) => Attr::Str(n@, v@),
            TagParameter::ParameterInt(n, v) => Attr::Int(n@, *v),
        }
    }
}

impl Attr {
    pub open spec fn name(self) -> Seq<char> {
        match self {
            Attr::Str(n, _) => n,
            Attr::Int(n, _) => n,
        }
    }
}

/// Text after any white space at its start.
pub open spec fn skip_ws(s: Seq<char>) -> Seq<char> {
    s.skip(leading_spaces(s) as int)
}

/// What reading `name="` does: the name, and the text after the quote.
pub open spec fn spec_param_head(s: Seq<char>) -> Option<(Seq<char>, Seq<char>)> {
    let (r, name) = spec_until(s, seq!['=']);
    if starts_with(r, seq!['=', '"']) {
        Some((r.skip(2), name))
    } else {
        None
    }
}

/// What reading an attribute with an integer value does: `name="<integer>"`.
pub open spec fn spec_param_int(s: Seq<char>) -> Option<(Seq<char>, Attr)> {
    match spec_param_head(s) {
        None => None,
        Some((r, name)) => match spec_integer(r) {
            Some((r2, v)) if starts_with(r2, seq!['"']) => Some((r2.skip(1), Attr::Int(name, v))),
            _ => None,
        },
    }
}

/// What reading an attribute with a string value does: `name="<text>"`.
pub open spec fn spec_param_str(s: Seq<char>) -> Option<(Seq<char>, Attr)> {
    match spec_param_head(s) {
        None => None,
        Some((r, name)) => {
            let (r2, v) = spec_until(r, seq!['"']);
            if starts_with(r2, seq!['"']) {
                Some((r2.skip(1), Attr::Str(name, v)))
            } else {
                None
            }
        },
    }
}

/// A name that cannot run past the end of a tag.
pub open spec fn name_ok(n: Seq<char>) -> bool {
    !n.contains('/') && !n.contains('>') && !n.contains('<')
}

/// What reading an attribute does: an integer value is tried before a string
/// value, and a name holding `/`, `<` or `>` is refused.
pub open spec fn spec_param(s: Seq<char>) -> Option<(Seq<char>, Attr)> {
    let r = match spec_param_int(s) {
        Some(x) => Some(x),
        None => spec_param_str(s),
    };
    match r {
        Some((rest, a)) if name_ok(a.name()) => Some((rest, a)),
        _ => None,
    }
}

/// What reading a tag's name does, with `stops` the characters that end it:
/// the text up to the first of them, refused where it holds `/`.
pub open spec fn spec_identifier(s: Seq<char>, stops: Seq<char>) -> Option<(Seq<char>, Seq<char>)> {
    let (r, name) = spec_until(s, stops);
    if name.contains('/') {
        None
    } else {
        Some((r, name))
    }
}

pub open spec fn open_stops() -> Seq<char> {
    seq!['>', ' ']
}

pub open spec fn closed_stops() -> Seq<char> {
    seq!['/', ' ']
}

proof fn lemma_skip_suffix(s: Seq<char>, k: int)
    requires
        0 <= k <= s.len(),
    ensures
        suffix_of(s.skip(k), s),
{
    assert(s.skip(k) =~= s.skip(s.len() - s.skip(k).len()));
}

proof fn lemma_param_suffix(s: Seq<char>)
    ensures
        spec_param_int(s) matches Some((r, _)) ==> suffix_of(r, s),
        spec_param_str(s) matches Some((r, _)) ==> suffix_of(r, s),
        spec_param(s) matches Some((r, _)) ==> suffix_of(r, s),
{
    crate::lexical::lemma_until_suffix(s, seq!['=']);
    if let Some((r, name)) = spec_param_head(s) {
        let r0 = spec_until(s, seq!['=']).0;
        lemma_skip_suffix(r0, 2);
        lemma_suffix_trans(r, r0, s);
        Integer.lemma_parse_suffix(r);
        if let Some((r2, v)) = spec_integer(r) {
            if starts_with(r2, seq!['"']) {
                lemma_skip_suffix(r2, 1);
                lemma_suffix_trans(r2.skip(1), r2, r);
                lemma_suffix_trans(r2.skip(1), r, s);
            }
        }
        crate::lexical::lemma_until_suffix(r, seq!['"']);
        let r2 = spec_until(r, seq!['"']).0;
        if starts_with(r2, seq!['"']) {
            lemma_skip_suffix(r2, 1);
            lemma_suffix_trans(r2.skip(1), r2, r);
            lemma_suffix_trans(r2.skip(1), r, s);
        }
    }
}

/// Reads `name="`.
fn read_param_head<'a>(input: &'a str) -> (r: Option<(&'a str, &'a str)>)
    ensures
        outcome(r) == spec_param_head(input@),
{
    let (r1, name) = (Until { c: '=' }).parse(input).unwrap();
    let tok = "=\"";
    proof {
        reveal_strlit("=\"");
        assert(tok@ =~= seq!['=', '"']);
    }
    match (Token { token: tok }).parse(r1) {
        None => None,
        Some((r2, _)) => Some((r2, name)),
    }
}

fn read_quote<'a>(input: &'a str) -> (r: Option<&'a str>)
    ensures
        starts_with(input@, seq!['"']) <==> r is Some,
        r matches Some(rest) ==> rest@ == input@.skip(1),
{
    let tok = "\"";
    proof {
        reveal_strlit("\"");
        assert(tok@ =~= seq!['"']);
    }
    match (Token { token: tok }).parse(input) {
        None => None,
        Some((rest, _)) => Some(rest),
    }
}

/// Whether `n` is a name that cannot run past the end of a tag.
fn check_name(n: &str) -> (r: bool)
    ensures
        r == name_ok(n@),
{
    !contains_char(n, '/') && !contains_char(n, '>') && !contains_char(n, '<')
}

fn read_param_int<'a>(input: &'a str) -> (r: Option<(&'a str, TagParameter<'a>)>)
    ensures
        outcome(r) == spec_param_int(input@),
{
    match read_param_head(input) {
        None => None,
        Some((r, name)) => match Integer.parse(r) {
            None => None,
            Some((r2, v)) => match read_quote(r2) {
                None => None,
                Some(r3) => Some((r3, TagParameter::ParameterInt(name, v))),
            },
        },
    }
}

fn read_param_str<'a>(input: &'a str) -> (r: Option<(&'a str, TagParameter<'a>)>)
    ensures
        outcome(r) == spec_param_str(input@),
{
    match read_param_head(input) {
        None => None,
        Some((r, name)) => {
            let (r2, v) = (Until { c: '"' }).parse(r).unwrap();
            match read_quote(r2) {
                None => None,
                Some(r3) => Some((r3, TagParameter::ParameterString(name, v))),
            }
        },
    }
}

fn read_param<'a>(input: &'a str) -> (r: Option<(&'a str, TagParameter<'a>)>)
    ensures
        outcome(r) == spec_param(input@),
{
    let r = match read_param_int(input) {
        Some(x) => Some(x),
        None => read_param_str(input),
    };
    match r {
        None => None,
        Some((rest, TagParameter::ParameterString(name, content))) => {
            if check_name(name) {
                Some((rest, TagParameter::ParameterString(name, content)))
            } else {
                None
            }
        },
        Some((rest, TagParameter::ParameterInt(name, content))) => {
            if check_name(name) {
                Some((rest, TagParameter::ParameterInt(name, content)))
            } else {
                None
            }
        },
    }
}

fn read_identifier<'a>(input: &'a str, stops: Vec<char>) -> (r: Option<(&'a str, &'a str)>)
    ensures
        outcome(r) == spec_identifier(input@, stops@),
{
    let (rest, name) = (UntilAny { cs: stops }).parse(input).unwrap();
    if contains_char(name, '/') {
        None
    } else {
        Some((rest, name))
    }
}

/// `name="<integer>"`.
pub struct TagParameterIntP;

/// `name="<text>"`.
pub struct TagParameterStrP;

/// An attribute of either kind.
pub struct TagParameterP;

/// The name of a tag that has content.
pub struct TagIdentifierP;

/// The name of a self-closing tag.
pub struct TagIdentifierClosedP;

impl<'a> Parser<'a, TagParameter<'a>> for TagParameterIntP {
    open spec fn spec_parse(&self, s: Seq<char>) -> Option<(Seq<char>, Attr)> {
        spec_param_int(s)
    }

    open spec fn wf(&self) -> bool {
        true
    }

    fn parse(&self, input: &'a str) -> (r: Option<(&'a str, TagParameter<'a>)>) {
        read_param_int(input)
    }

    proof fn lemma_parse_suffix(&self, s: Seq<char>) {
        lemma_param_suffix(s);
    }
}

impl<'a> Parser<'a, TagParameter<'a>> for TagParameterStrP {
    open spec fn spec_parse(&self, s: Seq<char>) -> Option<(Seq<char>, Attr)> {
        spec_param_str(s)
    }

    open spec fn wf(&self) -> bool {
        true
    }

    fn parse(&self, input: &'a str) -> (r: Option<(&'a str, TagParameter<'a>)>) {
        read_param_str(input)
    }

    proof fn lemma_parse_suffix(&self, s: Seq<char>) {
        lemma_param_suffix(s);
    }
}

impl<'a> Parser<'a, TagParameter<'a>> for TagParameterP {
    open spec fn spec_parse(&self, s: Seq<char>) -> Option<(Seq<char>, Attr)> {
        spec_param(s)
    }

    open spec fn wf(&self) -> bool {
        true
    }

    fn parse(&self, input: &'a str) -> (r: Option<(&'a str, TagParameter<'a>)>) {
        read_param(input)
    }

    proof fn lemma_parse_suffix(&self, s: Seq<char>) {
        lemma_param_suffix(s);
    }
}

impl<'a> Parser<'a, &'a str> for TagIdentifierP {
    open spec fn spec_parse(&self, s: Seq<char>) -> Option<(Seq<char>, Seq<char>)> {
        spec_identifier(s, open_stops())
    }

    open spec fn wf(&self) -> bool {
        true
    }

    fn parse(&self, input: &'a str) -> (r: Option<(&'a str, &'a str)>) {
        let stops = vec!['>', ' '];
        assert(stops@ =~= open_stops());
        read_identifier(input, stops)
    }

    proof fn lemma_parse_suffix(&self, s: Seq<char>) {
        crate::lexical::lemma_until_suffix(s, open_stops());
    }
}

impl<'a> Parser<'a, &'a str> for TagIdentifierClosedP {
    open spec fn spec_parse(&self, s: Seq<char>) -> Option<(Seq<char>, Seq<char>)> {
        spec_identifier(s, closed_stops())
    }

    open spec fn wf(&self) -> bool {
        true
    }

    fn parse(&self, input: &'a str) -> (r: Option<(&'a str, &'a str)>) {
        let stops = vec!['/', ' '];
        assert(stops@ =~= closed_stops());
        read_identifier(input, stops)
    }

    proof fn lemma_parse_suffix(&self, s: Seq<char>) {
        crate::lexical::lemma_until_suffix(s, closed_stops());
    }
}

/// An attribute with an integer value: a name up to `=`, then `="`, an
/// integer and `"`.
pub fn tag_parameter_int_p() -> (r: TagParameterIntP) {
    TagParameterIntP
}

/// An attribute with a string value: a name up to `=`, then `="`, the text up
/// to the next `"`, and `"`.
pub fn tag_parameter_str_p() -> (r: TagParameterStrP) {
    TagParameterStrP
}

/// An attribute: the integer form is tried first; a name that holds `/`, `<`
/// or `>` is refused.
pub fn tag_parameter_p() -> (r: TagParameterP) {
    TagParameterP
}

/// The name of a tag with content: the text up to the first `>` or space,
/// refused where it holds `/`.
pub fn tag_identifier_p() -> (r: TagIdentifierP) {
    TagIdentifierP
}

/// The name of a self-closing tag: the text up to the first `/` or space.
pub fn tag_identifier_closed_p() -> (r: TagIdentifierClosedP) {
    TagIdentifierClosedP
}


/// A parsed document: a tree of tags, text and runs of numbers.
#[derive(Debug, PartialEq)]
pub enum Collada<'a> {
    ColladaNone,
    ColladaHeader(Box<Collada<'a>>),
    ColladaString(&'a str),
    ColladaFloats(Vec<Number<'a>>),
    ColladaTag(&'a str, Vec<TagParameter<'a>>, Box<Vec<Collada<'a>>>),
    ColladaTagClosed(&'a str, Vec<TagParameter<'a>>),
}

/// The model of a document tree.
pub enum Doc {
    Empty,
    Header(Box<Doc>),
    Text(Seq<char>),
    Numbers(Seq<NumberModel>),
    Tag(Seq<char>, Seq<Attr>, Seq<Doc>),
    Closed(Seq<char>, Seq<Attr>),
}

pub open spec fn doc_view<'a>(c: &Collada<'a>) -> Doc
    decreases c,
{
    match c {
        Collada::ColladaNone => Doc::Empty,
        Collada::ColladaHeader(b) => Doc::Header(Box::new(doc_view(&**b))),
        Collada::ColladaString(t) => Doc::Text(t@),
        Collada::ColladaFloats(ns) => Doc::Numbers(ns.deep_view()),
        Collada::ColladaTag(n, ps, cs) => Doc::Tag(
            n@,
            ps.deep_view(),
            Seq::new(
                cs@.len(),
                |i: int|
                    if 0 <= i < cs@.len() {
                        doc_view(&cs@[i])
                    } else {
                        Doc::Empty
                    },
            ),
        ),
        Collada::ColladaTagClosed(n, ps) => Doc::Closed(n@, ps.deep_view()),
    }
}

impl<'a> DeepView for Collada<'a> {
    type V = Doc;

    open spec fn deep_view(&self) -> Doc {
        doc_view(self)
    }
}

/// What reading an optional list of attributes separated by white space
/// does; with none, nothing is consumed.
pub open spec fn spec_attr_list(s: Seq<char>) -> (Seq<char>, Seq<Attr>) {
    match spec_param(s) {
        None => (s, Seq::empty()),
        Some((r, a)) => {
            let (r2, attrs) = spec_delimited::<TagParameter<'static>, (), TagParameterP, Whitespace>(
                TagParameterP,
                Whitespace,
                r,
            );
            (r2, seq![a] + attrs)
        },
    }
}

/// What reading a run of numbers does: numbers in scientific notation
/// separated by white space, which must be followed by `<`.
pub open spec fn spec_numbers(s: Seq<char>) -> Option<(Seq<char>, Seq<NumberModel>)> {
    match spec_scientific(s) {
        None => None,
        Some((r, n)) => {
            let (r2, ns) = spec_delimited::<Number<'static>, (), Scientific, Whitespace>(
                Scientific,
                Whitespace,
                r,
            );
            if starts_with(r2, seq!['<']) {
                Some((r2, seq![n] + ns))
            } else {
                None
            }
        },
    }
}

/// What reading text does: everything up to the next `<`; nothing read gives
/// the empty node.
pub open spec fn spec_text(s: Seq<char>) -> (Seq<char>, Doc) {
    let (r, t) = spec_until(s, seq!['<']);
    if t.len() == 0 {
        (r, Doc::Empty)
    } else {
        (r, Doc::Text(t))
    }
}

/// What reading a document element does: a header, a tag with content, or a
/// self-closing tag, tried in that order.
pub open spec fn spec_doc(s: Seq<char>) -> Option<(Seq<char>, Doc)>
    decreases s.len(), 3nat,
{
    match spec_header(s) {
        Some(x) => Some(x),
        None => match spec_tag(s) {
            Some(x) => Some(x),
            None => spec_closed(s),
        },
    }
}

/// `<?`, anything up to `?`, `?>`, optional white space, and one element.
/// (The rest is always shorter than `s`; the comparisons with its length
/// state that the definition terminates.)
pub open spec fn spec_header(s: Seq<char>) -> Option<(Seq<char>, Doc)>
    decreases s.len(), 2nat,
{
    if starts_with(s, seq!['<', '?']) {
        let (r1, _) = spec_until(s.skip(2), seq!['?']);
        if starts_with(r1, seq!['?', '>']) {
            let r2 = skip_ws(r1.skip(2));
            if r2.len() < s.len() {
                match spec_doc(r2) {
                    Some((r3, d)) => Some((r3, Doc::Header(Box::new(d)))),
                    None => None,
                }
            } else {
                None
            }
        } else {
            None
        }
    } else {
        None
    }
}

/// The start of a tag with content: `<`, a name, optional white space,
/// optional attributes, `>` and optional white space. Gives what follows,
/// the name and the attributes.
pub open spec fn spec_tag_open(s: Seq<char>) -> Option<(Seq<char>, Seq<char>, Seq<Attr>)> {
    if !starts_with(s, seq!['<']) {
        None
    } else {
        match spec_identifier(s.skip(1), open_stops()) {
            None => None,
            Some((r1, name)) => {
                let (r2, attrs) = spec_attr_list(skip_ws(r1));
                if starts_with(r2, seq!['>']) {
                    Some((skip_ws(r2.skip(1)), name, attrs))
                } else {
                    None
                }
            },
        }
    }
}

/// The end of a tag with content: optional white space, `</`, anything up to
/// `>`, and `>`.
pub open spec fn spec_tag_close(s: Seq<char>) -> Option<Seq<char>> {
    let r = skip_ws(s);
    if starts_with(r, seq!['<', '/']) {
        let (r2, _) = spec_until(r.skip(2), seq!['>']);
        if starts_with(r2, seq!['>']) {
            Some(r2.skip(1))
        } else {
            None
        }
    } else {
        None
    }
}

/// A tag with content: its start, the content, and its end. The closing name
/// is not compared with the opening one.
pub open spec fn spec_tag(s: Seq<char>) -> Option<(Seq<char>, Doc)>
    decreases s.len(), 2nat,
{
    match spec_tag_open(s) {
        None => None,
        Some((r, name, attrs)) => if r.len() < s.len() {
            let (r2, children) = spec_content(r);
            match spec_tag_close(r2) {
                Some(r3) => Some((r3, Doc::Tag(name, attrs, children))),
                None => None,
            }
        } else {
            None
        },
    }
}

/// The content of a tag: one or more elements separated by optional white
/// space; else a run of numbers; else text.
pub open spec fn spec_content(s: Seq<char>) -> (Seq<char>, Seq<Doc>)
    decreases s.len(), 4nat,
{
    match spec_doc(s) {
        Some((r, d)) => if r.len() < s.len() {
            let (r2, ds) = spec_more_docs(r);
            (r2, seq![d] + ds)
        } else {
            (r, seq![d])
        },
        None => match spec_numbers(s) {
            Some((r, ns)) => (r, seq![Doc::Numbers(ns)]),
            None => {
                let (r, t) = spec_text(s);
                (r, seq![t])
            },
        },
    }
}

/// After an element: optional white space and a further element, repeated
/// until no element follows; the white space before the element that failed
/// stays consumed.
pub open spec fn spec_more_docs(s: Seq<char>) -> (Seq<char>, Seq<Doc>)
    decreases s.len(), 4nat,
{
    let r1 = skip_ws(s);
    if r1.len() <= s.len() {
        match spec_doc(r1) {
            None => (r1, Seq::empty()),
            Some((r2, d)) => if r2.len() < s.len() {
                let (r3, ds) = spec_more_docs(r2);
                (r3, seq![d] + ds)
            } else {
                (r2, seq![d])
            },
        }
    } else {
        (r1, Seq::empty())
    }
}

/// `<`, a name, optional white space, optional attributes, and `/>`.
pub open spec fn spec_closed(s: Seq<char>) -> Option<(Seq<char>, Doc)> {
    if !starts_with(s, seq!['<']) {
        None
    } else {
        match spec_identifier(s.skip(1), closed_stops()) {
            None => None,
            Some((r1, name)) => {
                let (r2, attrs) = spec_attr_list(skip_ws(r1));
                if starts_with(r2, seq!['/', '>']) {
                    Some((r2.skip(2), Doc::Closed(name, attrs)))
                } else {
                    None
                }
            },
        }
    }
}


/// Takes the literal `lit` off the start of `input`.
fn expect<'a>(input: &'a str, lit: &str) -> (r: Option<&'a str>)
    ensures
        starts_with(input@, lit@) <==> r is Some,
        r matches Some(rest) ==> rest@ == input@.skip(lit@.len() as int) && suffix_of(rest@, input@),
{
    let r = strip_literal(input, lit);
    proof {
        if r is Some {
            lemma_skip_suffix(input@, lit@.len() as int);
        }
    }
    r
}

/// The text after any white space at the start of `input`.
fn skip_white<'a>(input: &'a str) -> (r: &'a str)
    ensures
        r@ == skip_ws(input@),
        suffix_of(r@, input@),
{
    proof {
        Whitespace.lemma_parse_suffix(input@);
        assert(input@.skip(0) =~= input@);
    }
    match Whitespace.parse(input) {
        Some((r, _)) => r,
        None => input,
    }
}

fn read_attr_list<'a>(input: &'a str) -> (r: (&'a str, Vec<TagParameter<'a>>))
    ensures
        (r.0@, r.1.deep_view()) == spec_attr_list(input@),
        suffix_of(r.0@, input@),
{
    let p = tag_parameter_p().many_delim(parse_ws()).maybe();
    proof {
        p.lemma_parse_suffix(input@);
    }
    p.parse(input).unwrap()
}

fn read_numbers<'a>(input: &'a str) -> (r: Option<(&'a str, Vec<Number<'a>>)>)
    ensures
        outcome(r) == spec_numbers(input@),
        r matches Some((rest, _)) ==> suffix_of(rest@, input@),
{
    let p = parse_scientific().many_delim(parse_ws());
    proof {
        p.lemma_parse_suffix(input@);
    }
    match p.parse(input) {
        None => None,
        Some((rest, ns)) => {
            let lt = "<";
            proof {
                reveal_strlit("<");
                assert(lt@ =~= seq!['<']);
            }
            if expect(rest, lt).is_some() {
                Some((rest, ns))
            } else {
                None
            }
        },
    }
}

fn read_text<'a>(input: &'a str) -> (r: (&'a str, Collada<'a>))
    ensures
        (r.0@, r.1.deep_view()) == spec_text(input@),
        suffix_of(r.0@, input@),
{
    proof {
        crate::lexical::lemma_until_suffix(input@, seq!['<']);
    }
    let (rest, t) = (Until { c: '<' }).parse(input).unwrap();
    if t.is_empty() {
        (rest, Collada::ColladaNone)
    } else {
        (rest, Collada::ColladaString(t))
    }
}

fn read_doc<'a>(input: &'a str) -> (r: Option<(&'a str, Collada<'a>)>)
    ensures
        outcome(r) == spec_doc(input@),
        r matches Some((rest, _)) ==> suffix_of(rest@, input@),
    decreases input@.len(), 3nat,
{
    match read_header(input) {
        Some(x) => Some(x),
        None => match read_tag(input) {
            Some(x) => Some(x),
            None => read_closed(input),
        },
    }
}

fn read_header<'a>(input: &'a str) -> (r: Option<(&'a str, Collada<'a>)>)
    ensures
        outcome(r) == spec_header(input@),
        r matches Some((rest, _)) ==> suffix_of(rest@, input@),
    decreases input@.len(), 2nat,
{
    let open = "<?";
    let close = "?>";
    proof {
        reveal_strlit("<?");
        reveal_strlit("?>");
        assert(open@ =~= seq!['<', '?']);
        assert(close@ =~= seq!['?', '>']);
    }
    let s1 = match expect(input, open) {
        None => {
            return None;
        },
        Some(s1) => s1,
    };
    proof {
        crate::lexical::lemma_until_suffix(s1@, seq!['?']);
    }
    let (r1, _) = (Until { c: '?' }).parse(s1).unwrap();
    let s2 = match expect(r1, close) {
        None => {
            return None;
        },
        Some(s2) => s2,
    };
    let r2 = skip_white(s2);
    proof {
        lemma_suffix_trans(s2@, r1@, s1@);
        lemma_suffix_trans(r2@, s2@, s1@);
        lemma_suffix_trans(r2@, s1@, input@);
    }
    if !shorter(r2, input) {
        return None;
    }
    match read_doc(r2) {
        Some((r3, d)) => {
            proof {
                lemma_suffix_trans(r3@, r2@, input@);
            }
            let h = Collada::ColladaHeader(Box::new(d));
            assert(h.deep_view() == Doc::Header(Box::new(d.deep_view())));
            Some((r3, h))
        },
        None => None,
    }
}

fn read_tag_open<'a>(input: &'a str) -> (r: Option<(&'a str, &'a str, Vec<TagParameter<'a>>)>)
    ensures
        match spec_tag_open(input@) {
            None => r is None,
            Some((rest, name, attrs)) => r matches Some((r0, n, a)) && r0@ == rest && n@ == name
                && a.deep_view() == attrs,
        },
        r matches Some((rest, _, _)) ==> suffix_of(rest@, input@),
{
    let lt = "<";
    let gt = ">";
    proof {
        reveal_strlit("<");
        reveal_strlit(">");
        assert(lt@ =~= seq!['<']);
        assert(gt@ =~= seq!['>']);
    }
    let s1 = match expect(input, lt) {
        None => {
            return None;
        },
        Some(s1) => s1,
    };
    proof {
        TagIdentifierP.lemma_parse_suffix(s1@);
    }
    let (r1, name) = match TagIdentifierP.parse(s1) {
        None => {
            return None;
        },
        Some(x) => x,
    };
    let (r2, attrs) = read_attr_list(skip_white(r1));
    match expect(r2, gt) {
        None => None,
        Some(s2) => {
            let r3 = skip_white(s2);
            proof {
                let w = skip_ws(r1@);
                lemma_suffix_trans(w, r1@, s1@);
                lemma_suffix_trans(r2@, w, s1@);
                lemma_suffix_trans(s2@, r2@, s1@);
                lemma_suffix_trans(r3@, s2@, s1@);
                lemma_suffix_trans(r3@, s1@, input@);
            }
            Some((r3, name, attrs))
        },
    }
}

fn read_tag_close<'a>(input: &'a str) -> (r: Option<&'a str>)
    ensures
        match spec_tag_close(input@) {
            None => r is None,
            Some(rest) => r matches Some(x) && x@ == rest,
        },
        r matches Some(rest) ==> suffix_of(rest@, input@),
{
    let gt = ">";
    let end_open = "</";
    proof {
        reveal_strlit(">");
        reveal_strlit("</");
        assert(gt@ =~= seq!['>']);
        assert(end_open@ =~= seq!['<', '/']);
    }
    let r5 = skip_white(input);
    let s3 = match expect(r5, end_open) {
        None => {
            return None;
        },
        Some(s3) => s3,
    };
    proof {
        crate::lexical::lemma_until_suffix(s3@, seq!['>']);
    }
    let (r6, _) = (Until { c: '>' }).parse(s3).unwrap();
    match expect(r6, gt) {
        None => None,
        Some(r7) => {
            proof {
                lemma_suffix_trans(s3@, r5@, input@);
                lemma_suffix_trans(r6@, s3@, input@);
                lemma_suffix_trans(r7@, r6@, input@);
            }
            Some(r7)
        },
    }
}

fn read_tag<'a>(input: &'a str) -> (r: Option<(&'a str, Collada<'a>)>)
    ensures
        outcome(r) == spec_tag(input@),
        r matches Some((rest, _)) ==> suffix_of(rest@, input@),
    decreases input@.len(), 2nat,
{
    let (r, name, attrs) = match read_tag_open(input) {
        None => {
            return None;
        },
        Some(x) => x,
    };
    if !shorter(r, input) {
        return None;
    }
    let (r2, children) = read_content(r);
    match read_tag_close(r2) {
        None => None,
        Some(r3) => {
            proof {
                lemma_suffix_trans(r3@, r2@, r@);
                lemma_suffix_trans(r3@, r@, input@);
            }
            let ghost cv = children.deep_view();
            let t = Collada::ColladaTag(name, attrs, Box::new(children));
            assert(t.deep_view() == Doc::Tag(name@, attrs.deep_view(), cv)) by {
                assert(doc_view(&t)->Tag_2 =~= cv);
            }
            Some((r3, t))
        },
    }
}

fn read_content<'a>(input: &'a str) -> (r: (&'a str, Vec<Collada<'a>>))
    ensures
        (r.0@, r.1.deep_view()) == spec_content(input@),
        suffix_of(r.0@, input@),
    decreases input@.len(), 4nat,
{
    match read_doc(input) {
        Some((r, d)) => {
            let ghost dv = d.deep_view();
            if shorter(r, input) {
                let (r2, mut ds) = read_more_docs(r);
                let ghost rest_v = ds.deep_view();
                ds.insert(0, d);
                assert(ds.deep_view() =~= seq![dv] + rest_v);
                proof {
                    lemma_suffix_trans(r2@, r@, input@);
                }
                (r2, ds)
            } else {
                let ds = vec![d];
                assert(ds.deep_view() =~= seq![dv]);
                (r, ds)
            }
        },
        None => match read_numbers(input) {
            Some((r, ns)) => {
                let ghost nv = ns.deep_view();
                let ds = vec![Collada::ColladaFloats(ns)];
                assert(ds.deep_view() =~= seq![Doc::Numbers(nv)]);
                (r, ds)
            },
            None => {
                let (r, t) = read_text(input);
                let ghost tv = t.deep_view();
                let ds = vec![t];
                assert(ds.deep_view() =~= seq![tv]);
                (r, ds)
            },
        },
    }
}

fn read_more_docs<'a>(input: &'a str) -> (r: (&'a str, Vec<Collada<'a>>))
    ensures
        (r.0@, r.1.deep_view()) == spec_more_docs(input@),
        suffix_of(r.0@, input@),
    decreases input@.len(), 4nat,
{
    let r1 = skip_white(input);
    match read_doc(r1) {
        None => {
            let ds: Vec<Collada<'a>> = Vec::new();
            assert(ds.deep_view() =~= Seq::<Doc>::empty());
            (r1, ds)
        },
        Some((r2, d)) => {
            let ghost dv = d.deep_view();
            proof {
                lemma_suffix_trans(r2@, r1@, input@);
            }
            if shorter(r2, input) {
                let (r3, mut ds) = read_more_docs(r2);
                let ghost rest_v = ds.deep_view();
                ds.insert(0, d);
                assert(ds.deep_view() =~= seq![dv] + rest_v);
                proof {
                    lemma_suffix_trans(r3@, r2@, input@);
                }
                (r3, ds)
            } else {
                let ds = vec![d];
                assert(ds.deep_view() =~= seq![dv]);
                (r2, ds)
            }
        },
    }
}

fn read_closed<'a>(input: &'a str) -> (r: Option<(&'a str, Collada<'a>)>)
    ensures
        outcome(r) == spec_closed(input@),
        r matches Some((rest, _)) ==> suffix_of(rest@, input@),
{
    let lt = "<";
    let end = "/>";
    proof {
        reveal_strlit("<");
        reveal_strlit("/>");
        assert(lt@ =~= seq!['<']);
        assert(end@ =~= seq!['/', '>']);
    }
    let s1 = match expect(input, lt) {
        None => {
            return None;
        },
        Some(s1) => s1,
    };
    proof {
        TagIdentifierClosedP.lemma_parse_suffix(s1@);
    }
    let (r1, name) = match TagIdentifierClosedP.parse(s1) {
        None => {
            return None;
        },
        Some(x) => x,
    };
    let (r2, attrs) = read_attr_list(skip_white(r1));
    match expect(r2, end) {
        None => None,
        Some(r3) => {
            proof {
                let w = skip_ws(r1@);
                lemma_suffix_trans(w, r1@, s1@);
                lemma_suffix_trans(r2@, w, s1@);
                lemma_suffix_trans(r3@, r2@, s1@);
                lemma_suffix_trans(r3@, s1@, input@);
            }
            Some((r3, Collada::ColladaTagClosed(name, attrs)))
        },
    }
}


proof fn lemma_skip_ws_suffix(s: Seq<char>)
    ensures
        suffix_of(skip_ws(s), s),
{
    crate::lexical::lemma_leading_spaces(s);
    lemma_skip_suffix(s, leading_spaces(s) as int);
}

proof fn lemma_attr_list_suffix(s: Seq<char>)
    ensures
        suffix_of(spec_attr_list(s).0, s),
{
    assert(s.skip(0) =~= s);
    lemma_param_suffix(s);
    if let Some((r, a)) = spec_param(s) {
        crate::combinators::lemma_delimited_suffix::<TagParameter<'static>, (), TagParameterP, Whitespace>(
            TagParameterP,
            Whitespace,
            r,
        );
        lemma_suffix_trans(spec_attr_list(s).0, r, s);
    }
}

proof fn lemma_tag_open_suffix(s: Seq<char>)
    ensures
        spec_tag_open(s) matches Some((r, _, _)) ==> suffix_of(r, s) && r.len() < s.len(),
{
    if starts_with(s, seq!['<']) {
        lemma_skip_suffix(s, 1);
        let s1 = s.skip(1);
        crate::lexical::lemma_until_suffix(s1, open_stops());
        if let Some((r1, name)) = spec_identifier(s1, open_stops()) {
            let w = skip_ws(r1);
            lemma_skip_ws_suffix(r1);
            lemma_attr_list_suffix(w);
            let r2 = spec_attr_list(w).0;
            if starts_with(r2, seq!['>']) {
                lemma_skip_suffix(r2, 1);
                lemma_skip_ws_suffix(r2.skip(1));
                lemma_suffix_trans(w, r1, s1);
                lemma_suffix_trans(r2, w, s1);
                lemma_suffix_trans(r2.skip(1), r2, s1);
                lemma_suffix_trans(skip_ws(r2.skip(1)), r2.skip(1), s1);
                lemma_suffix_trans(skip_ws(r2.skip(1)), s1, s);
            }
        }
    }
}

proof fn lemma_tag_close_suffix(s: Seq<char>)
    ensures
        spec_tag_close(s) matches Some(r) ==> suffix_of(r, s),
{
    let r = skip_ws(s);
    lemma_skip_ws_suffix(s);
    if starts_with(r, seq!['<', '/']) {
        lemma_skip_suffix(r, 2);
        crate::lexical::lemma_until_suffix(r.skip(2), seq!['>']);
        let r2 = spec_until(r.skip(2), seq!['>']).0;
        if starts_with(r2, seq!['>']) {
            lemma_skip_suffix(r2, 1);
            lemma_suffix_trans(r.skip(2), r, s);
            lemma_suffix_trans(r2, r.skip(2), s);
            lemma_suffix_trans(r2.skip(1), r2, s);
        }
    }
}

proof fn lemma_numbers_suffix(s: Seq<char>)
    ensures
        spec_numbers(s) matches Some((r, _)) ==> suffix_of(r, s),
{
    Scientific.lemma_parse_suffix(s);
    if let Some((r, n)) = spec_scientific(s) {
        crate::combinators::lemma_delimited_suffix::<Number<'static>, (), Scientific, Whitespace>(
            Scientific,
            Whitespace,
            r,
        );
        lemma_suffix_trans(
            spec_delimited::<Number<'static>, (), Scientific, Whitespace>(Scientific, Whitespace, r).0,
            r,
            s,
        );
    }
}

proof fn lemma_closed_suffix(s: Seq<char>)
    ensures
        spec_closed(s) matches Some((r, _)) ==> suffix_of(r, s),
{
    if starts_with(s, seq!['<']) {
        lemma_skip_suffix(s, 1);
        let s1 = s.skip(1);
        crate::lexical::lemma_until_suffix(s1, closed_stops());
        if let Some((r1, name)) = spec_identifier(s1, closed_stops()) {
            let w = skip_ws(r1);
            lemma_skip_ws_suffix(r1);
            lemma_attr_list_suffix(w);
            let r2 = spec_attr_list(w).0;
            if starts_with(r2, seq!['/', '>']) {
                lemma_skip_suffix(r2, 2);
                lemma_suffix_trans(w, r1, s1);
                lemma_suffix_trans(r2, w, s1);
                lemma_suffix_trans(r2.skip(2), r2, s1);
                lemma_suffix_trans(r2.skip(2), s1, s);
            }
        }
    }
}

/// What a document element leaves is a suffix of its text.
pub proof fn lemma_doc_suffix(s: Seq<char>)
    ensures
        spec_doc(s) matches Some((r, _)) ==> suffix_of(r, s),
    decreases s.len(), 3nat,
{
    lemma_header_suffix(s);
    lemma_tag_suffix(s);
    lemma_closed_suffix(s);
}

proof fn lemma_header_suffix(s: Seq<char>)
    ensures
        spec_header(s) matches Some((r, _)) ==> suffix_of(r, s),
    decreases s.len(), 2nat,
{
    if starts_with(s, seq!['<', '?']) {
        lemma_skip_suffix(s, 2);
        crate::lexical::lemma_until_suffix(s.skip(2), seq!['?']);
        let r1 = spec_until(s.skip(2), seq!['?']).0;
        if starts_with(r1, seq!['?', '>']) {
            let r2 = skip_ws(r1.skip(2));
            if r2.len() < s.len() {
                lemma_doc_suffix(r2);
                lemma_skip_suffix(r1, 2);
                lemma_skip_ws_suffix(r1.skip(2));
                lemma_suffix_trans(r1, s.skip(2), s);
                lemma_suffix_trans(r1.skip(2), r1, s);
                lemma_suffix_trans(r2, r1.skip(2), s);
                if let Some((r3, d)) = spec_doc(r2) {
                    lemma_suffix_trans(r3, r2, s);
                }
            }
        }
    }
}

proof fn lemma_tag_suffix(s: Seq<char>)
    ensures
        spec_tag(s) matches Some((r, _)) ==> suffix_of(r, s),
    decreases s.len(), 2nat,
{
    lemma_tag_open_suffix(s);
    if let Some((r, name, attrs)) = spec_tag_open(s) {
        if r.len() < s.len() {
            lemma_content_suffix(r);
            let r2 = spec_content(r).0;
            lemma_tag_close_suffix(r2);
            if let Some(r3) = spec_tag_close(r2) {
                lemma_suffix_trans(r3, r2, r);
                lemma_suffix_trans(r3, r, s);
            }
        }
    }
}

proof fn lemma_content_suffix(s: Seq<char>)
    ensures
        suffix_of(spec_content(s).0, s),
    decreases s.len(), 4nat,
{
    lemma_doc_suffix(s);
    match spec_doc(s) {
        Some((r, d)) => {
            if r.len() < s.len() {
                lemma_more_docs_suffix(r);
                lemma_suffix_trans(spec_more_docs(r).0, r, s);
            }
        },
        None => {
            lemma_numbers_suffix(s);
            crate::lexical::lemma_until_suffix(s, seq!['<']);
        },
    }
}

proof fn lemma_more_docs_suffix(s: Seq<char>)
    ensures
        suffix_of(spec_more_docs(s).0, s),
    decreases s.len(), 4nat,
{
    let r1 = skip_ws(s);
    lemma_skip_ws_suffix(s);
    lemma_doc_suffix(r1);
    if let Some((r2, d)) = spec_doc(r1) {
        lemma_suffix_trans(r2, r1, s);
        if r2.len() < s.len() {
            lemma_more_docs_suffix(r2);
            lemma_suffix_trans(spec_more_docs(r2).0, r2, s);
        }
    }
}


/// A document element: a header, a tag with content, or a self-closing tag.
pub struct ColladaP;

/// A `<?...?>` prologue followed by one element.
pub struct ColladaHeaderP;

/// A tag with content.
pub struct ColladaTagP;

/// A self-closing tag.
pub struct ColladaTagClosedP;

/// Text up to the next `<`.
pub struct ColladaStringP;

/// A run of numbers followed by `<`.
pub struct ColladaFloatsP;

impl<'a> Parser<'a, Collada<'a>> for ColladaP {
    open spec fn spec_parse(&self, s: Seq<char>) -> Option<(Seq<char>, Doc)> {
        spec_doc(s)
    }

    open spec fn wf(&self) -> bool {
        true
    }

    fn parse(&self, input: &'a str) -> (r: Option<(&'a str, Collada<'a>)>) {
        read_doc(input)
    }

    proof fn lemma_parse_suffix(&self, s: Seq<char>) {
        lemma_doc_suffix(s);
    }
}

impl<'a> Parser<'a, Collada<'a>> for ColladaHeaderP {
    open spec fn spec_parse(&self, s: Seq<char>) -> Option<(Seq<char>, Doc)> {
        spec_header(s)
    }

    open spec fn wf(&self) -> bool {
        true
    }

    fn parse(&self, input: &'a str) -> (r: Option<(&'a str, Collada<'a>)>) {
        read_header(input)
    }

    proof fn lemma_parse_suffix(&self, s: Seq<char>) {
        lemma_header_suffix(s);
    }
}

impl<'a> Parser<'a, Collada<'a>> for ColladaTagP {
    open spec fn spec_parse(&self, s: Seq<char>) -> Option<(Seq<char>, Doc)> {
        spec_tag(s)
    }

    open spec fn wf(&self) -> bool {
        true
    }

    fn parse(&self, input: &'a str) -> (r: Option<(&'a str, Collada<'a>)>) {
        read_tag(input)
    }

    proof fn lemma_parse_suffix(&self, s: Seq<char>) {
        lemma_tag_suffix(s);
    }
}

impl<'a> Parser<'a, Collada<'a>> for ColladaTagClosedP {
    open spec fn spec_parse(&self, s: Seq<char>) -> Option<(Seq<char>, Doc)> {
        spec_closed(s)
    }

    open spec fn wf(&self) -> bool {
        true
    }

    fn parse(&self, input: &'a str) -> (r: Option<(&'a str, Collada<'a>)>) {
        read_closed(input)
    }

    proof fn lemma_parse_suffix(&self, s: Seq<char>) {
        lemma_closed_suffix(s);
    }
}

impl<'a> Parser<'a, Collada<'a>> for ColladaStringP {
    open spec fn spec_parse(&self, s: Seq<char>) -> Option<(Seq<char>, Doc)> {
        Some(spec_text(s))
    }

    open spec fn wf(&self) -> bool {
        true
    }

    fn parse(&self, input: &'a str) -> (r: Option<(&'a str, Collada<'a>)>) {
        Some(read_text(input))
    }

    proof fn lemma_parse_suffix(&self, s: Seq<char>) {
        crate::lexical::lemma_until_suffix(s, seq!['<']);
    }
}

impl<'a> Parser<'a, Collada<'a>> for ColladaFloatsP {
    open spec fn spec_parse(&self, s: Seq<char>) -> Option<(Seq<char>, Doc)> {
        match spec_numbers(s) {
            None => None,
            Some((r, ns)) => Some((r, Doc::Numbers(ns))),
        }
    }

    open spec fn wf(&self) -> bool {
        true
    }

    fn parse(&self, input: &'a str) -> (r: Option<(&'a str, Collada<'a>)>) {
        match read_numbers(input) {
            None => None,
            Some((r, ns)) => Some((r, Collada::ColladaFloats(ns))),
        }
    }

    proof fn lemma_parse_suffix(&self, s: Seq<char>) {
        lemma_numbers_suffix(s);
    }
}

/// A document element: a header, a tag with content, or a self-closing tag,
/// tried in that order.
pub fn collada_p() -> (r: ColladaP) {
    ColladaP
}

/// `<?`, anything up to `?`, `?>`, optional white space, and one element.
pub fn collada_header_p() -> (r: ColladaHeaderP) {
    ColladaHeaderP
}

/// A tag with content, closed by `</...>`.
pub fn collada_tag_p() -> (r: ColladaTagP) {
    ColladaTagP
}

/// A self-closing tag `<name .../>`.
pub fn collada_tag_closed_p() -> (r: ColladaTagClosedP) {
    ColladaTagClosedP
}

/// Text up to the next `<`; nothing read gives the empty node.
pub fn collada_string_p() -> (r: ColladaStringP) {
    ColladaStringP
}

/// Numbers separated by white space, which must be followed by `<`.
pub fn collada_floats_p() -> (r: ColladaFloatsP) {
    ColladaFloatsP
}

} // verus!
