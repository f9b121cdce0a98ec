//! The elements of the candidates that a mix draws from, and how a mix is written.
//!
//! The precision search turns one knob for the whole document, so every element carries the
//! decimals that the worst element needs. The candidates the search already renders are the same
//! document at every precision, and a path carries its own numbers, so one element can take its
//! numbers from one candidate and its neighbour from another.
//!
//! Which element to upgrade is estimated from lengths in floating point, which stands beside the
//! command line; what a candidate holds, whether two candidates align, and the document that a
//! choice of levels writes are here.

use vstd::prelude::*;
use vstd::string::StringExecFns;
use vstd::utf8::encode_utf8;

use crate::text::{local_name, local_part, str_eq, strings_view};
use crate::xml::{
    attributes, attrs_view, bad_attribute, is_tag, lex, tokens_view, xml_attributes, xml_tokens,
    AttrView, Token, TokenKind, TokenView, XmlError,
};

verus! {

/// The attributes that name another element. A mix must not move these.
pub open spec fn naming_keys() -> Seq<Seq<char>> {
    seq!["id"@, "href"@, "xlink:href"@, "class"@]
}

/// The elements of one candidate.
pub struct Doc {
    /// The text of each token of the document, in order.
    pub pieces: Vec<String>,
    /// The token of each element's start tag, in document order.
    pub elements: Vec<usize>,
    /// The local name of each element.
    pub names: Vec<String>,
    /// The attribute names of each element, and the values that name another element.
    pub shapes: Vec<Vec<(String, Option<String>)>>,
    /// The nesting depth of each element.
    pub depths: Vec<usize>,
    /// The `d` of each element, when it has one.
    pub paths: Vec<Option<String>>,
}

/// A candidate as plain values.
#[verifier::ext_equal]
pub struct DocView {
    pub pieces: Seq<Seq<char>>,
    pub elements: Seq<int>,
    pub names: Seq<Seq<char>>,
    pub shapes: Seq<Seq<(Seq<char>, Option<Seq<char>>)>>,
    pub depths: Seq<int>,
    pub paths: Seq<Option<Seq<char>>>,
}

/// An optional text as a plain value.
pub open spec fn opt_view(o: Option<String>) -> Option<Seq<char>> {
    match o {
        Some(s) => Some(s@),
        None => None,
    }
}

/// The shape of one element as plain values.
pub open spec fn shape_view(v: Seq<(String, Option<String>)>) -> Seq<(Seq<char>, Option<Seq<char>>)> {
    v.map_values(|a: (String, Option<String>)| (a.0@, opt_view(a.1)))
}

impl View for Doc {
    type V = DocView;

    open spec fn view(&self) -> DocView {
        DocView {
            pieces: strings_view(self.pieces@),
            elements: self.elements@.map_values(|e: usize| e as int),
            names: strings_view(self.names@),
            shapes: self.shapes@.map_values(|s: Vec<(String, Option<String>)>| shape_view(s@)),
            depths: self.depths@.map_values(|d: usize| d as int),
            paths: self.paths@.map_values(|p: Option<String>| opt_view(p)),
        }
    }
}

/// Whether the parts of a candidate agree: one entry per element in each, and each element's tag
/// one of the tokens, in order.
pub open spec fn doc_wf(d: DocView) -> bool {
    &&& d.names.len() == d.elements.len()
    &&& d.shapes.len() == d.elements.len()
    &&& d.depths.len() == d.elements.len()
    &&& d.paths.len() == d.elements.len()
    &&& forall|k: int| 0 <= k < d.elements.len() ==> 0 <= #[trigger] d.elements[k] < d.pieces.len()
    &&& forall|a: int, b: int|
        0 <= a < b < d.elements.len() ==> #[trigger] d.elements[a] < #[trigger] d.elements[b]
}

/// The first `n` attributes of an element as its shape, with its `d`: every attribute name, and
/// the value of those that name another element; `None` when the reader cannot read one.
pub open spec fn shape_of(attrs: Seq<Option<AttrView>>, n: int) -> Option<
    (Seq<(Seq<char>, Option<Seq<char>>)>, Option<Seq<char>>),
>
    decreases n,
{
    if n <= 0 {
        Some((Seq::empty(), None))
    } else {
        match shape_of(attrs, n - 1) {
            None => None,
            Some((shape, d)) => match attrs[n - 1] {
                None => None,
                Some(a) => match a.value {
                    None => None,
                    Some(v) => Some(
                        (
                            shape.push(
                                (
                                    a.key,
                                    if naming_keys().contains(a.key) {
                                        Some(v)
                                    } else {
                                        None
                                    },
                                ),
                            ),
                            if a.key == "d"@ {
                                Some(v)
                            } else {
                                d
                            },
                        ),
                    ),
                },
            },
        }
    }
}

/// One token read into a candidate at depth `depth`, with the depth of the next.
pub open spec fn doc_step(d: DocView, depth: int, t: TokenView, i: int) -> Option<(DocView, int)> {
    let pieces = d.pieces.push(t.raw);
    if t.kind == TokenKind::Close {
        Some(
            (
                DocView { pieces, ..d },
                if depth > 0 {
                    depth - 1
                } else {
                    0
                },
            ),
        )
    } else if is_tag(t) {
        let attrs = xml_attributes(t.content, t.name);
        match shape_of(attrs, attrs.len() as int) {
            None => None,
            Some((shape, path)) => Some(
                (
                    DocView {
                        pieces,
                        elements: d.elements.push(i),
                        names: d.names.push(local_part(t.name)),
                        shapes: d.shapes.push(shape),
                        depths: d.depths.push(depth),
                        paths: d.paths.push(path),
                    },
                    if t.kind == TokenKind::Open {
                        depth + 1
                    } else {
                        depth
                    },
                ),
            ),
        }
    } else {
        Some((DocView { pieces, ..d }, depth))
    }
}

/// The candidate of the first `n` tokens, with the depth of the next.
pub open spec fn doc_upto(ts: Seq<TokenView>, n: int) -> Option<(DocView, int)>
    decreases n,
{
    if n <= 0 {
        Some(
            (
                DocView {
                    pieces: Seq::empty(),
                    elements: Seq::empty(),
                    names: Seq::empty(),
                    shapes: Seq::empty(),
                    depths: Seq::empty(),
                    paths: Seq::empty(),
                },
                0,
            ),
        )
    } else {
        match doc_upto(ts, n - 1) {
            None => None,
            Some((d, depth)) => doc_step(d, depth, ts[n - 1], n - 1),
        }
    }
}

/// The candidate that `src` holds; `None` when the reader refuses it or an attribute in it.
pub open spec fn parse_doc(src: Seq<char>) -> Option<DocView> {
    match xml_tokens(src) {
        None => None,
        Some(ts) => match doc_upto(ts, ts.len() as int) {
            None => None,
            Some((d, _)) => Some(d),
        },
    }
}

/// The start tag of element `k`, as it was written.
pub open spec fn tag_of(d: DocView, k: int) -> Seq<char> {
    d.pieces[d.elements[k]]
}

/// Whether two candidates hold the same document, so that one element can move between them.
pub open spec fn aligned_docs(a: DocView, b: DocView) -> bool {
    &&& a.elements.len() == b.elements.len()
    &&& a.names == b.names
    &&& a.depths == b.depths
    &&& a.shapes == b.shapes
}

/// The text from token `j` on of the base candidate, each element from element `k` on written as
/// the candidate that `choice` names writes it.
pub open spec fn spliced(docs: Seq<DocView>, choice: Seq<int>, j: int, k: int) -> Seq<char>
    decreases docs[0].pieces.len() - j,
{
    let base = docs[0];
    if j < 0 || j >= base.pieces.len() {
        Seq::empty()
    } else if 0 <= k < base.elements.len() && base.elements[k] == j {
        tag_of(docs[choice[k]], k) + spliced(docs, choice, j + 1, k + 1)
    } else {
        base.pieces[j] + spliced(docs, choice, j + 1, k)
    }
}

/// The text of the pieces from `j` on.
pub open spec fn pieces_from(pieces: Seq<Seq<char>>, j: int) -> Seq<char>
    decreases pieces.len() - j,
{
    if j < 0 || j >= pieces.len() {
        Seq::empty()
    } else {
        pieces[j] + pieces_from(pieces, j + 1)
    }
}

/// The candidates as plain values.
pub open spec fn docs_view(docs: Seq<Doc>) -> Seq<DocView> {
    docs.map_values(|d: Doc| d@)
}

/// The levels as plain values.
pub open spec fn choice_view(choice: Seq<usize>) -> Seq<int> {
    choice.map_values(|c: usize| c as int)
}

/// The parts of a candidate being read, as plain values.
pub open spec fn parts_view(
    pieces: Seq<String>,
    elements: Seq<usize>,
    names: Seq<String>,
    shapes: Seq<Vec<(String, Option<String>)>>,
    depths: Seq<usize>,
    paths: Seq<Option<String>>,
) -> DocView {
    DocView {
        pieces: strings_view(pieces),
        elements: elements.map_values(|e: usize| e as int),
        names: strings_view(names),
        shapes: shapes.map_values(|s: Vec<(String, Option<String>)>| shape_view(s@)),
        depths: depths.map_values(|d: usize| d as int),
        paths: paths.map_values(|p: Option<String>| opt_view(p)),
    }
}

/// Whether `key` names another element.
fn is_naming_key(key: &str) -> (r: bool)
    ensures
        r == naming_keys().contains(key@),
{
    let ghost ks = naming_keys();
    let r = str_eq(key, "id") || str_eq(key, "href") || str_eq(key, "xlink:href") || str_eq(key, "class");
    assert(r ==> ks.contains(key@)) by {
        if key@ == "id"@ { assert(ks[0] == key@); }
        if key@ == "href"@ { assert(ks[1] == key@); }
        if key@ == "xlink:href"@ { assert(ks[2] == key@); }
        if key@ == "class"@ { assert(ks[3] == key@); }
    }
    r
}

proof fn lemma_shape_stays_none(attrs: Seq<Option<AttrView>>, k: int, n: int)
    requires
        0 <= k <= n,
        shape_of(attrs, k) is None,
    ensures
        shape_of(attrs, n) is None,
    decreases n - k,
{
    if k < n {
        lemma_shape_stays_none(attrs, k + 1, n);
    }
}

/// The shape of one tag, with its `d`.
fn shape_of_tag(content: &str, name: &str) -> (r: Result<(Vec<(String, Option<String>)>, Option<String>), XmlError>)
    requires
        crate::text::starts_with(content@, name@),
    ensures
        match r {
            Ok((shape, d)) => shape_of(
                xml_attributes(content@, name@),
                xml_attributes(content@, name@).len() as int,
            ) == Some((shape_view(shape@), opt_view(d))),
            Err(_) => shape_of(
                xml_attributes(content@, name@),
                xml_attributes(content@, name@).len() as int,
            ) is None,
        },
{
    let attrs = attributes(content, name);
    let ghost av = attrs_view(attrs@);
    let mut shape: Vec<(String, Option<String>)> = Vec::new();
    let mut d: Option<String> = None;
    let mut k: usize = 0;
    while k < attrs.len()
        invariant
            av == attrs_view(attrs@),
            av == xml_attributes(content@, name@),
            k <= attrs.len(),
            shape_of(av, k as int) == Some((shape_view(shape@), opt_view(d))),
        decreases attrs.len() - k,
    {
        match &attrs[k] {
            None => {
                proof {
                    assert(av[k as int] is None);
                    lemma_shape_stays_none(av, k + 1, av.len() as int);
                }
                return Err(bad_attribute());
            },
            Some(a) => {
                assert(av[k as int] == Some(a@));
                match &a.value {
                    None => {
                        proof {
                            lemma_shape_stays_none(av, k + 1, av.len() as int);
                        }
                        return Err(bad_attribute());
                    },
                    Some(v) => {
                        if str_eq(a.key.as_str(), "d") {
                            d = Some(v.clone());
                        }
                        let named = if is_naming_key(a.key.as_str()) {
                            Some(v.clone())
                        } else {
                            None
                        };
                        let ghost before = shape_view(shape@);
                        let entry = (a.key.clone(), named);
                        let ghost ev = (entry.0@, opt_view(entry.1));
                        shape.push(entry);
                        assert(shape_view(shape@) =~= before.push(ev));
                    },
                }
            },
        }
        k += 1;
    }
    Ok((shape, d))
}

proof fn lemma_doc_stays_none(ts: Seq<TokenView>, k: int, n: int)
    requires
        0 <= k <= n,
        doc_upto(ts, k) is None,
    ensures
        doc_upto(ts, n) is None,
    decreases n - k,
{
    if k < n {
        lemma_doc_stays_none(ts, k + 1, n);
    }
}

impl Doc {
    /// Read the elements of one candidate.
    pub fn parse(src: &str) -> (r: Result<Doc, XmlError>)
        ensures
            match r {
                Ok(d) => parse_doc(src@) == Some(d@) && doc_wf(d@),
                Err(_) => parse_doc(src@) is None,
            },
    {
        let ts = lex(src)?;
        let ghost tv = tokens_view(ts@);
        let mut pieces: Vec<String> = Vec::new();
        let mut elements: Vec<usize> = Vec::new();
        let mut names: Vec<String> = Vec::new();
        let mut shapes: Vec<Vec<(String, Option<String>)>> = Vec::new();
        let mut depths: Vec<usize> = Vec::new();
        let mut paths: Vec<Option<String>> = Vec::new();
        let mut depth: usize = 0;
        let mut i: usize = 0;
        assert(parts_view(pieces@, elements@, names@, shapes@, depths@, paths@) =~= DocView {
            pieces: Seq::empty(),
            elements: Seq::empty(),
            names: Seq::empty(),
            shapes: Seq::empty(),
            depths: Seq::empty(),
            paths: Seq::empty(),
        });
        while i < ts.len()
            invariant
                tv == tokens_view(ts@),
                xml_tokens(src@) == Some(tv),
                i <= ts.len(),
                depth <= i,
                pieces.len() == i,
                doc_wf(parts_view(pieces@, elements@, names@, shapes@, depths@, paths@)),
                doc_upto(tv, i as int) == Some(
                    (parts_view(pieces@, elements@, names@, shapes@, depths@, paths@), depth as int),
                ),
            decreases ts.len() - i,
        {
            let t = &ts[i];
            assert(tv[i as int] == t@);
            proof {
                crate::xml::lemma_token_named(src@, i as int);
            }
            let ghost d0 = parts_view(pieces@, elements@, names@, shapes@, depths@, paths@);
            if t.kind == TokenKind::Open || t.kind == TokenKind::Empty {
                let (shape, d) = match shape_of_tag(t.content.as_str(), t.name.as_str()) {
                    Err(e) => {
                        proof {
                            lemma_doc_stays_none(tv, i + 1, tv.len() as int);
                        }
                        return Err(e);
                    },
                    Ok(x) => x,
                };
                let ghost sv = shape_view(shape@);
                let ghost pv = opt_view(d);
                let local = local_name(t.name.as_str());
                pieces.push(t.raw.clone());
                elements.push(i);
                names.push(local);
                shapes.push(shape);
                depths.push(depth);
                paths.push(d);
                let ghost d1 = parts_view(pieces@, elements@, names@, shapes@, depths@, paths@);
                assert(d1.pieces =~= d0.pieces.push(t.raw@));
                assert(d1.elements =~= d0.elements.push(i as int));
                assert(d1.names =~= d0.names.push(local_part(t.name@)));
                assert(d1.shapes =~= d0.shapes.push(sv));
                assert(d1.depths =~= d0.depths.push(depth as int));
                assert(d1.paths =~= d0.paths.push(pv));
                if t.kind == TokenKind::Open {
                    depth = depth + 1;
                }
            } else {
                pieces.push(t.raw.clone());
                let ghost d1 = parts_view(pieces@, elements@, names@, shapes@, depths@, paths@);
                assert(d1.pieces =~= d0.pieces.push(t.raw@));
                if t.kind == TokenKind::Close && depth > 0 {
                    depth = depth - 1;
                }
            }
            i += 1;
        }
        Ok(Doc { pieces, elements, names, shapes, depths, paths })
    }

    /// The start tag of `element`, as it was written.
    pub fn tag(&self, element: usize) -> (r: &str)
        requires
            doc_wf(self@),
            element < self@.elements.len(),
        ensures
            r@ == tag_of(self@, element as int),
    {
        let e = self.elements[element];
        assert(self@.elements[element as int] == e as int);
        self.pieces[e].as_str()
    }

    /// How many elements the candidate holds.
    pub fn len(&self) -> (r: usize)
        ensures
            r == self@.elements.len(),
    {
        self.elements.len()
    }
}

/// Whether two lists of texts are the same.
fn same_texts(a: &Vec<String>, b: &Vec<String>) -> (r: bool)
    ensures
        r == (strings_view(a@) == strings_view(b@)),
{
    if a.len() != b.len() {
        assert(strings_view(a@).len() != strings_view(b@).len());
        return false;
    }
    let mut k: usize = 0;
    while k < a.len()
        invariant
            a.len() == b.len(),
            k <= a.len(),
            forall|j: int| 0 <= j < k ==> a@[j]@ == b@[j]@,
        decreases a.len() - k,
    {
        if !str_eq(a[k].as_str(), b[k].as_str()) {
            assert(strings_view(a@)[k as int] != strings_view(b@)[k as int]);
            return false;
        }
        k += 1;
    }
    assert(strings_view(a@) =~= strings_view(b@));
    true
}

/// Whether two lists of depths are the same.
fn same_depths(a: &Vec<usize>, b: &Vec<usize>) -> (r: bool)
    ensures
        r == (a@.map_values(|d: usize| d as int) == b@.map_values(|d: usize| d as int)),
{
    let ghost av = a@.map_values(|d: usize| d as int);
    let ghost bv = b@.map_values(|d: usize| d as int);
    if a.len() != b.len() {
        assert(av.len() != bv.len());
        return false;
    }
    let mut k: usize = 0;
    while k < a.len()
        invariant
            av == a@.map_values(|d: usize| d as int),
            bv == b@.map_values(|d: usize| d as int),
            a.len() == b.len(),
            k <= a.len(),
            forall|j: int| 0 <= j < k ==> a@[j] == b@[j],
        decreases a.len() - k,
    {
        if a[k] != b[k] {
            assert(av[k as int] != bv[k as int]);
            return false;
        }
        k += 1;
    }
    assert(av =~= bv);
    true
}

/// Whether two optional texts are the same.
fn same_opt(a: &Option<String>, b: &Option<String>) -> (r: bool)
    ensures
        r == (opt_view(*a) == opt_view(*b)),
{
    match (a, b) {
        (Some(x), Some(y)) => str_eq(x.as_str(), y.as_str()),
        (None, None) => true,
        _ => false,
    }
}

/// Whether two shapes are the same.
fn same_shape(a: &Vec<(String, Option<String>)>, b: &Vec<(String, Option<String>)>) -> (r: bool)
    ensures
        r == (shape_view(a@) == shape_view(b@)),
{
    if a.len() != b.len() {
        assert(shape_view(a@).len() != shape_view(b@).len());
        return false;
    }
    let mut k: usize = 0;
    while k < a.len()
        invariant
            a.len() == b.len(),
            k <= a.len(),
            forall|j: int| 0 <= j < k ==> #[trigger] shape_view(a@)[j] == shape_view(b@)[j],
        decreases a.len() - k,
    {
        let (ka, va) = &a[k];
        let (kb, vb) = &b[k];
        if !str_eq(ka.as_str(), kb.as_str()) || !same_opt(va, vb) {
            assert(shape_view(a@)[k as int] != shape_view(b@)[k as int]);
            return false;
        }
        assert(shape_view(a@)[k as int] == shape_view(b@)[k as int]);
        k += 1;
    }
    assert(shape_view(a@) =~= shape_view(b@));
    true
}

/// Whether two lists of shapes are the same.
fn same_shapes(a: &Vec<Vec<(String, Option<String>)>>, b: &Vec<Vec<(String, Option<String>)>>) -> (r: bool)
    ensures
        r == (a@.map_values(|s: Vec<(String, Option<String>)>| shape_view(s@)) == b@.map_values(
            |s: Vec<(String, Option<String>)>| shape_view(s@),
        )),
{
    let ghost av = a@.map_values(|s: Vec<(String, Option<String>)>| shape_view(s@));
    let ghost bv = b@.map_values(|s: Vec<(String, Option<String>)>| shape_view(s@));
    if a.len() != b.len() {
        assert(av.len() != bv.len());
        return false;
    }
    let mut k: usize = 0;
    while k < a.len()
        invariant
            av == a@.map_values(|s: Vec<(String, Option<String>)>| shape_view(s@)),
            bv == b@.map_values(|s: Vec<(String, Option<String>)>| shape_view(s@)),
            a.len() == b.len(),
            k <= a.len(),
            forall|j: int| 0 <= j < k ==> av[j] == bv[j],
        decreases a.len() - k,
    {
        if !same_shape(&a[k], &b[k]) {
            assert(av[k as int] != bv[k as int]);
            return false;
        }
        k += 1;
    }
    assert(av =~= bv);
    true
}

/// Whether two candidates hold the same document, so that one element can move between them.
///
/// The names and the nesting must match, and so must every attribute name. An attribute that names
/// another element must also hold the same name, since a mix moves attributes and not references.
pub fn aligned(a: &Doc, b: &Doc) -> (r: bool)
    ensures
        r == aligned_docs(a@, b@),
{
    a.len() == b.len() && same_texts(&a.names, &b.names) && same_depths(&a.depths, &b.depths)
        && same_shapes(&a.shapes, &b.shapes)
}

/// The bytes an upgrade of `element` from `level` to the next one costs.
pub fn cost(docs: &Vec<Doc>, element: usize, level: usize) -> (r: isize)
    requires
        level + 1 < docs.len(),
        doc_wf(docs@[level as int]@),
        doc_wf(docs@[level + 1]@),
        element < docs@[level as int]@.elements.len(),
        element < docs@[level + 1]@.elements.len(),
        encode_utf8(tag_of(docs@[level as int]@, element as int)).len() <= isize::MAX,
        encode_utf8(tag_of(docs@[level + 1]@, element as int)).len() <= isize::MAX,
    ensures
        r == encode_utf8(tag_of(docs@[level + 1]@, element as int)).len() - encode_utf8(
            tag_of(docs@[level as int]@, element as int),
        ).len(),
{
    let now = docs[level].tag(element).len();
    let next = docs[level + 1].tag(element).len();
    next as isize - now as isize
}

/// The document with every element written at the level `choice` names.
pub fn splice(docs: &Vec<Doc>, choice: &Vec<usize>) -> (r: String)
    requires
        docs.len() > 0,
        forall|d: int|
            0 <= d < docs.len() ==> doc_wf(#[trigger] docs@[d]@) && docs@[d]@.elements.len()
                == docs@[0]@.elements.len(),
        choice.len() == docs@[0]@.elements.len(),
        forall|k: int| 0 <= k < choice.len() ==> #[trigger] choice@[k] < docs.len(),
    ensures
        r@ == spliced(docs_view(docs@), choice_view(choice@), 0, 0),
{
    let ghost dv = docs_view(docs@);
    let ghost cv = choice_view(choice@);
    let base = &docs[0];
    assert(dv[0] == base@);
    let mut out = String::new();
    let mut k: usize = 0;
    let mut j: usize = 0;
    while j < base.pieces.len()
        invariant
            dv == docs_view(docs@),
            cv == choice_view(choice@),
            dv[0] == base@,
            docs.len() > 0,
            forall|d: int|
                0 <= d < docs.len() ==> doc_wf(#[trigger] docs@[d]@) && docs@[d]@.elements.len()
                    == docs@[0]@.elements.len(),
            choice.len() == docs@[0]@.elements.len(),
            forall|k: int| 0 <= k < choice.len() ==> #[trigger] choice@[k] < docs.len(),
            j <= base.pieces.len(),
            k <= base.elements.len(),
            k < base.elements.len() ==> base@.elements[k as int] >= j,
            spliced(dv, cv, 0, 0) == out@ + spliced(dv, cv, j as int, k as int),
        decreases base.pieces.len() - j,
    {
        let ghost before = out@;
        if k < base.elements.len() && base.elements[k] == j {
            let level = choice[k];
            assert(doc_wf(docs@[level as int]@));
            assert(dv[level as int] == docs@[level as int]@);
            out.append(docs[level].tag(k));
            assert(before + spliced(dv, cv, j as int, k as int) =~= out@ + spliced(
                dv,
                cv,
                j + 1,
                k + 1,
            ));
            k += 1;
        } else {
            assert(base@.pieces[j as int] == base.pieces@[j as int]@);
            out.append(base.pieces[j].as_str());
            assert(before + spliced(dv, cv, j as int, k as int) =~= out@ + spliced(
                dv,
                cv,
                j + 1,
                k as int,
            ));
        }
        j += 1;
    }
    assert(out@ + Seq::<char>::empty() =~= out@);
    out
}

/// The element that holds `element`, which is the closest one before it that is less deep.
pub fn parent_of(doc: &Doc, element: usize) -> (r: Option<usize>)
    requires
        element < doc@.depths.len(),
    ensures
        match r {
            Some(p) => p < element && doc@.depths[p as int] < doc@.depths[element as int] && forall|
                q: int,
            |
                p < q < element ==> doc@.depths[q] >= doc@.depths[element as int],
            None => forall|q: int| 0 <= q < element ==> doc@.depths[q] >= doc@.depths[element as int],
        },
{
    let depth = doc.depths[element];
    let mut e: usize = element;
    while e > 0
        invariant
            e <= element < doc@.depths.len(),
            depth as int == doc@.depths[element as int],
            forall|q: int| e <= q < element ==> doc@.depths[q] >= doc@.depths[element as int],
        decreases e,
    {
        assert(doc@.depths[e - 1] == doc.depths@[e - 1] as int);
        if doc.depths[e - 1] < depth {
            return Some(e - 1);
        }
        e -= 1;
    }
    None
}

/// With every element at the lowest level, the mix writes the lowest candidate as it was read.
pub proof fn lemma_lowest_choice_is_the_base(docs: Seq<DocView>, choice: Seq<int>)
    requires
        docs.len() > 0,
        doc_wf(docs[0]),
        choice.len() == docs[0].elements.len(),
        forall|k: int| 0 <= k < choice.len() ==> #[trigger] choice[k] == 0,
    ensures
        spliced(docs, choice, 0, 0) == pieces_from(docs[0].pieces, 0),
{
    lemma_lowest_from(docs, choice, 0, 0);
}

proof fn lemma_lowest_from(docs: Seq<DocView>, choice: Seq<int>, j: int, k: int)
    requires
        docs.len() > 0,
        doc_wf(docs[0]),
        choice.len() == docs[0].elements.len(),
        forall|k: int| 0 <= k < choice.len() ==> #[trigger] choice[k] == 0,
        0 <= j,
        0 <= k <= docs[0].elements.len(),
        k < docs[0].elements.len() ==> docs[0].elements[k] >= j,
    ensures
        spliced(docs, choice, j, k) == pieces_from(docs[0].pieces, j),
    decreases docs[0].pieces.len() - j,
{
    let base = docs[0];
    if j < base.pieces.len() {
        if k < base.elements.len() && base.elements[k] == j {
            assert(choice[k] == 0);
            if k + 1 < base.elements.len() {
                assert(base.elements[k] < base.elements[k + 1]);
            }
            lemma_lowest_from(docs, choice, j + 1, k + 1);
        } else {
            lemma_lowest_from(docs, choice, j + 1, k);
        }
    }
}

/// Whether the candidates can be mixed: at least one, each whole, all with the same elements, and
/// every start tag shorter than the longest text a machine holds.
pub open spec fn docs_ok(docs: Seq<DocView>) -> bool {
    &&& docs.len() > 0
    &&& forall|d: int|
        0 <= d < docs.len() ==> doc_wf(#[trigger] docs[d]) && docs[d].elements.len()
            == docs[0].elements.len()
    &&& forall|d: int, k: int|
        0 <= d < docs.len() && 0 <= k < docs[0].elements.len() ==> encode_utf8(
            #[trigger] tag_of(docs[d], k),
        ).len() <= isize::MAX
}

/// The bytes an upgrade of element `e` from level `l` to the next one costs.
pub open spec fn byte_cost(docs: Seq<DocView>, e: int, l: int) -> int {
    encode_utf8(tag_of(docs[l + 1], e)).len() - encode_utf8(tag_of(docs[l], e)).len()
}

/// The level element `e` reaches from `l` by the upgrades that cost nothing: up while the next
/// level writes no more bytes, and at most to the highest.
pub open spec fn free_level(docs: Seq<DocView>, e: int, l: int) -> int
    decreases docs.len() - l,
{
    if l < 0 || l + 1 >= docs.len() {
        l
    } else if byte_cost(docs, e, l) <= 0 {
        free_level(docs, e, l + 1)
    } else {
        l
    }
}

/// Free upgrades go exactly as far as they cost nothing: the level reached is no lower than the
/// start and no higher than the highest, every upgrade on the way writes no more bytes, and the
/// next one, where a higher level exists, would write more.
pub proof fn lemma_free_level_stops_at_first_cost(docs: Seq<DocView>, e: int, l: int)
    requires
        0 <= l < docs.len(),
    ensures
        l <= free_level(docs, e, l) < docs.len(),
        forall|m: int| l <= m < free_level(docs, e, l) ==> #[trigger] byte_cost(docs, e, m) <= 0,
        free_level(docs, e, l) + 1 < docs.len() ==> byte_cost(docs, e, free_level(docs, e, l)) > 0,
    decreases docs.len() - l,
{
    if l + 1 < docs.len() && byte_cost(docs, e, l) <= 0 {
        lemma_free_level_stops_at_first_cost(docs, e, l + 1);
    }
}

/// How many of the first `n` elements the choice writes differently from the lowest candidate.
pub open spec fn changed_count(docs: Seq<DocView>, choice: Seq<int>, n: int) -> nat
    decreases n,
{
    if n <= 0 {
        0
    } else {
        changed_count(docs, choice, n - 1) + if tag_of(docs[choice[n - 1]], n - 1) != tag_of(
            docs[0],
            n - 1,
        ) {
            1nat
        } else {
            0nat
        }
    }
}

/// Whether the upgrade of element `e` from `level` writes no more bytes.
fn costs_nothing(docs: &Vec<Doc>, e: usize, level: usize) -> (r: bool)
    requires
        docs_ok(docs_view(docs@)),
        level + 1 < docs.len(),
        e < docs@[0]@.elements.len(),
    ensures
        r == (byte_cost(docs_view(docs@), e as int, level as int) <= 0),
{
    let ghost dv = docs_view(docs@);
    assert(dv[level as int] == docs@[level as int]@);
    assert(dv[level + 1] == docs@[level + 1]@);
    assert(doc_wf(dv[level as int]) && doc_wf(dv[level + 1]));
    assert(encode_utf8(tag_of(dv[level as int], e as int)).len() <= isize::MAX);
    assert(encode_utf8(tag_of(dv[level + 1], e as int)).len() <= isize::MAX);
    cost(docs, e, level) <= 0
}

/// Take every upgrade that costs nothing, before the first render.
pub fn free_upgrades(docs: &Vec<Doc>, choice: &mut Vec<usize>)
    requires
        docs_ok(docs_view(docs@)),
        old(choice).len() == docs@[0]@.elements.len(),
        forall|k: int| 0 <= k < old(choice).len() ==> #[trigger] old(choice)@[k] < docs.len(),
    ensures
        final(choice).len() == old(choice).len(),
        forall|k: int|
            0 <= k < final(choice).len() ==> #[trigger] final(choice)@[k] == free_level(
                docs_view(docs@),
                k,
                old(choice)@[k] as int,
            ),
        forall|k: int| 0 <= k < final(choice).len() ==> #[trigger] final(choice)@[k] < docs.len(),
{
    let ghost dv = docs_view(docs@);
    let top = docs.len() - 1;
    let mut e: usize = 0;
    while e < choice.len()
        invariant
            dv == docs_view(docs@),
            docs_ok(dv),
            top == docs.len() - 1,
            choice.len() == old(choice).len(),
            choice.len() == docs@[0]@.elements.len(),
            e <= choice.len(),
            forall|k: int| 0 <= k < choice.len() ==> #[trigger] choice@[k] < docs.len(),
            forall|k: int|
                0 <= k < e ==> #[trigger] choice@[k] == free_level(dv, k, old(choice)@[k] as int),
            forall|k: int| e <= k < choice.len() ==> #[trigger] choice@[k] == old(choice)@[k],
        decreases choice.len() - e,
    {
        let mut level = choice[e];
        while level < top && costs_nothing(docs, e, level)
            invariant
                dv == docs_view(docs@),
                docs_ok(dv),
                top == docs.len() - 1,
                e < choice.len(),
                choice.len() == docs@[0]@.elements.len(),
                level <= top,
                free_level(dv, e as int, choice@[e as int] as int) == free_level(dv, e as int, level as int),
            decreases top - level,
        {
            level += 1;
        }
        choice.set(e, level);
        e += 1;
    }
}

/// How many elements a choice writes differently from the lowest candidate: a level that writes
/// the same tag is no upgrade, whatever its number says.
pub fn upgrades(docs: &Vec<Doc>, choice: &Vec<usize>) -> (r: usize)
    requires
        docs_ok(docs_view(docs@)),
        choice.len() == docs@[0]@.elements.len(),
        forall|k: int| 0 <= k < choice.len() ==> #[trigger] choice@[k] < docs.len(),
    ensures
        r == changed_count(docs_view(docs@), choice_view(choice@), choice.len() as int),
{
    let ghost dv = docs_view(docs@);
    let ghost cv = choice_view(choice@);
    let mut n: usize = 0;
    let mut k: usize = 0;
    while k < choice.len()
        invariant
            dv == docs_view(docs@),
            cv == choice_view(choice@),
            docs_ok(dv),
            choice.len() == docs@[0]@.elements.len(),
            forall|k: int| 0 <= k < choice.len() ==> #[trigger] choice@[k] < docs.len(),
            k <= choice.len(),
            n <= k,
            n == changed_count(dv, cv, k as int),
        decreases choice.len() - k,
    {
        let level = choice[k];
        assert(dv[level as int] == docs@[level as int]@);
        assert(dv[0] == docs@[0]@);
        assert(doc_wf(dv[level as int]) && doc_wf(dv[0]));
        if !str_eq(docs[level].tag(k), docs[0].tag(k)) {
            n += 1;
        }
        k += 1;
    }
    n
}

/// Raise every element that is below the highest level by one; whether any moved.
///
/// An element with no edge of its own holds a gradient or a stop, which costs a handful of bytes.
/// They all go up together, since a small gap can close on them alone.
pub fn raise_all(choice: &mut Vec<usize>, top: usize) -> (moved: bool)
    ensures
        final(choice).len() == old(choice).len(),
        forall|k: int|
            0 <= k < old(choice).len() ==> #[trigger] final(choice)@[k] == if old(choice)@[k] < top {
                old(choice)@[k] + 1
            } else {
                old(choice)@[k] as int
            },
        moved == exists|k: int| 0 <= k < old(choice).len() && #[trigger] old(choice)@[k] < top,
{
    let mut moved = false;
    let mut k: usize = 0;
    while k < choice.len()
        invariant
            choice.len() == old(choice).len(),
            k <= choice.len(),
            forall|j: int|
                0 <= j < k ==> #[trigger] choice@[j] == if old(choice)@[j] < top {
                    old(choice)@[j] + 1
                } else {
                    old(choice)@[j] as int
                },
            forall|j: int| k <= j < choice.len() ==> #[trigger] choice@[j] == old(choice)@[j],
            moved == exists|j: int| 0 <= j < k && #[trigger] old(choice)@[j] < top,
        decreases choice.len() - k,
    {
        let level = choice[k];
        if level < top {
            choice.set(k, level + 1);
            moved = true;
            assert(old(choice)@[k as int] < top);
        }
        k += 1;
    }
    moved
}

} // verus!
