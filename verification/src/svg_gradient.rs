//! Resolve the reference that lets one gradient borrow the stops of another.
//!
//! A gradient inherits the stops and every attribute of the gradient its `href` names, so a pair
//! of a lender and its only borrower is one gradient written twice. The pair becomes one element,
//! which saves the two tags and the reference.
//!
//! The folding of a `gradientTransform` into the coordinates works on numbers and stands beside the
//! command line.

use vstd::prelude::*;
use vstd::string::StringExecFns;

use crate::text::{
    chars_of, find_chars, find_from, lemma_find_from, local_name, local_part, str_eq, string_of,
    strings_view, trim_chars, trim_ends,
};
use crate::xml::{
    attr, attr_among, attributes, attrs_view, bad_attribute, is_tag, named, read, read_doc, tag_text,
    tokens_view, write_end, write_tag, xml_attributes, AttrView, NewAttr, Token, TokenKind,
    TokenView, XmlError, new_attrs_view,
};

verus! {

/// How many rounds of inlining to run. A chain of references settles one hop per round.
pub const MAX_ROUNDS: usize = 8;

/// A gradient, and what it lends or borrows.
pub struct Gradient {
    pub id: String,
    /// The `id` that its own `href` names.
    pub borrows: Option<String>,
    pub has_stops: bool,
    /// The index of its start tag among the tokens of the document.
    pub tag: usize,
    /// The index of the end tag that closes it, when one does.
    pub end: Option<usize>,
}

/// A gradient as plain values.
pub struct GradientView {
    pub id: Seq<char>,
    pub borrows: Option<Seq<char>>,
    pub has_stops: bool,
    pub tag: int,
    pub end: Option<int>,
}

impl View for Gradient {
    type V = GradientView;

    open spec fn view(&self) -> GradientView {
        GradientView {
            id: self.id@,
            borrows: match self.borrows {
                Some(b) => Some(b@),
                None => None,
            },
            has_stops: self.has_stops,
            tag: self.tag as int,
            end: match self.end {
                Some(e) => Some(e as int),
                None => None,
            },
        }
    }
}

/// The gradients as plain values.
pub open spec fn gradients_view(v: Seq<Gradient>) -> Seq<GradientView> {
    v.map_values(|g: Gradient| g@)
}

/// Whether an attribute name is a reference to another element.
pub open spec fn href_key(key: Seq<char>) -> bool {
    key == "href"@ || key == "xlink:href"@
}

/// The `id` that a value names as `#id`.
pub open spec fn hash_id(v: Seq<char>) -> Option<Seq<char>> {
    if v.len() > 0 && v[0] == '#' {
        Some(v.skip(1))
    } else {
        None
    }
}

/// What opens a paint server reference.
pub open spec fn url_open() -> Seq<char> {
    seq!['u', 'r', 'l', '(']
}

/// What closes it.
pub open spec fn url_close() -> Seq<char> {
    seq![')']
}

/// The `id`s that the `url(#id)` in `v` from `p` on name, in order, each time it is named.
///
/// After each `url(` the name runs to the next `)`, with white space and then quotes taken off its
/// ends; a `url(` without a `)` after it ends the scan.
pub open spec fn url_refs(v: Seq<char>, p: int) -> Seq<Seq<char>>
    decreases v.len() - p,
{
    if p < 0 || p > v.len() {
        Seq::empty()
    } else {
        match find_from(v, url_open(), p) {
            None => Seq::empty(),
            Some(o) => match find_from(v, url_close(), o + 4) {
                None => Seq::empty(),
                Some(c) => {
                    proof {
                        lemma_find_from(v, url_open(), p);
                        lemma_find_from(v, url_close(), o + 4);
                    }
                    let named = trim_ends(trim_ends(v.subrange(o + 4, c), false), true);
                    (match hash_id(named) {
                        Some(id) => seq![id],
                        None => Seq::empty(),
                    }) + url_refs(v, c + 1)
                },
            },
        }
    }
}

/// The `id`s that the first `n` attributes name: an `href` to `#id` names one, any other value
/// names those of its `url(#id)`; `None` when the reader cannot read one of them.
pub open spec fn attr_refs(attrs: Seq<Option<AttrView>>, n: int) -> Option<Seq<Seq<char>>>
    decreases n,
{
    if n <= 0 {
        Some(Seq::empty())
    } else {
        match attr_refs(attrs, n - 1) {
            None => None,
            Some(rs) => match attrs[n - 1] {
                None => None,
                Some(a) => match a.value {
                    None => None,
                    Some(v) => if href_key(a.key) && hash_id(v) is Some {
                        Some(rs.push(hash_id(v).unwrap()))
                    } else {
                        Some(rs + url_refs(v, 0))
                    },
                },
            },
        }
    }
}

/// The `id` that the `href` of a tag names, then that its `xlink:href` names; `None` when the
/// reader cannot read an attribute.
pub open spec fn reference_of(attrs: Seq<Option<AttrView>>) -> Option<Option<Seq<char>>> {
    match attr_among(attrs, "href"@, 0) {
        None => None,
        Some(h) => match (match h {
            Some(v) => hash_id(v),
            None => None,
        }) {
            Some(id) => Some(Some(id)),
            None => match attr_among(attrs, "xlink:href"@, 0) {
                None => None,
                Some(x) => Some(
                    match x {
                        Some(v) => hash_id(v),
                        None => None,
                    },
                ),
            },
        },
    }
}

/// Whether a local name is that of a gradient.
pub open spec fn gradient_name(local: Seq<char>) -> bool {
    local == "linearGradient"@ || local == "radialGradient"@
}

/// What the scan knows after some tokens: the gradients, every `id` named so far, the gradient
/// whose children the tokens are and the depth of its tag, and the depth of the next token.
pub struct ScanState {
    pub gradients: Seq<GradientView>,
    pub refs: Seq<Seq<char>>,
    pub open: Option<(int, int)>,
    pub depth: int,
}

/// One token of the scan; `None` when the reader cannot read an attribute of it.
///
/// An end tag at the depth of the open gradient closes it. A tag counts the `id`s it names, marks
/// the open gradient as holding stops when it is a `<stop>` right below it, and, when it is a
/// gradient with an `id`, adds it, and opens it when it has children.
pub open spec fn scan_step(s: ScanState, t: TokenView, i: int) -> Option<ScanState> {
    if t.kind == TokenKind::Close {
        let closed = match s.open {
            Some((g, at)) => if at == s.depth {
                ScanState {
                    gradients: s.gradients.update(g, GradientView { end: Some(i), ..s.gradients[g] }),
                    open: None,
                    ..s
                }
            } else {
                s
            },
            None => s,
        };
        Some(
            ScanState {
                depth: if closed.depth > 0 {
                    closed.depth - 1
                } else {
                    0
                },
                ..closed
            },
        )
    } else if is_tag(t) {
        let attrs = xml_attributes(t.content, t.name);
        let own = s.depth + 1;
        let depth = if t.kind == TokenKind::Open {
            own
        } else {
            s.depth
        };
        match attr_refs(attrs, attrs.len() as int) {
            None => None,
            Some(rs) => {
                let gradients = match s.open {
                    Some((g, at)) => if at + 1 == own && local_part(t.name) == "stop"@ {
                        s.gradients.update(g, GradientView { has_stops: true, ..s.gradients[g] })
                    } else {
                        s.gradients
                    },
                    None => s.gradients,
                };
                let refs = s.refs + rs;
                if !gradient_name(local_part(t.name)) {
                    Some(ScanState { gradients, refs, open: s.open, depth })
                } else {
                    match attr_among(attrs, "id"@, 0) {
                        None => None,
                        Some(None) => Some(ScanState { gradients, refs, open: s.open, depth }),
                        Some(Some(id)) => match reference_of(attrs) {
                            None => None,
                            Some(borrows) => {
                                let gs = gradients.push(
                                    GradientView { id, borrows, has_stops: false, tag: i, end: None },
                                );
                                Some(
                                    ScanState {
                                        gradients: gs,
                                        refs,
                                        open: if t.kind == TokenKind::Open {
                                            Some((gs.len() - 1, own))
                                        } else {
                                            s.open
                                        },
                                        depth,
                                    },
                                )
                            },
                        },
                    }
                }
            },
        }
    } else {
        Some(s)
    }
}

/// The scan of the first `n` tokens.
pub open spec fn scan_upto(ts: Seq<TokenView>, n: int) -> Option<ScanState>
    decreases n,
{
    if n <= 0 {
        Some(ScanState { gradients: Seq::empty(), refs: Seq::empty(), open: None, depth: 0 })
    } else {
        match scan_upto(ts, n - 1) {
            None => None,
            Some(s) => scan_step(s, ts[n - 1], n - 1),
        }
    }
}

/// How many of the first `n` names are `id`.
pub open spec fn ref_count(refs: Seq<Seq<char>>, id: Seq<char>, n: int) -> nat
    decreases n,
{
    if n <= 0 {
        0
    } else {
        ref_count(refs, id, n - 1) + if refs[n - 1] == id {
            1nat
        } else {
            0nat
        }
    }
}

/// The first gradient from `j` on that borrows from `id`.
pub open spec fn first_borrower(gs: Seq<GradientView>, id: Seq<char>, j: int) -> Option<int>
    decreases gs.len() - j,
{
    if j < 0 || j >= gs.len() {
        None
    } else if gs[j].borrows == Some(id) {
        Some(j)
    } else {
        first_borrower(gs, id, j + 1)
    }
}

/// The pair that gradient `l` lends in, when it stands on its own: `l` holds stops, borrows
/// nothing, is named once, and exactly one gradient other than itself borrows from it, one without
/// stops of its own.
pub open spec fn pair_for(gs: Seq<GradientView>, refs: Seq<Seq<char>>, l: int) -> Option<(int, int)> {
    let g = gs[l];
    if g.borrows is Some || !g.has_stops || ref_count(refs, g.id, refs.len() as int) != 1 {
        None
    } else {
        match first_borrower(gs, g.id, 0) {
            None => None,
            Some(b) => if first_borrower(gs, g.id, b + 1) is None && !gs[b].has_stops && b != l {
                Some((l, b))
            } else {
                None
            },
        }
    }
}

/// The pairs among the first `n` gradients, lender first.
pub open spec fn pairs_upto(gs: Seq<GradientView>, refs: Seq<Seq<char>>, n: int) -> Seq<(int, int)>
    decreases n,
{
    if n <= 0 {
        Seq::empty()
    } else {
        match pair_for(gs, refs, n - 1) {
            Some(p) => pairs_upto(gs, refs, n - 1).push(p),
            None => pairs_upto(gs, refs, n - 1),
        }
    }
}

proof fn lemma_count_zero(refs: Seq<Seq<char>>, id: Seq<char>, n: int)
    requires
        0 <= n <= refs.len(),
        ref_count(refs, id, n) == 0,
    ensures
        forall|j: int| 0 <= j < n ==> refs[j] != id,
    decreases n,
{
    if n > 0 {
        lemma_count_zero(refs, id, n - 1);
    }
}

proof fn lemma_count_one(refs: Seq<Seq<char>>, id: Seq<char>, n: int) -> (i: int)
    requires
        0 <= n <= refs.len(),
        ref_count(refs, id, n) == 1,
    ensures
        0 <= i < n,
        refs[i] == id,
        forall|j: int| 0 <= j < n && j != i ==> refs[j] != id,
    decreases n,
{
    if refs[n - 1] == id {
        lemma_count_zero(refs, id, n - 1);
        n - 1
    } else {
        lemma_count_one(refs, id, n - 1)
    }
}

proof fn lemma_first_borrower(gs: Seq<GradientView>, id: Seq<char>, j0: int)
    requires
        0 <= j0,
    ensures
        match first_borrower(gs, id, j0) {
            Some(b) => j0 <= b < gs.len() && gs[b].borrows == Some(id) && forall|j: int|
                j0 <= j < b ==> gs[j].borrows != Some(id),
            None => forall|j: int| j0 <= j < gs.len() ==> gs[j].borrows != Some(id),
        },
    decreases gs.len() - j0,
{
    if j0 < gs.len() && gs[j0].borrows != Some(id) {
        lemma_first_borrower(gs, id, j0 + 1);
    }
}

proof fn lemma_pairs_upto_member(gs: Seq<GradientView>, refs: Seq<Seq<char>>, n: int, k: int) -> (l: int)
    requires
        0 <= k < pairs_upto(gs, refs, n).len(),
    ensures
        0 <= l < n,
        pair_for(gs, refs, l) == Some(pairs_upto(gs, refs, n)[k]),
    decreases n,
{
    let before = pairs_upto(gs, refs, n - 1);
    if k < before.len() {
        lemma_pairs_upto_member(gs, refs, n - 1, k)
    } else {
        n - 1
    }
}

/// Every pair the scan forms joins a lender and its only borrower as the documentation promises:
/// the lender holds stops and borrows nothing, the borrower holds no stops and names the lender,
/// no other gradient borrows from the lender, and the lender's `id` is named exactly once in the
/// whole document, by that borrower, so no shape uses the lender directly.
pub proof fn lemma_pairs_join_a_lender_and_its_only_borrower(
    gs: Seq<GradientView>,
    refs: Seq<Seq<char>>,
    n: int,
    k: int,
)
    requires
        0 <= n <= gs.len(),
        0 <= k < pairs_upto(gs, refs, n).len(),
    ensures
        ({
            let (l, b) = pairs_upto(gs, refs, n)[k];
            let id = gs[l].id;
            &&& 0 <= l < n && 0 <= b < gs.len() && l != b
            &&& gs[l].has_stops && gs[l].borrows is None
            &&& !gs[b].has_stops && gs[b].borrows == Some(id)
            &&& forall|j: int| 0 <= j < gs.len() && j != b ==> gs[j].borrows != Some(id)
            &&& exists|i: int|
                0 <= i < refs.len() && refs[i] == id && forall|j: int|
                    0 <= j < refs.len() && j != i ==> refs[j] != id
        }),
{
    let l = lemma_pairs_upto_member(gs, refs, n, k);
    let id = gs[l].id;
    lemma_first_borrower(gs, id, 0);
    let b = first_borrower(gs, id, 0).unwrap();
    lemma_first_borrower(gs, id, b + 1);
    let i = lemma_count_one(refs, id, refs.len() as int);
    assert(pairs_upto(gs, refs, n)[k] == (l, b));
    assert(forall|j: int| 0 <= j < gs.len() && j != b ==> gs[j].borrows != Some(id));
}

/// The `id`s of the lenders.
pub open spec fn lender_ids(gs: Seq<GradientView>, pairs: Seq<(int, int)>) -> Seq<Seq<char>> {
    pairs.map_values(|p: (int, int)| gs[p.0].id)
}

/// The lender of the last of the first `n` pairs whose borrower has the `id`.
pub open spec fn lender_of(gs: Seq<GradientView>, pairs: Seq<(int, int)>, id: Seq<char>, n: int) -> Option<int>
    decreases n,
{
    if n <= 0 {
        None
    } else if gs[pairs[n - 1].1].id == id {
        Some(pairs[n - 1].0)
    } else {
        lender_of(gs, pairs, id, n - 1)
    }
}

/// The text the tokens from `a` up to `b` were read from.
pub open spec fn raws(ts: Seq<TokenView>, a: int, b: int) -> Seq<char>
    decreases b - a,
{
    if a >= b {
        Seq::empty()
    } else {
        raws(ts, a, b - 1) + ts[b - 1].raw
    }
}

/// The children of a gradient, verbatim.
pub open spec fn body_of(ts: Seq<TokenView>, g: GradientView) -> Seq<char> {
    match g.end {
        Some(e) => raws(ts, g.tag + 1, e),
        None => Seq::empty(),
    }
}

/// The coordinates that a gradient with this local name does not read.
pub open spec fn other_geometry(local: Seq<char>) -> Seq<Seq<char>> {
    if local == "radialGradient"@ {
        seq!["x1"@, "y1"@, "x2"@, "y2"@]
    } else {
        seq!["cx"@, "cy"@, "r"@, "fx"@, "fy"@, "fr"@]
    }
}

/// The first `n` attributes of the borrower, its references gone, each as it was written.
pub open spec fn own_attrs(attrs: Seq<Option<AttrView>>, n: int) -> Option<Seq<(Seq<char>, Seq<char>, bool)>>
    decreases n,
{
    if n <= 0 {
        Some(Seq::empty())
    } else {
        match own_attrs(attrs, n - 1) {
            None => None,
            Some(ks) => match attrs[n - 1] {
                None => None,
                Some(a) => if href_key(a.key) {
                    Some(ks)
                } else {
                    Some(ks.push((a.key, a.raw, false)))
                },
            },
        }
    }
}

/// The names of attributes to write.
pub open spec fn keys_of(ks: Seq<(Seq<char>, Seq<char>, bool)>) -> Seq<Seq<char>> {
    ks.map_values(|k: (Seq<char>, Seq<char>, bool)| k.0)
}

/// The first `n` attributes of the lender that the borrower inherits: not a reference, not the
/// `id`, not one the borrower carries itself, and not a coordinate of the other kind.
pub open spec fn inherited_attrs(
    attrs: Seq<Option<AttrView>>,
    own: Seq<Seq<char>>,
    other: Seq<Seq<char>>,
    n: int,
) -> Option<Seq<(Seq<char>, Seq<char>, bool)>>
    decreases n,
{
    if n <= 0 {
        Some(Seq::empty())
    } else {
        match inherited_attrs(attrs, own, other, n - 1) {
            None => None,
            Some(ks) => match attrs[n - 1] {
                None => None,
                Some(a) => if href_key(a.key) || a.key == "id"@ || own.contains(a.key) || other.contains(
                    a.key,
                ) {
                    Some(ks)
                } else {
                    Some(ks.push((a.key, a.raw, false)))
                },
            },
        }
    }
}

/// The attributes of the borrower with what it inherits from the lender written out.
pub open spec fn merged_attrs(b: TokenView, lender: TokenView) -> Option<Seq<(Seq<char>, Seq<char>, bool)>> {
    let ba = xml_attributes(b.content, b.name);
    let la = xml_attributes(lender.content, lender.name);
    match own_attrs(ba, ba.len() as int) {
        None => None,
        Some(own) => match inherited_attrs(la, keys_of(own), other_geometry(local_part(b.name)), la.len() as int) {
            None => None,
            Some(inh) => Some(own + inh),
        },
    }
}

proof fn lemma_own_attrs_no_href(attrs: Seq<Option<AttrView>>, n: int)
    requires
        own_attrs(attrs, n) is Some,
    ensures
        forall|j: int|
            0 <= j < own_attrs(attrs, n).unwrap().len() ==> !href_key(
                #[trigger] own_attrs(attrs, n).unwrap()[j].0,
            ),
    decreases n,
{
    if n > 0 {
        if own_attrs(attrs, n - 1) is None {
            assert(own_attrs(attrs, n) is None);
        }
        lemma_own_attrs_no_href(attrs, n - 1);
        let ks = own_attrs(attrs, n - 1).unwrap();
        let r = own_attrs(attrs, n).unwrap();
        assert forall|j: int| 0 <= j < r.len() implies !href_key(#[trigger] r[j].0) by {
            if j < ks.len() {
                assert(r[j] == ks[j]);
            }
        }
    }
}

proof fn lemma_inherited_filtered(
    attrs: Seq<Option<AttrView>>,
    own: Seq<Seq<char>>,
    other: Seq<Seq<char>>,
    n: int,
)
    requires
        inherited_attrs(attrs, own, other, n) is Some,
    ensures
        forall|j: int|
            0 <= j < inherited_attrs(attrs, own, other, n).unwrap().len() ==> {
                let key = (#[trigger] inherited_attrs(attrs, own, other, n).unwrap()[j]).0;
                !href_key(key) && key != "id"@ && !own.contains(key) && !other.contains(key)
            },
    decreases n,
{
    if n > 0 {
        if inherited_attrs(attrs, own, other, n - 1) is None {
            assert(inherited_attrs(attrs, own, other, n) is None);
        }
        lemma_inherited_filtered(attrs, own, other, n - 1);
        let ks = inherited_attrs(attrs, own, other, n - 1).unwrap();
        let r = inherited_attrs(attrs, own, other, n).unwrap();
        assert forall|j: int| 0 <= j < r.len() implies {
            let key = (#[trigger] r[j]).0;
            !href_key(key) && key != "id"@ && !own.contains(key) && !other.contains(key)
        } by {
            if j < ks.len() {
                assert(r[j] == ks[j]);
            }
        }
    }
}

/// What a merged gradient carries: no reference, since the pair becomes one element; the
/// borrower's own attributes first, as it wrote them; then of the lender's only what the borrower
/// lacks, never the lender's `id`, and no coordinate of the other kind of gradient.
pub proof fn lemma_merged_attrs_are_usable(b: TokenView, lender: TokenView)
    requires
        merged_attrs(b, lender) is Some,
    ensures
        ({
            let ks = merged_attrs(b, lender).unwrap();
            let ba = xml_attributes(b.content, b.name);
            let own = own_attrs(ba, ba.len() as int).unwrap();
            &&& own_attrs(ba, ba.len() as int) is Some
            &&& ks.take(own.len() as int) == own
            &&& forall|j: int| 0 <= j < ks.len() ==> !href_key(#[trigger] ks[j].0)
            &&& forall|i: int, j: int|
                0 <= i < own.len() <= j < ks.len() ==> #[trigger] ks[i].0 != #[trigger] ks[j].0
            &&& forall|j: int| own.len() <= j < ks.len() ==> (#[trigger] ks[j]).0 != "id"@
                && !other_geometry(local_part(b.name)).contains(ks[j].0)
        }),
{
    let ks = merged_attrs(b, lender).unwrap();
    let ba = xml_attributes(b.content, b.name);
    let la = xml_attributes(lender.content, lender.name);
    let own = own_attrs(ba, ba.len() as int).unwrap();
    let other = other_geometry(local_part(b.name));
    let inh = inherited_attrs(la, keys_of(own), other, la.len() as int).unwrap();
    assert(ks == own + inh);
    lemma_own_attrs_no_href(ba, ba.len() as int);
    lemma_inherited_filtered(la, keys_of(own), other, la.len() as int);
    assert(ks.take(own.len() as int) =~= own);
    assert forall|j: int| 0 <= j < ks.len() implies !href_key(#[trigger] ks[j].0) by {
        if j < own.len() {
            assert(ks[j] == own[j]);
        } else {
            assert(ks[j] == inh[j - own.len()]);
        }
    }
    assert forall|i: int, j: int| 0 <= i < own.len() <= j < ks.len() implies #[trigger] ks[i].0
        != #[trigger] ks[j].0 by {
        assert(ks[i] == own[i]);
        assert(ks[j] == inh[j - own.len()]);
        assert(keys_of(own)[i] == own[i].0);
    }
    assert forall|j: int| own.len() <= j < ks.len() implies (#[trigger] ks[j]).0 != "id"@
        && !other.contains(ks[j].0) by {
        assert(ks[j] == inh[j - own.len()]);
    }
}

/// What the rewrite knows after some tokens: what it wrote, the depth of the lender being
/// dropped, and the depth of the last tag.
pub struct RewriteState {
    pub out: Seq<char>,
    pub skip: Option<int>,
    pub depth: int,
}

/// The `id` of a tag, or nothing; `None` when the reader cannot read an attribute before it.
pub open spec fn id_or_empty(t: TokenView) -> Option<Seq<char>> {
    match attr_among(xml_attributes(t.content, t.name), "id"@, 0) {
        None => None,
        Some(Some(v)) => Some(v),
        Some(None) => Some(Seq::empty()),
    }
}

/// One token of the rewrite.
///
/// A lender is dropped with everything inside it. A borrower is written with what it inherits,
/// and the children of its lender go in first; a borrower without children of its own is closed
/// after them. Everything else is written as it was read.
pub open spec fn rewrite_step(
    ts: Seq<TokenView>,
    ws: Seq<Seq<char>>,
    gs: Seq<GradientView>,
    pairs: Seq<(int, int)>,
    s: RewriteState,
    i: int,
) -> Option<RewriteState> {
    let t = ts[i];
    if t.kind == TokenKind::Close {
        let d = if s.depth > 0 {
            s.depth - 1
        } else {
            0
        };
        if s.skip == Some(s.depth) {
            Some(RewriteState { out: s.out, skip: None, depth: d })
        } else if s.skip is None {
            Some(RewriteState { out: s.out + ws[i], skip: None, depth: d })
        } else {
            Some(RewriteState { depth: d, ..s })
        }
    } else if t.kind == TokenKind::Open {
        let d = s.depth + 1;
        if s.skip is Some {
            Some(RewriteState { depth: d, ..s })
        } else {
            match id_or_empty(t) {
                None => None,
                Some(id) => if lender_ids(gs, pairs).contains(id) {
                    Some(RewriteState { out: s.out, skip: Some(d), depth: d })
                } else {
                    match lender_of(gs, pairs, id, pairs.len() as int) {
                        Some(l) => match merged_attrs(t, ts[gs[l].tag]) {
                            None => None,
                            Some(ks) => Some(
                                RewriteState {
                                    out: s.out + tag_text(t.name, ks, false) + body_of(ts, gs[l]),
                                    skip: None,
                                    depth: d,
                                },
                            ),
                        },
                        None => Some(RewriteState { out: s.out + ws[i], skip: None, depth: d }),
                    }
                },
            }
        }
    } else if t.kind == TokenKind::Empty {
        if s.skip is Some {
            Some(s)
        } else {
            match id_or_empty(t) {
                None => None,
                Some(id) => match lender_of(gs, pairs, id, pairs.len() as int) {
                    Some(l) => match merged_attrs(t, ts[gs[l].tag]) {
                        None => None,
                        Some(ks) => Some(
                            RewriteState {
                                out: s.out + tag_text(t.name, ks, false) + body_of(ts, gs[l]) + "</"@
                                    + t.name + ">"@,
                                ..s
                            },
                        ),
                    },
                    None => Some(RewriteState { out: s.out + ws[i], ..s }),
                },
            }
        }
    } else if s.skip is None {
        Some(RewriteState { out: s.out + ws[i], ..s })
    } else {
        Some(s)
    }
}

/// The rewrite of the first `n` tokens.
pub open spec fn rewrite_upto(
    ts: Seq<TokenView>,
    ws: Seq<Seq<char>>,
    gs: Seq<GradientView>,
    pairs: Seq<(int, int)>,
    n: int,
) -> Option<RewriteState>
    decreases n,
{
    if n <= 0 {
        Some(RewriteState { out: Seq::empty(), skip: None, depth: 0 })
    } else {
        match rewrite_upto(ts, ws, gs, pairs, n - 1) {
            None => None,
            Some(s) => rewrite_step(ts, ws, gs, pairs, s, n - 1),
        }
    }
}

/// One round over `src`: `Some(None)` when no pair stands on its own, the document with every pair
/// written as one gradient otherwise; `None` when the reader refuses the document or an attribute.
pub open spec fn spec_inline_once(src: Seq<char>) -> Option<Option<Seq<char>>> {
    match read_doc(src) {
        None => None,
        Some((ts, ws)) => match scan_upto(ts, ts.len() as int) {
            None => None,
            Some(s) => {
                let pairs = pairs_upto(s.gradients, s.refs, s.gradients.len() as int);
                if pairs.len() == 0 {
                    Some(None)
                } else {
                    match rewrite_upto(ts, ws, s.gradients, pairs, ts.len() as int) {
                        None => None,
                        Some(r) => Some(Some(r.out)),
                    }
                }
            },
        },
    }
}

/// At most `k` rounds over `src`, stopping at the first that finds no pair.
pub open spec fn inline_rounds(src: Seq<char>, k: nat) -> Option<Seq<char>>
    decreases k,
{
    if k == 0 {
        Some(src)
    } else {
        match spec_inline_once(src) {
            None => None,
            Some(None) => Some(src),
            Some(Some(next)) => inline_rounds(next, (k - 1) as nat),
        }
    }
}

/// `src` with every gradient that lends its stops to one gradient alone written into it, round
/// after round; a `dynamic` document as it is.
pub open spec fn spec_inline(src: Seq<char>, dynamic: bool) -> Option<Seq<char>> {
    if dynamic {
        Some(src)
    } else {
        inline_rounds(src, MAX_ROUNDS as nat)
    }
}

/// Nothing to pair leaves a document as it is: when the gradients the scan finds in `src` form no
/// pair of a lender and its one borrower, [`inline`] gives `src` back unchanged.
pub proof fn lemma_nothing_to_pair_is_unchanged(src: Seq<char>, dynamic: bool)
    requires
        read_doc(src) matches Some((ts, _)) && scan_upto(ts, ts.len() as int) matches Some(s)
            && pairs_upto(s.gradients, s.refs, s.gradients.len() as int).len() == 0,
    ensures
        spec_inline(src, dynamic) == Some(src),
{
    assert(spec_inline_once(src) == Some(None::<Seq<char>>));
    assert(inline_rounds(src, MAX_ROUNDS as nat) == Some(src));
}

pub fn is_href(key: &str) -> (r: bool)
    ensures
        r == href_key(key@),
{
    str_eq(key, "href") || str_eq(key, "xlink:href")
}

/// The `id` that `v` names as `#id`.
fn hash_id_of(v: &Vec<char>) -> (r: Option<String>)
    ensures
        match r {
            Some(id) => hash_id(v@) == Some(id@),
            None => hash_id(v@) is None,
        },
{
    if v.len() == 0 || v[0] != '#' {
        return None;
    }
    let mut w: Vec<char> = Vec::new();
    let mut k: usize = 1;
    while k < v.len()
        invariant
            1 <= k <= v.len(),
            w@ == v@.subrange(1, k as int),
        decreases v.len() - k,
    {
        w.push(v[k]);
        assert(v@.subrange(1, k + 1) =~= v@.subrange(1, k as int).push(v@[k as int]));
        k += 1;
    }
    assert(w@ =~= v@.skip(1));
    Some(string_of(&w))
}

/// Append the `id`s that the `url(#id)` in `v` name to `refs`.
///
/// A paint names its gradient as `url(#id)`, and a name given twice counts twice.
fn add_url_refs(v: &Vec<char>, refs: &mut Vec<String>)
    ensures
        strings_view(final(refs)@) == strings_view(old(refs)@) + url_refs(v@, 0),
{
    let open = vec!['u', 'r', 'l', '('];
    let close = vec![')'];
    assert(open@ =~= url_open());
    assert(close@ =~= url_close());
    let mut p: usize = 0;
    while p <= v.len()
        invariant
            open@ == url_open(),
            close@ == url_close(),
            p <= v.len() + 1,
            strings_view(refs@) + (if p <= v.len() {
                url_refs(v@, p as int)
            } else {
                Seq::empty()
            }) == strings_view(old(refs)@) + url_refs(v@, 0),
        decreases v.len() + 1 - p,
    {
        let ghost rest = url_refs(v@, p as int);
        let o = match find_chars(v, &open, p) {
            None => {
                assert(strings_view(refs@) + rest =~= strings_view(refs@));
                return;
            },
            Some(o) => o,
        };
        proof {
            lemma_find_from(v@, url_open(), p as int);
        }
        let q = o + 4;
        let c = match find_chars(v, &close, q) {
            None => {
                assert(strings_view(refs@) + rest =~= strings_view(refs@));
                return;
            },
            Some(c) => c,
        };
        proof {
            lemma_find_from(v@, url_close(), q as int);
        }
        let mut inner: Vec<char> = Vec::new();
        let mut k: usize = q;
        while k < c
            invariant
                q <= k <= c < v.len(),
                inner@ == v@.subrange(q as int, k as int),
            decreases c - k,
        {
            inner.push(v[k]);
            assert(v@.subrange(q as int, k + 1) =~= v@.subrange(q as int, k as int).push(v@[k as int]));
            k += 1;
        }
        let named = trim_chars(&trim_chars(&inner, false), true);
        let ghost before = strings_view(refs@);
        match hash_id_of(&named) {
            Some(id) => {
                refs.push(id);
                assert(strings_view(refs@) =~= before.push(hash_id(named@).unwrap()));
                assert(before + rest =~= strings_view(refs@) + url_refs(v@, c + 1));
            },
            None => {
                assert(before + rest =~= strings_view(refs@) + url_refs(v@, c + 1));
            },
        }
        p = c + 1;
    }
    assert(strings_view(refs@) + Seq::<Seq<char>>::empty() =~= strings_view(refs@));
}

/// Count every `id` that the attributes of a tag name: append them to `refs`.
fn add_refs(content: &str, name: &str, refs: &mut Vec<String>) -> (r: Result<(), XmlError>)
    requires
        crate::text::starts_with(content@, name@),
    ensures
        match r {
            Ok(()) => attr_refs(
                xml_attributes(content@, name@),
                xml_attributes(content@, name@).len() as int,
            ) matches Some(rs) && strings_view(final(refs)@) == strings_view(old(refs)@) + rs,
            Err(_) => attr_refs(
                xml_attributes(content@, name@),
                xml_attributes(content@, name@).len() as int,
            ) is None,
        },
{
    let attrs = attributes(content, name);
    let ghost av = attrs_view(attrs@);
    let ghost base = strings_view(refs@);
    let ghost mut rs: Seq<Seq<char>> = Seq::empty();
    let mut k: usize = 0;
    while k < attrs.len()
        invariant
            av == attrs_view(attrs@),
            av == xml_attributes(content@, name@),
            k <= attrs.len(),
            base == strings_view(old(refs)@),
            strings_view(refs@) == base + rs,
            attr_refs(av, k as int) == Some(rs),
        decreases attrs.len() - k,
    {
        match &attrs[k] {
            None => {
                proof {
                    assert(av[k as int] is None);
                    lemma_attr_refs_stays_none(av, k + 1, av.len() as int);
                }
                return Err(bad_attribute());
            },
            Some(a) => {
                assert(av[k as int] == Some(a@));
                match &a.value {
                    None => {
                        proof {
                            lemma_attr_refs_stays_none(av, k + 1, av.len() as int);
                        }
                        return Err(bad_attribute());
                    },
                    Some(v) => {
                        let chars = chars_of(v.as_str());
                        let ghost before = strings_view(refs@);
                        let direct = if is_href(a.key.as_str()) {
                            hash_id_of(&chars)
                        } else {
                            None
                        };
                        match direct {
                            Some(id) => {
                                let ghost idv = id@;
                                refs.push(id);
                                assert(strings_view(refs@) =~= before.push(idv));
                                proof {
                                    assert(base + rs.push(idv) =~= (base + rs).push(idv));
                                    rs = rs.push(idv);
                                }
                            },
                            None => {
                                add_url_refs(&chars, refs);
                                proof {
                                    assert(base + (rs + url_refs(v@, 0)) =~= (base + rs) + url_refs(
                                        v@,
                                        0,
                                    ));
                                    rs = rs + url_refs(v@, 0);
                                }
                            },
                        }
                    },
                }
            },
        }
        k += 1;
    }
    Ok(())
}

proof fn lemma_attr_refs_stays_none(attrs: Seq<Option<AttrView>>, k: int, n: int)
    requires
        0 <= k <= n,
        attr_refs(attrs, k) is None,
    ensures
        attr_refs(attrs, n) is None,
    decreases n - k,
{
    if k < n {
        lemma_attr_refs_stays_none(attrs, k + 1, n);
    }
}

/// The `id` that the `href` of a tag names.
fn reference(content: &str, name: &str) -> (r: Result<Option<String>, XmlError>)
    requires
        crate::text::starts_with(content@, name@),
    ensures
        match r {
            Ok(Some(id)) => reference_of(xml_attributes(content@, name@)) == Some(Some(id@)),
            Ok(None) => reference_of(xml_attributes(content@, name@)) == Some(None::<Seq<char>>),
            Err(_) => reference_of(xml_attributes(content@, name@)) is None,
        },
{
    if let Some(value) = attr(content, name, "href")? {
        if let Some(id) = hash_id_of(&chars_of(value.as_str())) {
            return Ok(Some(id));
        }
    }
    match attr(content, name, "xlink:href")? {
        Some(value) => Ok(hash_id_of(&chars_of(value.as_str()))),
        None => Ok(None),
    }
}

/// Where the gradients sit among the first `n` tokens: each tag before `n`, and each end after its
/// tag and before `n`.
pub open spec fn gradients_fit(gs: Seq<GradientView>, n: int) -> bool {
    forall|k: int|
        0 <= k < gs.len() ==> 0 <= #[trigger] gs[k].tag < n && (gs[k].end matches Some(e) ==> gs[k].tag
            < e < n)
}

/// The open gradient and the depth of its tag, as plain values.
pub open spec fn open_view(open: Option<(usize, usize)>) -> Option<(int, int)> {
    match open {
        Some((g, at)) => Some((g as int, at as int)),
        None => None,
    }
}

/// The scan as plain values.
pub open spec fn scan_view(gs: Seq<Gradient>, refs: Seq<String>, open: Option<(usize, usize)>, depth: usize) -> ScanState {
    ScanState {
        gradients: gradients_view(gs),
        refs: strings_view(refs),
        open: open_view(open),
        depth: depth as int,
    }
}

fn copy_borrows(b: &Option<String>) -> (r: Option<String>)
    ensures
        match r {
            Some(x) => b matches Some(y) && x@ == y@,
            None => b is None,
        },
{
    match b {
        Some(x) => Some(x.clone()),
        None => None,
    }
}

/// `g`, closed by the end tag at `i`.
fn closed_at(g: &Gradient, i: usize) -> (r: Gradient)
    ensures
        r@ == (GradientView { end: Some(i as int), ..g@ }),
{
    Gradient { id: g.id.clone(), borrows: copy_borrows(&g.borrows), has_stops: g.has_stops, tag: g.tag, end: Some(i) }
}

/// `g`, holding stops.
fn with_stops(g: &Gradient) -> (r: Gradient)
    ensures
        r@ == (GradientView { has_stops: true, ..g@ }),
{
    Gradient { id: g.id.clone(), borrows: copy_borrows(&g.borrows), has_stops: true, tag: g.tag, end: g.end }
}

proof fn lemma_scan_stays_none(ts: Seq<TokenView>, k: int, n: int)
    requires
        0 <= k <= n,
        scan_upto(ts, k) is None,
    ensures
        scan_upto(ts, n) is None,
    decreases n - k,
{
    if k < n {
        lemma_scan_stays_none(ts, k + 1, n);
    }
}

/// Every gradient of a document, and every `id` that its attributes name, in order.
pub fn scan(ts: &Vec<Token>) -> (r: Result<(Vec<Gradient>, Vec<String>), XmlError>)
    requires
        forall|k: int| 0 <= k < ts.len() ==> #[trigger] named(ts@[k]@),
    ensures
        match r {
            Ok((gs, refs)) => scan_upto(tokens_view(ts@), ts.len() as int) matches Some(s)
                && s.gradients == gradients_view(gs@) && s.refs == strings_view(refs@)
                && gradients_fit(gradients_view(gs@), ts.len() as int),
            Err(_) => scan_upto(tokens_view(ts@), ts.len() as int) is None,
        },
{
    let ghost tv = tokens_view(ts@);
    let mut gs: Vec<Gradient> = Vec::new();
    let mut refs: Vec<String> = Vec::new();
    // The gradient the events belong to, and the depth its own tag sits at.
    let mut open: Option<(usize, usize)> = None;
    let mut depth: usize = 0;
    let mut i: usize = 0;
    assert(gradients_view(gs@) =~= Seq::empty());
    assert(strings_view(refs@) =~= Seq::empty());
    while i < ts.len()
        invariant
            tv == tokens_view(ts@),
            forall|k: int| 0 <= k < ts.len() ==> #[trigger] named(ts@[k]@),
            i <= ts.len(),
            depth <= i,
            open matches Some((g, at)) ==> g < gs.len() && at <= depth,
            gradients_fit(gradients_view(gs@), i as int),
            scan_upto(tv, i as int) == Some(scan_view(gs@, refs@, open, depth)),
        decreases ts.len() - i,
    {
        let t = &ts[i];
        assert(tv[i as int] == t@);
        assert(named(ts@[i as int]@));
        let ghost s0 = scan_view(gs@, refs@, open, depth);
        if t.kind == TokenKind::Close {
            match open {
                Some((g, at)) => {
                    if at == depth {
                        let ng = closed_at(&gs[g], i);
                        gs.set(g, ng);
                        open = None;
                        assert(gradients_view(gs@) =~= s0.gradients.update(
                            g as int,
                            GradientView { end: Some(i as int), ..s0.gradients[g as int] },
                        ));
                    }
                },
                None => {},
            }
            if depth > 0 {
                depth = depth - 1;
            }
            assert(gradients_fit(gradients_view(gs@), i + 1)) by {
                assert forall|k: int| 0 <= k < gradients_view(gs@).len() implies 0
                    <= #[trigger] gradients_view(gs@)[k].tag < i + 1 && (gradients_view(
                    gs@,
                )[k].end matches Some(e) ==> gradients_view(gs@)[k].tag < e < i + 1) by {
                    assert(s0.gradients[k].tag < i);
                }
            }
        } else if t.kind == TokenKind::Open || t.kind == TokenKind::Empty {
            let own = depth + 1;
            let new_depth = if t.kind == TokenKind::Open {
                own
            } else {
                depth
            };
            match add_refs(t.content.as_str(), t.name.as_str(), &mut refs) {
                Err(e) => {
                    proof {
                        lemma_scan_stays_none(tv, i + 1, tv.len() as int);
                    }
                    return Err(e);
                },
                Ok(()) => {},
            }
            let ghost refs1 = strings_view(refs@);
            let local = local_name(t.name.as_str());
            let is_stop = str_eq(local.as_str(), "stop");
            match open {
                Some((g, at)) => {
                    if at + 1 == own && is_stop {
                        let ng = with_stops(&gs[g]);
                        gs.set(g, ng);
                        assert(gradients_view(gs@) =~= s0.gradients.update(
                            g as int,
                            GradientView { has_stops: true, ..s0.gradients[g as int] },
                        ));
                    }
                },
                None => {},
            }
            let ghost gs1 = gradients_view(gs@);
            if str_eq(local.as_str(), "linearGradient") || str_eq(local.as_str(), "radialGradient") {
                match attr(t.content.as_str(), t.name.as_str(), "id") {
                    Err(e) => {
                        proof {
                            lemma_scan_stays_none(tv, i + 1, tv.len() as int);
                        }
                        return Err(e);
                    },
                    Ok(None) => {},
                    Ok(Some(id)) => {
                        match reference(t.content.as_str(), t.name.as_str()) {
                            Err(e) => {
                                proof {
                                    lemma_scan_stays_none(tv, i + 1, tv.len() as int);
                                }
                                return Err(e);
                            },
                            Ok(borrows) => {
                                let g = Gradient { id, borrows, has_stops: false, tag: i, end: None };
                                let ghost gv = g@;
                                gs.push(g);
                                assert(gradients_view(gs@) =~= gs1.push(gv));
                                if t.kind == TokenKind::Open {
                                    open = Some((gs.len() - 1, own));
                                }
                            },
                        }
                    },
                }
            }
            depth = new_depth;
            assert(gradients_fit(gradients_view(gs@), i + 1)) by {
                assert forall|k: int| 0 <= k < gradients_view(gs@).len() implies 0
                    <= #[trigger] gradients_view(gs@)[k].tag < i + 1 && (gradients_view(
                    gs@,
                )[k].end matches Some(e) ==> gradients_view(gs@)[k].tag < e < i + 1) by {
                    if k < s0.gradients.len() {
                        assert(s0.gradients[k].tag < i);
                    }
                }
            }
        }
        i += 1;
    }
    Ok((gs, refs))
}

/// The pairs as plain values.
pub open spec fn pairs_view(v: Seq<(usize, usize)>) -> Seq<(int, int)> {
    v.map_values(|p: (usize, usize)| (p.0 as int, p.1 as int))
}

/// How many of the names are `id`.
fn count_refs(refs: &Vec<String>, id: &String) -> (r: usize)
    ensures
        r == ref_count(strings_view(refs@), id@, refs@.len() as int),
{
    let ghost rv = strings_view(refs@);
    let mut n: usize = 0;
    let mut k: usize = 0;
    while k < refs.len()
        invariant
            rv == strings_view(refs@),
            k <= refs.len(),
            n <= k,
            n == ref_count(rv, id@, k as int),
        decreases refs.len() - k,
    {
        assert(rv[k as int] == refs@[k as int]@);
        if str_eq(refs[k].as_str(), id.as_str()) {
            n += 1;
        }
        k += 1;
    }
    n
}

/// Whether `g` borrows from `id`.
fn borrows_from(g: &Gradient, id: &String) -> (r: bool)
    ensures
        r == (g@.borrows == Some(id@)),
{
    match &g.borrows {
        Some(b) => str_eq(b.as_str(), id.as_str()),
        None => false,
    }
}

/// The first gradient from `j` on that borrows from `id`.
fn first_borrower_from(gs: &Vec<Gradient>, id: &String, j: usize) -> (r: Option<usize>)
    ensures
        match r {
            Some(b) => first_borrower(gradients_view(gs@), id@, j as int) == Some(b as int) && j <= b
                < gs.len(),
            None => first_borrower(gradients_view(gs@), id@, j as int) is None,
        },
{
    let ghost gv = gradients_view(gs@);
    let mut k: usize = j;
    while k < gs.len()
        invariant
            gv == gradients_view(gs@),
            j <= k,
            first_borrower(gv, id@, j as int) == first_borrower(gv, id@, k as int),
        decreases gs.len() - k,
    {
        assert(gv[k as int] == gs@[k as int]@);
        if borrows_from(&gs[k], id) {
            return Some(k);
        }
        k += 1;
    }
    None
}

/// Every pair that stands on its own, lender first.
pub fn pairs_of(gs: &Vec<Gradient>, refs: &Vec<String>) -> (r: Vec<(usize, usize)>)
    ensures
        pairs_view(r@) == pairs_upto(gradients_view(gs@), strings_view(refs@), gs.len() as int),
        forall|k: int| 0 <= k < r.len() ==> #[trigger] r@[k].0 < gs.len() && r@[k].1 < gs.len(),
{
    let ghost gv = gradients_view(gs@);
    let ghost rv = strings_view(refs@);
    let mut pairs: Vec<(usize, usize)> = Vec::new();
    let mut l: usize = 0;
    while l < gs.len()
        invariant
            gv == gradients_view(gs@),
            rv == strings_view(refs@),
            l <= gs.len(),
            pairs_view(pairs@) == pairs_upto(gv, rv, l as int),
            forall|k: int| 0 <= k < pairs.len() ==> #[trigger] pairs@[k].0 < gs.len() && pairs@[k].1 < gs.len(),
        decreases gs.len() - l,
    {
        let g = &gs[l];
        assert(gv[l as int] == g@);
        // A lender holds the stops itself, and it holds them for one gradient alone.
        if g.borrows.is_none() && g.has_stops && count_refs(refs, &g.id) == 1 {
            match first_borrower_from(gs, &g.id, 0) {
                Some(b) => {
                    // A borrower that holds stops of its own borrows nothing.
                    if first_borrower_from(gs, &g.id, b + 1).is_none() && !gs[b].has_stops && b != l {
                        assert(gv[b as int] == gs@[b as int]@);
                        let ghost before = pairs_view(pairs@);
                        pairs.push((l, b));
                        assert(pairs_view(pairs@) =~= before.push((l as int, b as int)));
                    } else {
                        assert(gv[b as int] == gs@[b as int]@);
                    }
                },
                None => {},
            }
        }
        l += 1;
    }
    pairs
}

/// Whether a name is among `keys`.
fn has_key(kept: &Vec<NewAttr>, key: &String) -> (r: bool)
    ensures
        r == keys_of(new_attrs_view(kept@)).contains(key@),
{
    let ghost ks = keys_of(new_attrs_view(kept@));
    let mut k: usize = 0;
    while k < kept.len()
        invariant
            ks == keys_of(new_attrs_view(kept@)),
            k <= kept.len(),
            forall|j: int| 0 <= j < k ==> ks[j] != key@,
        decreases kept.len() - k,
    {
        assert(ks[k as int] == kept@[k as int].key@);
        if str_eq(kept[k].key.as_str(), key.as_str()) {
            return true;
        }
        k += 1;
    }
    false
}

/// Whether `key` is a coordinate that the borrower does not read.
fn is_other_geometry(key: &str, radial: bool) -> (r: bool)
    ensures
        r == (if radial {
            seq!["x1"@, "y1"@, "x2"@, "y2"@]
        } else {
            seq!["cx"@, "cy"@, "r"@, "fx"@, "fy"@, "fr"@]
        }).contains(key@),
{
    let ghost lin = seq!["x1"@, "y1"@, "x2"@, "y2"@];
    let ghost rad = seq!["cx"@, "cy"@, "r"@, "fx"@, "fy"@, "fr"@];
    if radial {
        let r = str_eq(key, "x1") || str_eq(key, "y1") || str_eq(key, "x2") || str_eq(key, "y2");
        assert(r ==> lin.contains(key@)) by {
            if key@ == "x1"@ { assert(lin[0] == key@); }
            if key@ == "y1"@ { assert(lin[1] == key@); }
            if key@ == "x2"@ { assert(lin[2] == key@); }
            if key@ == "y2"@ { assert(lin[3] == key@); }
        }
        r
    } else {
        let r = str_eq(key, "cx") || str_eq(key, "cy") || str_eq(key, "r") || str_eq(key, "fx")
            || str_eq(key, "fy") || str_eq(key, "fr");
        assert(r ==> rad.contains(key@)) by {
            if key@ == "cx"@ { assert(rad[0] == key@); }
            if key@ == "cy"@ { assert(rad[1] == key@); }
            if key@ == "r"@ { assert(rad[2] == key@); }
            if key@ == "fx"@ { assert(rad[3] == key@); }
            if key@ == "fy"@ { assert(rad[4] == key@); }
            if key@ == "fr"@ { assert(rad[5] == key@); }
        }
        r
    }
}

proof fn lemma_own_stays_none(attrs: Seq<Option<AttrView>>, k: int, n: int)
    requires
        0 <= k <= n,
        own_attrs(attrs, k) is None,
    ensures
        own_attrs(attrs, n) is None,
    decreases n - k,
{
    if k < n {
        lemma_own_stays_none(attrs, k + 1, n);
    }
}

proof fn lemma_inherited_stays_none(
    attrs: Seq<Option<AttrView>>,
    own: Seq<Seq<char>>,
    other: Seq<Seq<char>>,
    k: int,
    n: int,
)
    requires
        0 <= k <= n,
        inherited_attrs(attrs, own, other, k) is None,
    ensures
        inherited_attrs(attrs, own, other, n) is None,
    decreases n - k,
{
    if k < n {
        lemma_inherited_stays_none(attrs, own, other, k + 1, n);
    }
}

/// The borrower, with the attributes it inherits written out and its reference gone.
pub fn merged(borrower: &Token, lender: &Token) -> (r: Result<Vec<NewAttr>, XmlError>)
    requires
        crate::text::starts_with(borrower.content@, borrower.name@),
        crate::text::starts_with(lender.content@, lender.name@),
    ensures
        match r {
            Ok(ks) => merged_attrs(borrower@, lender@) == Some(new_attrs_view(ks@)),
            Err(_) => merged_attrs(borrower@, lender@) is None,
        },
{
    let ba = attributes(borrower.content.as_str(), borrower.name.as_str());
    let ghost bv = attrs_view(ba@);
    let mut own: Vec<NewAttr> = Vec::new();
    let mut k: usize = 0;
    while k < ba.len()
        invariant
            bv == attrs_view(ba@),
            bv == xml_attributes(borrower.content@, borrower.name@),
            k <= ba.len(),
            own_attrs(bv, k as int) == Some(new_attrs_view(own@)),
        decreases ba.len() - k,
    {
        match &ba[k] {
            None => {
                proof {
                    assert(bv[k as int] is None);
                    lemma_own_stays_none(bv, k + 1, bv.len() as int);
                }
                return Err(bad_attribute());
            },
            Some(a) => {
                assert(bv[k as int] == Some(a@));
                if !is_href(a.key.as_str()) {
                    let ghost before = new_attrs_view(own@);
                    own.push(NewAttr { key: a.key.clone(), value: a.raw.clone(), escape: false });
                    assert(new_attrs_view(own@) =~= before.push((a.key@, a.raw@, false)));
                }
            },
        }
        k += 1;
    }
    // A coordinate of the other kind of gradient is one the borrower does not read.
    let local = local_name(borrower.name.as_str());
    let radial = str_eq(local.as_str(), "radialGradient");
    let ghost other = other_geometry(local_part(borrower.name@));
    let ghost own_keys = keys_of(new_attrs_view(own@));
    let la = attributes(lender.content.as_str(), lender.name.as_str());
    let ghost lv = attrs_view(la@);
    let mut inh: Vec<NewAttr> = Vec::new();
    let mut k: usize = 0;
    while k < la.len()
        invariant
            lv == attrs_view(la@),
            lv == xml_attributes(lender.content@, lender.name@),
            own_keys == keys_of(new_attrs_view(own@)),
            bv == xml_attributes(borrower.content@, borrower.name@),
            own_attrs(bv, bv.len() as int) == Some(new_attrs_view(own@)),
            other == other_geometry(local_part(borrower.name@)),
            radial == (local_part(borrower.name@) == "radialGradient"@),
            k <= la.len(),
            inherited_attrs(lv, own_keys, other, k as int) == Some(new_attrs_view(inh@)),
        decreases la.len() - k,
    {
        match &la[k] {
            None => {
                proof {
                    assert(lv[k as int] is None);
                    lemma_inherited_stays_none(lv, own_keys, other, k + 1, lv.len() as int);
                }
                return Err(bad_attribute());
            },
            Some(a) => {
                assert(lv[k as int] == Some(a@));
                // An attribute of the borrower beats the one it would inherit, and the `id` of the
                // lender goes.
                if !(is_href(a.key.as_str()) || str_eq(a.key.as_str(), "id") || has_key(&own, &a.key)
                    || is_other_geometry(a.key.as_str(), radial)) {
                    let ghost before = new_attrs_view(inh@);
                    inh.push(NewAttr { key: a.key.clone(), value: a.raw.clone(), escape: false });
                    assert(new_attrs_view(inh@) =~= before.push((a.key@, a.raw@, false)));
                }
            },
        }
        k += 1;
    }
    let ghost ov = new_attrs_view(own@);
    let ghost iv = new_attrs_view(inh@);
    own.append(&mut inh);
    assert(new_attrs_view(own@) =~= ov + iv);
    Ok(own)
}

/// The children of `g`, verbatim.
pub fn body(ts: &Vec<Token>, g: &Gradient) -> (r: String)
    requires
        g@.end matches Some(e) ==> g.tag < e < ts.len(),
    ensures
        r@ == body_of(tokens_view(ts@), g@),
{
    let ghost tv = tokens_view(ts@);
    let mut out = String::new();
    match g.end {
        None => {},
        Some(e) => {
            let mut k: usize = g.tag + 1;
            while k < e
                invariant
                    tv == tokens_view(ts@),
                    g.tag < k <= e < ts.len(),
                    out@ == raws(tv, g.tag + 1, k as int),
                decreases e - k,
            {
                assert(tv[k as int] == ts@[k as int]@);
                out.append(ts[k].raw.as_str());
                k += 1;
            }
        },
    }
    out
}

/// Whether `id` is that of a lender.
fn is_lender(gs: &Vec<Gradient>, pairs: &Vec<(usize, usize)>, id: &String) -> (r: bool)
    requires
        forall|k: int| 0 <= k < pairs.len() ==> #[trigger] pairs@[k].0 < gs.len() && pairs@[k].1 < gs.len(),
    ensures
        r == lender_ids(gradients_view(gs@), pairs_view(pairs@)).contains(id@),
{
    let ghost ls = lender_ids(gradients_view(gs@), pairs_view(pairs@));
    let mut k: usize = 0;
    while k < pairs.len()
        invariant
            ls == lender_ids(gradients_view(gs@), pairs_view(pairs@)),
            forall|k: int| 0 <= k < pairs.len() ==> #[trigger] pairs@[k].0 < gs.len() && pairs@[k].1 < gs.len(),
            k <= pairs.len(),
            forall|j: int| 0 <= j < k ==> ls[j] != id@,
        decreases pairs.len() - k,
    {
        let (l, _) = pairs[k];
        assert(pairs@[k as int].0 < gs.len());
        assert(ls[k as int] == gs@[l as int].id@);
        if str_eq(gs[l].id.as_str(), id.as_str()) {
            return true;
        }
        k += 1;
    }
    false
}

/// The lender of the last pair whose borrower has `id`.
fn find_lender(gs: &Vec<Gradient>, pairs: &Vec<(usize, usize)>, id: &String) -> (r: Option<usize>)
    requires
        forall|k: int| 0 <= k < pairs.len() ==> #[trigger] pairs@[k].0 < gs.len() && pairs@[k].1 < gs.len(),
    ensures
        match r {
            Some(l) => lender_of(gradients_view(gs@), pairs_view(pairs@), id@, pairs.len() as int)
                == Some(l as int) && l < gs.len(),
            None => lender_of(gradients_view(gs@), pairs_view(pairs@), id@, pairs.len() as int) is None,
        },
{
    let ghost gv = gradients_view(gs@);
    let ghost pv = pairs_view(pairs@);
    let mut k: usize = pairs.len();
    while k > 0
        invariant
            gv == gradients_view(gs@),
            pv == pairs_view(pairs@),
            forall|k: int| 0 <= k < pairs.len() ==> #[trigger] pairs@[k].0 < gs.len() && pairs@[k].1 < gs.len(),
            k <= pairs.len(),
            lender_of(gv, pv, id@, pairs.len() as int) == lender_of(gv, pv, id@, k as int),
        decreases k,
    {
        let (l, b) = pairs[k - 1];
        assert(pairs@[k - 1].0 < gs.len());
        assert(gv[b as int] == gs@[b as int]@);
        if str_eq(gs[b].id.as_str(), id.as_str()) {
            return Some(l);
        }
        k -= 1;
    }
    None
}

/// The depth of the lender being dropped, as a plain value.
pub open spec fn skip_view(skip: Option<usize>) -> Option<int> {
    match skip {
        Some(d) => Some(d as int),
        None => None,
    }
}

proof fn lemma_rewrite_stays_none(
    ts: Seq<TokenView>,
    ws: Seq<Seq<char>>,
    gs: Seq<GradientView>,
    pairs: Seq<(int, int)>,
    k: int,
    n: int,
)
    requires
        0 <= k <= n,
        rewrite_upto(ts, ws, gs, pairs, k) is None,
    ensures
        rewrite_upto(ts, ws, gs, pairs, n) is None,
    decreases n - k,
{
    if k < n {
        lemma_rewrite_stays_none(ts, ws, gs, pairs, k + 1, n);
    }
}

/// One token of the rewrite only adds to what was written before it.
proof fn lemma_step_extends(
    ts: Seq<TokenView>,
    ws: Seq<Seq<char>>,
    gs: Seq<GradientView>,
    pairs: Seq<(int, int)>,
    s: RewriteState,
    i: int,
)
    requires
        rewrite_step(ts, ws, gs, pairs, s, i) is Some,
    ensures
        ({
            let o = rewrite_step(ts, ws, gs, pairs, s, i).unwrap().out;
            o.len() >= s.out.len() && o.subrange(0, s.out.len() as int) == s.out
        }),
{
    let o = rewrite_step(ts, ws, gs, pairs, s, i).unwrap().out;
    assert(o.len() >= s.out.len() && o.subrange(0, s.out.len() as int) =~= s.out);
}

/// What the rewrite wrote for the first `a` tokens stays at the head of what it writes for more.
proof fn lemma_rewrite_out_grows(
    ts: Seq<TokenView>,
    ws: Seq<Seq<char>>,
    gs: Seq<GradientView>,
    pairs: Seq<(int, int)>,
    a: int,
    b: int,
)
    requires
        0 <= a <= b,
        rewrite_upto(ts, ws, gs, pairs, b) is Some,
    ensures
        rewrite_upto(ts, ws, gs, pairs, a) is Some,
        ({
            let oa = rewrite_upto(ts, ws, gs, pairs, a).unwrap().out;
            let ob = rewrite_upto(ts, ws, gs, pairs, b).unwrap().out;
            oa.len() <= ob.len() && ob.subrange(0, oa.len() as int) == oa
        }),
    decreases b - a,
{
    if a < b {
        if rewrite_upto(ts, ws, gs, pairs, b - 1) is None {
            assert(rewrite_upto(ts, ws, gs, pairs, b) is None);
        }
        lemma_rewrite_out_grows(ts, ws, gs, pairs, a, b - 1);
        let s = rewrite_upto(ts, ws, gs, pairs, b - 1).unwrap();
        lemma_step_extends(ts, ws, gs, pairs, s, b - 1);
        let oa = rewrite_upto(ts, ws, gs, pairs, a).unwrap().out;
        let ob = rewrite_upto(ts, ws, gs, pairs, b).unwrap().out;
        assert(ob.subrange(0, oa.len() as int) =~= s.out.subrange(0, oa.len() as int));
    } else {
        let oa = rewrite_upto(ts, ws, gs, pairs, a).unwrap().out;
        assert(oa.subrange(0, oa.len() as int) =~= oa);
    }
}

/// A lender goes with everything inside it: from its start tag on, the rewrite writes nothing for
/// as long as it is still dropping the lender.
pub proof fn lemma_lender_is_not_written(
    ts: Seq<TokenView>,
    ws: Seq<Seq<char>>,
    gs: Seq<GradientView>,
    pairs: Seq<(int, int)>,
    i: int,
    m: int,
)
    requires
        0 <= i <= m,
        rewrite_upto(ts, ws, gs, pairs, m + 1) is Some,
        rewrite_upto(ts, ws, gs, pairs, i) matches Some(s) && s.skip is None,
        ts[i].kind == TokenKind::Open,
        id_or_empty(ts[i]) matches Some(id) && lender_ids(gs, pairs).contains(id),
        forall|k: int| i < k <= m ==> (#[trigger] rewrite_upto(ts, ws, gs, pairs, k)).unwrap().skip is Some,
    ensures
        rewrite_upto(ts, ws, gs, pairs, m + 1).unwrap().out == rewrite_upto(
            ts,
            ws,
            gs,
            pairs,
            i,
        ).unwrap().out,
    decreases m - i,
{
    lemma_rewrite_out_grows(ts, ws, gs, pairs, m, m + 1);
    if m > i {
        lemma_lender_is_not_written(ts, ws, gs, pairs, i, m - 1);
        let st = rewrite_upto(ts, ws, gs, pairs, m).unwrap();
        assert(st.skip is Some);
        assert(rewrite_upto(ts, ws, gs, pairs, m + 1) == rewrite_step(ts, ws, gs, pairs, st, m));
    } else {
        let st = rewrite_upto(ts, ws, gs, pairs, i).unwrap();
        assert(rewrite_upto(ts, ws, gs, pairs, i + 1) == rewrite_step(ts, ws, gs, pairs, st, i));
    }
}

/// What the rewrite writes for a borrower that keeps its `id`: its start tag with what it
/// inherits, then at once the children of its lender, and, when the borrower was an empty tag,
/// its end tag after them. So the gradient that keeps the borrower's `id` holds the lender's
/// stops, whether the borrower was written empty or with children of its own.
#[verifier::spinoff_prover]
pub proof fn lemma_borrower_holds_lender_children(
    ts: Seq<TokenView>,
    ws: Seq<Seq<char>>,
    gs: Seq<GradientView>,
    pairs: Seq<(int, int)>,
    i: int,
    n: int,
)
    requires
        0 <= i < n,
        rewrite_upto(ts, ws, gs, pairs, n) is Some,
        rewrite_upto(ts, ws, gs, pairs, i) matches Some(s) && s.skip is None,
        ts[i].kind == TokenKind::Open || ts[i].kind == TokenKind::Empty,
        id_or_empty(ts[i]) matches Some(id) && (ts[i].kind == TokenKind::Open
            ==> !lender_ids(gs, pairs).contains(id)) && lender_of(
            gs,
            pairs,
            id,
            pairs.len() as int,
        ) is Some,
    ensures
        ({
            let t = ts[i];
            let at = rewrite_upto(ts, ws, gs, pairs, i).unwrap().out.len() as int;
            let out = rewrite_upto(ts, ws, gs, pairs, n).unwrap().out;
            let l = lender_of(gs, pairs, id_or_empty(t).unwrap(), pairs.len() as int).unwrap();
            let end = if t.kind == TokenKind::Empty {
                "</"@ + t.name + ">"@
            } else {
                Seq::empty()
            };
            &&& merged_attrs(t, ts[gs[l].tag]) is Some
            &&& ({
                let piece = tag_text(t.name, merged_attrs(t, ts[gs[l].tag]).unwrap(), false)
                    + body_of(ts, gs[l]) + end;
                &&& at + piece.len() <= out.len()
                &&& out.subrange(at, at + piece.len()) == piece
            })
        }),
{
    let t = ts[i];
    let s = rewrite_upto(ts, ws, gs, pairs, i).unwrap();
    lemma_rewrite_out_grows(ts, ws, gs, pairs, i + 1, n);
    let next = rewrite_upto(ts, ws, gs, pairs, i + 1).unwrap();
    assert(rewrite_upto(ts, ws, gs, pairs, i + 1) == rewrite_step(ts, ws, gs, pairs, s, i));
    let l = lender_of(gs, pairs, id_or_empty(t).unwrap(), pairs.len() as int).unwrap();
    let end = if t.kind == TokenKind::Empty {
        "</"@ + t.name + ">"@
    } else {
        Seq::empty()
    };
    assert(merged_attrs(t, ts[gs[l].tag]) is Some);
    let piece = tag_text(t.name, merged_attrs(t, ts[gs[l].tag]).unwrap(), false) + body_of(ts, gs[l])
        + end;
    assert(next.out =~= s.out + piece);
    let out = rewrite_upto(ts, ws, gs, pairs, n).unwrap().out;
    let at = s.out.len() as int;
    assert forall|k: int| 0 <= k < piece.len() implies out[at + k] == piece[k] by {
        assert(out.subrange(0, next.out.len() as int)[at + k] == next.out[at + k]);
    }
    assert(out.subrange(at, at + piece.len()) =~= piece);
}

/// Write the document with every pair written as one gradient.
pub fn rewrite(ts: &Vec<Token>, ws: &Vec<String>, gs: &Vec<Gradient>, pairs: &Vec<(usize, usize)>) -> (r:
    Result<String, XmlError>)
    requires
        ts.len() == ws.len(),
        forall|k: int| 0 <= k < ts.len() ==> #[trigger] named(ts@[k]@),
        gradients_fit(gradients_view(gs@), ts.len() as int),
        forall|k: int| 0 <= k < pairs.len() ==> #[trigger] pairs@[k].0 < gs.len() && pairs@[k].1 < gs.len(),
    ensures
        match r {
            Ok(out) => rewrite_upto(
                tokens_view(ts@),
                strings_view(ws@),
                gradients_view(gs@),
                pairs_view(pairs@),
                ts.len() as int,
            ) matches Some(st) && st.out == out@,
            Err(_) => rewrite_upto(
                tokens_view(ts@),
                strings_view(ws@),
                gradients_view(gs@),
                pairs_view(pairs@),
                ts.len() as int,
            ) is None,
        },
{
    let ghost tv = tokens_view(ts@);
    let ghost wv = strings_view(ws@);
    let ghost gv = gradients_view(gs@);
    let ghost pv = pairs_view(pairs@);
    let mut out = String::new();
    // The depth of the lender whose events are being dropped.
    let mut skip: Option<usize> = None;
    let mut depth: usize = 0;
    let mut i: usize = 0;
    while i < ts.len()
        invariant
            tv == tokens_view(ts@),
            forall|k: int| 0 <= k < ts.len() ==> #[trigger] named(ts@[k]@),
            wv == strings_view(ws@),
            gv == gradients_view(gs@),
            pv == pairs_view(pairs@),
            ts.len() == ws.len(),
            gradients_fit(gv, ts.len() as int),
            forall|k: int| 0 <= k < pairs.len() ==> #[trigger] pairs@[k].0 < gs.len() && pairs@[k].1 < gs.len(),
            i <= ts.len(),
            depth <= i,
            rewrite_upto(tv, wv, gv, pv, i as int) == Some(
                RewriteState { out: out@, skip: skip_view(skip), depth: depth as int },
            ),
        decreases ts.len() - i,
    {
        let t = &ts[i];
        assert(tv[i as int] == t@);
        assert(named(ts@[i as int]@));
        assert(wv[i as int] == ws@[i as int]@);
        let ghost before = out@;
        if t.kind == TokenKind::Close {
            let d = if depth > 0 {
                depth - 1
            } else {
                0
            };
            match skip {
                Some(at) => {
                    if at == depth {
                        skip = None;
                    }
                },
                None => {
                    out.append(ws[i].as_str());
                },
            }
            depth = d;
        } else if t.kind == TokenKind::Open {
            let d = depth + 1;
            if skip.is_none() {
                let id = match attr(t.content.as_str(), t.name.as_str(), "id") {
                    Err(e) => {
                        proof {
                            lemma_rewrite_stays_none(tv, wv, gv, pv, i + 1, tv.len() as int);
                        }
                        return Err(e);
                    },
                    Ok(Some(v)) => v,
                    Ok(None) => String::new(),
                };
                assert(id_or_empty(t@) == Some(id@));
                if is_lender(gs, pairs, &id) {
                    skip = Some(d);
                } else {
                    match find_lender(gs, pairs, &id) {
                        Some(l) => {
                            let g = &gs[l];
                            assert(gv[l as int] == g@);
                            assert(tv[g.tag as int] == ts@[g.tag as int]@);
                            assert(named(ts@[g.tag as int]@));
                            let ks = match merged(t, &ts[g.tag]) {
                                Err(e) => {
                                    proof {
                                        lemma_rewrite_stays_none(tv, wv, gv, pv, i + 1, tv.len() as int);
                                    }
                                    return Err(e);
                                },
                                Ok(ks) => ks,
                            };
                            let tag = write_tag(t.name.as_str(), &ks, false);
                            out.append(tag.as_str());
                            // The stops go in first, and the own children of the borrower follow.
                            let children = body(ts, g);
                            out.append(children.as_str());
                        },
                        None => {
                            out.append(ws[i].as_str());
                        },
                    }
                }
            }
            depth = d;
        } else if t.kind == TokenKind::Empty {
            if skip.is_none() {
                let id = match attr(t.content.as_str(), t.name.as_str(), "id") {
                    Err(e) => {
                        proof {
                            lemma_rewrite_stays_none(tv, wv, gv, pv, i + 1, tv.len() as int);
                        }
                        return Err(e);
                    },
                    Ok(Some(v)) => v,
                    Ok(None) => String::new(),
                };
                assert(id_or_empty(t@) == Some(id@));
                // A lender holds stops, so it is never an empty element.
                match find_lender(gs, pairs, &id) {
                    Some(l) => {
                        let g = &gs[l];
                        assert(gv[l as int] == g@);
                        assert(tv[g.tag as int] == ts@[g.tag as int]@);
                        assert(named(ts@[g.tag as int]@));
                        let ks = match merged(t, &ts[g.tag]) {
                            Err(e) => {
                                proof {
                                    lemma_rewrite_stays_none(tv, wv, gv, pv, i + 1, tv.len() as int);
                                }
                                return Err(e);
                            },
                            Ok(ks) => ks,
                        };
                        let tag = write_tag(t.name.as_str(), &ks, false);
                        out.append(tag.as_str());
                        let children = body(ts, g);
                        out.append(children.as_str());
                        let end = write_end(t.name.as_str());
                        out.append(end.as_str());
                        assert(out@ =~= before + tag_text(t.name@, new_attrs_view(ks@), false)
                            + body_of(tv, gv[l as int]) + "</"@ + t.name@ + ">"@);
                    },
                    None => {
                        out.append(ws[i].as_str());
                    },
                }
            }
        } else {
            if skip.is_none() {
                out.append(ws[i].as_str());
            }
        }
        i += 1;
    }
    Ok(out)
}

/// One round: every pair that stands on its own is written as one gradient. `None` when there is no
/// such pair.
pub fn inline_once(src: &str) -> (r: Result<Option<String>, XmlError>)
    ensures
        match r {
            Ok(Some(out)) => spec_inline_once(src@) == Some(Some(out@)),
            Ok(None) => spec_inline_once(src@) == Some(None::<Seq<char>>),
            Err(_) => spec_inline_once(src@) is None,
        },
{
    let (ts, ws) = read(src)?;
    assert(strings_view(ws@) == ws@.map_values(|s: String| s@));
    proof {
        crate::xml::lemma_tokens_named(src@, ts@);
    }
    let (gs, refs) = scan(&ts)?;
    let pairs = pairs_of(&gs, &refs);
    if pairs.len() == 0 {
        return Ok(None);
    }
    let out = rewrite(&ts, &ws, &gs, &pairs)?;
    Ok(Some(out))
}

/// Write a gradient that only lends its stops into the gradient that borrows them.
///
/// A gradient inherits the stops and every attribute of the gradient its `href` names, so the pair
/// is one gradient written twice. The pair becomes one element, which saves the two tags and the
/// reference.
///
/// The move is only safe when nothing else names the lender: a second gradient would need the stops
/// copied, and a `fill` would lose its paint. A `<style>` or a `<script>` names an `id` in a way that
/// reading the attributes cannot follow, and such a document is left alone.
///
/// The two gradients need not be of the same kind, which editors often write. A gradient only
/// inherits the attributes that its own kind reads, so the move drops the coordinates of the other
/// kind, which the borrower would ignore anyway.
pub fn inline(src: &str, dynamic: bool) -> (r: Result<String, XmlError>)
    ensures
        match r {
            Ok(out) => spec_inline(src@, dynamic) == Some(out@),
            Err(_) => spec_inline(src@, dynamic) is None,
        },
{
    if dynamic {
        return Ok(src.to_owned());
    }
    let mut cur = src.to_owned();
    let mut k: usize = 0;
    while k < MAX_ROUNDS
        invariant
            k <= MAX_ROUNDS,
            !dynamic,
            inline_rounds(src@, MAX_ROUNDS as nat) == inline_rounds(cur@, (MAX_ROUNDS - k) as nat),
        decreases MAX_ROUNDS - k,
    {
        let ghost left = (MAX_ROUNDS - k) as nat;
        assert(left > 0);
        assert(inline_rounds(cur@, left) == match spec_inline_once(cur@) {
            None => None,
            Some(None) => Some(cur@),
            Some(Some(next)) => inline_rounds(next, (left - 1) as nat),
        });
        match inline_once(cur.as_str())? {
            Some(next) => {
                cur = next;
            },
            None => {
                return Ok(cur);
            },
        }
        k += 1;
    }
    Ok(cur)
}

} // verus!
