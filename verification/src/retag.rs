//! A pass that rewrites some tags of a document and leaves every other event as the writer writes
//! it: the tags are handed out with their attributes, the caller says what each one becomes, and
//! the document is written back.
//!
//! The passes whose new values are floating point (a resize, the fold of a gradient transform, the
//! rounding of opacities) compute those values beside the library; the reading and the writing of
//! the document are done here.

use vstd::prelude::*;

use crate::xml::{
    attributes, attrs_view, is_tag, lex, lemma_token_named, new_attrs_view, read, read_doc,
    tag_text, tokens_view, write_tag, xml_attributes, xml_tokens, Attr, AttrView, NewAttr,
    TokenKind, TokenView, XmlError,
};

verus! {

/// A start or empty-element tag, with the attributes the reader reads from it.
pub struct Tag {
    /// Whether it is an empty-element tag, `<path/>`.
    pub empty: bool,
    /// Its qualified name.
    pub name: String,
    /// Its attributes; `None` stands for one the reader could not read.
    pub attrs: Vec<Option<Attr>>,
}

/// A tag as plain values.
pub open spec fn tag_view(t: Tag) -> (bool, Seq<char>, Seq<Option<AttrView>>) {
    (t.empty, t.name@, attrs_view(t.attrs@))
}

/// The tags among the first `n` tokens, in order, each with its attributes.
pub open spec fn tags_upto(ts: Seq<TokenView>, n: int) -> Seq<(bool, Seq<char>, Seq<Option<AttrView>>)>
    decreases n,
{
    if n <= 0 {
        Seq::empty()
    } else if is_tag(ts[n - 1]) {
        tags_upto(ts, n - 1).push(
            (
                ts[n - 1].kind == TokenKind::Empty,
                ts[n - 1].name,
                xml_attributes(ts[n - 1].content, ts[n - 1].name),
            ),
        )
    } else {
        tags_upto(ts, n - 1)
    }
}

/// The tags of `src`, in document order; `None` when the reader refuses the document.
pub open spec fn spec_tags(src: Seq<char>) -> Option<Seq<(bool, Seq<char>, Seq<Option<AttrView>>)>> {
    match xml_tokens(src) {
        Some(ts) => Some(tags_upto(ts, ts.len() as int)),
        None => None,
    }
}

/// Every start and empty-element tag of `src`, in document order, with its attributes.
pub fn tags_of(src: &str) -> (r: Result<Vec<Tag>, XmlError>)
    ensures
        match r {
            Ok(v) => spec_tags(src@) == Some(v@.map_values(|t: Tag| tag_view(t))),
            Err(_) => spec_tags(src@) is None,
        },
{
    let ts = lex(src)?;
    let ghost tv = tokens_view(ts@);
    let mut out: Vec<Tag> = Vec::new();
    let mut i: usize = 0;
    while i < ts.len()
        invariant
            tv == tokens_view(ts@),
            xml_tokens(src@) == Some(tv),
            i <= ts.len(),
            out@.map_values(|t: Tag| tag_view(t)) == tags_upto(tv, i as int),
        decreases ts.len() - i,
    {
        let t = &ts[i];
        assert(tv[i as int] == t@);
        proof {
            lemma_token_named(src@, i as int);
        }
        if t.kind == TokenKind::Open || t.kind == TokenKind::Empty {
            let attrs = attributes(t.content.as_str(), t.name.as_str());
            let ghost before = out@;
            out.push(Tag { empty: t.kind == TokenKind::Empty, name: t.name.clone(), attrs });
            assert(out@.map_values(|t: Tag| tag_view(t)) =~= before.map_values(|t: Tag| tag_view(t)).push(
                tag_view(out@[before.len() as int]),
            ));
        }
        i += 1;
    }
    Ok(out)
}

/// What each tag becomes, as plain values: `None` to keep it, or the attributes to write it with.
pub open spec fn replacements_view(v: Seq<Option<Vec<NewAttr>>>) -> Seq<Option<Seq<(Seq<char>, Seq<char>, bool)>>> {
    v.map_values(
        |o: Option<Vec<NewAttr>>|
            match o {
                Some(a) => Some(new_attrs_view(a@)),
                None => None,
            },
    )
}

/// The text written for the first `n` tokens, and how many tags they hold: tag `k` as its name
/// with the attributes of `reps[k]` when that is given, and every other token as the writer writes
/// it.
pub open spec fn retag_upto(
    ts: Seq<TokenView>,
    ws: Seq<Seq<char>>,
    reps: Seq<Option<Seq<(Seq<char>, Seq<char>, bool)>>>,
    n: int,
) -> (Seq<char>, int)
    decreases n,
{
    if n <= 0 {
        (Seq::empty(), 0)
    } else {
        let (text, k) = retag_upto(ts, ws, reps, n - 1);
        let t = ts[n - 1];
        if is_tag(t) {
            let piece = if 0 <= k < reps.len() && reps[k] is Some {
                tag_text(t.name, reps[k].unwrap(), t.kind == TokenKind::Empty)
            } else {
                ws[n - 1]
            };
            (text + piece, k + 1)
        } else {
            (text + ws[n - 1], k)
        }
    }
}

/// `src` with tag `k` written anew wherever `reps[k]` is given, and everything else as the writer
/// writes it; `None` when the reader refuses the document.
pub open spec fn spec_retag(src: Seq<char>, reps: Seq<Option<Seq<(Seq<char>, Seq<char>, bool)>>>) -> Option<Seq<char>> {
    match read_doc(src) {
        Some((ts, ws)) => Some(retag_upto(ts, ws, reps, ts.len() as int).0),
        None => None,
    }
}

/// Write `src` back with tag `k`, counting the start and empty-element tags in document order,
/// written as its own name with the attributes `reps[k]` where that is given; every other event,
/// and every tag without a replacement, is written as the writer writes it.
pub fn retag(src: &str, reps: &Vec<Option<Vec<NewAttr>>>) -> (r: Result<String, XmlError>)
    ensures
        match r {
            Ok(out) => spec_retag(src@, replacements_view(reps@)) == Some(out@),
            Err(_) => spec_retag(src@, replacements_view(reps@)) is None,
        },
{
    let (ts, ws) = read(src)?;
    let ghost tv = tokens_view(ts@);
    let ghost wv = ws@.map_values(|s: String| s@);
    let ghost rv = replacements_view(reps@);
    let mut out = String::new();
    let mut k: usize = 0;
    let mut i: usize = 0;
    while i < ts.len()
        invariant
            ts.len() == ws.len(),
            tv == tokens_view(ts@),
            wv == ws@.map_values(|s: String| s@),
            rv == replacements_view(reps@),
            i <= ts.len(),
            k <= i,
            retag_upto(tv, wv, rv, i as int) == (out@, k as int),
        decreases ts.len() - i,
    {
        let t = &ts[i];
        assert(tv[i as int] == t@);
        assert(wv[i as int] == ws@[i as int]@);
        if t.kind == TokenKind::Open || t.kind == TokenKind::Empty {
            if k < reps.len() && reps[k].is_some() {
                match &reps[k] {
                    Some(attrs) => {
                        assert(rv[k as int] == Some(new_attrs_view(attrs@)));
                        let tag = write_tag(t.name.as_str(), attrs, t.kind == TokenKind::Empty);
                        out.append(tag.as_str());
                    },
                    None => {},
                }
            } else {
                out.append(ws[i].as_str());
            }
            k += 1;
        } else {
            out.append(ws[i].as_str());
        }
        i += 1;
    }
    Ok(out)
}

} // verus!
