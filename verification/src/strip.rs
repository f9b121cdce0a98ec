//! Remove every element of one kind, with everything inside it.

use vstd::prelude::*;
use vstd::string::StringExecFns;

use crate::text::{local_name, local_part, str_eq};
use crate::xml::{read, read_doc, TokenKind, TokenView, XmlError};

verus! {

/// The rest of a result, after `out` was written and `removed` was seen.
pub open spec fn after(out: Seq<char>, removed: bool, rest: Option<(Seq<char>, bool)>) -> Option<(Seq<char>, bool)> {
    match rest {
        Some((s, b)) => Some((out + s, removed || b)),
        None => None,
    }
}

/// What is written from token `i` on when every element whose local name is `local` goes.
///
/// `skip` holds the name of the element being skipped and how deep inside it the reader is: a
/// start tag of the same name goes deeper, and the end tag of that name at depth 0 closes it, as
/// `Reader::read_to_end` counts. An element that is never closed makes the whole result `None`.
pub open spec fn strip_from(
    ts: Seq<TokenView>,
    ws: Seq<Seq<char>>,
    local: Seq<char>,
    i: int,
    skip: Option<(Seq<char>, int)>,
) -> Option<(Seq<char>, bool)>
    decreases ts.len() - i,
{
    if i < 0 || i >= ts.len() {
        if skip is Some {
            None
        } else {
            Some((Seq::empty(), false))
        }
    } else {
        let t = ts[i];
        match skip {
            Some((name, depth)) => {
                if t.kind == TokenKind::Open && t.name == name {
                    strip_from(ts, ws, local, i + 1, Some((name, depth + 1)))
                } else if t.kind == TokenKind::Close && t.name == name {
                    if depth <= 0 {
                        strip_from(ts, ws, local, i + 1, None)
                    } else {
                        strip_from(ts, ws, local, i + 1, Some((name, depth - 1)))
                    }
                } else {
                    strip_from(ts, ws, local, i + 1, skip)
                }
            },
            None => {
                if t.kind == TokenKind::Open && local_part(t.name) == local {
                    after(Seq::empty(), true, strip_from(ts, ws, local, i + 1, Some((t.name, 0))))
                } else if t.kind == TokenKind::Empty && local_part(t.name) == local {
                    after(Seq::empty(), true, strip_from(ts, ws, local, i + 1, None))
                } else {
                    after(ws[i], false, strip_from(ts, ws, local, i + 1, None))
                }
            },
        }
    }
}

/// The document without its elements named `local`, and whether there was any; `None` when the
/// reader refuses the document or an element named `local` is never closed.
pub open spec fn stripped(src: Seq<char>, local: Seq<char>) -> Option<(Seq<char>, bool)> {
    match read_doc(src) {
        Some((ts, ws)) => strip_from(ts, ws, local, 0, None),
        None => None,
    }
}

/// What the writer writes for the tokens from `i` on, one after another.
pub open spec fn written_from(ws: Seq<Seq<char>>, i: int) -> Seq<char>
    decreases ws.len() - i,
{
    if i < 0 || i >= ws.len() {
        Seq::empty()
    } else {
        ws[i] + written_from(ws, i + 1)
    }
}

/// Whether a tag among the tokens from `i` on opens an element whose local name is `local`.
pub open spec fn has_element_from(ts: Seq<TokenView>, local: Seq<char>, i: int) -> bool {
    exists|k: int|
        i <= k < ts.len() && (ts[k].kind == TokenKind::Open || ts[k].kind == TokenKind::Empty)
            && #[trigger] local_part(ts[k].name) == local
}

/// From a point where nothing is being skipped: when no element named `local` comes, everything
/// is written as it was read and nothing is removed; when one comes, the strip reports it.
proof fn lemma_strip_from(ts: Seq<TokenView>, ws: Seq<Seq<char>>, local: Seq<char>, i: int)
    requires
        ts.len() == ws.len(),
        0 <= i <= ts.len(),
    ensures
        !has_element_from(ts, local, i) ==> strip_from(ts, ws, local, i, None) == Some(
            (written_from(ws, i), false),
        ),
        strip_from(ts, ws, local, i, None) matches Some((_, removed)) ==> (removed
            <==> has_element_from(ts, local, i)),
    decreases ts.len() - i,
{
    if i < ts.len() {
        lemma_strip_from(ts, ws, local, i + 1);
        let t = ts[i];
        if (t.kind == TokenKind::Open || t.kind == TokenKind::Empty) && local_part(t.name) == local {
            assert(has_element_from(ts, local, i));
        } else {
            assert(has_element_from(ts, local, i) == has_element_from(ts, local, i + 1)) by {
                if has_element_from(ts, local, i) {
                    let k = choose|k: int|
                        i <= k < ts.len() && (ts[k].kind == TokenKind::Open || ts[k].kind
                            == TokenKind::Empty) && #[trigger] local_part(ts[k].name) == local;
                    assert(k != i);
                }
            }
            if !has_element_from(ts, local, i) {
                assert(written_from(ws, i) == ws[i] + written_from(ws, i + 1));
            }
        }
    } else {
        assert(!has_element_from(ts, local, i));
    }
}

/// A strip removes something exactly when the document holds an element named `local`, and a
/// document that holds none comes back as the writer writes each of its tokens, nothing left out.
pub proof fn lemma_strip_removes_exactly_the_named(src: Seq<char>, local: Seq<char>)
    requires
        read_doc(src) is Some,
    ensures
        ({
            let (ts, ws) = read_doc(src).unwrap();
            &&& stripped(src, local) matches Some((_, removed)) ==> (removed <==> has_element_from(
                ts,
                local,
                0,
            ))
            &&& !has_element_from(ts, local, 0) ==> stripped(src, local) == Some(
                (written_from(ws, 0), false),
            )
        }),
{
    let (ts, ws) = read_doc(src).unwrap();
    lemma_strip_from(ts, ws, local, 0);
}

/// What the writer writes for the tokens at the indices `ks`, one after another.
pub open spec fn written_at(ws: Seq<Seq<char>>, ks: Seq<int>) -> Seq<char>
    decreases ks.len(),
{
    if ks.len() == 0 {
        Seq::empty()
    } else {
        ws[ks[0]] + written_at(ws, ks.skip(1))
    }
}

/// Whether token `k` is a start or empty-element tag whose local name is `local`.
pub open spec fn named_tag(ts: Seq<TokenView>, local: Seq<char>, k: int) -> bool {
    (ts[k].kind == TokenKind::Open || ts[k].kind == TokenKind::Empty) && local_part(ts[k].name)
        == local
}

/// Whether `ks` are indices of tokens from `i` on, in order, none of them a tag named `local`.
pub open spec fn kept_indices(ts: Seq<TokenView>, local: Seq<char>, i: int, ks: Seq<int>) -> bool {
    &&& forall|j: int| 0 <= j < ks.len() ==> i <= #[trigger] ks[j] < ts.len()
    &&& forall|j: int| 0 <= j < ks.len() ==> !named_tag(ts, local, #[trigger] ks[j])
    &&& forall|a: int, b: int| 0 <= a < b < ks.len() ==> #[trigger] ks[a] < #[trigger] ks[b]
}

/// From token `i` on, what a strip writes is the writer's text of some tokens, in order, none of
/// which is a tag named `local`.
proof fn lemma_strip_kept(
    ts: Seq<TokenView>,
    ws: Seq<Seq<char>>,
    local: Seq<char>,
    i: int,
    skip: Option<(Seq<char>, int)>,
) -> (ks: Seq<int>)
    requires
        ts.len() == ws.len(),
        0 <= i <= ts.len(),
        strip_from(ts, ws, local, i, skip) is Some,
    ensures
        kept_indices(ts, local, i, ks),
        strip_from(ts, ws, local, i, skip).unwrap().0 == written_at(ws, ks),
    decreases ts.len() - i,
{
    if i >= ts.len() {
        Seq::empty()
    } else {
        let t = ts[i];
        match skip {
            Some((name, depth)) => {
                let next = if t.kind == TokenKind::Open && t.name == name {
                    Some((name, depth + 1))
                } else if t.kind == TokenKind::Close && t.name == name {
                    if depth <= 0 {
                        None
                    } else {
                        Some((name, depth - 1))
                    }
                } else {
                    skip
                };
                lemma_strip_kept(ts, ws, local, i + 1, next)
            },
            None => {
                if t.kind == TokenKind::Open && local_part(t.name) == local {
                    let ks = lemma_strip_kept(ts, ws, local, i + 1, Some((t.name, 0)));
                    assert(strip_from(ts, ws, local, i, skip).unwrap().0 == Seq::<char>::empty() + strip_from(
                        ts,
                        ws,
                        local,
                        i + 1,
                        Some((t.name, 0)),
                    ).unwrap().0);
                    assert(Seq::<char>::empty() + written_at(ws, ks) =~= written_at(ws, ks));
                    ks
                } else if t.kind == TokenKind::Empty && local_part(t.name) == local {
                    let ks = lemma_strip_kept(ts, ws, local, i + 1, None);
                    assert(Seq::<char>::empty() + written_at(ws, ks) =~= written_at(ws, ks));
                    ks
                } else {
                    let rest = lemma_strip_kept(ts, ws, local, i + 1, None);
                    let ks = seq![i].add(rest);
                    assert(ks.skip(1) =~= rest);
                    assert(!named_tag(ts, local, i));
                    assert forall|j: int| 0 <= j < ks.len() implies !named_tag(ts, local, #[trigger] ks[j]) by {
                        if j > 0 {
                            assert(ks[j] == rest[j - 1]);
                        }
                    }
                    assert forall|j: int| 0 <= j < ks.len() implies i <= #[trigger] ks[j] < ts.len() by {
                        if j > 0 {
                            assert(ks[j] == rest[j - 1]);
                        }
                    }
                    assert forall|a: int, b: int| 0 <= a < b < ks.len() implies #[trigger] ks[a]
                        < #[trigger] ks[b] by {
                        assert(ks[b] == rest[b - 1]);
                        if a > 0 {
                            assert(ks[a] == rest[a - 1]);
                        }
                    }
                    ks
                }
            },
        }
    }
}

/// A strip writes no tag of an element named `local`: its output is the writer's text of tokens of
/// the document, in their order, none of which opens such an element.
pub proof fn lemma_strip_keeps_no_named_tag(src: Seq<char>, local: Seq<char>) -> (ks: Seq<int>)
    requires
        stripped(src, local) is Some,
    ensures
        ({
            let (ts, ws) = read_doc(src).unwrap();
            &&& kept_indices(ts, local, 0, ks)
            &&& stripped(src, local).unwrap().0 == written_at(ws, ks)
        }),
{
    let (ts, ws) = read_doc(src).unwrap();
    lemma_strip_kept(ts, ws, local, 0, None)
}

/// While an element named `name` is being skipped, a document that holds no end tag of that name
/// from `j` on gives no result.
proof fn lemma_skip_never_ends(
    ts: Seq<TokenView>,
    ws: Seq<Seq<char>>,
    local: Seq<char>,
    j: int,
    name: Seq<char>,
    depth: int,
)
    requires
        0 <= j <= ts.len(),
        forall|k: int| j <= k < ts.len() ==> !(ts[k].kind == TokenKind::Close && #[trigger] ts[k].name == name),
    ensures
        strip_from(ts, ws, local, j, Some((name, depth))) is None,
    decreases ts.len() - j,
{
    if j < ts.len() {
        let t = ts[j];
        assert(!(t.kind == TokenKind::Close && t.name == name));
        if t.kind == TokenKind::Open && t.name == name {
            lemma_skip_never_ends(ts, ws, local, j + 1, name, depth + 1);
        } else {
            lemma_skip_never_ends(ts, ws, local, j + 1, name, depth);
        }
    }
}

proof fn lemma_unclosed_from(ts: Seq<TokenView>, ws: Seq<Seq<char>>, local: Seq<char>, i: int, k: int)
    requires
        0 <= i <= k < ts.len(),
        forall|m: int| i <= m < k ==> !named_tag(ts, local, m),
        ts[k].kind == TokenKind::Open,
        local_part(ts[k].name) == local,
        forall|m: int|
            k < m < ts.len() ==> !(ts[m].kind == TokenKind::Close && #[trigger] ts[m].name == ts[k].name),
    ensures
        strip_from(ts, ws, local, i, None) is None,
    decreases k - i,
{
    if i < k {
        assert(!named_tag(ts, local, i));
        lemma_unclosed_from(ts, ws, local, i + 1, k);
    } else {
        lemma_skip_never_ends(ts, ws, local, k + 1, ts[k].name, 0);
    }
}

/// An element named `local` that is never closed makes the strip fail: when the first tag of
/// that name in the document is a start tag and no end tag of its name follows it, the result is
/// `None`, and [`strip_elements`] returns an error.
pub proof fn lemma_unclosed_element_is_refused(src: Seq<char>, local: Seq<char>, k: int)
    requires
        read_doc(src) matches Some((ts, _)) && 0 <= k < ts.len() && ts[k].kind == TokenKind::Open
            && local_part(ts[k].name) == local && (forall|m: int| 0 <= m < k ==> !named_tag(ts, local, m))
            && (forall|m: int|
            k < m < ts.len() ==> !(ts[m].kind == TokenKind::Close && #[trigger] ts[m].name == ts[k].name)),
    ensures
        stripped(src, local) is None,
{
    let (ts, ws) = read_doc(src).unwrap();
    lemma_unclosed_from(ts, ws, local, 0, k);
}

/// Strip every element whose local name is `local` from `src`, subtree and all.
pub fn strip_elements(src: &str, local: &str) -> (r: Result<(String, bool), XmlError>)
    ensures
        match r {
            Ok((out, removed)) => stripped(src@, local@) == Some((out@, removed)),
            Err(_) => stripped(src@, local@) is None,
        },
{
    let (ts, ws) = read(src)?;
    let ghost tv = crate::xml::tokens_view(ts@);
    let ghost wv = ws@.map_values(|s: String| s@);
    let want = local.to_owned();
    let mut out = String::new();
    let mut removed = false;
    let mut skip: Option<(String, usize)> = None;
    let mut i: usize = 0;
    while i < ts.len()
        invariant
            ts.len() == ws.len(),
            tv == crate::xml::tokens_view(ts@),
            wv == ws@.map_values(|s: String| s@),
            want@ == local@,
            i <= ts.len(),
            skip matches Some((_, d)) ==> d <= i,
            strip_from(tv, wv, local@, 0, None) == after(
                out@,
                removed,
                strip_from(tv, wv, local@, i as int, skip_view(skip)),
            ),
        decreases ts.len() - i,
    {
        let t = &ts[i];
        assert(tv[i as int] == t@);
        let ghost before = strip_from(tv, wv, local@, i as int, skip_view(skip));
        let next: Option<(String, usize)> = match &skip {
            Some((name, depth)) => {
                if t.kind == TokenKind::Open && t.name == *name {
                    Some((name.clone(), *depth + 1))
                } else if t.kind == TokenKind::Close && t.name == *name {
                    if *depth == 0 {
                        None
                    } else {
                        Some((name.clone(), *depth - 1))
                    }
                } else {
                    Some((name.clone(), *depth))
                }
            },
            None => {
                let own = local_name(t.name.as_str());
                let named = str_eq(own.as_str(), want.as_str());
                if t.kind == TokenKind::Open && named {
                    removed = true;
                    Some((t.name.clone(), 0))
                } else if t.kind == TokenKind::Empty && named {
                    removed = true;
                    None
                } else {
                    assert(wv[i as int] == ws@[i as int]@);
                    out.append(ws[i].as_str());
                    None
                }
            },
        };
        skip = next;
        i += 1;
    }
    match skip {
        Some(_) => Err(XmlError { message: unterminated(local) }),
        None => {
            assert(out@ + Seq::<char>::empty() =~= out@);
            Ok((out, removed))
        },
    }
}

/// The name being skipped and the depth, as plain values.
pub open spec fn skip_view(skip: Option<(String, usize)>) -> Option<(Seq<char>, int)> {
    match skip {
        Some((n, d)) => Some((n@, d as int)),
        None => None,
    }
}

/// The message for an element that is never closed.
fn unterminated(local: &str) -> (r: String)
    ensures
        r@ == "unterminated <"@ + local@ + "> element"@,
{
    let mut m = "unterminated <".to_owned();
    m.append(local);
    m.append("> element");
    m
}

} // verus!
