//! Drop the `id` of the root element when nothing names it.
//!
//! An editor writes an `id` on the `<svg>` element itself, and `cleanup_ids` keeps that one. It
//! costs more than its own bytes: `remove_useless_stroke_and_fill` stops at an element that carries
//! an `id`, and the root carries every other element, so one dead `id` switches the job off for the
//! whole document.

use vstd::prelude::*;
use vstd::string::StringExecFns;

use crate::text::{char_alphanumeric, chars_of, is_alphanumeric, occurs_at, str_eq};
use crate::xml::{
    attr, attr_among, attributes, attrs_view, bad_attribute, first_tag, is_tag, new_attrs_view, read, read_doc, tag_text,
    tokens_view, write_tag, xml_attributes, xml_first_tag, AttrView, NewAttr, TokenKind,
    TokenView, XmlError,
};

verus! {

/// The `id` of the first element, which is the root; `None` when the reader fails first.
pub open spec fn spec_root_id(src: Seq<char>) -> Option<Option<Seq<char>>> {
    match xml_first_tag(src) {
        None => None,
        Some(None) => Some(None),
        Some(Some(t)) => attr_among(xml_attributes(t.content, t.name), "id"@, 0),
    }
}

/// Whether a character, if there is one, goes on a name: what an `id` accepts.
pub open spec fn name_char(c: Option<char>) -> bool {
    match c {
        Some(c) => char_alphanumeric(c) || c == '-' || c == '_',
        None => false,
    }
}

/// How many whole-name mentions of `id` the scan finds in `s` from position `p` on, when the text
/// it looks back into starts at `start`.
///
/// The scan takes the first occurrence from `p` on and goes on after its end, so occurrences never
/// overlap; the character before an occurrence is only looked at when it lies after `start`, the
/// end of the occurrence before.
pub open spec fn mentions_scan(s: Seq<char>, id: Seq<char>, start: int, p: int) -> nat
    decreases s.len() - p,
{
    if id.len() == 0 || p < 0 || p + id.len() > s.len() {
        0
    } else if s.subrange(p, p + id.len()) == id {
        let before = if p > start {
            Some(s[p - 1])
        } else {
            None
        };
        let e = p + id.len();
        let after = if e < s.len() {
            Some(s[e])
        } else {
            None
        };
        (if !name_char(before) && !name_char(after) {
            1nat
        } else {
            0nat
        }) + mentions_scan(s, id, e, e)
    } else {
        mentions_scan(s, id, start, p + 1)
    }
}

/// The first `n` attributes of the root as they are written again: every one but `id`, each with
/// its normalized value escaped again.
pub open spec fn without_id_attrs(attrs: Seq<Option<AttrView>>, n: int) -> Option<
    Seq<(Seq<char>, Seq<char>, bool)>,
>
    decreases n,
{
    if n <= 0 {
        Some(Seq::empty())
    } else {
        match without_id_attrs(attrs, n - 1) {
            None => None,
            Some(ks) => match attrs[n - 1] {
                None => None,
                Some(a) => if a.key == "id"@ {
                    Some(ks)
                } else {
                    match a.value {
                        Some(v) => Some(ks.push((a.key, v, true))),
                        None => None,
                    }
                },
            },
        }
    }
}

/// What is written from token `i` on: the first tag, unless `seen` says it came already, rebuilt
/// without its `id`, and everything else as it was read.
pub open spec fn rooted_from(ts: Seq<TokenView>, ws: Seq<Seq<char>>, i: int, seen: bool) -> Option<
    Seq<char>,
>
    decreases ts.len() - i,
{
    if i < 0 || i >= ts.len() {
        Some(Seq::empty())
    } else if !seen && is_tag(ts[i]) {
        let attrs = xml_attributes(ts[i].content, ts[i].name);
        match (without_id_attrs(attrs, attrs.len() as int), rooted_from(ts, ws, i + 1, true)) {
            (Some(ks), Some(rest)) => Some(
                tag_text(ts[i].name, ks, ts[i].kind == TokenKind::Empty) + rest,
            ),
            _ => None,
        }
    } else {
        match rooted_from(ts, ws, i + 1, seen) {
            Some(rest) => Some(ws[i] + rest),
            None => None,
        }
    }
}

/// `rest` behind the text `out` that is already written.
pub open spec fn behind(out: Seq<char>, rest: Option<Seq<char>>) -> Option<Seq<char>> {
    match rest {
        Some(r) => Some(out + r),
        None => None,
    }
}

/// `src` without the `id` of its root when nothing else names it; `None` when the reader refuses
/// the document or an attribute in it.
///
/// A `dynamic` document keeps it, and so does a document whose root `id` is empty, which every
/// text mentions.
pub open spec fn spec_strip_dead_root_id(src: Seq<char>, dynamic: bool) -> Option<Seq<char>> {
    if dynamic {
        Some(src)
    } else {
        match spec_root_id(src) {
            None => None,
            Some(None) => Some(src),
            Some(Some(id)) => if id.len() == 0 || mentions_scan(src, id, 0, 0) > 1 {
                Some(src)
            } else {
                match read_doc(src) {
                    Some((ts, ws)) => rooted_from(ts, ws, 0, false),
                    None => None,
                }
            },
        }
    }
}

/// What the writer writes for the tokens from `i` up to `r`, one after another.
pub open spec fn written_between(ws: Seq<Seq<char>>, i: int, r: int) -> Seq<char>
    decreases r - i,
{
    if i >= r {
        Seq::empty()
    } else {
        ws[i] + written_between(ws, i + 1, r)
    }
}

proof fn lemma_rooted_seen(ts: Seq<TokenView>, ws: Seq<Seq<char>>, i: int)
    requires
        ts.len() == ws.len(),
        0 <= i <= ts.len(),
    ensures
        rooted_from(ts, ws, i, true) == Some(crate::strip::written_from(ws, i)),
    decreases ts.len() - i,
{
    if i < ts.len() {
        lemma_rooted_seen(ts, ws, i + 1);
    }
}

proof fn lemma_rooted_before(ts: Seq<TokenView>, ws: Seq<Seq<char>>, i: int, r: int)
    requires
        ts.len() == ws.len(),
        0 <= i <= r < ts.len(),
        is_tag(ts[r]),
        forall|m: int| i <= m < r ==> !is_tag(#[trigger] ts[m]),
    ensures
        rooted_from(ts, ws, i, false) == ({
            let attrs = xml_attributes(ts[r].content, ts[r].name);
            match without_id_attrs(attrs, attrs.len() as int) {
                Some(ks) => Some(
                    written_between(ws, i, r) + tag_text(
                        ts[r].name,
                        ks,
                        ts[r].kind == TokenKind::Empty,
                    ) + crate::strip::written_from(ws, r + 1),
                ),
                None => None::<Seq<char>>,
            }
        }),
    decreases r - i,
{
    lemma_rooted_seen(ts, ws, r + 1);
    if i < r {
        assert(!is_tag(ts[i]));
        lemma_rooted_before(ts, ws, i + 1, r);
        let attrs = xml_attributes(ts[r].content, ts[r].name);
        if let Some(ks) = without_id_attrs(attrs, attrs.len() as int) {
            let tag = tag_text(ts[r].name, ks, ts[r].kind == TokenKind::Empty);
            let rest = crate::strip::written_from(ws, r + 1);
            assert(ws[i] + (written_between(ws, i + 1, r) + tag + rest) =~= written_between(ws, i, r)
                + tag + rest);
        }
    } else {
        let attrs = xml_attributes(ts[r].content, ts[r].name);
        if let Some(ks) = without_id_attrs(attrs, attrs.len() as int) {
            let tag = tag_text(ts[r].name, ks, ts[r].kind == TokenKind::Empty);
            assert(Seq::<char>::empty() + tag + crate::strip::written_from(ws, r + 1) =~= tag
                + crate::strip::written_from(ws, r + 1));
        }
    }
}

/// When the root `id` goes, and when it stays.
///
/// It stays, and the document comes back as it was, when the document is `dynamic`, when its root
/// has no `id`, or when that `id` is empty or named more than once as a whole name (its own
/// declaration is one). Otherwise the document comes back with every token as the writer writes
/// it, but for the root tag, which is written anew with its other attributes and no `id`.
pub proof fn lemma_dead_root_id(src: Seq<char>, dynamic: bool, r: int)
    requires
        read_doc(src) matches Some((ts, _)) && 0 <= r < ts.len() && is_tag(ts[r]) && forall|m: int|
            0 <= m < r ==> !is_tag(#[trigger] ts[m]),
    ensures
        ({
            let (ts, ws) = read_doc(src).unwrap();
            let kept = dynamic || spec_root_id(src) == Some(None::<Seq<char>>) || (spec_root_id(src) matches Some(Some(id)) && (id.len() == 0 || mentions_scan(src, id, 0, 0) > 1));
            let attrs = xml_attributes(ts[r].content, ts[r].name);
            &&& kept ==> spec_strip_dead_root_id(src, dynamic) == Some(src)
            &&& !kept && spec_root_id(src) is Some ==> spec_strip_dead_root_id(src, dynamic) == match without_id_attrs(attrs, attrs.len() as int) {
                Some(ks) => Some(
                    written_between(ws, 0, r) + tag_text(ts[r].name, ks, ts[r].kind == TokenKind::Empty)
                        + crate::strip::written_from(ws, r + 1),
                ),
                None => None::<Seq<char>>,
            }
        }),
{
    let (ts, ws) = read_doc(src).unwrap();
    lemma_rooted_before(ts, ws, 0, r);
}

/// Whether `id` stands in `s` at `q` as a whole name: no name character touches it on either side.
pub open spec fn whole_at(s: Seq<char>, id: Seq<char>, q: int) -> bool {
    &&& 0 <= q
    &&& q + id.len() <= s.len()
    &&& s.subrange(q, q + id.len()) == id
    &&& (q == 0 || !name_char(Some(s[q - 1])))
    &&& (q + id.len() == s.len() || !name_char(Some(s[q + id.len()])))
}

/// The scan from `p` finds a whole name at `q` from `p` on: an earlier occurrence that it takes
/// would touch it with a name character.
proof fn lemma_scan_finds(s: Seq<char>, id: Seq<char>, start: int, p: int, q: int)
    requires
        id.len() > 0,
        forall|j: int| 0 <= j < id.len() ==> name_char(Some(#[trigger] id[j])),
        0 <= start <= p <= q,
        whole_at(s, id, q),
    ensures
        mentions_scan(s, id, start, p) >= 1,
    decreases s.len() - p,
{
    let n = id.len() as int;
    if s.subrange(p, p + n) == id {
        if p < q {
            if p + n > q {
                assert(s[q - 1] == s.subrange(p, p + n)[q - 1 - p]);
                assert(name_char(Some(id[q - 1 - p])));
            } else {
                lemma_scan_finds(s, id, p + n, p + n, q);
            }
        } else {
            assert(p == q);
        }
    } else {
        assert(p != q);
        lemma_scan_finds(s, id, start, p + 1, q);
    }
}

/// The scan from `p` finds two whole names that do not overlap, at `q` and after it.
proof fn lemma_scan_finds_two(s: Seq<char>, id: Seq<char>, start: int, p: int, q: int, r: int)
    requires
        id.len() > 0,
        forall|j: int| 0 <= j < id.len() ==> name_char(Some(#[trigger] id[j])),
        0 <= start <= p <= q,
        q + id.len() <= r,
        whole_at(s, id, q),
        whole_at(s, id, r),
    ensures
        mentions_scan(s, id, start, p) >= 2,
    decreases s.len() - p,
{
    let n = id.len() as int;
    if s.subrange(p, p + n) == id {
        if p < q {
            if p + n > q {
                assert(s[q - 1] == s.subrange(p, p + n)[q - 1 - p]);
                assert(name_char(Some(id[q - 1 - p])));
            } else {
                lemma_scan_finds_two(s, id, p + n, p + n, q, r);
            }
        } else {
            lemma_scan_finds(s, id, p + n, p + n, r);
        }
    } else {
        assert(p != q);
        lemma_scan_finds_two(s, id, start, p + 1, q, r);
    }
}

/// An `id` made of name characters that the document names twice as a whole name stays: its
/// declaration on the root is one of them, so another text names it, and the root keeps it.
pub proof fn lemma_named_root_id_stays(src: Seq<char>, q: int, r: int)
    requires
        spec_root_id(src) matches Some(Some(id)) && forall|j: int|
            0 <= j < id.len() ==> name_char(Some(#[trigger] id[j])),
        q + spec_root_id(src).unwrap().unwrap().len() <= r,
        whole_at(src, spec_root_id(src).unwrap().unwrap(), q),
        whole_at(src, spec_root_id(src).unwrap().unwrap(), r),
    ensures
        spec_strip_dead_root_id(src, false) == Some(src),
{
    let id = spec_root_id(src).unwrap().unwrap();
    if id.len() > 0 {
        lemma_scan_finds_two(src, id, 0, 0, q, r);
    }
}

/// Remove the `id` of the root element when the document does not name it.
///
/// `dynamic` says the document has a `<style>` or a `<script>`, which can name an `id` in a way
/// this scan cannot follow. The `id` then stays.
pub fn strip_dead_root_id(src: &str, dynamic: bool) -> (r: Result<String, XmlError>)
    ensures
        match r {
            Ok(out) => spec_strip_dead_root_id(src@, dynamic) == Some(out@),
            Err(_) => spec_strip_dead_root_id(src@, dynamic) is None,
        },
{
    if dynamic {
        return Ok(src.to_owned());
    }
    let id = match root_id(src)? {
        None => {
            return Ok(src.to_owned());
        },
        Some(id) => id,
    };
    // The declaration itself is one mention, and anything more is a use.
    if id.as_str().unicode_len() == 0 || mentions(src, id.as_str()) > 1 {
        return Ok(src.to_owned());
    }
    let (ts, ws) = read(src)?;
    let ghost tv = tokens_view(ts@);
    let ghost wv = ws@.map_values(|s: String| s@);
    let mut out = String::new();
    let mut root_seen = false;
    let mut i: usize = 0;
    while i < ts.len()
        invariant
            ts.len() == ws.len(),
            tv == tokens_view(ts@),
            wv == ws@.map_values(|s: String| s@),
            tv.len() == ts.len(),
            read_doc(src@) == Some((tv, wv)),
            spec_root_id(src@) == Some(Some(id@)),
            id@.len() > 0,
            mentions_scan(src@, id@, 0, 0) <= 1,
            !dynamic,
            i <= ts.len(),
            rooted_from(tv, wv, 0, false) == behind(out@, rooted_from(tv, wv, i as int, root_seen)),
        decreases ts.len() - i,
    {
        let t = &ts[i];
        assert(tv[i as int] == t@);
        proof {
            crate::xml::lemma_token_named(src@, i as int);
        }
        let is_root = !root_seen && (t.kind == TokenKind::Open || t.kind == TokenKind::Empty);
        if is_root {
            match without_id(t.content.as_str(), t.name.as_str()) {
                None => {
                    assert(rooted_from(tv, wv, i as int, root_seen) is None);
                    return Err(bad_attribute());
                },
                Some(kept) => {
                    let tag = write_tag(t.name.as_str(), &kept, t.kind == TokenKind::Empty);
                    let ghost before = out@;
                    out.append(tag.as_str());
                    assert(behind(before, rooted_from(tv, wv, i as int, root_seen)) == behind(
                        out@,
                        rooted_from(tv, wv, i + 1, true),
                    )) by {
                        match rooted_from(tv, wv, i + 1, true) {
                            Some(rest) => {
                                assert(before + (tag@ + rest) =~= out@ + rest);
                            },
                            None => {},
                        }
                    }
                    root_seen = true;
                },
            }
        } else {
            assert(wv[i as int] == ws@[i as int]@);
            let ghost before = out@;
            out.append(ws[i].as_str());
            assert(behind(before, rooted_from(tv, wv, i as int, root_seen)) == behind(
                out@,
                rooted_from(tv, wv, i + 1, root_seen),
            )) by {
                match rooted_from(tv, wv, i + 1, root_seen) {
                    Some(rest) => {
                        assert(before + (wv[i as int] + rest) =~= out@ + rest);
                    },
                    None => {},
                }
            }
        }
        i += 1;
    }
    assert(out@ + Seq::<char>::empty() =~= out@);
    Ok(out)
}

/// The `id` of the first element, which is the root.
fn root_id(src: &str) -> (r: Result<Option<String>, XmlError>)
    ensures
        match r {
            Ok(Some(id)) => spec_root_id(src@) == Some(Some(id@)),
            Ok(None) => spec_root_id(src@) == Some(None::<Seq<char>>),
            Err(_) => spec_root_id(src@) is None,
        },
{
    let t = match first_tag(src)? {
        None => {
            return Ok(None);
        },
        Some(t) => t,
    };
    attr(t.content.as_str(), t.name.as_str(), "id")
}

/// How many times `id` appears in `src` as a whole name.
///
/// A name goes on while the characters an `id` accepts go on, so `svg1` is no mention of `svg`. A
/// dot ends a name, since `begin="svg1.click"` names the element before it.
pub fn mentions(src: &str, id: &str) -> (r: usize)
    requires
        id@.len() > 0,
    ensures
        r == mentions_scan(src@, id@, 0, 0),
{
    let s = chars_of(src);
    let x = chars_of(id);
    let mut count: usize = 0;
    let mut start: usize = 0;
    let mut p: usize = 0;
    while x.len() <= s.len() - p
        invariant
            s@ == src@,
            x@ == id@,
            x.len() > 0,
            start <= p <= s.len(),
            count <= p,
            mentions_scan(src@, id@, 0, 0) == count + mentions_scan(src@, id@, start as int, p as int),
        decreases s.len() - p,
    {
        if occurs_at(&s, &x, p) {
            let before = if p > start {
                Some(s[p - 1])
            } else {
                None
            };
            let e = p + x.len();
            let after = if e < s.len() {
                Some(s[e])
            } else {
                None
            };
            if !is_name_char(before) && !is_name_char(after) {
                count += 1;
            }
            start = e;
            p = e;
        } else {
            p += 1;
        }
    }
    count
}

/// Whether `c` is a character that an `id` accepts: a letter, a digit, `-` or `_`.
pub fn is_name_char(c: Option<char>) -> (r: bool)
    ensures
        r == name_char(c),
{
    match c {
        Some(c) => is_alphanumeric(c) || c == '-' || c == '_',
        None => false,
    }
}

/// The attributes of the root tag without its `id`.
fn without_id(content: &str, name: &str) -> (r: Option<Vec<NewAttr>>)
    requires
        crate::text::starts_with(content@, name@),
    ensures
        match r {
            Some(ks) => without_id_attrs(
                xml_attributes(content@, name@),
                xml_attributes(content@, name@).len() as int,
            ) == Some(new_attrs_view(ks@)),
            None => without_id_attrs(
                xml_attributes(content@, name@),
                xml_attributes(content@, name@).len() as int,
            ) is None,
        },
{
    let attrs = attributes(content, name);
    let ghost av = attrs_view(attrs@);
    let mut kept: Vec<NewAttr> = Vec::new();
    let mut k: usize = 0;
    while k < attrs.len()
        invariant
            av == attrs_view(attrs@),
            av == xml_attributes(content@, name@),
            k <= attrs.len(),
            without_id_attrs(av, k as int) == Some(new_attrs_view(kept@)),
        decreases attrs.len() - k,
    {
        match &attrs[k] {
            None => {
                proof {
                    assert(av[k as int] is None);
                    lemma_without_id_stays_none(av, k + 1, av.len() as int);
                }
                return None;
            },
            Some(a) => {
                assert(av[k as int] == Some(a@));
                if !str_eq(a.key.as_str(), "id") {
                    match &a.value {
                        None => {
                            proof {
                                lemma_without_id_stays_none(av, k + 1, av.len() as int);
                            }
                            return None;
                        },
                        Some(v) => {
                            let ghost before = new_attrs_view(kept@);
                            kept.push(NewAttr { key: a.key.clone(), value: v.clone(), escape: true });
                            assert(new_attrs_view(kept@) =~= before.push((a.key@, v@, true)));
                        },
                    }
                }
            },
        }
        k += 1;
    }
    Some(kept)
}

proof fn lemma_without_id_stays_none(attrs: Seq<Option<AttrView>>, k: int, n: int)
    requires
        0 <= k <= n,
        without_id_attrs(attrs, k) is None,
    ensures
        without_id_attrs(attrs, n) is None,
    decreases n - k,
{
    if k < n {
        lemma_without_id_stays_none(attrs, k + 1, n);
    }
}

} // verus!
