//! Drop namespace declarations that nothing uses.
//!
//! Editors leave declarations like `xmlns:svg` behind, and the optimizer copies them onto every
//! element it writes. A prefix that no element or attribute name uses carries no meaning, so the
//! declaration goes. The default `xmlns` always stays: it is what makes the document an SVG.

use vstd::prelude::*;
use vstd::string::StringExecFns;

use crate::text::{name_prefix, prefix_of, starts_with, strip_prefix};
use crate::xml::{
    attributes, bad_attribute, read, read_doc, tag_text, write_tag, xml_attributes, AttrView, NewAttr,
    TokenKind, TokenView, XmlError, new_attrs_view, tokens_view,
};

verus! {

/// The prefixes that the first `n` attribute names spell out, a declaration aside; `None` when the
/// reader cannot read one of them.
pub open spec fn attr_prefixes(attrs: Seq<Option<AttrView>>, n: int) -> Option<Seq<Seq<char>>>
    decreases n,
{
    if n <= 0 {
        Some(Seq::empty())
    } else {
        match attr_prefixes(attrs, n - 1) {
            None => None,
            Some(ps) => match attrs[n - 1] {
                None => None,
                Some(a) => if starts_with(a.key, "xmlns:"@) {
                    Some(ps)
                } else {
                    match name_prefix(a.key) {
                        Some(p) => Some(ps.push(p)),
                        None => Some(ps),
                    }
                },
            },
        }
    }
}

/// The prefixes a tag spells out: its own name's, then its attributes'.
pub open spec fn tag_prefixes(t: TokenView) -> Option<Seq<Seq<char>>> {
    let attrs = xml_attributes(t.content, t.name);
    let own = match name_prefix(t.name) {
        Some(p) => seq![p],
        None => Seq::empty(),
    };
    match attr_prefixes(attrs, attrs.len() as int) {
        Some(ps) => Some(own + ps),
        None => None,
    }
}

/// The prefixes that the first `n` tokens use.
pub open spec fn used_prefixes(ts: Seq<TokenView>, n: int) -> Option<Seq<Seq<char>>>
    decreases n,
{
    if n <= 0 {
        Some(Seq::empty())
    } else {
        match used_prefixes(ts, n - 1) {
            None => None,
            Some(us) => if crate::xml::is_tag(ts[n - 1]) {
                match tag_prefixes(ts[n - 1]) {
                    Some(ps) => Some(us + ps),
                    None => None,
                }
            } else {
                Some(us)
            },
        }
    }
}

/// The first `n` attributes a tag keeps: all of them, each with its normalized value escaped again,
/// except a declaration of a prefix that `used` lacks.
pub open spec fn kept_attrs(attrs: Seq<Option<AttrView>>, used: Seq<Seq<char>>, n: int) -> Option<
    Seq<(Seq<char>, Seq<char>, bool)>,
>
    decreases n,
{
    if n <= 0 {
        Some(Seq::empty())
    } else {
        match kept_attrs(attrs, used, n - 1) {
            None => None,
            Some(ks) => match attrs[n - 1] {
                None => None,
                Some(a) => if starts_with(a.key, "xmlns:"@) && !used.contains(a.key.skip(6)) {
                    Some(ks)
                } else {
                    match a.value {
                        Some(v) => Some(ks.push((a.key, v, true))),
                        None => None,
                    }
                },
            },
        }
    }
}

/// What is written for the first `n` tokens: each tag rebuilt with the declarations it keeps,
/// anything else as it was read.
pub open spec fn without_unused_from(ts: Seq<TokenView>, ws: Seq<Seq<char>>, used: Seq<Seq<char>>, n: int) -> Option<Seq<char>>
    decreases n,
{
    if n <= 0 {
        Some(Seq::empty())
    } else {
        match without_unused_from(ts, ws, used, n - 1) {
            None => None,
            Some(out) => {
                let t = ts[n - 1];
                if crate::xml::is_tag(t) {
                    let attrs = xml_attributes(t.content, t.name);
                    match kept_attrs(attrs, used, attrs.len() as int) {
                        Some(ks) => Some(out + tag_text(t.name, ks, t.kind == TokenKind::Empty)),
                        None => None,
                    }
                } else {
                    Some(out + ws[n - 1])
                }
            },
        }
    }
}

/// `src` without the declarations of prefixes that nothing uses; `None` when the reader refuses
/// the document or an attribute in it.
pub open spec fn spec_strip_unused(src: Seq<char>) -> Option<Seq<char>> {
    match read_doc(src) {
        Some((ts, ws)) => match used_prefixes(ts, ts.len() as int) {
            Some(used) => without_unused_from(ts, ws, used, ts.len() as int),
            None => None,
        },
        None => None,
    }
}

proof fn lemma_attr_prefixes_stays_none(attrs: Seq<Option<AttrView>>, k: int, n: int)
    requires
        0 <= k <= n,
        attr_prefixes(attrs, k) is None,
    ensures
        attr_prefixes(attrs, n) is None,
    decreases n - k,
{
    if k < n {
        lemma_attr_prefixes_stays_none(attrs, k + 1, n);
    }
}

proof fn lemma_used_prefixes_stays_none(ts: Seq<TokenView>, k: int, n: int)
    requires
        0 <= k <= n,
        used_prefixes(ts, k) is None,
    ensures
        used_prefixes(ts, n) is None,
    decreases n - k,
{
    if k < n {
        lemma_used_prefixes_stays_none(ts, k + 1, n);
    }
}

proof fn lemma_kept_attrs_stays_none(
    attrs: Seq<Option<AttrView>>,
    used: Seq<Seq<char>>,
    k: int,
    n: int,
)
    requires
        0 <= k <= n,
        kept_attrs(attrs, used, k) is None,
    ensures
        kept_attrs(attrs, used, n) is None,
    decreases n - k,
{
    if k < n {
        lemma_kept_attrs_stays_none(attrs, used, k + 1, n);
    }
}

proof fn lemma_without_unused_stays_none(
    ts: Seq<TokenView>,
    ws: Seq<Seq<char>>,
    used: Seq<Seq<char>>,
    k: int,
    n: int,
)
    requires
        0 <= k <= n,
        without_unused_from(ts, ws, used, k) is None,
    ensures
        without_unused_from(ts, ws, used, n) is None,
    decreases n - k,
{
    if k < n {
        lemma_without_unused_stays_none(ts, ws, used, k + 1, n);
    }
}

/// The prefixes one tag spells out.
fn prefixes_of_tag(content: &str, name: &str) -> (r: Option<Vec<String>>)
    requires
        crate::text::starts_with(content@, name@),
    ensures
        match r {
            Some(ps) => tag_prefixes(
                TokenView {
                    kind: TokenKind::Open,
                    raw: Seq::empty(),
                    name: name@,
                    content: content@,
                },
            ) == Some(ps@.map_values(|s: String| s@)),
            None => tag_prefixes(
                TokenView {
                    kind: TokenKind::Open,
                    raw: Seq::empty(),
                    name: name@,
                    content: content@,
                },
            ) is None,
        },
{
    let attrs = attributes(content, name);
    let ghost av = crate::xml::attrs_view(attrs@);
    let mut ps: Vec<String> = Vec::new();
    match prefix_of(name) {
        Some(p) => ps.push(p),
        None => {},
    }
    let ghost own = ps@.map_values(|s: String| s@);
    let mut k: usize = 0;
    while k < attrs.len()
        invariant
            av == crate::xml::attrs_view(attrs@),
            av == xml_attributes(content@, name@),
            k <= attrs.len(),
            own.len() <= ps.len(),
            ps@.map_values(|s: String| s@).take(own.len() as int) == own,
            attr_prefixes(av, k as int) == Some(ps@.map_values(|s: String| s@).skip(own.len() as int)),
        decreases attrs.len() - k,
    {
        match &attrs[k] {
            None => {
                proof {
                    assert(av[k as int] is None);
                    lemma_attr_prefixes_stays_none(av, k + 1, av.len() as int);
                }
                return None;
            },
            Some(a) => {
                assert(av[k as int] == Some(a@));
                let ghost before = ps@.map_values(|s: String| s@);
                if strip_prefix(a.key.as_str(), "xmlns:").is_none() {
                    match prefix_of(a.key.as_str()) {
                        Some(p) => {
                            ps.push(p);
                            assert(ps@.map_values(|s: String| s@) =~= before.push(p@));
                        },
                        None => {},
                    }
                }
                assert(ps@.map_values(|s: String| s@).take(own.len() as int) =~= own);
                assert(ps@.map_values(|s: String| s@).skip(own.len() as int) =~= if starts_with(
                    a.key@,
                    "xmlns:"@,
                ) {
                    before.skip(own.len() as int)
                } else {
                    match name_prefix(a.key@) {
                        Some(p) => before.skip(own.len() as int).push(p),
                        None => before.skip(own.len() as int),
                    }
                });
            },
        }
        k += 1;
    }
    assert(own + ps@.map_values(|s: String| s@).skip(own.len() as int) =~= ps@.map_values(
        |s: String| s@,
    ));
    Some(ps)
}

/// Whether `used` holds `p`.
fn contains(used: &Vec<String>, p: &String) -> (r: bool)
    ensures
        r == used@.map_values(|s: String| s@).contains(p@),
{
    let ghost uv = used@.map_values(|s: String| s@);
    let mut k: usize = 0;
    while k < used.len()
        invariant
            uv == used@.map_values(|s: String| s@),
            k <= used.len(),
            forall|j: int| 0 <= j < k ==> uv[j] != p@,
        decreases used.len() - k,
    {
        if used[k] == *p {
            assert(uv[k as int] == p@);
            return true;
        }
        k += 1;
    }
    false
}

/// Remove every `xmlns:<prefix>` whose prefix is unused in `src`.
pub fn strip_unused(src: &str) -> (r: Result<String, XmlError>)
    ensures
        match r {
            Ok(out) => spec_strip_unused(src@) == Some(out@),
            Err(_) => spec_strip_unused(src@) is None,
        },
{
    let (ts, ws) = read(src)?;
    let ghost tv = tokens_view(ts@);
    let ghost wv = ws@.map_values(|s: String| s@);
    // Prefixes that an element or attribute name spells out, `xlink:href` -> `xlink`.
    let mut used: Vec<String> = Vec::new();
    let mut i: usize = 0;
    while i < ts.len()
        invariant
            tv == tokens_view(ts@),
            read_doc(src@) == Some((tv, wv)),
            tv.len() == ts.len(),
            i <= ts.len(),
            used_prefixes(tv, i as int) == Some(used@.map_values(|s: String| s@)),
        decreases ts.len() - i,
    {
        let t = &ts[i];
        assert(tv[i as int] == t@);
        proof {
            crate::xml::lemma_token_named(src@, i as int);
        }
        if t.kind == TokenKind::Open || t.kind == TokenKind::Empty {
            match prefixes_of_tag(t.content.as_str(), t.name.as_str()) {
                None => {
                    proof {
                        assert(tag_prefixes(tv[i as int]) is None);
                        lemma_used_prefixes_stays_none(tv, i + 1, tv.len() as int);
                    }
                    return Err(bad_attribute());
                },
                Some(ps) => {
                    let ghost before = used@.map_values(|s: String| s@);
                    let mut k: usize = 0;
                    while k < ps.len()
                        invariant
                            k <= ps.len(),
                            used@.map_values(|s: String| s@) == before + ps@.map_values(
                                |s: String| s@,
                            ).take(k as int),
                        decreases ps.len() - k,
                    {
                        used.push(ps[k].clone());
                        assert(before + ps@.map_values(|s: String| s@).take(k + 1) =~= (before
                            + ps@.map_values(|s: String| s@).take(k as int)).push(ps@[k as int]@));
                        assert(used@.map_values(|s: String| s@) =~= (before + ps@.map_values(
                            |s: String| s@,
                        ).take(k as int)).push(ps@[k as int]@));
                        k += 1;
                    }
                    assert(ps@.map_values(|s: String| s@).take(ps.len() as int) =~= ps@.map_values(
                        |s: String| s@,
                    ));
                },
            }
        }
        i += 1;
    }
    let ghost uv = used@.map_values(|s: String| s@);

    let mut out = String::new();
    let mut i: usize = 0;
    while i < ts.len()
        invariant
            ts.len() == ws.len(),
            tv == tokens_view(ts@),
            wv == ws@.map_values(|s: String| s@),
            uv == used@.map_values(|s: String| s@),
            read_doc(src@) == Some((tv, wv)),
            used_prefixes(tv, tv.len() as int) == Some(uv),
            tv.len() == ts.len(),
            i <= ts.len(),
            without_unused_from(tv, wv, uv, i as int) == Some(out@),
        decreases ts.len() - i,
    {
        let t = &ts[i];
        assert(tv[i as int] == t@);
        proof {
            crate::xml::lemma_token_named(src@, i as int);
        }
        if t.kind == TokenKind::Open || t.kind == TokenKind::Empty {
            match without_unused(t.content.as_str(), t.name.as_str(), &used) {
                None => {
                    proof {
                        lemma_without_unused_stays_none(tv, wv, uv, i + 1, tv.len() as int);
                    }
                    return Err(bad_attribute());
                },
                Some(kept) => {
                    let tag = write_tag(t.name.as_str(), &kept, t.kind == TokenKind::Empty);
                    out.append(tag.as_str());
                },
            }
        } else {
            assert(wv[i as int] == ws@[i as int]@);
            out.append(ws[i].as_str());
        }
        i += 1;
    }
    Ok(out)
}

/// The attributes one tag keeps.
fn without_unused(content: &str, name: &str, used: &Vec<String>) -> (r: Option<Vec<NewAttr>>)
    requires
        crate::text::starts_with(content@, name@),
    ensures
        match r {
            Some(ks) => kept_attrs(
                xml_attributes(content@, name@),
                used@.map_values(|s: String| s@),
                xml_attributes(content@, name@).len() as int,
            ) == Some(new_attrs_view(ks@)),
            None => kept_attrs(
                xml_attributes(content@, name@),
                used@.map_values(|s: String| s@),
                xml_attributes(content@, name@).len() as int,
            ) is None,
        },
{
    let attrs = attributes(content, name);
    let ghost av = crate::xml::attrs_view(attrs@);
    let ghost uv = used@.map_values(|s: String| s@);
    let mut kept: Vec<NewAttr> = Vec::new();
    let mut k: usize = 0;
    while k < attrs.len()
        invariant
            av == crate::xml::attrs_view(attrs@),
            av == xml_attributes(content@, name@),
            uv == used@.map_values(|s: String| s@),
            k <= attrs.len(),
            kept_attrs(av, uv, k as int) == Some(new_attrs_view(kept@)),
        decreases attrs.len() - k,
    {
        match &attrs[k] {
            None => {
                proof {
                    assert(av[k as int] is None);
                    lemma_kept_attrs_stays_none(av, uv, k + 1, av.len() as int);
                }
                return None;
            },
            Some(a) => {
                assert(av[k as int] == Some(a@));
                let declared = strip_prefix(a.key.as_str(), "xmlns:");
                let drop = match &declared {
                    Some(p) => {
                        proof {
                            reveal_strlit("xmlns:");
                        }
                        !contains(used, p)
                    },
                    None => false,
                };
                if !drop {
                    match &a.value {
                        None => {
                            proof {
                                lemma_kept_attrs_stays_none(av, uv, k + 1, av.len() as int);
                            }
                            return None;
                        },
                        Some(v) => {
                            let ghost before = new_attrs_view(kept@);
                            kept.push(NewAttr { key: a.key.clone(), value: v.clone(), escape: true });
                            assert(new_attrs_view(kept@) =~= before.push((a.key@, v@, true)));
                        },
                    }
                }
            },
        }
        k += 1;
    }
    Some(kept)
}

/// The default `xmlns` always stays: every attribute named `xmlns` that a tag keeps is written
/// again with its value, whatever the used prefixes are.
pub proof fn lemma_default_namespace_stays(
    attrs: Seq<Option<AttrView>>,
    used: Seq<Seq<char>>,
    n: int,
    k: int,
)
    requires
        0 <= k < n <= attrs.len(),
        kept_attrs(attrs, used, n) is Some,
        attrs[k] matches Some(a) && a.key == "xmlns"@,
    ensures
        kept_attrs(attrs, used, n).unwrap().contains(
            (attrs[k].unwrap().key, attrs[k].unwrap().value.unwrap(), true),
        ),
    decreases n - k,
{
    let a = attrs[k].unwrap();
    reveal_strlit("xmlns");
    reveal_strlit("xmlns:");
    assert(!starts_with(a.key, "xmlns:"@));
    lemma_kept_prefix(attrs, used, k + 1, n);
    let ks = kept_attrs(attrs, used, k + 1).unwrap();
    assert(ks.last() == (a.key, a.value.unwrap(), true));
    assert(kept_attrs(attrs, used, n).unwrap()[ks.len() - 1] == ks[ks.len() - 1]);
}

/// What a tag keeps of its first `k` attributes stays in front as more of them are read.
proof fn lemma_kept_prefix(attrs: Seq<Option<AttrView>>, used: Seq<Seq<char>>, k: int, n: int)
    requires
        0 <= k <= n,
        kept_attrs(attrs, used, n) is Some,
    ensures
        kept_attrs(attrs, used, k) is Some,
        kept_attrs(attrs, used, k).unwrap().len() <= kept_attrs(attrs, used, n).unwrap().len(),
        forall|j: int|
            0 <= j < kept_attrs(attrs, used, k).unwrap().len() ==> kept_attrs(attrs, used, n).unwrap()[j]
                == kept_attrs(attrs, used, k).unwrap()[j],
    decreases n - k,
{
    if k < n {
        lemma_kept_prefix(attrs, used, k + 1, n);
    }
}

/// Whether tag `t` uses prefix `p`: its own name does, or the name of one of its attributes that
/// is not a declaration.
pub open spec fn uses_prefix(t: TokenView, p: Seq<char>) -> bool {
    let attrs = xml_attributes(t.content, t.name);
    ||| name_prefix(t.name) == Some(p)
    ||| exists|i: int|
        #![trigger attrs[i]]
        0 <= i < attrs.len() && (attrs[i] matches Some(b) && !starts_with(b.key, "xmlns:"@)
            && name_prefix(b.key) == Some(p))
}

proof fn lemma_attr_prefix_recorded(attrs: Seq<Option<AttrView>>, n: int, i: int, p: Seq<char>)
    requires
        attr_prefixes(attrs, n) is Some,
        0 <= i < n,
        attrs[i] matches Some(b) && !starts_with(b.key, "xmlns:"@) && name_prefix(b.key) == Some(p),
    ensures
        attr_prefixes(attrs, n).unwrap().contains(p),
    decreases n,
{
    if attr_prefixes(attrs, n - 1) is None {
        assert(attr_prefixes(attrs, n) is None);
    }
    let ps = attr_prefixes(attrs, n - 1).unwrap();
    if i == n - 1 {
        assert(attr_prefixes(attrs, n).unwrap() == ps.push(p));
        assert(ps.push(p)[ps.len() as int] == p);
    } else {
        lemma_attr_prefix_recorded(attrs, n - 1, i, p);
        let x = choose|x: int| 0 <= x < ps.len() && ps[x] == p;
        let qs = attr_prefixes(attrs, n).unwrap();
        assert(qs.len() >= ps.len() && qs[x] == ps[x]);
    }
}

proof fn lemma_tag_prefixes_used(ts: Seq<TokenView>, n: int, k: int)
    requires
        used_prefixes(ts, n) is Some,
        0 <= k < n,
        crate::xml::is_tag(ts[k]),
    ensures
        tag_prefixes(ts[k]) is Some,
        forall|x: Seq<char>|
            #[trigger] tag_prefixes(ts[k]).unwrap().contains(x) ==> used_prefixes(
                ts,
                n,
            ).unwrap().contains(x),
    decreases n,
{
    if used_prefixes(ts, n - 1) is None {
        assert(used_prefixes(ts, n) is None);
    }
    let us = used_prefixes(ts, n - 1).unwrap();
    let vs = used_prefixes(ts, n).unwrap();
    if k == n - 1 {
        let ps = tag_prefixes(ts[k]).unwrap();
        assert(vs == us + ps);
        assert forall|x: Seq<char>| #[trigger] ps.contains(x) implies vs.contains(x) by {
            let j = choose|j: int| 0 <= j < ps.len() && ps[j] == x;
            assert(vs[us.len() + j] == x);
        }
    } else {
        lemma_tag_prefixes_used(ts, n - 1, k);
        assert(vs.len() >= us.len());
        assert(forall|j: int| 0 <= j < us.len() ==> vs[j] == us[j]);
        assert forall|x: Seq<char>|
            #[trigger] tag_prefixes(ts[k]).unwrap().contains(x) implies vs.contains(x) by {
            let j = choose|j: int| 0 <= j < us.len() && us[j] == x;
            assert(vs[j] == x);
        }
    }
}

proof fn lemma_kept_declaration(attrs: Seq<Option<AttrView>>, used: Seq<Seq<char>>, n: int, j: int)
    requires
        kept_attrs(attrs, used, n) is Some,
        0 <= j < n,
        attrs[j] matches Some(a) && starts_with(a.key, "xmlns:"@) && used.contains(a.key.skip(6)),
    ensures
        attrs[j].unwrap().value is Some,
        kept_attrs(attrs, used, n).unwrap().contains(
            (attrs[j].unwrap().key, attrs[j].unwrap().value.unwrap(), true),
        ),
{
    let a = attrs[j].unwrap();
    lemma_kept_prefix(attrs, used, j + 1, n);
    if kept_attrs(attrs, used, j) is None {
        assert(kept_attrs(attrs, used, j + 1) is None);
    }
    let ks = kept_attrs(attrs, used, j + 1).unwrap();
    assert(ks.last() == (a.key, a.value.unwrap(), true));
    assert(kept_attrs(attrs, used, n).unwrap()[ks.len() - 1] == ks[ks.len() - 1]);
}

proof fn lemma_tags_kept(ts: Seq<TokenView>, ws: Seq<Seq<char>>, used: Seq<Seq<char>>, n: int, d: int)
    requires
        without_unused_from(ts, ws, used, n) is Some,
        0 <= d < n,
        crate::xml::is_tag(ts[d]),
    ensures
        kept_attrs(
            xml_attributes(ts[d].content, ts[d].name),
            used,
            xml_attributes(ts[d].content, ts[d].name).len() as int,
        ) is Some,
    decreases n,
{
    if without_unused_from(ts, ws, used, n - 1) is None {
        assert(without_unused_from(ts, ws, used, n) is None);
    }
    if d < n - 1 {
        lemma_tags_kept(ts, ws, used, n - 1, d);
    }
}

/// A declaration stays while something uses its prefix: when `xmlns:p` is declared on tag `d` of
/// `src`, and tag `k`, open or self-closing, uses `p` in its own name or in an attribute's, the
/// tag `d` is written again with that declaration and its value.
#[verifier::spinoff_prover]
pub proof fn lemma_used_declaration_stays(
    src: Seq<char>,
    ts: Seq<TokenView>,
    ws: Seq<Seq<char>>,
    d: int,
    j: int,
    k: int,
)
    requires
        read_doc(src) == Some((ts, ws)),
        spec_strip_unused(src) is Some,
        0 <= d < ts.len(),
        crate::xml::is_tag(ts[d]),
        0 <= j < xml_attributes(ts[d].content, ts[d].name).len(),
        xml_attributes(ts[d].content, ts[d].name)[j] matches Some(a) && starts_with(
            a.key,
            "xmlns:"@,
        ) && 0 <= k < ts.len() && crate::xml::is_tag(ts[k]) && uses_prefix(ts[k], a.key.skip(6)),
    ensures
        ({
            let attrs = xml_attributes(ts[d].content, ts[d].name);
            let a = attrs[j].unwrap();
            &&& used_prefixes(ts, ts.len() as int) is Some
            &&& a.value is Some
            &&& kept_attrs(
                attrs,
                used_prefixes(ts, ts.len() as int).unwrap(),
                attrs.len() as int,
            ) matches Some(ks) && ks.contains((a.key, a.value.unwrap(), true))
        }),
{
    let n = ts.len() as int;
    let attrs = xml_attributes(ts[d].content, ts[d].name);
    let a = attrs[j].unwrap();
    let p = a.key.skip(6);
    let used = used_prefixes(ts, n).unwrap();
    let t = ts[k];
    let tattrs = xml_attributes(t.content, t.name);
    lemma_tag_prefixes_used(ts, n, k);
    let own = match name_prefix(t.name) {
        Some(q) => seq![q],
        None => Seq::<Seq<char>>::empty(),
    };
    let ps = attr_prefixes(tattrs, tattrs.len() as int).unwrap();
    assert(tag_prefixes(t).unwrap() == own + ps);
    if name_prefix(t.name) == Some(p) {
        assert((own + ps)[0] == p);
    } else {
        let i = choose|i: int|
            #![trigger tattrs[i]]
            0 <= i < tattrs.len() && (tattrs[i] matches Some(b) && !starts_with(b.key, "xmlns:"@)
                && name_prefix(b.key) == Some(p));
        lemma_attr_prefix_recorded(tattrs, tattrs.len() as int, i, p);
        let x = choose|x: int| 0 <= x < ps.len() && ps[x] == p;
        assert((own + ps)[own.len() + x] == p);
    }
    assert(tag_prefixes(t).unwrap().contains(p));
    assert(used.contains(p));
    lemma_tags_kept(ts, ws, used, n, d);
    lemma_kept_declaration(attrs, used, attrs.len() as int, j);
}

proof fn lemma_attr_prefixes_from(attrs: Seq<Option<AttrView>>, n: int, x: Seq<char>)
    requires
        0 <= n <= attrs.len(),
        attr_prefixes(attrs, n) is Some,
        attr_prefixes(attrs, n).unwrap().contains(x),
    ensures
        exists|i: int|
            #![trigger attrs[i]]
            0 <= i < n && i < attrs.len() && (attrs[i] matches Some(b) && !starts_with(
                b.key,
                "xmlns:"@,
            ) && name_prefix(b.key) == Some(x)),
    decreases n,
{
    if attr_prefixes(attrs, n - 1) is None {
        assert(attr_prefixes(attrs, n) is None);
    }
    let ps = attr_prefixes(attrs, n - 1).unwrap();
    let qs = attr_prefixes(attrs, n).unwrap();
    let j = choose|j: int| 0 <= j < qs.len() && qs[j] == x;
    if j < ps.len() {
        assert(qs[j] == ps[j]);
        assert(ps.contains(x));
        lemma_attr_prefixes_from(attrs, n - 1, x);
    } else {
        assert(attrs[n - 1] matches Some(b) && !starts_with(b.key, "xmlns:"@) && name_prefix(b.key)
            == Some(x));
    }
}

proof fn lemma_used_from_tags(ts: Seq<TokenView>, n: int, x: Seq<char>)
    requires
        0 <= n <= ts.len(),
        used_prefixes(ts, n) is Some,
        used_prefixes(ts, n).unwrap().contains(x),
    ensures
        exists|k: int| 0 <= k < n && crate::xml::is_tag(#[trigger] ts[k]) && uses_prefix(ts[k], x),
    decreases n,
{
    if used_prefixes(ts, n - 1) is None {
        assert(used_prefixes(ts, n) is None);
    }
    let us = used_prefixes(ts, n - 1).unwrap();
    let vs = used_prefixes(ts, n).unwrap();
    let j = choose|j: int| 0 <= j < vs.len() && vs[j] == x;
    if j < us.len() {
        assert(vs[j] == us[j]);
        assert(us.contains(x));
        lemma_used_from_tags(ts, n - 1, x);
        let k = choose|k: int| 0 <= k < n - 1 && crate::xml::is_tag(#[trigger] ts[k]) && uses_prefix(ts[k], x);
        assert(0 <= k < n && crate::xml::is_tag(ts[k]) && uses_prefix(ts[k], x));
    } else {
        let t = ts[n - 1];
        let attrs = xml_attributes(t.content, t.name);
        let own = match name_prefix(t.name) {
            Some(q) => seq![q],
            None => Seq::<Seq<char>>::empty(),
        };
        let ps = attr_prefixes(attrs, attrs.len() as int).unwrap();
        assert(vs == us + (own + ps));
        let m = j - us.len();
        assert((own + ps)[m] == x);
        if m < own.len() {
            assert(name_prefix(t.name) == Some(x));
        } else {
            assert(ps[m - own.len()] == x);
            assert(ps.contains(x));
            lemma_attr_prefixes_from(attrs, attrs.len() as int, x);
        }
        assert(uses_prefix(t, x));
    }
}

proof fn lemma_kept_keys(attrs: Seq<Option<AttrView>>, used: Seq<Seq<char>>, n: int)
    requires
        kept_attrs(attrs, used, n) is Some,
    ensures
        forall|i: int|
            0 <= i < kept_attrs(attrs, used, n).unwrap().len() && starts_with(
                (#[trigger] kept_attrs(attrs, used, n).unwrap()[i]).0,
                "xmlns:"@,
            ) ==> used.contains(kept_attrs(attrs, used, n).unwrap()[i].0.skip(6)),
    decreases n,
{
    if n > 0 {
        if kept_attrs(attrs, used, n - 1) is None {
            assert(kept_attrs(attrs, used, n) is None);
        }
        lemma_kept_keys(attrs, used, n - 1);
        let ks = kept_attrs(attrs, used, n - 1).unwrap();
        let r = kept_attrs(attrs, used, n).unwrap();
        assert forall|i: int|
            0 <= i < r.len() && starts_with((#[trigger] r[i]).0, "xmlns:"@) implies used.contains(
            r[i].0.skip(6),
        ) by {
            if i < ks.len() {
                assert(r[i] == ks[i]);
            }
        }
    }
}

/// A declaration stays only while something uses its prefix: every `xmlns:p` that a tag is
/// written again with names a prefix that the name of some tag of `src`, open or self-closing,
/// or of one of its attributes uses.
#[verifier::spinoff_prover]
pub proof fn lemma_kept_declaration_is_used(
    src: Seq<char>,
    ts: Seq<TokenView>,
    ws: Seq<Seq<char>>,
    d: int,
    i: int,
)
    requires
        read_doc(src) == Some((ts, ws)),
        spec_strip_unused(src) is Some,
        0 <= d < ts.len(),
        crate::xml::is_tag(ts[d]),
        kept_attrs(
            xml_attributes(ts[d].content, ts[d].name),
            used_prefixes(ts, ts.len() as int).unwrap(),
            xml_attributes(ts[d].content, ts[d].name).len() as int,
        ) matches Some(ks) && 0 <= i < ks.len() && starts_with(ks[i].0, "xmlns:"@),
    ensures
        ({
            let attrs = xml_attributes(ts[d].content, ts[d].name);
            let ks = kept_attrs(
                attrs,
                used_prefixes(ts, ts.len() as int).unwrap(),
                attrs.len() as int,
            ).unwrap();
            exists|k: int|
                0 <= k < ts.len() && crate::xml::is_tag(#[trigger] ts[k]) && uses_prefix(
                    ts[k],
                    ks[i].0.skip(6),
                )
        }),
{
    let n = ts.len() as int;
    let attrs = xml_attributes(ts[d].content, ts[d].name);
    let used = used_prefixes(ts, n).unwrap();
    let ks = kept_attrs(attrs, used, attrs.len() as int).unwrap();
    lemma_kept_keys(attrs, used, attrs.len() as int);
    assert(used.contains(ks[i].0.skip(6)));
    lemma_used_from_tags(ts, n, ks[i].0.skip(6));
}

} // verus!
