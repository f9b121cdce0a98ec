//! What the resize of an SVG decides without numbers: how much canvas it keeps, and which elements
//! are templates that a `<use>` places.
//!
//! The scale and the translation themselves are computed in floating point beside the command
//! line.

use vstd::prelude::*;

use crate::svg_gradient::hash_id;
use crate::svg_mix::opt_view;
use crate::text::{chars_of, local_name, local_part, str_eq, string_of, strings_view, trim_chars, trim_ends};
use crate::xml::{attr, attr_among, is_tag, lex, tokens_view, xml_attributes, xml_tokens, TokenKind, TokenView, XmlError};

verus! {

/// How much canvas the output keeps around the artwork.
#[derive(Clone, Copy, Debug, PartialEq, Eq, Structural)]
pub enum Canvas {
    /// Pad the canvas to the requested size and center the artwork (the default).
    Padded,
    /// Fit the canvas to the artwork.
    Tight,
}

/// The `id` that a reference value names, white space around it aside.
pub open spec fn named_id(value: Option<Seq<char>>) -> Seq<Seq<char>> {
    match value {
        Some(v) => match hash_id(trim_ends(v, false)) {
            Some(id) => seq![id],
            None => Seq::empty(),
        },
        None => Seq::empty(),
    }
}

/// The `id`s that the `href` and the `xlink:href` of a tag name; `None` when the reader cannot
/// read an attribute.
pub open spec fn use_ids(attrs: Seq<Option<crate::xml::AttrView>>) -> Option<Seq<Seq<char>>> {
    match (attr_among(attrs, "href"@, 0), attr_among(attrs, "xlink:href"@, 0)) {
        (Some(h), Some(x)) => Some(named_id(h) + named_id(x)),
        _ => None,
    }
}

/// The `id`s that the `<use>` elements among the first `n` tokens instantiate.
pub open spec fn use_targets_upto(ts: Seq<TokenView>, n: int) -> Option<Seq<Seq<char>>>
    decreases n,
{
    if n <= 0 {
        Some(Seq::empty())
    } else {
        match use_targets_upto(ts, n - 1) {
            None => None,
            Some(ids) => {
                let t = ts[n - 1];
                if is_tag(t) && local_part(t.name) == "use"@ {
                    match use_ids(xml_attributes(t.content, t.name)) {
                        None => None,
                        Some(more) => Some(ids + more),
                    }
                } else {
                    Some(ids)
                }
            },
        }
    }
}

/// The `id`s that a `<use>` in `src` instantiates; `None` when the reader refuses the document or
/// an attribute of a `<use>`.
pub open spec fn spec_use_targets(src: Seq<char>) -> Option<Seq<Seq<char>>> {
    match xml_tokens(src) {
        None => None,
        Some(ts) => use_targets_upto(ts, ts.len() as int),
    }
}

/// Whether a tag is a template: a `<symbol>`, or an element whose `id` a `<use>` names; `None`
/// when the reader cannot read its attributes.
pub open spec fn spec_is_template(content: Seq<char>, name: Seq<char>, templates: Seq<Seq<char>>) -> Option<bool> {
    if local_part(name) == "symbol"@ {
        Some(true)
    } else {
        match attr_among(xml_attributes(content, name), "id"@, 0) {
            None => None,
            Some(None) => Some(false),
            Some(Some(id)) => Some(templates.contains(id)),
        }
    }
}

/// The `id` that a reference value names, white space around it aside.
fn referenced(value: &String) -> (r: Option<String>)
    ensures
        strings_view(
            match r {
                Some(s) => seq![s],
                None => Seq::empty(),
            },
        ) == named_id(Some(value@)),
{
    let v = trim_chars(&chars_of(value.as_str()), false);
    if v.len() == 0 || v[0] != '#' {
        let r: Option<String> = None;
        assert(strings_view(Seq::<String>::empty()) =~= Seq::<Seq<char>>::empty());
        return r;
    }
    let mut w: Vec<char> = Vec::new();
    let mut k: usize = 1;
    while k < v.len()
        invariant
            1 <= k <= v.len(),
            w@ == v@.subrange(1, k as int),
        decreases v.len() - k,
    {
        w.push(v[k]);
        assert(v@.subrange(1, k + 1) =~= v@.subrange(1, k as int).push(v@[k as int]));
        k += 1;
    }
    assert(w@ =~= v@.skip(1));
    let s = string_of(&w);
    assert(strings_view(seq![s]) =~= seq![s@]);
    Some(s)
}

/// Append the `id` that a reference value names, if it names one.
fn push_named(ids: &mut Vec<String>, value: &Option<String>)
    ensures
        strings_view(final(ids)@) == strings_view(old(ids)@) + named_id(opt_view(*value)),
{
    let ghost before = strings_view(ids@);
    match value {
        Some(v) => match referenced(v) {
            Some(id) => {
                ids.push(id);
                assert(strings_view(ids@) =~= before + strings_view(seq![id]));
            },
            None => {
                assert(strings_view(ids@) =~= before + strings_view(Seq::<String>::empty()));
            },
        },
        None => {
            assert(strings_view(ids@) =~= before + Seq::<Seq<char>>::empty());
        },
    }
}

/// Ids that a `<use>` instantiates, `<use href="#logo">` -> `logo`, in the order they are named.
pub fn use_targets(src: &str) -> (r: Result<Vec<String>, XmlError>)
    ensures
        match r {
            Ok(ids) => spec_use_targets(src@) == Some(strings_view(ids@)),
            Err(_) => spec_use_targets(src@) is None,
        },
{
    let ts = lex(src)?;
    let ghost tv = tokens_view(ts@);
    let mut ids: Vec<String> = Vec::new();
    let mut i: usize = 0;
    assert(strings_view(ids@) =~= Seq::<Seq<char>>::empty());
    while i < ts.len()
        invariant
            tv == tokens_view(ts@),
            xml_tokens(src@) == Some(tv),
            i <= ts.len(),
            use_targets_upto(tv, i as int) == Some(strings_view(ids@)),
        decreases ts.len() - i,
    {
        let t = &ts[i];
        assert(tv[i as int] == t@);
        proof {
            crate::xml::lemma_token_named(src@, i as int);
        }
        if (t.kind == TokenKind::Open || t.kind == TokenKind::Empty) && str_eq(
            local_name(t.name.as_str()).as_str(),
            "use",
        ) {
            let href = match attr(t.content.as_str(), t.name.as_str(), "href") {
                Err(e) => {
                    proof {
                        lemma_use_targets_stays_none(tv, i + 1, tv.len() as int);
                    }
                    return Err(e);
                },
                Ok(v) => v,
            };
            let xlink = match attr(t.content.as_str(), t.name.as_str(), "xlink:href") {
                Err(e) => {
                    proof {
                        lemma_use_targets_stays_none(tv, i + 1, tv.len() as int);
                    }
                    return Err(e);
                },
                Ok(v) => v,
            };
            push_named(&mut ids, &href);
            push_named(&mut ids, &xlink);
            assert(strings_view(ids@) =~= use_targets_upto(tv, i as int).unwrap() + (named_id(
                opt_view(href),
            ) + named_id(opt_view(xlink))));
        }
        i += 1;
    }
    Ok(ids)
}

proof fn lemma_use_targets_stays_none(ts: Seq<TokenView>, k: int, n: int)
    requires
        0 <= k <= n,
        use_targets_upto(ts, k) is None,
    ensures
        use_targets_upto(ts, n) is None,
    decreases n - k,
{
    if k < n {
        lemma_use_targets_stays_none(ts, k + 1, n);
    }
}

/// A `<symbol>`, or anything a `<use>` refers to: its coordinates are relative to where the
/// instance is placed, so a translation must not reach them.
pub fn is_template(content: &str, name: &str, templates: &Vec<String>) -> (r: Result<bool, XmlError>)
    requires
        crate::text::starts_with(content@, name@),
    ensures
        match r {
            Ok(b) => spec_is_template(content@, name@, strings_view(templates@)) == Some(b),
            Err(_) => spec_is_template(content@, name@, strings_view(templates@)) is None,
        },
{
    if str_eq(local_name(name).as_str(), "symbol") {
        return Ok(true);
    }
    let found = attr(content, name, "id")?;
    assert(local_part(name@) != "symbol"@);
    match found {
        None => Ok(false),
        Some(id) => {
            assert(attr_among(xml_attributes(content@, name@), "id"@, 0) == Some(Some(id@)));
            let ghost tv = strings_view(templates@);
            let mut k: usize = 0;
            while k < templates.len()
                invariant
                    tv == strings_view(templates@),
                    local_part(name@) != "symbol"@,
                    attr_among(xml_attributes(content@, name@), "id"@, 0) == Some(Some(id@)),
                    k <= templates.len(),
                    forall|j: int| 0 <= j < k ==> tv[j] != id@,
                decreases templates.len() - k,
            {
                if str_eq(templates[k].as_str(), id.as_str()) {
                    assert(tv[k as int] == id@);
                    assert(tv.contains(id@));
                    return Ok(true);
                }
                k += 1;
            }
            Ok(false)
        },
    }
}

/// One token of a resize: whether a tag takes the translation (`None` for any other token), how
/// deep the resize then stands inside a template, and whether it has passed the root; `None` when
/// the reader cannot read an attribute it needs.
///
/// The elements of a template are only scaled: the `<use>` that places it carries the translation.
/// The root itself is never a template.
pub open spec fn place_step(t: TokenView, depth: nat, seen_root: bool, templates: Seq<Seq<char>>) -> Option<(Option<bool>, nat, bool)> {
    if t.kind == TokenKind::Open || t.kind == TokenKind::Empty {
        let deeper: nat = if t.kind == TokenKind::Open { depth + 1 } else { depth };
        if depth > 0 {
            Some((Some(false), deeper, true))
        } else if seen_root {
            match spec_is_template(t.content, t.name, templates) {
                None => None,
                Some(true) => Some((Some(false), if t.kind == TokenKind::Open { 1nat } else { 0nat }, true)),
                Some(false) => Some((Some(true), 0nat, true)),
            }
        } else {
            Some((Some(true), 0nat, true))
        }
    } else if t.kind == TokenKind::Close {
        Some((None, if depth > 0 { (depth - 1) as nat } else { 0nat }, seen_root))
    } else {
        Some((None, depth, seen_root))
    }
}

/// The placements of the tags among the first `n` tokens, with the depth and the root flag after
/// them; `None` as in [`place_step`].
pub open spec fn placements_upto(ts: Seq<TokenView>, templates: Seq<Seq<char>>, n: int) -> Option<(Seq<bool>, nat, bool)>
    decreases n,
{
    if n <= 0 {
        Some((Seq::empty(), 0nat, false))
    } else {
        match placements_upto(ts, templates, n - 1) {
            None => None,
            Some((placed, depth, seen_root)) => match place_step(ts[n - 1], depth, seen_root, templates) {
                None => None,
                Some((Some(b), d, r)) => Some((placed.push(b), d, r)),
                Some((None, d, r)) => Some((placed, d, r)),
            },
        }
    }
}

/// For each tag of `src`, in order, whether the translation of a resize reaches it, given the
/// `id`s of the templates; `None` when the reader refuses the document or an attribute it needs.
pub open spec fn spec_placements(src: Seq<char>, templates: Seq<Seq<char>>) -> Option<Seq<bool>> {
    match xml_tokens(src) {
        None => None,
        Some(ts) => match placements_upto(ts, templates, ts.len() as int) {
            None => None,
            Some((placed, _, _)) => Some(placed),
        },
    }
}

proof fn lemma_placements_stay_none(ts: Seq<TokenView>, templates: Seq<Seq<char>>, k: int, n: int)
    requires
        0 <= k <= n,
        placements_upto(ts, templates, k) is None,
    ensures
        placements_upto(ts, templates, n) is None,
    decreases n - k,
{
    if k < n {
        lemma_placements_stay_none(ts, templates, k + 1, n);
    }
}

proof fn lemma_placements_prefix(ts: Seq<TokenView>, templates: Seq<Seq<char>>, m: int, n: int)
    requires
        0 <= m <= n,
        placements_upto(ts, templates, n) is Some,
    ensures
        placements_upto(ts, templates, m) is Some,
        placements_upto(ts, templates, m).unwrap().0.len() <= placements_upto(ts, templates, n).unwrap().0.len(),
        forall|i: int|
            0 <= i < placements_upto(ts, templates, m).unwrap().0.len() ==> #[trigger] placements_upto(
                ts,
                templates,
                n,
            ).unwrap().0[i] == placements_upto(ts, templates, m).unwrap().0[i],
    decreases n - m,
{
    if m < n {
        if placements_upto(ts, templates, n - 1) is None {
            assert(placements_upto(ts, templates, n) is None);
        }
        lemma_placements_prefix(ts, templates, m, n - 1);
    }
}

proof fn lemma_before_first_tag(ts: Seq<TokenView>, templates: Seq<Seq<char>>, k: int)
    requires
        0 <= k <= ts.len(),
        forall|j: int| 0 <= j < k ==> !is_tag(#[trigger] ts[j]),
    ensures
        placements_upto(ts, templates, k) == Some((Seq::<bool>::empty(), 0nat, false)),
    decreases k,
{
    if k > 0 {
        lemma_before_first_tag(ts, templates, k - 1);
        assert(!is_tag(ts[k - 1]));
    }
}

proof fn lemma_seen_after_tag(ts: Seq<TokenView>, templates: Seq<Seq<char>>, k: int, j: int)
    requires
        0 <= j < k <= ts.len(),
        is_tag(ts[j]),
        placements_upto(ts, templates, k) is Some,
    ensures
        placements_upto(ts, templates, k).unwrap().2,
    decreases k,
{
    if placements_upto(ts, templates, k - 1) is None {
        assert(placements_upto(ts, templates, k) is None);
    }
    if j < k - 1 {
        lemma_seen_after_tag(ts, templates, k - 1, j);
    }
}

/// Where the translation of a resize goes: the root takes it, and no tag after the root that is a
/// `<symbol>`, or whose `id` a `<use>` names, takes it; such a template is placed by its `<use>`.
/// The placement of tag `k` is the entry that follows those of the tags before it.
pub proof fn lemma_root_moves_and_templates_stay(
    ts: Seq<TokenView>,
    templates: Seq<Seq<char>>,
    n: int,
    k: int,
)
    requires
        0 <= k < n <= ts.len(),
        placements_upto(ts, templates, n) is Some,
        is_tag(ts[k]),
    ensures
        ({
            let placed = placements_upto(ts, templates, n).unwrap().0;
            let at = placements_upto(ts, templates, k).unwrap().0.len() as int;
            let t = ts[k];
            &&& at < placed.len()
            &&& (forall|j: int| 0 <= j < k ==> !is_tag(#[trigger] ts[j])) ==> placed[at]
            &&& (exists|j: int| 0 <= j < k && is_tag(#[trigger] ts[j])) && (local_part(t.name)
                == "symbol"@ || (attr_among(xml_attributes(t.content, t.name), "id"@, 0) matches Some(
                Some(id),
            ) && templates.contains(id))) ==> !placed[at]
        }),
{
    lemma_placements_prefix(ts, templates, k + 1, n);
    lemma_placements_prefix(ts, templates, k, k + 1);
    let (p0, d0, s0) = placements_upto(ts, templates, k).unwrap();
    let after = placements_upto(ts, templates, k + 1).unwrap().0;
    let b = place_step(ts[k], d0, s0, templates).unwrap().0.unwrap();
    assert(after == p0.push(b));
    assert(after[p0.len() as int] == b);
    if exists|j: int| 0 <= j < k && is_tag(#[trigger] ts[j]) {
        let j = choose|j: int| 0 <= j < k && is_tag(#[trigger] ts[j]);
        lemma_seen_after_tag(ts, templates, k, j);
    } else {
        lemma_before_first_tag(ts, templates, k);
    }
}

/// For each tag of `src`, start or empty, in document order: whether the translation of a resize
/// reaches it. Everything inside a template, and the template itself, is only scaled, since the
/// `<use>` that places it is translated already; `templates` are the `id`s that [`use_targets`]
/// finds.
pub fn placements(src: &str, templates: &Vec<String>) -> (r: Result<Vec<bool>, XmlError>)
    ensures
        match r {
            Ok(v) => spec_placements(src@, strings_view(templates@)) == Some(v@),
            Err(_) => spec_placements(src@, strings_view(templates@)) is None,
        },
{
    let ts = lex(src)?;
    let ghost tv = tokens_view(ts@);
    let ghost names = strings_view(templates@);
    let mut placed: Vec<bool> = Vec::new();
    let mut depth: usize = 0;
    let mut seen_root = false;
    let mut i: usize = 0;
    while i < ts.len()
        invariant
            tv == tokens_view(ts@),
            names == strings_view(templates@),
            xml_tokens(src@) == Some(tv),
            i <= ts.len(),
            depth <= i,
            placements_upto(tv, names, i as int) == Some((placed@, depth as nat, seen_root)),
        decreases ts.len() - i,
    {
        let t = &ts[i];
        assert(tv[i as int] == t@);
        proof {
            crate::xml::lemma_token_named(src@, i as int);
        }
        if t.kind == TokenKind::Open || t.kind == TokenKind::Empty {
            let open = t.kind == TokenKind::Open;
            if depth > 0 {
                placed.push(false);
                if open {
                    depth += 1;
                }
            } else if seen_root {
                let template = match is_template(t.content.as_str(), t.name.as_str(), templates) {
                    Err(e) => {
                        proof {
                            lemma_placements_stay_none(tv, names, i + 1, tv.len() as int);
                        }
                        return Err(e);
                    },
                    Ok(b) => b,
                };
                placed.push(!template);
                if template && open {
                    depth = 1;
                }
            } else {
                placed.push(true);
            }
            seen_root = true;
        } else if t.kind == TokenKind::Close {
            if depth > 0 {
                depth -= 1;
            }
        }
        i += 1;
    }
    Ok(placed)
}

} // verus!
