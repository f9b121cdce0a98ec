//! The declarations of a `style` attribute, and which of them hold an opacity.
//!
//! `cleanup_numeric_values` rounds attributes, and `convert_style_to_attrs` moves a declaration to
//! an attribute only when it maps to one. `stop-opacity` maps to none of them, so a value such as
//! `stop-opacity:0.98039216` reaches the output with every decimal an editor wrote. The rounding of
//! the number is floating point and stands beside the command line; reading the declarations and
//! writing them back is here.

use vstd::prelude::*;
use vstd::string::StringExecFns;

use crate::text::{ascii_lower, chars_of, colon_from, slice_of, string_of, to_ascii_lower, trim_chars, trim_ends};

verus! {

/// One declaration of a `style` value.
pub enum Declaration {
    /// `name:value`, both trimmed.
    Property { name: String, value: String },
    /// A declaration without a `:`, as it was written.
    Other(String),
}

/// A declaration as plain values.
pub enum DeclarationView {
    Property { name: Seq<char>, value: Seq<char> },
    Other(Seq<char>),
}

impl View for Declaration {
    type V = DeclarationView;

    open spec fn view(&self) -> DeclarationView {
        match self {
            Declaration::Property { name, value } => DeclarationView::Property { name: name@, value: value@ },
            Declaration::Other(t) => DeclarationView::Other(t@),
        }
    }
}

/// The declarations as plain values.
pub open spec fn declarations_view(v: Seq<Declaration>) -> Seq<DeclarationView> {
    v.map_values(|d: Declaration| d@)
}

/// The pieces of `s` from `i` on between the `c`s, the current one starting at `start`: what
/// `str::split` with one character gives, empty pieces included.
pub open spec fn split_pieces(s: Seq<char>, c: char, start: int, i: int) -> Seq<Seq<char>>
    decreases s.len() - i,
{
    if i < start || i >= s.len() {
        seq![s.subrange(start, s.len() as int)]
    } else if s[i] == c {
        seq![s.subrange(start, i)] + split_pieces(s, c, i + 1, i + 1)
    } else {
        split_pieces(s, c, start, i + 1)
    }
}

/// One trimmed, nonempty declaration: split at its first `:`, both sides trimmed.
pub open spec fn declaration_of(t: Seq<char>) -> DeclarationView {
    let c = colon_from(t, 0);
    if c < t.len() {
        DeclarationView::Property {
            name: trim_ends(t.subrange(0, c), false),
            value: trim_ends(t.subrange(c + 1, t.len() as int), false),
        }
    } else {
        DeclarationView::Other(t)
    }
}

/// The declarations of the first `n` pieces: each trimmed, the empty ones left out.
pub open spec fn declarations_of(ps: Seq<Seq<char>>, n: int) -> Seq<DeclarationView>
    decreases n,
{
    if n <= 0 {
        Seq::empty()
    } else {
        let t = trim_ends(ps[n - 1], false);
        if t.len() == 0 {
            declarations_of(ps, n - 1)
        } else {
            declarations_of(ps, n - 1).push(declaration_of(t))
        }
    }
}

/// The declarations of a `style` value.
pub open spec fn spec_declarations(style: Seq<char>) -> Seq<DeclarationView> {
    let ps = split_pieces(style, ';', 0, 0);
    declarations_of(ps, ps.len() as int)
}

/// The first `n` texts, joined by `;`.
pub open spec fn joined(ps: Seq<Seq<char>>, n: int) -> Seq<char>
    decreases n,
{
    if n <= 0 {
        Seq::empty()
    } else if n == 1 {
        ps[0]
    } else {
        joined(ps, n - 1) + seq![';'] + ps[n - 1]
    }
}

proof fn lemma_joined_prepend(a: Seq<char>, rest: Seq<Seq<char>>, n: int)
    requires
        1 <= n <= rest.len(),
    ensures
        joined(seq![a] + rest, n + 1) == a + seq![';'] + joined(rest, n),
    decreases n,
{
    let p = seq![a] + rest;
    if n > 1 {
        lemma_joined_prepend(a, rest, n - 1);
        assert(p[n] == rest[n - 1]);
        assert(joined(p, n + 1) =~= a + seq![';'] + joined(rest, n));
    } else {
        assert(p[1] == rest[0] && p[0] == a);
        assert(joined(p, 1) == a);
    }
}

proof fn lemma_split_from(s: Seq<char>, start: int, i: int)
    requires
        0 <= start <= i <= s.len(),
        forall|j: int| start <= j < i ==> s[j] != ';',
    ensures
        ({
            let ps = split_pieces(s, ';', start, i);
            &&& ps.len() >= 1
            &&& joined(ps, ps.len() as int) == s.subrange(start, s.len() as int)
            &&& forall|k: int, j: int|
                0 <= k < ps.len() && 0 <= j < ps[k].len() ==> #[trigger] ps[k][j] != ';'
        }),
    decreases s.len() - i,
{
    let ps = split_pieces(s, ';', start, i);
    if i >= s.len() {
        assert(ps == seq![s.subrange(start, s.len() as int)]);
    } else if s[i] == ';' {
        lemma_split_from(s, i + 1, i + 1);
        let a = s.subrange(start, i);
        let rest = split_pieces(s, ';', i + 1, i + 1);
        assert(ps == seq![a] + rest);
        lemma_joined_prepend(a, rest, rest.len() as int);
        assert(s.subrange(start, s.len() as int) =~= a + seq![';'] + s.subrange(i + 1, s.len() as int));
        assert forall|k: int, j: int| 0 <= k < ps.len() && 0 <= j < ps[k].len() implies #[trigger] ps[k][j]
            != ';' by {
            if k > 0 {
                assert(ps[k] == rest[k - 1]);
            } else {
                assert(ps[k][j] == s[start + j]);
            }
        }
    } else {
        lemma_split_from(s, start, i + 1);
    }
}

/// Splitting a `style` value at its `;`s loses nothing: no piece holds a `;`, and the pieces
/// joined by `;` give the value back.
pub proof fn lemma_split_then_join(s: Seq<char>)
    ensures
        ({
            let ps = split_pieces(s, ';', 0, 0);
            &&& joined(ps, ps.len() as int) == s
            &&& forall|k: int, j: int|
                0 <= k < ps.len() && 0 <= j < ps[k].len() ==> #[trigger] ps[k][j] != ';'
        }),
{
    lemma_split_from(s, 0, 0);
    assert(s.subrange(0, s.len() as int) =~= s);
}

/// The text of a declaration: `name:value`, or what was written.
pub open spec fn declaration_text(d: DeclarationView) -> Seq<char> {
    match d {
        DeclarationView::Property { name, value } => name + seq![':'] + value,
        DeclarationView::Other(t) => t,
    }
}

/// The properties that hold a fraction of 0 to 1.
pub open spec fn opacity_names() -> Seq<Seq<char>> {
    seq!["opacity"@, "fill-opacity"@, "stroke-opacity"@, "stop-opacity"@, "flood-opacity"@]
}

/// The pieces of `s` between the `c`s.
fn split_on(s: &Vec<char>, c: char) -> (r: Vec<Vec<char>>)
    ensures
        r@.map_values(|p: Vec<char>| p@) == split_pieces(s@, c, 0, 0),
{
    let mut out: Vec<Vec<char>> = Vec::new();
    let mut cur: Vec<char> = Vec::new();
    let mut start: usize = 0;
    let mut i: usize = 0;
    while i < s.len()
        invariant
            start <= i <= s.len(),
            cur@ == s@.subrange(start as int, i as int),
            split_pieces(s@, c, 0, 0) == out@.map_values(|p: Vec<char>| p@) + split_pieces(
                s@,
                c,
                start as int,
                i as int,
            ),
        decreases s.len() - i,
    {
        let ghost before = out@.map_values(|p: Vec<char>| p@);
        if s[i] == c {
            let piece = cur;
            let ghost pv = piece@;
            out.push(piece);
            cur = Vec::new();
            assert(out@.map_values(|p: Vec<char>| p@) =~= before.push(pv));
            assert(before + split_pieces(s@, c, start as int, i as int) =~= out@.map_values(
                |p: Vec<char>| p@,
            ) + split_pieces(s@, c, i + 1, i + 1));
            start = i + 1;
        } else {
            cur.push(s[i]);
            assert(s@.subrange(start as int, i + 1) =~= s@.subrange(start as int, i as int).push(
                s@[i as int],
            ));
        }
        i += 1;
    }
    let ghost before = out@.map_values(|p: Vec<char>| p@);
    let ghost cv = cur@;
    out.push(cur);
    assert(out@.map_values(|p: Vec<char>| p@) =~= before + seq![cv]);
    out
}

proof fn lemma_colon_bound(s: Seq<char>, i: int)
    requires
        0 <= i <= s.len(),
    ensures
        i <= colon_from(s, i) <= s.len(),
    decreases s.len() - i,
{
    if i < s.len() && s[i] != ':' {
        lemma_colon_bound(s, i + 1);
    }
}

/// One trimmed, nonempty declaration.
fn declaration_from(t: &Vec<char>) -> (r: Declaration)
    ensures
        r@ == declaration_of(t@),
{
    let mut c: usize = 0;
    proof {
        lemma_colon_bound(t@, 0);
    }
    while c < t.len() && t[c] != ':'
        invariant
            c <= t.len(),
            colon_from(t@, c as int) == colon_from(t@, 0),
        decreases t.len() - c,
    {
        c += 1;
    }
    if c < t.len() {
        let name = trim_chars(&slice_of(t, 0, c), false);
        let value = trim_chars(&slice_of(t, c + 1, t.len()), false);
        Declaration::Property { name: string_of(&name), value: string_of(&value) }
    } else {
        Declaration::Other(string_of(t))
    }
}

/// The declarations of a `style` value: split at `;`, each trimmed, the empty ones left out, and
/// each split at its first `:` with both sides trimmed.
pub fn declarations(style: &str) -> (r: Vec<Declaration>)
    ensures
        declarations_view(r@) == spec_declarations(style@),
{
    let pieces = split_on(&chars_of(style), ';');
    let ghost pv = pieces@.map_values(|p: Vec<char>| p@);
    let mut out: Vec<Declaration> = Vec::new();
    let mut k: usize = 0;
    while k < pieces.len()
        invariant
            pv == pieces@.map_values(|p: Vec<char>| p@),
            pv == split_pieces(style@, ';', 0, 0),
            k <= pieces.len(),
            declarations_view(out@) == declarations_of(pv, k as int),
        decreases pieces.len() - k,
    {
        let t = trim_chars(&pieces[k], false);
        assert(pv[k as int] == pieces@[k as int]@);
        if t.len() > 0 {
            let d = declaration_from(&t);
            let ghost before = declarations_view(out@);
            let ghost dv = d@;
            out.push(d);
            assert(declarations_view(out@) =~= before.push(dv));
        }
        k += 1;
    }
    out
}

impl Declaration {
    /// The text of a declaration that keeps its value: `name:value`, or what was written.
    pub fn text(&self) -> (r: String)
        ensures
            r@ == declaration_text(self@),
    {
        match self {
            Declaration::Property { name, value } => {
                let mut t = name.clone();
                t.append(":");
                t.append(value.as_str());
                proof {
                    reveal_strlit(":");
                }
                assert(t@ =~= name@ + seq![':'] + value@);
                t
            },
            Declaration::Other(t) => t.clone(),
        }
    }
}

/// The declarations written back, joined by `;`.
pub fn join_declarations(parts: &Vec<String>) -> (r: String)
    ensures
        r@ == joined(parts@.map_values(|s: String| s@), parts.len() as int),
{
    let ghost ps = parts@.map_values(|s: String| s@);
    let mut out = String::new();
    let mut k: usize = 0;
    while k < parts.len()
        invariant
            ps == parts@.map_values(|s: String| s@),
            k <= parts.len(),
            out@ == joined(ps, k as int),
        decreases parts.len() - k,
    {
        if k > 0 {
            out.append(";");
            proof {
                reveal_strlit(";");
            }
        }
        let ghost before = out@;
        out.append(parts[k].as_str());
        assert(ps[k as int] == parts@[k as int]@);
        if k > 0 {
            assert(out@ =~= joined(ps, k as int) + seq![';'] + ps[k as int]);
        } else {
            assert(out@ =~= ps[0]);
        }
        k += 1;
    }
    out
}

/// `name` in ASCII lower case.
fn lower_ascii(name: &str) -> (r: Vec<char>)
    ensures
        r@ == name@.map_values(|c: char| ascii_lower(c)),
{
    let x = chars_of(name);
    let mut v: Vec<char> = Vec::new();
    let mut k: usize = 0;
    while k < x.len()
        invariant
            x@ == name@,
            k <= x.len(),
            v@ == name@.take(k as int).map_values(|c: char| ascii_lower(c)),
        decreases x.len() - k,
    {
        let c = x[k];
        v.push(to_ascii_lower(c));
        assert(name@.take(k + 1).map_values(|c: char| ascii_lower(c)) =~= name@.take(
            k as int,
        ).map_values(|c: char| ascii_lower(c)).push(ascii_lower(c)));
        k += 1;
    }
    assert(name@.take(x.len() as int) =~= name@);
    v
}

/// Whether a property holds a fraction of 0 to 1, whatever the case of its name.
pub fn is_opacity(name: &str) -> (r: bool)
    ensures
        r == opacity_names().contains(name@.map_values(|c: char| ascii_lower(c))),
{
    let lower = string_of(&lower_ascii(name));
    let ghost l = lower@;
    let ghost ns = opacity_names();
    let r = crate::text::str_eq(lower.as_str(), "opacity") || crate::text::str_eq(
        lower.as_str(),
        "fill-opacity",
    ) || crate::text::str_eq(lower.as_str(), "stroke-opacity") || crate::text::str_eq(
        lower.as_str(),
        "stop-opacity",
    ) || crate::text::str_eq(lower.as_str(), "flood-opacity");
    assert(r == ns.contains(l)) by {
        if ns.contains(l) {
            let i = choose|i: int| 0 <= i < ns.len() && ns[i] == l;
            assert(i == 0 || i == 1 || i == 2 || i == 3 || i == 4);
        }
        if l == "opacity"@ { assert(ns[0] == l); }
        if l == "fill-opacity"@ { assert(ns[1] == l); }
        if l == "stroke-opacity"@ { assert(ns[2] == l); }
        if l == "stop-opacity"@ { assert(ns[3] == l); }
        if l == "flood-opacity"@ { assert(ns[4] == l); }
    }
    r
}

} // verus!
