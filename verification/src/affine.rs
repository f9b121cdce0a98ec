//! What baking an affine into SVG coordinates decides without numbers: which attributes carry
//! positions, lengths or transforms, which coordinates a translation has to write out, and how a
//! `transform` list reads.

use vstd::prelude::*;

use vstd::string::StringExecFns;

use crate::numeric::separator;
use crate::text::{ascii_lower, chars_of, find_chars, find_from, lemma_find_from, slice_of, str_eq, string_of, strings_view, to_ascii_lower, trim_chars, trim_ends};

verus! {

/// The position attributes that default to `0` when absent, for an element with local name
/// `local`.
pub open spec fn spec_implicit_origins(local: Seq<char>) -> Seq<Seq<char>> {
    if local == "rect"@ || local == "image"@ || local == "use"@ || local == "svg"@ || local
        == "foreignObject"@ {
        seq!["x"@, "y"@]
    } else if local == "circle"@ || local == "ellipse"@ {
        seq!["cx"@, "cy"@]
    } else if local == "line"@ {
        seq!["x1"@, "y1"@, "x2"@, "y2"@]
    } else {
        seq![]
    }
}

/// Position attributes that default to `0` when absent, per element. A translation has to be
/// written out for them: an omitted `x` is not the same as `x="0"` once the artwork moves.
pub fn implicit_origins(local: &str) -> (r: &'static [&'static str])
    ensures
        r@.map_values(|s: &str| s@) == spec_implicit_origins(local@),
{
    let r: &'static [&'static str] = if str_eq(local, "rect") || str_eq(local, "image") || str_eq(
        local,
        "use",
    ) || str_eq(local, "svg") || str_eq(local, "foreignObject") {
        &["x", "y"]
    } else if str_eq(local, "circle") || str_eq(local, "ellipse") {
        &["cx", "cy"]
    } else if str_eq(local, "line") {
        &["x1", "y1", "x2", "y2"]
    } else {
        &[]
    };
    assert(r@.map_values(|s: &str| s@) =~= spec_implicit_origins(local@));
    r
}

/// Whether `key` is among the texts of `present`.
fn contains_key(present: &Vec<String>, key: &str) -> (r: bool)
    ensures
        r == strings_view(present@).contains(key@),
{
    let ghost names = strings_view(present@);
    let mut k: usize = 0;
    while k < present.len()
        invariant
            names == strings_view(present@),
            k <= present.len(),
            forall|j: int| 0 <= j < k ==> names[j] != key@,
        decreases present.len() - k,
    {
        if str_eq(present[k].as_str(), key) {
            assert(names[k as int] == key@);
            return true;
        }
        k += 1;
    }
    assert(!names.contains(key@)) by {
        if names.contains(key@) {
            let j = choose|j: int| 0 <= j < names.len() && names[j] == key@;
            assert(names[j] != key@);
        }
    }
    false
}

/// The [`implicit_origins`] of an element whose attributes leave them out, given the names of the
/// attributes it has: the origins a translation has to write out, in order.
pub fn missing_origins(local: &str, present: &Vec<String>) -> (r: Vec<&'static str>)
    ensures
        r@.map_values(|s: &str| s@) == spec_implicit_origins(local@).filter(
            |k: Seq<char>| !strings_view(present@).contains(k),
        ),
{
    let origins = implicit_origins(local);
    let ghost all = spec_implicit_origins(local@);
    let ghost keep = |k: Seq<char>| !strings_view(present@).contains(k);
    let mut r: Vec<&'static str> = Vec::new();
    let mut i: usize = 0;
    while i < origins.len()
        invariant
            all == spec_implicit_origins(local@),
            keep == (|k: Seq<char>| !strings_view(present@).contains(k)),
            origins@.map_values(|s: &str| s@) == all,
            i <= origins.len(),
            r@.map_values(|s: &str| s@) == all.take(i as int).filter(keep),
        decreases origins.len() - i,
    {
        let key = origins[i];
        assert(all[i as int] == key@);
        let ghost upto = all.take(i + 1);
        assert(upto.drop_last() =~= all.take(i as int));
        assert(upto.last() == key@);
        assert(upto.filter(keep) == (if keep(key@) {
            all.take(i as int).filter(keep).push(key@)
        } else {
            all.take(i as int).filter(keep)
        })) by {
            reveal(Seq::filter);
        }
        let ghost before = r@;
        if !contains_key(present, key) {
            r.push(key);
            assert(r@.map_values(|s: &str| s@) =~= before.map_values(|s: &str| s@).push(key@));
        }
        i += 1;
    }
    assert(all.take(origins.len() as int) =~= all);
    r
}

/// What an affine does to one attribute.
#[derive(Clone, Copy, Debug, PartialEq, Eq, Structural)]
pub enum Role {
    /// A `transform` list, conjugated by the affine.
    Transform,
    /// Path data, every point of it moved.
    PathData,
    /// A list of points, each moved.
    Points,
    /// A list of lengths or offsets, each scaled.
    LengthList,
    /// A horizontal position: scaled, then translated by the horizontal offset.
    PositionX,
    /// A vertical position: scaled, then translated by the vertical offset.
    PositionY,
    /// One length: scaled.
    Length,
    /// Anything else: kept as it is.
    Kept,
}

/// The role of the attribute named `key`.
pub open spec fn spec_role(key: Seq<char>) -> Role {
    if key == "transform"@ || key == "gradientTransform"@ || key == "patternTransform"@ {
        Role::Transform
    } else if key == "d"@ {
        Role::PathData
    } else if key == "points"@ {
        Role::Points
    } else if key == "stroke-dasharray"@ || key == "dx"@ || key == "dy"@ {
        Role::LengthList
    } else if key == "x"@ || key == "cx"@ || key == "x1"@ || key == "x2"@ || key == "fx"@ {
        Role::PositionX
    } else if key == "y"@ || key == "cy"@ || key == "y1"@ || key == "y2"@ || key == "fy"@ {
        Role::PositionY
    } else if key == "width"@ || key == "height"@ || key == "r"@ || key == "rx"@ || key == "ry"@
        || key == "stroke-width"@ || key == "stroke-dashoffset"@ || key == "font-size"@ {
        Role::Length
    } else {
        Role::Kept
    }
}

/// What the affine does to the attribute named `key`: position components get `s*n + t`,
/// lengths and relative offsets get `s*n`, transforms are conjugated, and the rest is kept.
pub fn role(key: &str) -> (r: Role)
    ensures
        r == spec_role(key@),
{
    if str_eq(key, "transform") || str_eq(key, "gradientTransform") || str_eq(key, "patternTransform") {
        Role::Transform
    } else if str_eq(key, "d") {
        Role::PathData
    } else if str_eq(key, "points") {
        Role::Points
    } else if str_eq(key, "stroke-dasharray") || str_eq(key, "dx") || str_eq(key, "dy") {
        Role::LengthList
    } else if str_eq(key, "x") || str_eq(key, "cx") || str_eq(key, "x1") || str_eq(key, "x2")
        || str_eq(key, "fx") {
        Role::PositionX
    } else if str_eq(key, "y") || str_eq(key, "cy") || str_eq(key, "y1") || str_eq(key, "y2")
        || str_eq(key, "fy") {
        Role::PositionY
    } else if str_eq(key, "width") || str_eq(key, "height") || str_eq(key, "r") || str_eq(key, "rx")
        || str_eq(key, "ry") || str_eq(key, "stroke-width") || str_eq(key, "stroke-dashoffset")
        || str_eq(key, "font-size") {
        Role::Length
    } else {
        Role::Kept
    }
}

/// Whether an [`implicit_origins`] attribute is a vertical one, which carries the vertical
/// offset of a translation; the others carry the horizontal one.
pub open spec fn spec_is_vertical(key: Seq<char>) -> bool {
    key == "y"@ || key == "cy"@ || key == "y1"@ || key == "y2"@
}

/// Whether the attribute named `key`, written out for an omitted origin, takes the vertical
/// offset of the translation.
pub fn is_vertical(key: &str) -> (r: bool)
    ensures
        r == spec_is_vertical(key@),
{
    str_eq(key, "y") || str_eq(key, "cy") || str_eq(key, "y1") || str_eq(key, "y2")
}

/// The attribute that says in which units a gradient or a pattern gives its coordinates, for
/// an element with local name `local`; `None` for any other element.
pub open spec fn spec_units_attribute(local: Seq<char>) -> Option<Seq<char>> {
    if local == "pattern"@ {
        Some("patternUnits"@)
    } else if local == "linearGradient"@ || local == "radialGradient"@ {
        Some("gradientUnits"@)
    } else {
        None
    }
}

/// The text of an optional string.
pub open spec fn str_opt(o: Option<&str>) -> Option<Seq<char>> {
    match o {
        Some(s) => Some(s@),
        None => None,
    }
}

/// The attribute that names the coordinate units of a gradient or a pattern.
pub fn units_attribute(local: &str) -> (r: Option<&'static str>)
    ensures
        str_opt(r) == spec_units_attribute(local@),
{
    if str_eq(local, "pattern") {
        Some("patternUnits")
    } else if str_eq(local, "linearGradient") || str_eq(local, "radialGradient") {
        Some("gradientUnits")
    } else {
        None
    }
}

/// Whether the coordinates of an element are in user space, so that the affine applies to them.
pub open spec fn spec_in_user_space(local: Seq<char>, units: Option<Seq<char>>) -> bool {
    match spec_units_attribute(local) {
        None => true,
        Some(_) => units == Some("userSpaceOnUse"@),
    }
}

/// Whether the affine applies to the coordinates of an element with local name `local`, whose
/// [`units_attribute`] has the value `units`. The default units of a gradient or a pattern are
/// fractions of the bounding box, which no scale of the canvas moves, and the same holds of the
/// transform that goes with them.
pub fn in_user_space(local: &str, units: Option<&str>) -> (r: bool)
    ensures
        r == spec_in_user_space(local@, str_opt(units)),
{
    match units_attribute(local) {
        None => true,
        Some(_) => match units {
            Some(u) => str_eq(u, "userSpaceOnUse"),
            None => false,
        },
    }
}

/// One piece of a `transform` list.
#[derive(Debug)]
pub enum TransformPart {
    /// A primitive: its name, trimmed, and the text between its brackets.
    Call(String, String),
    /// Text from which no further primitive reads: one without an opening or a closing bracket.
    Rest(String),
}

/// The texts of a [`TransformPart`].
pub open spec fn part_view(p: TransformPart) -> (Seq<char>, Option<Seq<char>>) {
    match p {
        TransformPart::Call(name, args) => (name@, Some(args@)),
        TransformPart::Rest(text) => (text@, None),
    }
}

/// The first index from `i` on whose character is no separator, or the length.
pub open spec fn separators_end(s: Seq<char>, i: int) -> int
    decreases s.len() - i,
{
    if i < 0 || i >= s.len() || !separator(s[i]) {
        i
    } else {
        separators_end(s, i + 1)
    }
}

proof fn lemma_separators_end(s: Seq<char>, i: int)
    requires
        0 <= i <= s.len(),
    ensures
        i <= separators_end(s, i) <= s.len(),
    decreases s.len() - i,
{
    if i < s.len() && separator(s[i]) {
        lemma_separators_end(s, i + 1);
    }
}

/// The pieces of a `transform` list, each as its text and, for a primitive, the text of its
/// arguments. Separators before a piece are skipped; a primitive runs from its name to the first
/// `)` after its `(`, and its name is what stands before the `(`, trimmed. Text that holds no
/// `(` with a `)` after it ends the list as one piece of its own.
pub open spec fn spec_transform_parts(v: Seq<char>) -> Seq<(Seq<char>, Option<Seq<char>>)>
    decreases v.len(),
{
    let t = v.skip(separators_end(v, 0));
    if separators_end(v, 0) < 0 || separators_end(v, 0) > v.len() || t.len() == 0 {
        Seq::empty()
    } else {
        match find_from(t, seq!['('], 0) {
            None => seq![(t, None)],
            Some(open) => match find_from(t, seq![')'], open + 1) {
                None => seq![(t, None)],
                Some(close) => if open + 1 <= close < t.len() {
                    seq![(trim_ends(t.take(open), false), Some(t.subrange(open + 1, close)))]
                        + spec_transform_parts(t.skip(close + 1))
                } else {
                    seq![(t, None)]
                },
            },
        }
    }
}

/// Read a `transform` list into its pieces: each primitive as its trimmed name and the text of
/// its arguments, and, where text follows that holds no complete primitive, that text whole.
/// Reading the numbers of the arguments is left to the caller.
pub fn transform_parts(v: &str) -> (r: Vec<TransformPart>)
    ensures
        r@.map_values(|p: TransformPart| part_view(p)) == spec_transform_parts(v@),
{
    let mut cur = chars_of(v);
    let mut done: Vec<TransformPart> = Vec::new();
    let open_bracket: Vec<char> = vec!['('];
    let close_bracket: Vec<char> = vec![')'];
    proof {
        assert(open_bracket@ =~= seq!['(']);
        assert(close_bracket@ =~= seq![')']);
    }
    loop
        invariant_except_break
            done@.map_values(|p: TransformPart| part_view(p)) + spec_transform_parts(cur@)
                == spec_transform_parts(v@),
        invariant
            open_bracket@ == seq!['('],
            close_bracket@ == seq![')'],
        ensures
            done@.map_values(|p: TransformPart| part_view(p)) == spec_transform_parts(v@),
        decreases cur.len(),
    {
        let ghost parts = done@.map_values(|p: TransformPart| part_view(p));
        proof {
            lemma_separators_end(cur@, 0);
        }
        let mut i: usize = 0;
        while i < cur.len() && (cur[i] == ',' || cur[i] == ' ' || cur[i] == '\t' || cur[i] == '\n'
            || cur[i] == '\r')
            invariant
                i <= cur.len(),
                separators_end(cur@, i as int) == separators_end(cur@, 0),
            decreases cur.len() - i,
        {
            i += 1;
        }
        let t = slice_of(&cur, i, cur.len());
        assert(t@ =~= cur@.skip(i as int));
        if t.len() == 0 {
            assert(spec_transform_parts(cur@) =~= Seq::empty());
            assert(parts + Seq::empty() =~= parts);
            break;
        }
        let open = find_chars(&t, &open_bracket, 0);
        match open {
            None => {
                let ghost rest = t@;
                done.push(TransformPart::Rest(string_of(&t)));
                assert(done@.map_values(|p: TransformPart| part_view(p)) =~= parts.push((rest, None)));
                assert(spec_transform_parts(cur@) =~= seq![(rest, None)]);
                assert(parts + seq![(rest, None)] =~= parts.push((rest, None)));
                break;
            },
            Some(o) => {
                proof {
                    lemma_find_from(t@, seq!['('], 0);
                    lemma_find_from(t@, seq![')'], o + 1);
                }
                let close = find_chars(&t, &close_bracket, o + 1);
                match close {
                    None => {
                        let ghost rest = t@;
                        done.push(TransformPart::Rest(string_of(&t)));
                        assert(done@.map_values(|p: TransformPart| part_view(p)) =~= parts.push(
                            (rest, None),
                        ));
                        assert(spec_transform_parts(cur@) =~= seq![(rest, None)]);
                        assert(parts + seq![(rest, None)] =~= parts.push((rest, None)));
                        break;
                    },
                    Some(c) => {
                        let head = slice_of(&t, 0, o);
                        assert(head@ =~= t@.take(o as int));
                        let name = trim_chars(&head, false);
                        let args = slice_of(&t, o + 1, c);
                        let ghost piece = (name@, Some(args@));
                        done.push(TransformPart::Call(string_of(&name), string_of(&args)));
                        let next = slice_of(&t, c + 1, t.len());
                        assert(next@ =~= t@.skip(c + 1));
                        assert(done@.map_values(|p: TransformPart| part_view(p)) =~= parts.push(
                            piece,
                        ));
                        assert(spec_transform_parts(cur@) =~= seq![piece] + spec_transform_parts(
                            next@,
                        ));
                        assert(parts.push(piece) + spec_transform_parts(next@) =~= parts + (seq![
                            piece,
                        ] + spec_transform_parts(next@)));
                        cur = next;
                    },
                }
            },
        }
    }
    done
}

/// Write one command of path data: its letter, upper case when absolute and lower case when
/// relative, then a space.
pub fn cmd(out: &mut String, upper: char, abs: bool)
    ensures
        final(out)@ == old(out)@ + seq![
            if abs {
                upper
            } else {
                ascii_lower(upper)
            },
            ' ',
        ],
{
    let letter = if abs {
        upper
    } else {
        to_ascii_lower(upper)
    };
    let mut v: Vec<char> = Vec::new();
    v.push(letter);
    v.push(' ');
    let text = string_of(&v);
    out.append(text.as_str());
    assert(v@ =~= seq![letter, ' ']);
}

} // verus!
