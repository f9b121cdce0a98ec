//! Numbers as text: where the number at the head of a length ends, which unit follows it, and
//! which items a list of numbers holds. The numbers themselves are read and written in floating
//! point beside the library.

use vstd::prelude::*;

use crate::text::{chars_of, string_of, trim_chars, trim_ends};

verus! {

/// Whether `c` separates the items of a list of numbers.
pub open spec fn separator(c: char) -> bool {
    c == ',' || c == ' ' || c == '\t' || c == '\n' || c == '\r'
}

/// Whether `c` can belong to the number at the head of a length: an ASCII digit, a point, a
/// sign or an exponent mark.
pub open spec fn number_char(c: char) -> bool {
    ('0' <= c && c <= '9') || c == '.' || c == '-' || c == '+' || c == 'e' || c == 'E'
}

/// The first index from `i` on whose character is no number character, or the length.
pub open spec fn number_end(s: Seq<char>, i: int) -> int
    decreases s.len() - i,
{
    if i < 0 || i >= s.len() || !number_char(s[i]) {
        i
    } else {
        number_end(s, i + 1)
    }
}

/// A length split into the text of its number and its unit: white space is trimmed, the number
/// is the longest head of number characters, and the unit is the rest, trimmed.
pub open spec fn spec_split_length(v: Seq<char>) -> (Seq<char>, Seq<char>) {
    let t = trim_ends(v, false);
    let e = number_end(t, 0);
    (t.take(e), trim_ends(t.skip(e), false))
}

proof fn lemma_number_end(s: Seq<char>, i: int)
    requires
        0 <= i <= s.len(),
    ensures
        i <= number_end(s, i) <= s.len(),
    decreases s.len() - i,
{
    if i < s.len() && number_char(s[i]) {
        lemma_number_end(s, i + 1);
    }
}

/// Split a length into the text of its number and its unit; the unit is empty for a unitless
/// value. Reading the number is left to the caller, which refuses the length where the text is
/// no number.
pub fn split_length(v: &str) -> (r: (String, String))
    ensures
        (r.0@, r.1@) == spec_split_length(v@),
{
    let t = trim_chars(&chars_of(v), false);
    proof {
        lemma_number_end(t@, 0);
    }
    let mut e: usize = 0;
    while e < t.len() && (('0' <= t[e] && t[e] <= '9') || t[e] == '.' || t[e] == '-' || t[e] == '+'
        || t[e] == 'e' || t[e] == 'E')
        invariant
            e <= t.len(),
            number_end(t@, e as int) == number_end(t@, 0),
        decreases t.len() - e,
    {
        e += 1;
    }
    let mut number: Vec<char> = Vec::new();
    let mut rest: Vec<char> = Vec::new();
    let mut k: usize = 0;
    while k < t.len()
        invariant
            e <= t.len(),
            k <= t.len(),
            number@ == t@.take(if k < e { k as int } else { e as int }),
            rest@ == (if k < e { Seq::empty() } else { t@.subrange(e as int, k as int) }),
        decreases t.len() - k,
    {
        if k < e {
            number.push(t[k]);
            assert(t@.take(k + 1) =~= t@.take(k as int).push(t@[k as int]));
        } else {
            rest.push(t[k]);
            assert(t@.subrange(e as int, k + 1) =~= t@.subrange(e as int, k as int).push(
                t@[k as int],
            ));
        }
        k += 1;
    }
    assert(rest@ =~= t@.skip(e as int));
    let unit = trim_chars(&rest, false);
    (string_of(&number), string_of(&unit))
}

/// What the unit of a length lets a transformation do with it.
#[derive(Clone, Copy, Debug, PartialEq, Eq, Structural)]
pub enum Unit {
    /// No unit: a plain number of user units.
    Plain,
    /// `px`, the same user units spelled out.
    Px,
    /// Any other unit, which a transformation leaves alone.
    Other,
}

/// The kind of a unit as [`split_length`] gives it.
pub open spec fn spec_unit_of(unit: Seq<char>) -> Unit {
    if unit.len() == 0 {
        Unit::Plain
    } else if unit == "px"@ {
        Unit::Px
    } else {
        Unit::Other
    }
}

/// The kind of a unit: only plain numbers and `px` are user units that a scale may touch.
pub fn unit_of(unit: &str) -> (r: Unit)
    ensures
        r == spec_unit_of(unit@),
{
    let u = chars_of(unit);
    if u.len() == 0 {
        Unit::Plain
    } else if u.len() == 2 && u[0] == 'p' && u[1] == 'x' {
        proof {
            reveal_strlit("px");
        }
        assert(u@ =~= "px"@);
        Unit::Px
    } else {
        proof {
            reveal_strlit("px");
        }
        assert(u@ != "px"@) by {
            if u@ == "px"@ {
                assert(u@[0] == 'p' && u@[1] == 'x');
            }
        }
        Unit::Other
    }
}

/// The items finished among the first `n` characters of `s`, and the item still open after them.
pub open spec fn items_upto(s: Seq<char>, n: int) -> (Seq<Seq<char>>, Seq<char>)
    decreases n,
{
    if n <= 0 {
        (Seq::empty(), Seq::empty())
    } else {
        let (done, open) = items_upto(s, n - 1);
        if separator(s[n - 1]) {
            if open.len() > 0 {
                (done.push(open), Seq::empty())
            } else {
                (done, Seq::empty())
            }
        } else {
            (done, open.push(s[n - 1]))
        }
    }
}

/// The items of a list: the text split at every separator, with the empty pieces dropped.
pub open spec fn spec_list_items(s: Seq<char>) -> Seq<Seq<char>> {
    let (done, open) = items_upto(s, s.len() as int);
    if open.len() > 0 {
        done.push(open)
    } else {
        done
    }
}

/// The pieces `ps`, one after the other.
pub open spec fn concat(ps: Seq<Seq<char>>) -> Seq<char>
    decreases ps.len(),
{
    if ps.len() == 0 {
        Seq::empty()
    } else {
        concat(ps.drop_last()) + ps.last()
    }
}

/// Whether `p` can be an item of a list: it is not empty and holds no separator.
pub open spec fn list_item(p: Seq<char>) -> bool {
    p.len() > 0 && forall|j: int| 0 <= j < p.len() ==> !separator(#[trigger] p[j])
}

proof fn lemma_items_upto(s: Seq<char>, n: int)
    requires
        0 <= n <= s.len(),
    ensures
        ({
            let (done, open) = items_upto(s, n);
            &&& forall|k: int| 0 <= k < done.len() ==> list_item(#[trigger] done[k])
            &&& forall|j: int| 0 <= j < open.len() ==> !separator(#[trigger] open[j])
            &&& concat(done) + open == s.take(n).filter(|c: char| !separator(c))
        }),
    decreases n,
{
    reveal(Seq::filter);
    if n == 0 {
        assert(s.take(0) =~= Seq::<char>::empty());
        assert(concat(Seq::<Seq<char>>::empty()) + Seq::<char>::empty() =~= Seq::<char>::empty());
    } else {
        lemma_items_upto(s, n - 1);
        let (done, open) = items_upto(s, n - 1);
        let c = s[n - 1];
        let f = |c: char| !separator(c);
        assert(s.take(n).drop_last() =~= s.take(n - 1));
        assert(s.take(n).last() == c);
        let before = s.take(n - 1).filter(f);
        if separator(c) {
            assert(s.take(n).filter(f) == before);
            if open.len() > 0 {
                let d2 = done.push(open);
                assert(d2.drop_last() =~= done);
                assert(concat(d2) == concat(done) + open);
                assert(concat(d2) + Seq::<char>::empty() =~= concat(d2));
                assert forall|k: int| 0 <= k < d2.len() implies list_item(#[trigger] d2[k]) by {
                    if k < done.len() {
                        assert(d2[k] == done[k]);
                    }
                }
            } else {
                assert(concat(done) + Seq::<char>::empty() =~= concat(done) + open);
            }
        } else {
            assert(s.take(n).filter(f) == before.push(c));
            assert(concat(done) + open.push(c) =~= (concat(done) + open).push(c));
        }
    }
}

/// The items of a list are the runs of characters between its separators: none is empty or holds
/// a separator, and one after the other they spell out the list with its separators left out.
pub proof fn lemma_list_items_spell_the_list(s: Seq<char>)
    ensures
        forall|k: int| 0 <= k < spec_list_items(s).len() ==> list_item(#[trigger] spec_list_items(s)[k]),
        concat(spec_list_items(s)) == s.filter(|c: char| !separator(c)),
{
    lemma_items_upto(s, s.len() as int);
    let (done, open) = items_upto(s, s.len() as int);
    assert(s.take(s.len() as int) =~= s);
    if open.len() > 0 {
        let d2 = done.push(open);
        assert(d2.drop_last() =~= done);
        assert forall|k: int| 0 <= k < d2.len() implies list_item(#[trigger] d2[k]) by {
            if k < done.len() {
                assert(d2[k] == done[k]);
            }
        }
    } else {
        assert(concat(done) + open =~= concat(done));
    }
}

/// The items of a list of numbers such as a `viewBox`, `points` or `stroke-dasharray`: split at
/// commas and white space, empty pieces dropped.
pub fn list_items(v: &str) -> (r: Vec<String>)
    ensures
        r@.map_values(|s: String| s@) == spec_list_items(v@),
{
    let s = chars_of(v);
    let mut done: Vec<String> = Vec::new();
    let mut open: Vec<char> = Vec::new();
    let mut k: usize = 0;
    while k < s.len()
        invariant
            k <= s.len(),
            s@ == v@,
            (done@.map_values(|x: String| x@), open@) == items_upto(s@, k as int),
        decreases s.len() - k,
    {
        let c = s[k];
        if c == ',' || c == ' ' || c == '\t' || c == '\n' || c == '\r' {
            if open.len() > 0 {
                let item = string_of(&open);
                let ghost before = done@;
                done.push(item);
                assert(done@.map_values(|x: String| x@) =~= before.map_values(|x: String| x@).push(
                    open@,
                ));
                open = Vec::new();
            }
        } else {
            open.push(c);
        }
        k += 1;
    }
    if open.len() > 0 {
        let item = string_of(&open);
        let ghost before = done@;
        done.push(item);
        assert(done@.map_values(|x: String| x@) =~= before.map_values(|x: String| x@).push(open@));
    }
    done
}

} // verus!
