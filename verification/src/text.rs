//! Character-level helpers over strings.

use vstd::prelude::*;

verus! {

/// The characters of `s`, in order.
pub fn chars_of(s: &str) -> (v: Vec<char>)
    ensures
        v@ == s@,
{
    let mut v: Vec<char> = Vec::new();
    for c in it: s.chars()
        invariant
            v@ == it.seq().take(it.index() as int),
    {
        v.push(c);
    }
    v
}


/// Whether two strings hold the same characters.
pub fn str_eq(a: &str, b: &str) -> (r: bool)
    ensures
        r == (a@ == b@),
{
    let x = chars_of(a);
    let y = chars_of(b);
    if x.len() != y.len() {
        return false;
    }
    let mut i: usize = 0;
    while i < x.len()
        invariant
            x@ == a@,
            y@ == b@,
            x.len() == y.len(),
            i <= x.len(),
            forall|k: int| 0 <= k < i ==> x@[k] == y@[k],
        decreases x.len() - i,
    {
        if x[i] != y[i] {
            return false;
        }
        i += 1;
    }
    assert(x@ =~= y@);
    true
}


/// The text of a sequence of characters, collected by `std`.
///
/// Claimed: collecting characters into a `String` keeps them, in order.
#[verifier::external_body]
pub fn string_of(v: &Vec<char>) -> (r: String)
    ensures
        r@ == v@,
{
    v.iter().collect()
}

/// Whether `s` starts with `p`.
pub open spec fn starts_with(s: Seq<char>, p: Seq<char>) -> bool {
    p.len() <= s.len() && s.subrange(0, p.len() as int) == p
}

/// What follows `p` in `s`, when `s` starts with `p`.
pub fn strip_prefix(s: &str, p: &str) -> (r: Option<String>)
    ensures
        match r {
            Some(rest) => starts_with(s@, p@) && rest@ == s@.skip(p@.len() as int),
            None => !starts_with(s@, p@),
        },
{
    let x = chars_of(s);
    let y = chars_of(p);
    if y.len() > x.len() {
        return None;
    }
    let mut i: usize = 0;
    while i < y.len()
        invariant
            x@ == s@,
            y@ == p@,
            y.len() <= x.len(),
            i <= y.len(),
            forall|k: int| 0 <= k < i ==> x@[k] == y@[k],
        decreases y.len() - i,
    {
        if x[i] != y[i] {
            assert(s@.subrange(0, p@.len() as int)[i as int] != p@[i as int]);
            return None;
        }
        i += 1;
    }
    assert(s@.subrange(0, p@.len() as int) =~= p@);
    let mut rest: Vec<char> = Vec::new();
    let mut k: usize = y.len();
    while k < x.len()
        invariant
            x@ == s@,
            y.len() <= k <= x.len(),
            rest@ == s@.subrange(y.len() as int, k as int),
        decreases x.len() - k,
    {
        rest.push(x[k]);
        assert(s@.subrange(y.len() as int, k + 1) =~= s@.subrange(y.len() as int, k as int).push(
            x@[k as int],
        ));
        k += 1;
    }
    assert(rest@ =~= s@.skip(p@.len() as int));
    Some(string_of(&rest))
}

/// The index of the first `:` from `i` on, or the length.
pub open spec fn colon_from(s: Seq<char>, i: int) -> int
    decreases s.len() - i,
{
    if i < 0 || i >= s.len() || s[i] == ':' {
        i
    } else {
        colon_from(s, i + 1)
    }
}

/// The prefix of a qualified name, `svg:path` -> `svg`.
pub open spec fn name_prefix(name: Seq<char>) -> Option<Seq<char>> {
    let c = colon_from(name, 0);
    if c < name.len() {
        Some(name.subrange(0, c))
    } else {
        None
    }
}

proof fn lemma_colon_from(s: Seq<char>, i: int)
    requires
        0 <= i <= s.len(),
    ensures
        i <= colon_from(s, i) <= s.len(),
        colon_from(s, i) < s.len() ==> s[colon_from(s, i)] == ':',
        forall|j: int| i <= j < colon_from(s, i) ==> s[j] != ':',
    decreases s.len() - i,
{
    if i < s.len() && s[i] != ':' {
        lemma_colon_from(s, i + 1);
    }
}

/// A qualified name is its prefix, a colon and its local part, and the prefix holds no colon; a
/// name without a prefix holds no colon and is its own local part.
pub proof fn lemma_name_is_prefix_and_local(name: Seq<char>)
    ensures
        match name_prefix(name) {
            Some(p) => name == p + seq![':'] + local_part(name) && !p.contains(':'),
            None => local_part(name) == name && !name.contains(':'),
        },
{
    lemma_colon_from(name, 0);
    let c = colon_from(name, 0);
    if c < name.len() {
        let p = name.subrange(0, c);
        assert(name =~= p + seq![':'] + name.skip(c + 1));
        assert(!p.contains(':')) by {
            if p.contains(':') {
                let j = choose|j: int| 0 <= j < p.len() && p[j] == ':';
                assert(name[j] == ':');
            }
        }
    }
}

/// The prefix of a qualified name, `svg:path` -> `svg`.
pub fn prefix_of(name: &str) -> (r: Option<String>)
    ensures
        match r {
            Some(p) => name_prefix(name@) == Some(p@),
            None => name_prefix(name@) is None,
        },
{
    let x = chars_of(name);
    let mut i: usize = 0;
    proof {
        lemma_colon_from(name@, 0);
    }
    while i < x.len() && x[i] != ':'
        invariant
            x@ == name@,
            i <= x.len(),
            colon_from(name@, i as int) == colon_from(name@, 0),
        decreases x.len() - i,
    {
        i += 1;
    }
    if i == x.len() {
        return None;
    }
    let mut p: Vec<char> = Vec::new();
    let mut k: usize = 0;
    while k < i
        invariant
            x@ == name@,
            i < x.len(),
            k <= i,
            p@ == name@.subrange(0, k as int),
        decreases i - k,
    {
        p.push(x[k]);
        assert(name@.subrange(0, k + 1) =~= name@.subrange(0, k as int).push(x@[k as int]));
        k += 1;
    }
    Some(string_of(&p))
}

/// The local part of a qualified name, `svg:path` -> `path`: what follows the first `:`, or the
/// whole name when it has none.
pub open spec fn local_part(name: Seq<char>) -> Seq<char> {
    let c = colon_from(name, 0);
    if c < name.len() {
        name.skip(c + 1)
    } else {
        name
    }
}

/// The local part of a qualified name, as `quick_xml::name::QName::local_name` gives it.
pub fn local_name(name: &str) -> (r: String)
    ensures
        r@ == local_part(name@),
{
    let x = chars_of(name);
    let mut i: usize = 0;
    proof {
        lemma_colon_from(name@, 0);
    }
    while i < x.len() && x[i] != ':'
        invariant
            x@ == name@,
            i <= x.len(),
            colon_from(name@, i as int) == colon_from(name@, 0),
        decreases x.len() - i,
    {
        i += 1;
    }
    let from: usize = if i < x.len() {
        i + 1
    } else {
        0
    };
    let mut v: Vec<char> = Vec::new();
    let mut k: usize = from;
    while k < x.len()
        invariant
            x@ == name@,
            from <= k <= x.len(),
            v@ == name@.subrange(from as int, k as int),
        decreases x.len() - k,
    {
        v.push(x[k]);
        assert(name@.subrange(from as int, k + 1) =~= name@.subrange(from as int, k as int).push(
            x@[k as int],
        ));
        k += 1;
    }
    assert(v@ =~= local_part(name@));
    string_of(&v)
}

/// Whether `char::is_alphanumeric` holds of `c`.
pub uninterp spec fn char_alphanumeric(c: char) -> bool;

/// `char::is_alphanumeric`.
///
/// Claimed: the result is a function of `c`. Which characters it holds of is not stated.
#[verifier::external_body]
pub fn is_alphanumeric(c: char) -> (r: bool)
    ensures
        r == char_alphanumeric(c),
{
    c.is_alphanumeric()
}

/// Whether `char::is_whitespace` holds of `c`: whether `c` has the Unicode `White_Space`
/// property, which these code points have.
pub open spec fn char_whitespace(c: char) -> bool {
    ||| '\u{9}' <= c <= '\u{d}'
    ||| c == ' '
    ||| c == '\u{85}'
    ||| c == '\u{a0}'
    ||| c == '\u{1680}'
    ||| '\u{2000}' <= c <= '\u{200a}'
    ||| c == '\u{2028}'
    ||| c == '\u{2029}'
    ||| c == '\u{202f}'
    ||| c == '\u{205f}'
    ||| c == '\u{3000}'
}

/// `char::is_whitespace`: whether `c` has the Unicode `White_Space` property.
pub fn is_whitespace(c: char) -> (r: bool)
    ensures
        r == char_whitespace(c),
{
    ('\u{9}' <= c && c <= '\u{d}') || c == ' ' || c == '\u{85}' || c == '\u{a0}' || c
        == '\u{1680}' || ('\u{2000}' <= c && c <= '\u{200a}') || c == '\u{2028}' || c
        == '\u{2029}' || c == '\u{202f}' || c == '\u{205f}' || c == '\u{3000}'
}

/// Whether `c` is one that a trim takes off: white space, or a quote when `quotes` is set.
pub open spec fn trimmed_char(c: char, quotes: bool) -> bool {
    if quotes {
        c == '"' || c == '\''
    } else {
        char_whitespace(c)
    }
}

/// The first index from `i` on whose character a trim keeps, or the length.
pub open spec fn lead_end(s: Seq<char>, quotes: bool, i: int) -> int
    decreases s.len() - i,
{
    if i < 0 || i >= s.len() || !trimmed_char(s[i], quotes) {
        i
    } else {
        lead_end(s, quotes, i + 1)
    }
}

/// The end of `s` up to `j` once a trim takes the characters before `j` off.
pub open spec fn trail_start(s: Seq<char>, quotes: bool, j: int) -> int
    decreases j,
{
    if j <= 0 || j > s.len() || !trimmed_char(s[j - 1], quotes) {
        j
    } else {
        trail_start(s, quotes, j - 1)
    }
}

/// `s` with the characters a trim takes off gone from both ends: `str::trim` for white space,
/// `str::trim_matches` with the two quotes otherwise.
pub open spec fn trim_ends(s: Seq<char>, quotes: bool) -> Seq<char> {
    let a = lead_end(s, quotes, 0);
    let b = trail_start(s, quotes, s.len() as int);
    if a < b {
        s.subrange(a, b)
    } else {
        Seq::empty()
    }
}

proof fn lemma_lead_end(s: Seq<char>, quotes: bool, i: int)
    requires
        0 <= i <= s.len(),
    ensures
        i <= lead_end(s, quotes, i) <= s.len(),
        forall|j: int| i <= j < lead_end(s, quotes, i) ==> trimmed_char(#[trigger] s[j], quotes),
        lead_end(s, quotes, i) < s.len() ==> !trimmed_char(s[lead_end(s, quotes, i)], quotes),
    decreases s.len() - i,
{
    if i < s.len() && trimmed_char(s[i], quotes) {
        lemma_lead_end(s, quotes, i + 1);
    }
}

proof fn lemma_trail_start(s: Seq<char>, quotes: bool, j: int)
    requires
        0 <= j <= s.len(),
    ensures
        0 <= trail_start(s, quotes, j) <= j,
        forall|m: int| trail_start(s, quotes, j) <= m < j ==> trimmed_char(#[trigger] s[m], quotes),
        trail_start(s, quotes, j) > 0 ==> !trimmed_char(s[trail_start(s, quotes, j) - 1], quotes),
    decreases j,
{
    if j > 0 && trimmed_char(s[j - 1], quotes) {
        lemma_trail_start(s, quotes, j - 1);
    }
}

/// A trim takes off exactly the ends: what it keeps is one piece of `s`, everything before and
/// after that piece is a character a trim takes off, and a piece it keeps neither starts nor ends
/// with one.
pub proof fn lemma_trim_takes_off_the_ends(s: Seq<char>, quotes: bool) -> (ab: (int, int))
    ensures
        0 <= ab.0 <= ab.1 <= s.len(),
        trim_ends(s, quotes) == s.subrange(ab.0, ab.1),
        forall|j: int| 0 <= j < ab.0 ==> trimmed_char(#[trigger] s[j], quotes),
        forall|j: int| ab.1 <= j < s.len() ==> trimmed_char(#[trigger] s[j], quotes),
        ab.0 < ab.1 ==> !trimmed_char(s[ab.0], quotes) && !trimmed_char(s[ab.1 - 1], quotes),
{
    lemma_lead_end(s, quotes, 0);
    lemma_trail_start(s, quotes, s.len() as int);
    let a = lead_end(s, quotes, 0);
    let b = trail_start(s, quotes, s.len() as int);
    if a < b {
        (a, b)
    } else {
        assert(s.subrange(b, b) =~= Seq::<char>::empty());
        (b, b)
    }
}

/// Whether a trim takes `c` off.
fn is_trimmed(c: char, quotes: bool) -> (r: bool)
    ensures
        r == trimmed_char(c, quotes),
{
    if quotes {
        c == '"' || c == '\''
    } else {
        is_whitespace(c)
    }
}

/// `s` with white space, or quotes when `quotes` is set, taken off both ends.
pub fn trim_chars(s: &Vec<char>, quotes: bool) -> (r: Vec<char>)
    ensures
        r@ == trim_ends(s@, quotes),
{
    let mut a: usize = 0;
    proof {
        lemma_lead_end(s@, quotes, 0);
        lemma_trail_start(s@, quotes, s@.len() as int);
    }
    while a < s.len() && is_trimmed(s[a], quotes)
        invariant
            a <= s.len(),
            lead_end(s@, quotes, a as int) == lead_end(s@, quotes, 0),
        decreases s.len() - a,
    {
        a += 1;
    }
    let mut b: usize = s.len();
    while b > 0 && is_trimmed(s[b - 1], quotes)
        invariant
            b <= s.len(),
            trail_start(s@, quotes, b as int) == trail_start(s@, quotes, s@.len() as int),
        decreases b,
    {
        b -= 1;
    }
    let mut v: Vec<char> = Vec::new();
    if a < b {
        let mut k: usize = a;
        while k < b
            invariant
                a <= k <= b <= s.len(),
                v@ == s@.subrange(a as int, k as int),
            decreases b - k,
        {
            v.push(s[k]);
            assert(s@.subrange(a as int, k + 1) =~= s@.subrange(a as int, k as int).push(s@[k as int]));
            k += 1;
        }
    }
    v
}

/// The part of `s` from `a` up to `b`.
pub fn slice_of(s: &Vec<char>, a: usize, b: usize) -> (r: Vec<char>)
    requires
        a <= b <= s.len(),
    ensures
        r@ == s@.subrange(a as int, b as int),
{
    let mut v: Vec<char> = Vec::new();
    let mut k: usize = a;
    while k < b
        invariant
            a <= k <= b <= s.len(),
            v@ == s@.subrange(a as int, k as int),
        decreases b - k,
    {
        v.push(s[k]);
        assert(s@.subrange(a as int, k + 1) =~= s@.subrange(a as int, k as int).push(s@[k as int]));
        k += 1;
    }
    v
}

/// The first index from `p` on where `pat` occurs in `s`.
pub open spec fn find_from(s: Seq<char>, pat: Seq<char>, p: int) -> Option<int>
    decreases s.len() - p,
{
    if p < 0 || p + pat.len() > s.len() {
        None
    } else if s.subrange(p, p + pat.len()) == pat {
        Some(p)
    } else if p >= s.len() {
        None
    } else {
        find_from(s, pat, p + 1)
    }
}

pub proof fn lemma_find_from(s: Seq<char>, pat: Seq<char>, p: int)
    ensures
        find_from(s, pat, p) matches Some(j) ==> p <= j && j + pat.len() <= s.len(),
    decreases s.len() - p,
{
    if p >= 0 && p + pat.len() <= s.len() && s.subrange(p, p + pat.len()) != pat && p < s.len() {
        lemma_find_from(s, pat, p + 1);
    }
}

/// Whether `pat` occurs in `s` at `p`.
pub fn occurs_at(s: &Vec<char>, pat: &Vec<char>, p: usize) -> (r: bool)
    requires
        p + pat.len() <= s.len(),
    ensures
        r == (s@.subrange(p as int, p + pat.len()) == pat@),
{
    let mut k: usize = 0;
    while k < pat.len()
        invariant
            p + pat.len() <= s.len(),
            k <= pat.len(),
            forall|j: int| 0 <= j < k ==> s@[p + j] == pat@[j],
        decreases pat.len() - k,
    {
        if s[p + k] != pat[k] {
            assert(s@.subrange(p as int, p + pat.len())[k as int] != pat@[k as int]);
            return false;
        }
        k += 1;
    }
    assert(s@.subrange(p as int, p + pat.len()) =~= pat@);
    true
}

/// The first index from `p` on where `pat` occurs in `s`.
pub fn find_chars(s: &Vec<char>, pat: &Vec<char>, p: usize) -> (r: Option<usize>)
    ensures
        match r {
            Some(j) => find_from(s@, pat@, p as int) == Some(j as int),
            None => find_from(s@, pat@, p as int) is None,
        },
{
    let mut q: usize = p;
    while q <= s.len() && pat.len() <= s.len() - q
        invariant
            p <= q,
            find_from(s@, pat@, p as int) == find_from(s@, pat@, q as int),
        decreases s.len() + 1 - q,
    {
        if occurs_at(s, pat, q) {
            return Some(q);
        }
        assert(pat.len() > 0) by {
            if pat.len() == 0 {
                assert(s@.subrange(q as int, q as int) =~= pat@);
            }
        }
        q += 1;
    }
    None
}

/// The texts of a sequence of strings.
pub open spec fn strings_view(v: Seq<String>) -> Seq<Seq<char>> {
    v.map_values(|s: String| s@)
}

/// A character as `char::to_ascii_lowercase` gives it.
pub open spec fn ascii_lower(c: char) -> char {
    if 'A' <= c <= 'Z' {
        ((c as u32) + 32) as char
    } else {
        c
    }
}

/// A character in ASCII lower case: an upper-case ASCII letter becomes its lower-case letter, and
/// anything else stays.
pub fn to_ascii_lower(c: char) -> (r: char)
    ensures
        r == ascii_lower(c),
{
    if 'A' <= c && c <= 'Z' {
        let r = ((c as u32) + 32) as u8 as char;
        assert(r == ascii_lower(c)) by {
            assert(((c as u32) + 32) < 128);
        }
        r
    } else {
        c
    }
}

} // verus!
