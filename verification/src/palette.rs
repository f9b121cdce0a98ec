//! The 256-color palette of a legacy icon entry: every color when there are few enough, a median
//! cut when there are not.

use vstd::prelude::*;

verus! {

/// A color without alpha.
pub type Rgb = (u8, u8, u8);

/// A distinct color and how many pixels it covers.
pub type Entry = (Rgb, u32);

/// A palette holds at most this many colors.
pub const PALETTE_LEN: usize = 256;

/// The order colors are listed in: red, then green, then blue.
pub open spec fn rank(c: Rgb) -> int {
    c.0 * 65536 + c.1 * 256 + c.2
}

/// One channel of a color: 0 is red, 1 green, 2 blue.
pub open spec fn chan(c: Rgb, ch: int) -> u8 {
    if ch == 0 {
        c.0
    } else if ch == 1 {
        c.1
    } else {
        c.2
    }
}

/// The order a box is sorted in before it is split on `ch`: by that channel, then by the color.
pub open spec fn chan_rank(c: Rgb, ch: int) -> int {
    chan(c, ch) * 16777216 + rank(c)
}

/// The key entries are sorted by: the color order for a negative `ch`, else the order of a split
/// on channel `ch`.
pub open spec fn key_of(c: Rgb, ch: int) -> int {
    if ch < 0 {
        rank(c)
    } else {
        chan_rank(c, ch)
    }
}

/// The first index from `i` on whose key is not below `k`.
pub open spec fn pos_from(t: Seq<Entry>, ch: int, k: int, i: int) -> int
    decreases t.len() - i,
{
    if i < 0 || i >= t.len() || key_of(t[i].0, ch) >= k {
        i
    } else {
        pos_from(t, ch, k, i + 1)
    }
}

/// Count one more pixel of color `c` in the sorted list `t`.
pub open spec fn add_color(t: Seq<Entry>, c: Rgb) -> Seq<Entry> {
    let p = pos_from(t, -1, rank(c), 0);
    if p < t.len() && t[p].0 == c {
        t.update(p, (c, (t[p].1 + 1) as u32))
    } else {
        t.insert(p, (c, 1))
    }
}

/// The distinct opaque colors among the first `n` pixels, in ascending order, with how many
/// pixels each covers.
pub open spec fn tally(rgb: Seq<Rgb>, opaque: Seq<bool>, n: int) -> Seq<Entry>
    decreases n,
{
    if n <= 0 {
        Seq::empty()
    } else if opaque[n - 1] {
        add_color(tally(rgb, opaque, n - 1), rgb[n - 1])
    } else {
        tally(rgb, opaque, n - 1)
    }
}

/// `b` sorted for a split on `ch`, by inserting its entries one after the other.
pub open spec fn sort_on(b: Seq<Entry>, ch: int) -> Seq<Entry>
    decreases b.len(),
{
    if b.len() == 0 {
        Seq::empty()
    } else {
        let s = sort_on(b.drop_last(), ch);
        s.insert(pos_from(s, ch, chan_rank(b.last().0, ch), 0), b.last())
    }
}

/// The pixels the first `n` entries cover.
pub open spec fn weight(b: Seq<Entry>, n: int) -> int
    decreases n,
{
    if n <= 0 {
        0
    } else {
        weight(b, n - 1) + b[n - 1].1
    }
}

/// The first index from `i` on where more than `half` of the pixels lie at or before it, or 0.
pub open spec fn median_from(b: Seq<Entry>, half: int, i: int) -> int
    decreases b.len() - i,
{
    if i < 0 || i >= b.len() {
        0
    } else if weight(b, i + 1) > half {
        i
    } else {
        median_from(b, half, i + 1)
    }
}

/// Where a sorted box is cut: at the median pixel, kept inside so that both halves hold a color.
pub open spec fn cut_at(s: Seq<Entry>) -> int {
    let at = median_from(s, weight(s, s.len() as int) / 2, 0);
    if at < 1 {
        1
    } else if at > s.len() - 1 {
        s.len() - 1
    } else {
        at
    }
}

/// A box split on `ch` at the point where half its pixels lie on either side.
pub open spec fn split(b: Seq<Entry>, ch: int) -> (Seq<Entry>, Seq<Entry>) {
    let s = sort_on(b, ch);
    let at = cut_at(s);
    (s.take(at), s.skip(at))
}

/// The smallest value of channel `ch` among the first `n` entries, 0 when there are none.
pub open spec fn chan_min(b: Seq<Entry>, ch: int, n: int) -> int
    decreases n,
{
    if n <= 0 {
        0
    } else if n == 1 {
        chan(b[0].0, ch) as int
    } else {
        let m = chan_min(b, ch, n - 1);
        if (chan(b[n - 1].0, ch) as int) < m {
            chan(b[n - 1].0, ch) as int
        } else {
            m
        }
    }
}

/// The largest value of channel `ch` among the first `n` entries, 0 when there are none.
pub open spec fn chan_max(b: Seq<Entry>, ch: int, n: int) -> int
    decreases n,
{
    if n <= 0 {
        0
    } else if n == 1 {
        chan(b[0].0, ch) as int
    } else {
        let m = chan_max(b, ch, n - 1);
        if (chan(b[n - 1].0, ch) as int) > m {
            chan(b[n - 1].0, ch) as int
        } else {
            m
        }
    }
}

/// The spread of channel `ch` in a box.
pub open spec fn spread(b: Seq<Entry>, ch: int) -> int {
    chan_max(b, ch, b.len() as int) - chan_min(b, ch, b.len() as int)
}

/// The channel with the largest spread in a box, the later channel on a tie, and that spread.
pub open spec fn widest(b: Seq<Entry>) -> (int, int) {
    let (r0, r1, r2) = (spread(b, 0), spread(b, 1), spread(b, 2));
    if r2 >= r1 && r2 >= r0 {
        (2, r2)
    } else if r1 >= r0 {
        (1, r1)
    } else {
        (0, r0)
    }
}

/// The box to split next, from `i` on: the one with the widest spread among those that hold more
/// than one color, the later one on a tie.
pub open spec fn pick_from(boxes: Seq<Seq<Entry>>, i: int, best: Option<int>) -> Option<int>
    decreases boxes.len() - i,
{
    if i < 0 || i >= boxes.len() {
        best
    } else if boxes[i].len() > 1 && (match best {
        None => true,
        Some(j) => widest(boxes[i]).1 >= widest(boxes[j]).1,
    }) {
        pick_from(boxes, i + 1, Some(i))
    } else {
        pick_from(boxes, i + 1, best)
    }
}

/// `s` without its entry `i`, the last entry taking its place.
pub open spec fn swap_remove<T>(s: Seq<T>, i: int) -> Seq<T> {
    if i == s.len() - 1 {
        s.drop_last()
    } else {
        s.update(i, s.last()).drop_last()
    }
}

/// Median cut: split the widest box in two until there are [`PALETTE_LEN`] boxes or no box can be
/// split.
pub open spec fn median_cut(boxes: Seq<Seq<Entry>>) -> Seq<Seq<Entry>>
    decreases PALETTE_LEN - boxes.len(),
{
    if boxes.len() >= PALETTE_LEN {
        boxes
    } else {
        match pick_from(boxes, 0, None) {
            None => boxes,
            Some(i) => {
                if 0 <= i < boxes.len() && boxes[i].len() > 1 {
                    let (lo, hi) = split(boxes[i], widest(boxes[i]).0);
                    median_cut(swap_remove(boxes, i).push(lo).push(hi))
                } else {
                    boxes
                }
            },
        }
    }
}

/// The sum of channel `ch` over the first `n` entries, each weighted by its pixels.
pub open spec fn chan_sum(b: Seq<Entry>, ch: int, n: int) -> int
    decreases n,
{
    if n <= 0 {
        0
    } else {
        chan_sum(b, ch, n - 1) + chan(b[n - 1].0, ch) * b[n - 1].1
    }
}

/// The pixel-weighted mean color of a box, black for a box with no pixels.
pub open spec fn average(b: Seq<Entry>) -> Rgb {
    let total = weight(b, b.len() as int);
    if total == 0 {
        (0, 0, 0)
    } else {
        (
            (chan_sum(b, 0, b.len() as int) / total) as u8,
            (chan_sum(b, 1, b.len() as int) / total) as u8,
            (chan_sum(b, 2, b.len() as int) / total) as u8,
        )
    }
}

/// The palette of the opaque pixels: black when there are none, every distinct color when there
/// are at most [`PALETTE_LEN`], and the mean color of each box of a median cut otherwise.
pub open spec fn palette_of(rgb: Seq<Rgb>, opaque: Seq<bool>) -> Seq<Rgb> {
    let colors = tally(rgb, opaque, rgb.len() as int);
    if colors.len() == 0 {
        seq![(0u8, 0u8, 0u8)]
    } else if colors.len() <= PALETTE_LEN {
        colors.map_values(|e: Entry| e.0)
    } else {
        median_cut(seq![colors]).map_values(|b: Seq<Entry>| average(b))
    }
}

/// The squared distance between two colors.
pub open spec fn distance(a: Rgb, b: Rgb) -> int {
    (a.0 - b.0) * (a.0 - b.0) + (a.1 - b.1) * (a.1 - b.1) + (a.2 - b.2) * (a.2 - b.2)
}

/// The first index of the entry closest to `c` among the first `n` entries of the palette.
pub open spec fn nearest_in(palette: Seq<Rgb>, c: Rgb, n: int) -> int
    decreases n,
{
    if n <= 1 {
        0
    } else {
        let b = nearest_in(palette, c, n - 1);
        if distance(palette[n - 1], c) < distance(palette[b], c) {
            n - 1
        } else {
            b
        }
    }
}


proof fn lemma_pos_from(t: Seq<Entry>, ch: int, k: int, i: int)
    requires
        0 <= i <= t.len(),
    ensures
        i <= pos_from(t, ch, k, i) <= t.len(),
    decreases t.len() - i,
{
    if i < t.len() && key_of(t[i].0, ch) < k {
        lemma_pos_from(t, ch, k, i + 1);
    }
}

/// The key an entry is sorted by, computed.
fn key_exec(c: Rgb, ch: i8) -> (r: u32)
    requires
        -1 <= ch <= 2,
    ensures
        r == key_of(c, ch as int),
{
    let rank = (c.0 as u32) * 65536 + (c.1 as u32) * 256 + (c.2 as u32);
    if ch < 0 {
        rank
    } else {
        let v = if ch == 0 {
            c.0
        } else if ch == 1 {
            c.1
        } else {
            c.2
        };
        (v as u32) * 16777216 + rank
    }
}

/// The index at which `key` belongs in `t`, found by a scan.
fn position(t: &Vec<Entry>, ch: i8, key: u32) -> (r: usize)
    requires
        -1 <= ch <= 2,
    ensures
        r == pos_from(t@, ch as int, key as int, 0),
        r <= t.len(),
{
    let mut p: usize = 0;
    proof {
        lemma_pos_from(t@, ch as int, key as int, 0);
    }
    while p < t.len() && key_exec(t[p].0, ch) < key
        invariant
            -1 <= ch <= 2,
            p <= t.len(),
            pos_from(t@, ch as int, key as int, p as int) == pos_from(t@, ch as int, key as int, 0),
        decreases t.len() - p,
    {
        p += 1;
    }
    p
}

/// Count one more pixel of color `c`.
fn add_color_exec(t: &mut Vec<Entry>, c: Rgb)
    requires
        forall|k: int| 0 <= k < old(t).len() ==> #[trigger] old(t)[k].1 < u32::MAX,
    ensures
        final(t)@ == add_color(old(t)@, c),
{
    let p = position(t, -1, key_exec(c, -1));
    if p < t.len() && t[p].0.0 == c.0 && t[p].0.1 == c.1 && t[p].0.2 == c.2 {
        let n = t[p].1;
        t.set(p, (c, n + 1));
    } else {
        t.insert(p, (c, 1));
    }
}

/// Every count of a tally is at most the number of pixels counted.
proof fn lemma_tally_counts(rgb: Seq<Rgb>, opaque: Seq<bool>, n: int)
    requires
        0 <= n <= rgb.len(),
        opaque.len() == rgb.len(),
    ensures
        forall|k: int| 0 <= k < tally(rgb, opaque, n).len() ==> #[trigger] tally(rgb, opaque, n)[k].1 <= n,
    decreases n,
{
    if n > 0 {
        lemma_tally_counts(rgb, opaque, n - 1);
        if opaque[n - 1] {
            let t = tally(rgb, opaque, n - 1);
            let c = rgb[n - 1];
            lemma_pos_from(t, -1, rank(c), 0);
            let p = pos_from(t, -1, rank(c), 0);
            let u = tally(rgb, opaque, n);
            assert forall|k: int| 0 <= k < u.len() implies #[trigger] u[k].1 <= n by {
                if p < t.len() && t[p].0 == c {
                    if k != p {
                        assert(u[k] == t[k]);
                    }
                } else {
                    if k < p {
                        assert(u[k] == t[k]);
                    } else if k > p {
                        assert(u[k] == t[k - 1]);
                    }
                }
            }
        }
    }
}

/// The distinct opaque colors, ascending, with how many pixels each covers.
fn tally_exec(rgb: &Vec<Rgb>, opaque: &Vec<bool>) -> (r: Vec<Entry>)
    requires
        rgb.len() == opaque.len(),
        rgb.len() < u32::MAX,
    ensures
        r@ == tally(rgb@, opaque@, rgb.len() as int),
{
    let mut t: Vec<Entry> = Vec::new();
    let mut i: usize = 0;
    while i < rgb.len()
        invariant
            rgb.len() == opaque.len(),
            rgb.len() < u32::MAX,
            i <= rgb.len(),
            t@ == tally(rgb@, opaque@, i as int),
        decreases rgb.len() - i,
    {
        proof {
            lemma_tally_counts(rgb@, opaque@, i as int);
        }
        if opaque[i] {
            add_color_exec(&mut t, rgb[i]);
        }
        i += 1;
    }
    t
}

/// `b` sorted for a split on `ch`.
fn sort_on_exec(b: &Vec<Entry>, ch: i8) -> (r: Vec<Entry>)
    requires
        0 <= ch <= 2,
    ensures
        r@ == sort_on(b@, ch as int),
{
    let mut s: Vec<Entry> = Vec::new();
    let mut i: usize = 0;
    while i < b.len()
        invariant
            0 <= ch <= 2,
            i <= b.len(),
            s@ == sort_on(b@.take(i as int), ch as int),
        decreases b.len() - i,
    {
        let e = b[i];
        let p = position(&s, ch, key_exec(e.0, ch));
        s.insert(p, e);
        assert(b@.take(i + 1).drop_last() =~= b@.take(i as int));
        i += 1;
    }
    assert(b@.take(b.len() as int) =~= b@);
    s
}


proof fn lemma_weight_bound(b: Seq<Entry>, n: int)
    requires
        0 <= n <= b.len(),
    ensures
        0 <= weight(b, n) <= n * 4294967295,
        0 <= chan_sum(b, 0, n) <= 255 * weight(b, n),
        0 <= chan_sum(b, 1, n) <= 255 * weight(b, n),
        0 <= chan_sum(b, 2, n) <= 255 * weight(b, n),
    decreases n,
{
    if n > 0 {
        lemma_weight_bound(b, n - 1);
        let e = b[n - 1];
        assert(0 <= chan(e.0, 0) * e.1 <= 255 * e.1) by (nonlinear_arith)
            requires
                0 <= chan(e.0, 0) <= 255,
                0 <= e.1,
        ;
        assert(0 <= chan(e.0, 1) * e.1 <= 255 * e.1) by (nonlinear_arith)
            requires
                0 <= chan(e.0, 1) <= 255,
                0 <= e.1,
        ;
        assert(0 <= chan(e.0, 2) * e.1 <= 255 * e.1) by (nonlinear_arith)
            requires
                0 <= chan(e.0, 2) <= 255,
                0 <= e.1,
        ;
    }
}

proof fn lemma_weight_mono(b: Seq<Entry>, m: int, n: int)
    requires
        0 <= m <= n <= b.len(),
    ensures
        weight(b, m) <= weight(b, n),
    decreases n - m,
{
    if m < n {
        lemma_weight_mono(b, m, n - 1);
    }
}

/// One channel of a color, computed.
fn chan_exec(c: Rgb, ch: usize) -> (r: u8)
    requires
        ch <= 2,
    ensures
        r == chan(c, ch as int),
{
    if ch == 0 {
        c.0
    } else if ch == 1 {
        c.1
    } else {
        c.2
    }
}

/// The spread of channel `ch` in a box.
fn spread_exec(b: &Vec<Entry>, ch: usize) -> (r: u8)
    requires
        ch <= 2,
    ensures
        r == spread(b@, ch as int),
{
    if b.len() == 0 {
        return 0;
    }
    let mut lo = chan_exec(b[0].0, ch);
    let mut hi = lo;
    let mut i: usize = 1;
    while i < b.len()
        invariant
            ch <= 2,
            1 <= i <= b.len(),
            lo == chan_min(b@, ch as int, i as int),
            hi == chan_max(b@, ch as int, i as int),
            lo <= hi,
        decreases b.len() - i,
    {
        let v = chan_exec(b[i].0, ch);
        if v < lo {
            lo = v;
        }
        if v > hi {
            hi = v;
        }
        i += 1;
    }
    hi - lo
}

/// The channel with the largest spread in a box, the later channel on a tie, and that spread.
fn widest_channel(b: &Vec<Entry>) -> (r: (usize, u8))
    ensures
        r.0 as int == widest(b@).0,
        r.1 as int == widest(b@).1,
        r.0 <= 2,
{
    let r0 = spread_exec(b, 0);
    let r1 = spread_exec(b, 1);
    let r2 = spread_exec(b, 2);
    if r2 >= r1 && r2 >= r0 {
        (2, r2)
    } else if r1 >= r0 {
        (1, r1)
    } else {
        (0, r0)
    }
}

/// Split a box at the point where half its pixels lie on either side.
fn split_at_median(b: &Vec<Entry>, channel: usize) -> (r: (Vec<Entry>, Vec<Entry>))
    requires
        b.len() > 1,
        channel <= 2,
    ensures
        r.0@ == split(b@, channel as int).0,
        r.1@ == split(b@, channel as int).1,
{
    let mut s = sort_on_exec(b, channel as i8);
    proof {
        lemma_sort_on_len(b@, channel as int);
        lemma_weight_bound(s@, s.len() as int);
    }
    let mut total: u128 = 0;
    let mut k: usize = 0;
    while k < s.len()
        invariant
            k <= s.len(),
            total == weight(s@, k as int),
        decreases s.len() - k,
    {
        proof {
            lemma_weight_bound(s@, (k + 1) as int);
        }
        total = total + s[k].1 as u128;
        k += 1;
    }
    let half = total / 2;
    let mut running: u128 = 0;
    let mut at: usize = 0;
    let mut i: usize = 0;
    while i < s.len()
        invariant_except_break
            running == weight(s@, i as int),
            at == 0,
        invariant
            i <= s.len(),
            half == weight(s@, s.len() as int) / 2,
            median_from(s@, half as int, i as int) == median_from(s@, half as int, 0),
        ensures
            at as int == median_from(s@, half as int, 0),
        decreases s.len() - i,
    {
        proof {
            lemma_weight_bound(s@, (i + 1) as int);
        }
        running = running + s[i].1 as u128;
        if running > half {
            at = i;
            break;
        }
        i += 1;
    }
    let at = if at < 1 {
        1
    } else if at > s.len() - 1 {
        s.len() - 1
    } else {
        at
    };
    let hi = s.split_off(at);
    (s, hi)
}

proof fn lemma_sort_on_len(b: Seq<Entry>, ch: int)
    ensures
        sort_on(b, ch).len() == b.len(),
    decreases b.len(),
{
    if b.len() > 0 {
        lemma_sort_on_len(b.drop_last(), ch);
        let s = sort_on(b.drop_last(), ch);
        lemma_pos_from(s, ch, chan_rank(b.last().0, ch), 0);
    }
}


/// The boxes of a cut, as sequences.
pub open spec fn boxes_view(v: Seq<Vec<Entry>>) -> Seq<Seq<Entry>> {
    v.map_values(|b: Vec<Entry>| b@)
}

proof fn lemma_pick(boxes: Seq<Seq<Entry>>, i: int, best: Option<int>)
    requires
        0 <= i <= boxes.len(),
        best matches Some(j) ==> 0 <= j < boxes.len() && boxes[j].len() > 1,
    ensures
        pick_from(boxes, i, best) matches Some(j) ==> 0 <= j < boxes.len() && boxes[j].len() > 1,
        best is Some ==> pick_from(boxes, i, best) is Some,
    decreases boxes.len() - i,
{
    if i < boxes.len() {
        if boxes[i].len() > 1 && (match best {
            None => true,
            Some(j) => widest(boxes[i]).1 >= widest(boxes[j]).1,
        }) {
            lemma_pick(boxes, i + 1, Some(i));
        } else {
            lemma_pick(boxes, i + 1, best);
        }
    }
}

/// The box to split next: the widest among those that hold more than one color, the later one on a
/// tie.
fn pick(boxes: &Vec<Vec<Entry>>) -> (r: Option<usize>)
    ensures
        (match r {
            Some(i) => Some(i as int),
            None => None,
        }) == pick_from(boxes_view(boxes@), 0, None),
{
    let ghost bv = boxes_view(boxes@);
    let mut best: Option<(usize, u8)> = None;
    let mut i: usize = 0;
    while i < boxes.len()
        invariant
            bv == boxes_view(boxes@),
            i <= boxes.len(),
            best matches Some((j, w)) ==> j < i && w == widest(bv[j as int]).1,
            pick_pending(bv, i as int, best) == pick_from(bv, 0, None),
        decreases boxes.len() - i,
    {
        let b = &boxes[i];
        assert(bv[i as int] == b@);
        if b.len() > 1 {
            let (_, w) = widest_channel(b);
            let take = match best {
                None => true,
                Some((_, bw)) => w >= bw,
            };
            if take {
                best = Some((i, w));
            }
        }
        i += 1;
    }
    match best {
        Some((j, _)) => Some(j),
        None => None,
    }
}

/// [`pick_from`] with the best box so far held as an index and its spread.
pub open spec fn pick_pending(boxes: Seq<Seq<Entry>>, i: int, best: Option<(usize, u8)>) -> Option<int> {
    pick_from(
        boxes,
        i,
        match best {
            Some((j, _)) => Some(j as int),
            None => None,
        },
    )
}

/// Split the widest box until there are [`PALETTE_LEN`] boxes or no box can be split.
fn median_cut_exec(colors: Vec<Entry>) -> (r: Vec<Vec<Entry>>)
    ensures
        boxes_view(r@) == median_cut(seq![colors@]),
        r.len() <= PALETTE_LEN,
{
    let mut boxes: Vec<Vec<Entry>> = Vec::new();
    boxes.push(colors);
    assert(boxes_view(boxes@) =~= seq![colors@]);
    while boxes.len() < PALETTE_LEN
        invariant
            1 <= boxes.len() <= PALETTE_LEN,
            median_cut(boxes_view(boxes@)) == median_cut(seq![colors@]),
        ensures
            boxes.len() <= PALETTE_LEN,
            boxes_view(boxes@) == median_cut(seq![colors@]),
        decreases PALETTE_LEN - boxes.len(),
    {
        let ghost bv = boxes_view(boxes@);
        proof {
            lemma_pick(bv, 0, None);
        }
        match pick(&boxes) {
            None => {
                break;
            },
            Some(i) => {
                assert(bv[i as int] == boxes@[i as int]@);
                let (ch, _) = widest_channel(&boxes[i]);
                let b = boxes.swap_remove(i);
                let (lo, hi) = split_at_median(&b, ch);
                boxes.push(lo);
                boxes.push(hi);
                assert(boxes_view(boxes@) =~= swap_remove(bv, i as int).push(lo@).push(hi@));
            },
        }
    }
    boxes
}

/// The pixel-weighted mean color of a box.
fn average_exec(b: &Vec<Entry>) -> (r: Rgb)
    ensures
        r == average(b@),
{
    proof {
        lemma_weight_bound(b@, b.len() as int);
    }
    let mut total: u128 = 0;
    let mut s0: u128 = 0;
    let mut s1: u128 = 0;
    let mut s2: u128 = 0;
    let mut i: usize = 0;
    while i < b.len()
        invariant
            i <= b.len(),
            total == weight(b@, i as int),
            s0 == chan_sum(b@, 0, i as int),
            s1 == chan_sum(b@, 1, i as int),
            s2 == chan_sum(b@, 2, i as int),
        decreases b.len() - i,
    {
        proof {
            lemma_weight_bound(b@, (i + 1) as int);
        }
        let (c, n) = b[i];
        total = total + n as u128;
        s0 = s0 + (c.0 as u128) * (n as u128);
        s1 = s1 + (c.1 as u128) * (n as u128);
        s2 = s2 + (c.2 as u128) * (n as u128);
        i += 1;
    }
    if total == 0 {
        return (0, 0, 0);
    }
    proof {
        lemma_mean_fits(s0 as int, total as int);
        lemma_mean_fits(s1 as int, total as int);
        lemma_mean_fits(s2 as int, total as int);
    }
    ((s0 / total) as u8, (s1 / total) as u8, (s2 / total) as u8)
}

proof fn lemma_mean_fits(s: int, t: int)
    requires
        0 <= s <= 255 * t,
        t > 0,
    ensures
        0 <= s / t <= 255,
{
    assert(s / t <= 255) by (nonlinear_arith)
        requires
            0 <= s <= 255 * t,
            t > 0,
    ;
    assert(0 <= s / t) by (nonlinear_arith)
        requires
            0 <= s,
            t > 0,
    ;
}

/// Build a palette of at most [`PALETTE_LEN`] colors covering the opaque pixels, exactly when they
/// are few enough and by median cut when they are not.
pub fn quantize(rgb: &Vec<Rgb>, opaque: &Vec<bool>) -> (r: Vec<Rgb>)
    requires
        rgb.len() == opaque.len(),
        rgb.len() < u32::MAX,
    ensures
        r@ == palette_of(rgb@, opaque@),
        1 <= r.len() <= PALETTE_LEN,
{
    let colors = tally_exec(rgb, opaque);
    if colors.len() == 0 {
        let mut r: Vec<Rgb> = Vec::new();
        r.push((0, 0, 0));
        assert(r@ =~= seq![(0u8, 0u8, 0u8)]);
        return r;
    }
    if colors.len() <= PALETTE_LEN {
        let mut r: Vec<Rgb> = Vec::new();
        let mut i: usize = 0;
        while i < colors.len()
            invariant
                i <= colors.len(),
                r@ == colors@.take(i as int).map_values(|e: Entry| e.0),
            decreases colors.len() - i,
        {
            r.push(colors[i].0);
            assert(colors@.take(i + 1).map_values(|e: Entry| e.0) =~= colors@.take(
                i as int,
            ).map_values(|e: Entry| e.0).push(colors@[i as int].0));
            i += 1;
        }
        assert(colors@.take(colors.len() as int) =~= colors@);
        return r;
    }
    let ghost cv = colors@;
    let boxes = median_cut_exec(colors);
    let mut r: Vec<Rgb> = Vec::new();
    let mut i: usize = 0;
    while i < boxes.len()
        invariant
            i <= boxes.len() <= PALETTE_LEN,
            boxes_view(boxes@) == median_cut(seq![cv]),
            r@ == boxes_view(boxes@).take(i as int).map_values(|b: Seq<Entry>| average(b)),
        decreases boxes.len() - i,
    {
        let a = average_exec(&boxes[i]);
        r.push(a);
        assert(boxes_view(boxes@).take(i + 1).map_values(|b: Seq<Entry>| average(b))
            =~= boxes_view(boxes@).take(i as int).map_values(|b: Seq<Entry>| average(b)).push(
            average(boxes@[i as int]@),
        ));
        i += 1;
    }
    assert(boxes_view(boxes@).take(boxes.len() as int) =~= boxes_view(boxes@));
    proof {
        lemma_cut_nonempty(seq![cv]);
    }
    r
}

proof fn lemma_cut_nonempty(boxes: Seq<Seq<Entry>>)
    requires
        1 <= boxes.len() <= PALETTE_LEN,
    ensures
        1 <= median_cut(boxes).len() <= PALETTE_LEN,
    decreases PALETTE_LEN - boxes.len(),
{
    if boxes.len() < PALETTE_LEN {
        lemma_pick(boxes, 0, None);
        match pick_from(boxes, 0, None) {
            None => {},
            Some(i) => {
                let (lo, hi) = split(boxes[i], widest(boxes[i]).0);
                lemma_cut_nonempty(swap_remove(boxes, i).push(lo).push(hi));
            },
        }
    }
}

/// Index of the palette entry closest to `c` by squared distance, the first one on a tie.
pub fn nearest(palette: &Vec<Rgb>, c: Rgb) -> (r: u8)
    requires
        1 <= palette.len() <= PALETTE_LEN,
    ensures
        r == nearest_in(palette@, c, palette.len() as int),
        r < palette.len(),
{
    let mut best: usize = 0;
    let mut best_d: i32 = i32::MAX;
    let mut i: usize = 0;
    while i < palette.len()
        invariant
            1 <= palette.len() <= PALETTE_LEN,
            i <= palette.len(),
            i == 0 ==> best == 0 && best_d == i32::MAX,
            i > 0 ==> best == nearest_in(palette@, c, i as int) && best < i
                && best_d == distance(palette@[best as int], c),
        decreases palette.len() - i,
    {
        let p = palette[i];
        let d0 = p.0 as i32 - c.0 as i32;
        let d1 = p.1 as i32 - c.1 as i32;
        let d2 = p.2 as i32 - c.2 as i32;
        assert(0 <= d0 * d0 <= 65025) by (nonlinear_arith)
            requires
                -255 <= d0 <= 255,
        ;
        assert(0 <= d1 * d1 <= 65025) by (nonlinear_arith)
            requires
                -255 <= d1 <= 255,
        ;
        assert(0 <= d2 * d2 <= 65025) by (nonlinear_arith)
            requires
                -255 <= d2 <= 255,
        ;
        let d = d0 * d0 + d1 * d1 + d2 * d2;
        if d < best_d {
            best = i;
            best_d = d;
        }
        i += 1;
    }
    best as u8
}


/// The colors of a tally ascend strictly.
pub open spec fn ascending(t: Seq<Entry>) -> bool {
    forall|j: int, k: int| 0 <= j < k < t.len() ==> rank(#[trigger] t[j].0) < rank(#[trigger] t[k].0)
}

proof fn lemma_rank_injective(a: Rgb, b: Rgb)
    requires
        rank(a) == rank(b),
    ensures
        a == b,
{
}

proof fn lemma_pos_bounds(t: Seq<Entry>, k: int, i: int)
    requires
        0 <= i <= t.len(),
        ascending(t),
    ensures
        i <= pos_from(t, -1, k, i) <= t.len(),
        forall|j: int| i <= j < pos_from(t, -1, k, i) ==> rank(#[trigger] t[j].0) < k,
        pos_from(t, -1, k, i) < t.len() ==> rank(t[pos_from(t, -1, k, i)].0) >= k,
    decreases t.len() - i,
{
    if i < t.len() && rank(t[i].0) < k {
        lemma_pos_bounds(t, k, i + 1);
    }
}

/// A tally lists each of the counted colors once, in ascending order.
proof fn lemma_tally_members(rgb: Seq<Rgb>, opaque: Seq<bool>, n: int)
    requires
        0 <= n <= rgb.len(),
        opaque.len() == rgb.len(),
    ensures
        ascending(tally(rgb, opaque, n)),
        forall|m: int|
            0 <= m < n && #[trigger] opaque[m] ==> exists|j: int|
                0 <= j < tally(rgb, opaque, n).len() && #[trigger] tally(rgb, opaque, n)[j].0
                    == rgb[m],
    decreases n,
{
    if n > 0 {
        lemma_tally_members(rgb, opaque, n - 1);
        let t = tally(rgb, opaque, n - 1);
        if opaque[n - 1] {
            let c = rgb[n - 1];
            lemma_pos_bounds(t, rank(c), 0);
            let p = pos_from(t, -1, rank(c), 0);
            let u = tally(rgb, opaque, n);
            assert(pos_from(t, -1, rank(c), 0) == p);
            if p < t.len() && t[p].0 == c {
                assert(u =~= t.update(p, (c, (t[p].1 + 1) as u32)));
                assert forall|m: int| 0 <= m < n && #[trigger] opaque[m] implies exists|j: int|
                    0 <= j < u.len() && #[trigger] u[j].0 == rgb[m] by {
                    if m == n - 1 {
                        assert(u[p].0 == rgb[m]);
                    } else {
                        let j = choose|j: int| 0 <= j < t.len() && #[trigger] t[j].0 == rgb[m];
                        assert(u[j].0 == rgb[m]);
                    }
                }
            } else {
                assert(u =~= t.insert(p, (c, 1)));
                if p < t.len() {
                    assert(rank(t[p].0) != rank(c)) by {
                        if rank(t[p].0) == rank(c) {
                            lemma_rank_injective(t[p].0, c);
                        }
                    }
                }
                assert forall|m: int| 0 <= m < n && #[trigger] opaque[m] implies exists|j: int|
                    0 <= j < u.len() && #[trigger] u[j].0 == rgb[m] by {
                    if m == n - 1 {
                        assert(u[p].0 == rgb[m]);
                    } else {
                        let j = choose|j: int| 0 <= j < t.len() && #[trigger] t[j].0 == rgb[m];
                        if j < p {
                            assert(u[j].0 == rgb[m]);
                        } else {
                            assert(u[j + 1].0 == rgb[m]);
                        }
                    }
                }
            }
        }
    }
}

/// The entry [`nearest_in`] picks is at least as close as every other one, and closer than every
/// entry before it: the first of the closest.
pub proof fn lemma_nearest_in(palette: Seq<Rgb>, c: Rgb, n: int)
    requires
        1 <= n <= palette.len(),
    ensures
        0 <= nearest_in(palette, c, n) < n,
        forall|j: int|
            0 <= j < n ==> distance(palette[nearest_in(palette, c, n)], c) <= distance(
                #[trigger] palette[j],
                c,
            ),
        forall|j: int|
            0 <= j < nearest_in(palette, c, n) ==> distance(palette[nearest_in(palette, c, n)], c)
                < distance(#[trigger] palette[j], c),
    decreases n,
{
    if n > 1 {
        lemma_nearest_in(palette, c, n - 1);
    }
}

proof fn lemma_distance_zero(a: Rgb, b: Rgb)
    ensures
        distance(a, b) >= 0,
        distance(a, b) == 0 ==> a == b,
        distance(a, a) == 0,
{
    let (x, y, z) = ((a.0 - b.0) as int, (a.1 - b.1) as int, (a.2 - b.2) as int);
    assert(x * x >= 0 && y * y >= 0 && z * z >= 0) by (nonlinear_arith);
    assert(x * x == 0 ==> x == 0) by (nonlinear_arith);
    assert(y * y == 0 ==> y == 0) by (nonlinear_arith);
    assert(z * z == 0 ==> z == 0) by (nonlinear_arith);
}

/// With at most [`PALETTE_LEN`] distinct opaque colors, the palette holds every one of them, and
/// the nearest entry to an opaque color is that color itself: the palette loses nothing.
pub proof fn lemma_few_colors_are_exact(rgb: Seq<Rgb>, opaque: Seq<bool>, m: int)
    requires
        rgb.len() == opaque.len(),
        0 <= m < rgb.len(),
        opaque[m],
        tally(rgb, opaque, rgb.len() as int).len() <= PALETTE_LEN,
    ensures
        ({
            let palette = palette_of(rgb, opaque);
            palette[nearest_in(palette, rgb[m], palette.len() as int)] == rgb[m]
        }),
{
    let n = rgb.len() as int;
    lemma_tally_members(rgb, opaque, n);
    let t = tally(rgb, opaque, n);
    let palette = palette_of(rgb, opaque);
    let j = choose|j: int| 0 <= j < t.len() && #[trigger] t[j].0 == rgb[m];
    assert(palette == t.map_values(|e: Entry| e.0));
    assert(palette[j] == rgb[m]);
    lemma_nearest_in(palette, rgb[m], palette.len() as int);
    let b = nearest_in(palette, rgb[m], palette.len() as int);
    lemma_distance_zero(palette[j], rgb[m]);
    lemma_distance_zero(palette[b], rgb[m]);
}

/// A palette is never empty and never holds more than [`PALETTE_LEN`] colors.
pub proof fn lemma_palette_fits(rgb: Seq<Rgb>, opaque: Seq<bool>)
    ensures
        1 <= palette_of(rgb, opaque).len() <= PALETTE_LEN,
{
    let colors = tally(rgb, opaque, rgb.len() as int);
    if colors.len() > PALETTE_LEN {
        lemma_cut_nonempty(seq![colors]);
    }
}

/// Over the first `n` entries, the weighted sum of a channel lies between its smallest and its
/// largest value times the weight.
proof fn lemma_sum_between(b: Seq<Entry>, ch: int, n: int)
    requires
        1 <= n <= b.len(),
    ensures
        chan_min(b, ch, n) * weight(b, n) <= chan_sum(b, ch, n),
        chan_sum(b, ch, n) <= chan_max(b, ch, n) * weight(b, n),
    decreases n,
{
    lemma_weight_bound(b, n);
    let v = chan(b[n - 1].0, ch) as int;
    let w = b[n - 1].1 as int;
    if n == 1 {
        assert(chan_sum(b, ch, 0) == 0 && weight(b, 0) == 0);
        assert(chan_sum(b, ch, 1) == v * w);
        assert(weight(b, 1) == w);
    } else {
        lemma_sum_between(b, ch, n - 1);
        lemma_weight_bound(b, n - 1);
        let m0 = chan_min(b, ch, n - 1);
        let x0 = chan_max(b, ch, n - 1);
        let m = chan_min(b, ch, n);
        let x = chan_max(b, ch, n);
        let t0 = weight(b, n - 1);
        let s0 = chan_sum(b, ch, n - 1);
        assert(m <= m0 && m <= v && x >= x0 && x >= v);
        assert(chan_sum(b, ch, n) == s0 + v * w);
        assert(weight(b, n) == t0 + w);
        assert(m * (t0 + w) <= s0 + v * w) by (nonlinear_arith)
            requires
                m <= m0,
                m <= v,
                m0 * t0 <= s0,
                t0 >= 0,
                w >= 0,
        ;
        assert(s0 + v * w <= x * (t0 + w)) by (nonlinear_arith)
            requires
                x >= x0,
                x >= v,
                s0 <= x0 * t0,
                t0 >= 0,
                w >= 0,
        ;
    }
}

/// Each channel of a box's [`average`] is the pixel-weighted mean of that channel over the box's
/// colors, rounded down: so it lies between the smallest and the largest value the channel takes
/// among those colors.
pub proof fn lemma_average_is_the_mean(b: Seq<Entry>, ch: int)
    requires
        0 <= ch <= 2,
        weight(b, b.len() as int) > 0,
    ensures
        ({
            let n = b.len() as int;
            let t = weight(b, n);
            let a = chan(average(b), ch) as int;
            &&& a * t <= chan_sum(b, ch, n) < (a + 1) * t
            &&& chan_min(b, ch, n) <= a <= chan_max(b, ch, n)
        }),
{
    let n = b.len() as int;
    let t = weight(b, n);
    let s = chan_sum(b, ch, n);
    lemma_weight_bound(b, n);
    lemma_sum_between(b, ch, n);
    lemma_mean_fits(s, t);
    let q = s / t;
    assert(chan(average(b), ch) as int == q);
    assert(q * t <= s < (q + 1) * t) by (nonlinear_arith)
        requires
            q == s / t,
            t > 0,
            s >= 0,
    ;
    let m = chan_min(b, ch, n);
    let x = chan_max(b, ch, n);
    assert(m <= q) by (nonlinear_arith)
        requires
            m * t <= s,
            s < (q + 1) * t,
            t > 0,
    ;
    assert(q <= x) by (nonlinear_arith)
        requires
            q * t <= s,
            s <= x * t,
            t > 0,
    ;
}

/// Every entry of the boxes, all together.
pub open spec fn all_entries(boxes: Seq<Seq<Entry>>) -> vstd::multiset::Multiset<Entry>
    decreases boxes.len(),
{
    if boxes.len() == 0 {
        vstd::multiset::Multiset::empty()
    } else {
        all_entries(boxes.drop_last()).add(boxes.last().to_multiset())
    }
}

proof fn lemma_sort_on_same_entries(b: Seq<Entry>, ch: int)
    ensures
        sort_on(b, ch).to_multiset() == b.to_multiset(),
    decreases b.len(),
{
    if b.len() > 0 {
        lemma_sort_on_same_entries(b.drop_last(), ch);
        let s = sort_on(b.drop_last(), ch);
        lemma_sort_on_len(b.drop_last(), ch);
        let p = pos_from(s, ch, chan_rank(b.last().0, ch), 0);
        lemma_pos_from(s, ch, chan_rank(b.last().0, ch), 0);
        assert(sort_on(b, ch) == s.insert(p, b.last()));
        vstd::seq_lib::to_multiset_insert(s, p, b.last());
        assert(b.drop_last().push(b.last()) =~= b);
        vstd::seq_lib::to_multiset_build(b.drop_last(), b.last());
        assert(sort_on(b, ch).to_multiset() == b.drop_last().to_multiset().insert(b.last()));
        assert(b.to_multiset() == b.drop_last().push(b.last()).to_multiset());
    } else {
        assert(sort_on(b, ch) =~= b);
    }
}

proof fn lemma_split_same_entries(b: Seq<Entry>, ch: int)
    requires
        b.len() > 1,
    ensures
        split(b, ch).0.to_multiset().add(split(b, ch).1.to_multiset()) == b.to_multiset(),
{
    let s = sort_on(b, ch);
    lemma_sort_on_same_entries(b, ch);
    lemma_sort_on_len(b, ch);
    let at = cut_at(s);
    assert(1 <= at <= s.len() - 1);
    assert(s.take(at) + s.skip(at) =~= s);
    vstd::seq_lib::lemma_multiset_commutative(s.take(at), s.skip(at));
}

proof fn lemma_all_update(s: Seq<Seq<Entry>>, i: int, x: Seq<Entry>)
    requires
        0 <= i < s.len(),
    ensures
        all_entries(s.update(i, x)).add(s[i].to_multiset()) == all_entries(s).add(x.to_multiset()),
    decreases s.len(),
{
    broadcast use vstd::multiset::group_multiset_axioms;

    let u = s.update(i, x);
    assert(u.len() == s.len());
    assert(all_entries(u) == all_entries(u.drop_last()).add(u.last().to_multiset()));
    assert(all_entries(s) == all_entries(s.drop_last()).add(s.last().to_multiset()));
    if i == s.len() - 1 {
        assert(u.drop_last() =~= s.drop_last());
        assert(u.last() == x);
        assert(all_entries(u).add(s[i].to_multiset()) =~= all_entries(s).add(x.to_multiset()));
    } else {
        lemma_all_update(s.drop_last(), i, x);
        assert(u.drop_last() =~= s.drop_last().update(i, x));
        assert(u.last() == s.last());
        assert(s.drop_last()[i] == s[i]);
        let a = all_entries(s.drop_last().update(i, x));
        let d = all_entries(s.drop_last());
        let l = s.last().to_multiset();
        let si = s[i].to_multiset();
        let xm = x.to_multiset();
        assert(a.add(si) == d.add(xm));
        assert forall|e: Entry| #[trigger] a.add(l).add(si).count(e) == d.add(l).add(xm).count(e) by {
            assert(a.add(si).count(e) == d.add(xm).count(e));
        }
        assert(all_entries(u).add(s[i].to_multiset()) =~= all_entries(s).add(x.to_multiset()));
    }
}

proof fn lemma_all_swap_remove(s: Seq<Seq<Entry>>, i: int)
    requires
        0 <= i < s.len(),
    ensures
        all_entries(swap_remove(s, i)).add(s[i].to_multiset()) == all_entries(s),
{
    broadcast use vstd::multiset::group_multiset_axioms;

    assert(all_entries(s) == all_entries(s.drop_last()).add(s.last().to_multiset()));
    if i == s.len() - 1 {
        assert(swap_remove(s, i) == s.drop_last());
        assert(all_entries(s.drop_last()).add(s[i].to_multiset()) =~= all_entries(s));
    } else {
        let u = s.update(i, s.last());
        lemma_all_update(s, i, s.last());
        assert(swap_remove(s, i) == u.drop_last());
        assert(u.len() == s.len() && u.last() == s.last());
        assert(all_entries(u) == all_entries(u.drop_last()).add(u.last().to_multiset()));
        let r = all_entries(u.drop_last());
        let l = s.last().to_multiset();
        let si = s[i].to_multiset();
        let d = all_entries(s.drop_last());
        assert(r.add(l).add(si) == d.add(l).add(l));
        assert forall|e: Entry| #[trigger] r.add(si).count(e) == all_entries(s).count(e) by {
            assert(r.add(l).add(si).count(e) == d.add(l).add(l).count(e));
        }
        assert(all_entries(u.drop_last()).add(s[i].to_multiset()) =~= all_entries(s));
    }
}

proof fn lemma_cut_same_entries(boxes: Seq<Seq<Entry>>)
    ensures
        all_entries(median_cut(boxes)) == all_entries(boxes),
    decreases PALETTE_LEN - boxes.len(),
{
    broadcast use vstd::multiset::group_multiset_axioms;

    if boxes.len() < PALETTE_LEN {
        match pick_from(boxes, 0, None) {
            None => {},
            Some(i) => {
                if 0 <= i < boxes.len() && boxes[i].len() > 1 {
                    let (lo, hi) = split(boxes[i], widest(boxes[i]).0);
                    let rest = swap_remove(boxes, i);
                    let next = rest.push(lo).push(hi);
                    assert(median_cut(boxes) == median_cut(next));
                    lemma_cut_same_entries(next);
                    lemma_split_same_entries(boxes[i], widest(boxes[i]).0);
                    lemma_all_swap_remove(boxes, i);
                    assert(next.drop_last() =~= rest.push(lo));
                    assert(next.drop_last().drop_last() =~= rest);
                    assert(all_entries(next) == all_entries(rest.push(lo)).add(hi.to_multiset()));
                    assert(all_entries(rest.push(lo)) == all_entries(rest).add(lo.to_multiset()));
                    assert(all_entries(next) =~= all_entries(boxes));
                }
            },
        }
    }
}

/// The median cut loses no color and makes none up: its boxes, all together, hold each distinct
/// opaque color of the image once, with the pixels it covers, as the tally counts them.
pub proof fn lemma_median_cut_keeps_every_color(rgb: Seq<Rgb>, opaque: Seq<bool>)
    ensures
        ({
            let colors = tally(rgb, opaque, rgb.len() as int);
            all_entries(median_cut(seq![colors])) == colors.to_multiset()
        }),
{
    broadcast use vstd::multiset::group_multiset_axioms;

    let colors = tally(rgb, opaque, rgb.len() as int);
    lemma_cut_same_entries(seq![colors]);
    assert(seq![colors].drop_last() =~= Seq::<Seq<Entry>>::empty());
    assert(all_entries(Seq::<Seq<Entry>>::empty()) == vstd::multiset::Multiset::<Entry>::empty());
    assert(seq![colors].last() == colors);
    assert(all_entries(seq![colors]) =~= colors.to_multiset());
}

/// Whether `s` ascends in the order of a split on `ch`.
pub open spec fn sorted_on(s: Seq<Entry>, ch: int) -> bool {
    forall|i: int, j: int|
        0 <= i < j < s.len() ==> chan_rank(#[trigger] s[i].0, ch) <= chan_rank(#[trigger] s[j].0, ch)
}

proof fn lemma_pos_from_keys(t: Seq<Entry>, ch: int, k: int, i: int)
    requires
        0 <= i <= t.len(),
        ch >= 0,
    ensures
        forall|j: int| i <= j < pos_from(t, ch, k, i) ==> chan_rank(#[trigger] t[j].0, ch) < k,
        pos_from(t, ch, k, i) < t.len() ==> chan_rank(t[pos_from(t, ch, k, i)].0, ch) >= k,
    decreases t.len() - i,
{
    if i < t.len() && key_of(t[i].0, ch) < k {
        lemma_pos_from_keys(t, ch, k, i + 1);
    }
}

proof fn lemma_sort_on_sorted(b: Seq<Entry>, ch: int)
    requires
        ch >= 0,
    ensures
        sorted_on(sort_on(b, ch), ch),
    decreases b.len(),
{
    if b.len() > 0 {
        lemma_sort_on_sorted(b.drop_last(), ch);
        let s = sort_on(b.drop_last(), ch);
        let x = b.last();
        let k = chan_rank(x.0, ch);
        let p = pos_from(s, ch, k, 0);
        lemma_pos_from(s, ch, k, 0);
        lemma_pos_from_keys(s, ch, k, 0);
        let r = s.insert(p, x);
        assert(sort_on(b, ch) == r);
        assert forall|i: int, j: int| 0 <= i < j < r.len() implies chan_rank(#[trigger] r[i].0, ch)
            <= chan_rank(#[trigger] r[j].0, ch) by {
            if j < p {
                assert(r[i] == s[i] && r[j] == s[j]);
            } else if j == p {
                assert(r[i] == s[i] && r[j] == x);
            } else if i < p {
                assert(r[i] == s[i] && r[j] == s[j - 1]);
                if p < s.len() {
                    assert(chan_rank(s[p].0, ch) <= chan_rank(s[j - 1].0, ch) || p == j - 1);
                }
            } else if i == p {
                assert(r[i] == x && r[j] == s[j - 1]);
                assert(chan_rank(s[p].0, ch) <= chan_rank(s[j - 1].0, ch) || p == j - 1);
            } else {
                assert(r[i] == s[i - 1] && r[j] == s[j - 1]);
            }
        }
    }
}

/// A split cuts a box along channel `ch`: both halves hold a color, and no color of the low half
/// has more of that channel than any color of the high half.
pub proof fn lemma_split_halves_are_ordered(b: Seq<Entry>, ch: int)
    requires
        b.len() > 1,
        0 <= ch <= 2,
    ensures
        ({
            let (lo, hi) = split(b, ch);
            &&& lo.len() >= 1 && hi.len() >= 1
            &&& forall|i: int, j: int|
                0 <= i < lo.len() && 0 <= j < hi.len() ==> chan(#[trigger] lo[i].0, ch) <= chan(
                    #[trigger] hi[j].0,
                    ch,
                )
        }),
{
    let s = sort_on(b, ch);
    lemma_sort_on_len(b, ch);
    lemma_sort_on_sorted(b, ch);
    let at = cut_at(s);
    assert(1 <= at <= s.len() - 1);
    let (lo, hi) = split(b, ch);
    assert forall|i: int, j: int| 0 <= i < lo.len() && 0 <= j < hi.len() implies chan(
        #[trigger] lo[i].0,
        ch,
    ) <= chan(#[trigger] hi[j].0, ch) by {
        assert(lo[i] == s[i] && hi[j] == s[at + j]);
        assert(chan_rank(s[i].0, ch) <= chan_rank(s[at + j].0, ch));
        let (c, d) = (s[i].0, s[at + j].0);
        assert(0 <= rank(c) < 16777216 && 0 <= rank(d) < 16777216);
    }
}

} // verus!
