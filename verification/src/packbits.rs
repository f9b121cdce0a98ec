//! PackBits-style run-length encoding, as used by the ARGB chunks (`ic04`, `ic05`) of an `.icns`
//! file.
//!
//! A control byte in `0x00..=0x7F` means "the next n+1 bytes are literals" (1 to 128 of them); a
//! control byte in `0x80..=0xFF` means "the next byte repeats n-125 times" (3 to 130 times).

use vstd::prelude::*;

verus! {

/// The longest repeat run one block can hold.
pub const MAX_RUN: usize = 130;

/// The longest literal run one block can hold.
pub const MAX_LITERAL: usize = 128;

/// The length of the run of bytes equal to `s[i]` that starts at `i`, counted from `r` on and
/// capped at [`MAX_RUN`].
pub open spec fn run_from(s: Seq<u8>, i: int, r: int) -> int
    decreases MAX_RUN - r,
{
    if 0 <= r < MAX_RUN && i + r < s.len() && s[i + r] == s[i] {
        run_from(s, i, r + 1)
    } else {
        r
    }
}

/// Whether three equal bytes start at `j`.
pub open spec fn triple_at(s: Seq<u8>, j: int) -> bool {
    0 <= j && j + 2 < s.len() && s[j] == s[j + 1] && s[j + 1] == s[j + 2]
}

/// The length of the literal run that starts at `i`, counted from `l` on: it stops before three
/// equal bytes, at the end of the input, or at [`MAX_LITERAL`].
pub open spec fn literal_from(s: Seq<u8>, i: int, l: int) -> int
    decreases MAX_LITERAL - l,
{
    if 0 <= l < MAX_LITERAL && i + l < s.len() && !triple_at(s, i + l) {
        literal_from(s, i, l + 1)
    } else {
        l
    }
}

/// The encoding of `s` from index `i` on: a run of three or more equal bytes becomes a repeat
/// block, anything else a literal block that stops before the next such run.
pub open spec fn encode_from(s: Seq<u8>, i: int) -> Seq<u8>
    decreases s.len() - i,
{
    if i < 0 || i >= s.len() {
        Seq::empty()
    } else {
        let r = run_from(s, i, 1);
        proof {
            lemma_run_from(s, i, 1);
        }
        if r >= 3 {
            seq![(r + 125) as u8, s[i]] + encode_from(s, i + r)
        } else {
            let l = literal_from(s, i, 1);
            proof {
                lemma_literal_from(s, i, 1);
            }
            seq![(l - 1) as u8] + s.subrange(i, i + l) + encode_from(s, i + l)
        }
    }
}

/// The PackBits encoding of a whole channel.
pub open spec fn encode(s: Seq<u8>) -> Seq<u8> {
    encode_from(s, 0)
}

/// What a reader makes of `s`, `None` when a block is cut short.
pub open spec fn decode(s: Seq<u8>) -> Option<Seq<u8>>
    decreases s.len(),
{
    if s.len() == 0 {
        Some(Seq::empty())
    } else {
        let c = s[0];
        if c < 128 {
            let n = c + 1;
            if s.len() < 1 + n {
                None
            } else {
                match decode(s.skip(1 + n)) {
                    Some(rest) => Some(s.subrange(1, 1 + n) + rest),
                    None => None,
                }
            }
        } else {
            if s.len() < 2 {
                None
            } else {
                match decode(s.skip(2)) {
                    Some(rest) => Some(Seq::new((c - 125) as nat, |k: int| s[1]) + rest),
                    None => None,
                }
            }
        }
    }
}

pub proof fn lemma_run_from(s: Seq<u8>, i: int, r: int)
    requires
        0 <= i < s.len(),
        1 <= r <= MAX_RUN,
        i + r <= s.len(),
        forall|k: int| i <= k < i + r ==> #[trigger] s[k] == s[i],
    ensures
        r <= run_from(s, i, r) <= MAX_RUN,
        i + run_from(s, i, r) <= s.len(),
        forall|k: int| i <= k < i + run_from(s, i, r) ==> #[trigger] s[k] == s[i],
    decreases MAX_RUN - r,
{
    if r < MAX_RUN && i + r < s.len() && s[i + r] == s[i] {
        lemma_run_from(s, i, r + 1);
    }
}

pub proof fn lemma_literal_from(s: Seq<u8>, i: int, l: int)
    requires
        0 <= i < s.len(),
        1 <= l <= MAX_LITERAL,
        i + l <= s.len(),
    ensures
        l <= literal_from(s, i, l) <= MAX_LITERAL,
        i + literal_from(s, i, l) <= s.len(),
    decreases MAX_LITERAL - l,
{
    if l < MAX_LITERAL && i + l < s.len() && !triple_at(s, i + l) {
        lemma_literal_from(s, i, l + 1);
    }
}

/// What a block and the blocks after it decode to.
proof fn lemma_decode_repeat(c: u8, x: u8, rest: Seq<u8>)
    requires
        c >= 128,
    ensures
        decode(seq![c, x] + rest) == match decode(rest) {
            Some(r) => Some(Seq::new((c - 125) as nat, |k: int| x) + r),
            None => None,
        },
{
    let s = seq![c, x] + rest;
    assert(s.skip(2) =~= rest);
}

proof fn lemma_decode_literal(lits: Seq<u8>, rest: Seq<u8>)
    requires
        1 <= lits.len() <= MAX_LITERAL,
    ensures
        decode(seq![(lits.len() - 1) as u8] + lits + rest) == match decode(rest) {
            Some(r) => Some(lits + r),
            None => None,
        },
{
    let s = seq![(lits.len() - 1) as u8] + lits + rest;
    let n = lits.len();
    assert(s[0] == (n - 1) as u8);
    assert(s.skip(1 + n as int) =~= rest);
    assert(s.subrange(1, 1 + n as int) =~= lits);
}

/// Decoding gives back every byte that was encoded, from `i` on.
proof fn lemma_roundtrip_from(s: Seq<u8>, i: int)
    requires
        0 <= i <= s.len(),
    ensures
        decode(encode_from(s, i)) == Some(s.skip(i)),
    decreases s.len() - i,
{
    if i == s.len() {
        assert(s.skip(i) =~= Seq::<u8>::empty());
    } else {
        lemma_run_from(s, i, 1);
        let r = run_from(s, i, 1);
        if r >= 3 {
            lemma_roundtrip_from(s, i + r);
            lemma_decode_repeat((r + 125) as u8, s[i], encode_from(s, i + r));
            assert(((r + 125) as u8) - 125 == r);
            assert(Seq::new(r as nat, |k: int| s[i]) + s.skip(i + r) =~= s.skip(i));
        } else {
            lemma_literal_from(s, i, 1);
            let l = literal_from(s, i, 1);
            lemma_roundtrip_from(s, i + l);
            lemma_decode_literal(s.subrange(i, i + l), encode_from(s, i + l));
            assert(seq![(l - 1) as u8] + s.subrange(i, i + l) + encode_from(s, i + l)
                == encode_from(s, i));
            assert(s.subrange(i, i + l) + s.skip(i + l) =~= s.skip(i));
        }
    }
}

/// A reader of the encoding gets back exactly the channel that was encoded.
pub proof fn lemma_decode_encode(s: Seq<u8>)
    ensures
        decode(encode(s)) == Some(s),
{
    lemma_roundtrip_from(s, 0);
    assert(s.skip(0) =~= s);
}

/// RLE-encode a single 8-bit channel.
pub fn rle_encode_channel(input: &[u8]) -> (out: Vec<u8>)
    ensures
        out@ == encode(input@),
        decode(out@) == Some(input@),
{
    let n = input.len();
    let mut out: Vec<u8> = Vec::new();
    let mut i: usize = 0;
    while i < n
        invariant
            n == input@.len(),
            i <= n,
            out@ + encode_from(input@, i as int) == encode(input@),
        decreases n - i,
    {
        let ghost s = input@;
        // Length of the run of identical bytes starting at `i` (capped at 130).
        let mut run: usize = 1;
        while run < MAX_RUN && i + run < n && input[i + run] == input[i]
            invariant
                s == input@,
                n == s.len(),
                i < n,
                1 <= run <= MAX_RUN,
                i + run <= n,
                run_from(s, i as int, run as int) == run_from(s, i as int, 1),
            decreases MAX_RUN - run,
        {
            run += 1;
        }
        proof {
            lemma_run_from(s, i as int, 1);
        }
        if run >= 3 {
            // The loop above caps `run` at 130, so the control byte fits.
            let ghost before = out@;
            out.push((run + 125) as u8);
            out.push(input[i]);
            assert(out@ == before + seq![(run + 125) as u8, s[i as int]]);
            assert(out@ + encode_from(s, (i + run) as int) =~= before + encode_from(s, i as int));
            i += run;
        } else {
            // Emit a literal run, breaking before any 3-in-a-row (a future RLE run).
            let mut lit_end: usize = i + 1;
            while lit_end - i < MAX_LITERAL && lit_end < n
                invariant
                    s == input@,
                    n == s.len(),
                    i < lit_end <= n,
                    lit_end - i <= MAX_LITERAL,
                    literal_from(s, i as int, (lit_end - i) as int) == literal_from(s, i as int, 1),
                ensures
                    i < lit_end <= n,
                    lit_end - i <= MAX_LITERAL,
                    literal_from(s, i as int, (lit_end - i) as int) == literal_from(s, i as int, 1),
                    literal_from(s, i as int, (lit_end - i) as int) == lit_end - i,
                decreases n - lit_end,
            {
                if n - lit_end > 2 && input[lit_end] == input[lit_end + 1] && input[lit_end + 1]
                    == input[lit_end + 2] {
                    break;
                }
                lit_end += 1;
            }
            let lit = lit_end - i;
            proof {
                lemma_literal_from(s, i as int, 1);
            }
            assert(lit as int == literal_from(s, i as int, 1));
            let ghost before = out@;
            out.push((lit - 1) as u8);
            let mut k: usize = i;
            while k < lit_end
                invariant
                    s == input@,
                    n == s.len(),
                    lit == lit_end - i,
                    i <= k <= lit_end <= n,
                    out@ == before + seq![(lit - 1) as u8] + s.subrange(i as int, k as int),
                decreases lit_end - k,
            {
                out.push(input[k]);
                assert(s.subrange(i as int, k + 1) =~= s.subrange(i as int, k as int).push(s[k as int]));
                k += 1;
            }
            assert(out@ + encode_from(s, lit_end as int) =~= before + encode_from(s, i as int));
            i = lit_end;
        }
    }
    assert(encode_from(input@, n as int) =~= Seq::<u8>::empty());
    assert(out@ =~= encode(input@));
    proof {
        lemma_decode_encode(input@);
    }
    out
}

} // verus!
