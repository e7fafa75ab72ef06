//! Which zlib streams the inflater of the `compress` crate reads without a fault.
//!
//! The crate's inflater panics on two kinds of input: a fixed-code block that
//! holds the length symbol 286 (it indexes its length table one past the end),
//! and a dynamic-block header whose repeat code writes past the 316 code
//! lengths it has room for. This module walks a stream as that inflater does,
//! bit by bit, up to the point where it stops (an error, an empty block or the
//! last block), and tells whether it meets one of those inputs first.
use vstd::prelude::*;
use vstd::pervasive::VecAdditionalExecFns;

verus! {

/// `2^k`.
pub open spec fn p2(k: nat) -> nat
    decreases k,
{
    if k == 0 {
        1
    } else {
        2 * p2((k - 1) as nat)
    }
}

/// Bit `q` of the input, counting from the least significant bit of the first byte.
pub open spec fn bit_at(s: Seq<u8>, q: int) -> int {
    ((s[q / 8] as nat / p2((q % 8) as nat)) % 2) as int
}

/// The value of the `cnt` bits from bit `q` on, the first one least significant.
pub open spec fn bits_value(s: Seq<u8>, q: int, cnt: nat) -> int
    decreases cnt,
{
    if cnt == 0 {
        0
    } else {
        bits_value(s, q, (cnt - 1) as nat) + bit_at(s, q + cnt - 1) * p2((cnt - 1) as nat)
    }
}

/// Reads `cnt` bits from bit `q`: their value and the position after them, or
/// `None` where the input ends first.
pub open spec fn read_bits(s: Seq<u8>, q: int, cnt: nat) -> Option<(int, int)> {
    if q < 0 || q + cnt > 8 * s.len() {
        None
    } else {
        Some((bits_value(s, q, cnt), q + cnt))
    }
}

/// The symbols (in increasing order) among the first `n` whose code length is `l`.
pub open spec fn syms_with_len(lens: Seq<u16>, l: int, n: nat) -> Seq<int>
    decreases n,
{
    if n == 0 {
        Seq::empty()
    } else {
        let s = syms_with_len(lens, l, (n - 1) as nat);
        if lens[n - 1] as int == l {
            s.push(n - 1)
        } else {
            s
        }
    }
}

/// How many symbols have code length `l`.
pub open spec fn code_count(lens: Seq<u16>, l: int) -> int {
    syms_with_len(lens, l, lens.len()).len() as int
}

/// The Kraft check of the code lengths from length `l` on, `left` codes being free.
pub open spec fn kraft_ok(lens: Seq<u16>, l: int, left: int) -> bool
    decreases 16 - l,
{
    if l > 15 {
        true
    } else {
        let rest = 2 * left - code_count(lens, l);
        rest >= 0 && kraft_ok(lens, l + 1, rest)
    }
}

/// Code lengths from which the inflater builds a Huffman table: all zero, or
/// not over-subscribed.
pub open spec fn tree_ok(lens: Seq<u16>) -> bool {
    code_count(lens, 0) == lens.len() || kraft_ok(lens, 1, 1)
}

/// Decodes one symbol of the canonical Huffman code with code lengths `lens`, as
/// the inflater does: one bit per length, from length `l` on.
pub open spec fn huff_decode(lens: Seq<u16>, s: Seq<u8>, q: int, l: int, code: int, first: int) -> Option<(int, int)>
    decreases 16 - l,
{
    if l < 1 || l > 15 {
        None
    } else {
        match read_bits(s, q, 1) {
            None => None,
            Some((b, q1)) => {
                let c = code + b;
                let cnt = code_count(lens, l);
                if c < first + cnt {
                    Some((syms_with_len(lens, l, lens.len())[c - first], q1))
                } else {
                    huff_decode(lens, s, q1, l + 1, 2 * c, 2 * (first + cnt))
                }
            },
        }
    }
}

/// The symbol at bit `q` and the position after it.
pub open spec fn huff_symbol(lens: Seq<u16>, s: Seq<u8>, q: int) -> Option<(int, int)> {
    huff_decode(lens, s, q, 1, 0, 0)
}

pub proof fn lemma_huff_advances(lens: Seq<u16>, s: Seq<u8>, q: int, l: int, code: int, first: int)
    ensures
        huff_decode(lens, s, q, l, code, first) is Some ==> huff_decode(lens, s, q, l, code, first)->Some_0.1 > q,
    decreases 16 - l,
{
    if 1 <= l <= 15 && read_bits(s, q, 1) is Some {
        let c = code + read_bits(s, q, 1)->Some_0.0;
        lemma_huff_advances(lens, s, q + 1, l + 1, 2 * c, 2 * (first + code_count(lens, l)));
    }
}

/// Base lengths of the length symbols 257..285.
pub open spec fn length_bases() -> Seq<u16> {
    seq![3u16, 4, 5, 6, 7, 8, 9, 10, 11, 13, 15, 17, 19, 23, 27, 31, 35, 43, 51, 59, 67, 83, 99, 115, 131, 163, 195, 227, 258]
}

/// Extra bits of the length symbols 257..285.
pub open spec fn length_extra() -> Seq<u16> {
    seq![0u16, 0, 0, 0, 0, 0, 0, 0, 1, 1, 1, 1, 2, 2, 2, 2, 3, 3, 3, 3, 4, 4, 4, 4, 5, 5, 5, 5, 0]
}

/// Base distances of the distance symbols 0..29.
pub open spec fn dist_bases() -> Seq<u16> {
    seq![1u16, 2, 3, 4, 5, 7, 9, 13, 17, 25, 33, 49, 65, 97, 129, 193, 257, 385, 513, 769, 1025, 1537, 2049, 3073, 4097, 6145, 8193, 12289, 16385, 24577]
}

/// Extra bits of the distance symbols 0..29.
pub open spec fn dist_extra() -> Seq<u16> {
    seq![0u16, 0, 0, 0, 1, 1, 2, 2, 3, 3, 4, 4, 5, 5, 6, 6, 7, 7, 8, 8, 9, 9, 10, 10, 11, 11, 12, 12, 13, 13]
}

/// The order in which a dynamic block lists its code-length code lengths.
pub open spec fn code_length_order() -> Seq<u16> {
    seq![16u16, 17, 18, 0, 8, 7, 9, 6, 10, 5, 11, 4, 12, 3, 13, 2, 14, 1, 15]
}

/// The code lengths of the fixed literal/length code.
pub open spec fn fixed_lit_lens() -> Seq<u16> {
    Seq::new(288, |i: int| if i < 144 { 8u16 } else if i < 256 { 9u16 } else if i < 280 { 7u16 } else { 8u16 })
}

/// The code lengths of the fixed distance code.
pub open spec fn fixed_dist_lens() -> Seq<u16> {
    Seq::new(30, |i: int| 5u16)
}

/// How far the inflater got in a part of the stream.
pub enum Flow {
    /// It panicked.
    Panics,
    /// It stopped with an error.
    Fails,
    /// It read the part, ending at the bit position, having produced the count of bytes.
    Ends(int, int),
}

/// How far the inflater got in the code lengths of a dynamic block.
pub enum LensFlow {
    Panics,
    Fails,
    /// It read them, ending at the bit position, with these lengths.
    Ends(int, Seq<u16>),
}

/// The smallest number of bytes the inflater keeps as history.
pub open spec fn history(total: int) -> int {
    if total < 32768 { total } else { 32768 }
}

/// The literals, lengths and distances of a block from bit `q`, with the given
/// codes, `before` bytes produced before the block and `blk` in it so far.
pub open spec fn codes_walk(s: Seq<u8>, q: int, lit: Seq<u16>, dist: Seq<u16>, before: int, blk: int) -> Flow
    decreases 8 * s.len() - q,
{
    match huff_symbol(lit, s, q) {
        None => Flow::Fails,
        Some((sym, q1)) => {
            proof { lemma_huff_advances(lit, s, q, 1, 0, 0); }
            if q1 > 8 * s.len() {
                Flow::Fails
            } else if sym < 256 {
                codes_walk(s, q1, lit, dist, before, blk + 1)
            } else if sym == 256 {
                Flow::Ends(q1, blk)
            } else if sym < 290 {
                let n = sym - 257;
                if n > 29 {
                    Flow::Fails
                } else if n == 29 {
                    Flow::Panics
                } else {
                    match read_bits(s, q1, length_extra()[n] as nat) {
                        None => Flow::Fails,
                        Some((e, q2)) => {
                            let len = length_bases()[n] + e;
                            match huff_symbol(dist, s, q2) {
                                None => Flow::Fails,
                                Some((ds, q3)) => {
                                    if ds < 0 || ds >= 30 {
                                        Flow::Panics
                                    } else {
                                        match read_bits(s, q3, dist_extra()[ds] as nat) {
                                            None => Flow::Fails,
                                            Some((e2, q4)) => {
                                                proof { lemma_huff_advances(dist, s, q2, 1, 0, 0); }
                                                if dist_bases()[ds] + e2 > history(before + blk) {
                                                    Flow::Fails
                                                } else {
                                                    codes_walk(s, q4, lit, dist, before, blk + len)
                                                }
                                            },
                                        }
                                    }
                                },
                            }
                        },
                    }
                }
            } else {
                Flow::Fails
            }
        },
    }
}

pub proof fn lemma_codes_advance(s: Seq<u8>, q: int, lit: Seq<u16>, dist: Seq<u16>, before: int, blk: int)
    ensures
        codes_walk(s, q, lit, dist, before, blk) matches Flow::Ends(q1, _) ==> q1 > q,
    decreases 8 * s.len() - q,
{
    lemma_huff_advances(lit, s, q, 1, 0, 0);
    match huff_symbol(lit, s, q) {
        None => {},
        Some((sym, q1)) => {
            if q1 <= 8 * s.len() {
                if sym < 256 {
                    lemma_codes_advance(s, q1, lit, dist, before, blk + 1);
                } else if 256 < sym < 290 && sym - 257 < 29 {
                    let n = sym - 257;
                    if let Some((e, q2)) = read_bits(s, q1, length_extra()[n] as nat) {
                        lemma_huff_advances(dist, s, q2, 1, 0, 0);
                        if let Some((ds, q3)) = huff_symbol(dist, s, q2) {
                            if 0 <= ds < 30 {
                                if let Some((e2, q4)) = read_bits(s, q3, dist_extra()[ds] as nat) {
                                    lemma_codes_advance(s, q4, lit, dist, before, blk + length_bases()[n] + e);
                                }
                            }
                        }
                    }
                }
            }
        },
    }
}

/// Whether a symbol that the inflater's tables lack is decoded at bit `p`: the
/// literal/length symbol 286, or a distance symbol outside 0 to 29.
pub open spec fn missing_symbol_at(s: Seq<u8>, p: int, lit: Seq<u16>, dist: Seq<u16>) -> bool {
    ||| huff_symbol(lit, s, p) matches Some((sym, _)) && sym == 286
    ||| huff_symbol(dist, s, p) matches Some((ds, _)) && !(0 <= ds < 30)
}

/// The literals, lengths and distances of a block lead the inflater into a fault
/// only through a symbol its tables lack, decoded at some bit from `q` on: every
/// other length symbol (257 to 285, the longest match included) and every
/// distance symbol below 30 is read without a fault.
pub proof fn lemma_codes_fault_needs_missing_symbol(
    s: Seq<u8>,
    q: int,
    lit: Seq<u16>,
    dist: Seq<u16>,
    before: int,
    blk: int,
)
    ensures
        codes_walk(s, q, lit, dist, before, blk) is Panics ==> exists|p: int|
            q <= p && #[trigger] missing_symbol_at(s, p, lit, dist),
    decreases 8 * s.len() - q,
{
    lemma_huff_advances(lit, s, q, 1, 0, 0);
    match huff_symbol(lit, s, q) {
        None => {},
        Some((sym, q1)) => {
            if q1 <= 8 * s.len() {
                if sym < 256 {
                    lemma_codes_fault_needs_missing_symbol(s, q1, lit, dist, before, blk + 1);
                } else if 256 < sym < 290 {
                    let n = sym - 257;
                    if n == 29 {
                        assert(missing_symbol_at(s, q, lit, dist));
                    } else if n < 29 {
                        if let Some((e, q2)) = read_bits(s, q1, length_extra()[n] as nat) {
                            lemma_huff_advances(dist, s, q2, 1, 0, 0);
                            if let Some((ds, q3)) = huff_symbol(dist, s, q2) {
                                if ds < 0 || ds >= 30 {
                                    assert(missing_symbol_at(s, q2, lit, dist));
                                } else if let Some((e2, q4)) = read_bits(s, q3, dist_extra()[ds] as nat) {
                                    lemma_codes_fault_needs_missing_symbol(
                                        s,
                                        q4,
                                        lit,
                                        dist,
                                        before,
                                        blk + length_bases()[n] + e,
                                    );
                                }
                            }
                        }
                    }
                }
            }
        },
    }
}

/// The code-length code lengths of a dynamic block: the first `i` of the
/// `hclen` three-bit values from bit `q`, placed in the listing order.
pub open spec fn code_length_lens(s: Seq<u8>, q: int, i: nat) -> Option<(Seq<u16>, int)>
    decreases i,
{
    if i == 0 {
        Some((Seq::new(19, |j: int| 0u16), q))
    } else {
        match code_length_lens(s, q, (i - 1) as nat) {
            None => None,
            Some((ls, q1)) => match read_bits(s, q1, 3) {
                None => None,
                Some((v, q2)) => Some((ls.update(code_length_order()[i - 1] as int, v as u16), q2)),
            },
        }
    }
}

/// The code lengths of a dynamic block from bit `q`: `lengths` filled up to
/// `i` of `target`, decoded with the code-length code `cl`.
pub open spec fn lengths_walk(s: Seq<u8>, q: int, cl: Seq<u16>, lengths: Seq<u16>, i: int, target: int) -> LensFlow
    decreases 8 * s.len() - q,
{
    if i >= target {
        if i > target {
            LensFlow::Fails
        } else {
            LensFlow::Ends(q, lengths)
        }
    } else {
        match huff_symbol(cl, s, q) {
            None => LensFlow::Fails,
            Some((sym, q1)) => {
                proof { lemma_huff_advances(cl, s, q, 1, 0, 0); }
                if q1 > 8 * s.len() {
                    LensFlow::Fails
                } else if sym < 16 {
                    lengths_walk(s, q1, cl, lengths.update(i, sym as u16), i + 1, target)
                } else if sym == 16 {
                    if i == 0 {
                        LensFlow::Fails
                    } else {
                        match read_bits(s, q1, 2) {
                            None => LensFlow::Fails,
                            Some((r, q2)) => {
                                let rep = r + 3;
                                if i + rep > 316 {
                                    LensFlow::Panics
                                } else {
                                    let prev = lengths[i - 1];
                                    lengths_walk(
                                        s,
                                        q2,
                                        cl,
                                        Seq::new(316, |j: int| if i <= j < i + rep { prev } else { lengths[j] }),
                                        i + rep,
                                        target,
                                    )
                                }
                            },
                        }
                    }
                } else if sym == 17 {
                    match read_bits(s, q1, 3) {
                        None => LensFlow::Fails,
                        Some((r, q2)) => lengths_walk(s, q2, cl, lengths, i + r + 3, target),
                    }
                } else if sym == 18 {
                    match read_bits(s, q1, 7) {
                        None => LensFlow::Fails,
                        Some((r, q2)) => lengths_walk(s, q2, cl, lengths, i + r + 11, target),
                    }
                } else {
                    LensFlow::Fails
                }
            },
        }
    }
}

/// A dynamic block from bit `q` (after its three header bits), with `before`
/// bytes produced before it.
pub open spec fn dynamic_walk(s: Seq<u8>, q: int, before: int) -> Flow {
    match read_bits(s, q, 5) {
        None => Flow::Fails,
        Some((a, q1)) => match read_bits(s, q1, 5) {
            None => Flow::Fails,
            Some((b, q2)) => match read_bits(s, q2, 4) {
                None => Flow::Fails,
                Some((c, q3)) => {
                    let hlit = a + 257;
                    let hdist = b + 1;
                    let hclen = c + 4;
                    if hlit > 286 || hdist > 30 {
                        Flow::Fails
                    } else {
                        match code_length_lens(s, q3, hclen as nat) {
                            None => Flow::Fails,
                            Some((cl, q4)) => if !tree_ok(cl) {
                                Flow::Fails
                            } else {
                                match lengths_walk(s, q4, cl, Seq::new(316, |j: int| 0u16), 0, hlit + hdist) {
                                    LensFlow::Panics => Flow::Panics,
                                    LensFlow::Fails => Flow::Fails,
                                    LensFlow::Ends(q5, lengths) => {
                                        let lit = lengths.subrange(0, hlit);
                                        let dist = lengths.subrange(hlit, hlit + hdist);
                                        if !tree_ok(lit) || !tree_ok(dist) {
                                            Flow::Fails
                                        } else {
                                            codes_walk(s, q5, lit, dist, before, 0)
                                        }
                                    },
                                }
                            },
                        }
                    }
                },
            },
        },
    }
}

/// A stored block from bit `q` (after its three header bits): the rest of the
/// byte is skipped, then a length, its complement and that many bytes.
pub open spec fn stored_walk(s: Seq<u8>, q: int) -> Flow {
    let b = (q + 7) / 8;
    if b + 4 > s.len() {
        Flow::Fails
    } else {
        let len = s[b] as int + 256 * s[b + 1] as int;
        let nlen = s[b + 2] as int + 256 * s[b + 3] as int;
        if nlen != 65535 - len || b + 4 + len > s.len() {
            Flow::Fails
        } else {
            Flow::Ends(8 * (b + 4 + len), len)
        }
    }
}

/// One block from bit `q` (after its three header bits) of type `ty`.
pub open spec fn block_walk(s: Seq<u8>, q: int, ty: int, before: int) -> Flow {
    if ty == 0 {
        stored_walk(s, q)
    } else if ty == 1 {
        codes_walk(s, q, fixed_lit_lens(), fixed_dist_lens(), before, 0)
    } else if ty == 2 {
        dynamic_walk(s, q, before)
    } else {
        Flow::Fails
    }
}

pub proof fn lemma_block_advances(s: Seq<u8>, q: int, ty: int, before: int)
    requires
        q >= 0,
    ensures
        block_walk(s, q, ty, before) matches Flow::Ends(q1, _) ==> q1 >= q,
{
    if ty == 1 {
        lemma_codes_advance(s, q, fixed_lit_lens(), fixed_dist_lens(), before, 0);
    } else if ty == 2 {
        if let Some((a, q1)) = read_bits(s, q, 5) {
            if let Some((b, q2)) = read_bits(s, q1, 5) {
                if let Some((c, q3)) = read_bits(s, q2, 4) {
                    if let Some((cl, q4)) = code_length_lens(s, q3, (c + 4) as nat) {
                        lemma_code_length_lens_advance(s, q3, (c + 4) as nat);
                        lemma_lengths_advance(s, q4, cl, Seq::new(316, |j: int| 0u16), 0, a + 257 + b + 1);
                        if let LensFlow::Ends(q5, lengths) = lengths_walk(s, q4, cl, Seq::new(316, |j: int| 0u16), 0, a + 257 + b + 1) {
                            lemma_codes_advance(s, q5, lengths.subrange(0, a + 257), lengths.subrange(a + 257, a + 257 + b + 1), before, 0);
                        }
                    }
                }
            }
        }
    }
}

pub proof fn lemma_code_length_lens_advance(s: Seq<u8>, q: int, i: nat)
    ensures
        code_length_lens(s, q, i) matches Some((ls, q1)) ==> q1 >= q,
    decreases i,
{
    if i > 0 {
        lemma_code_length_lens_advance(s, q, (i - 1) as nat);
    }
}

pub proof fn lemma_lengths_advance(s: Seq<u8>, q: int, cl: Seq<u16>, lengths: Seq<u16>, i: int, target: int)
    ensures
        lengths_walk(s, q, cl, lengths, i, target) matches LensFlow::Ends(q1, _) ==> q1 >= q,
    decreases 8 * s.len() - q,
{
    if i < target {
        lemma_huff_advances(cl, s, q, 1, 0, 0);
        if let Some((sym, q1)) = huff_symbol(cl, s, q) {
            if q1 <= 8 * s.len() {
                if sym < 16 {
                    lemma_lengths_advance(s, q1, cl, lengths.update(i, sym as u16), i + 1, target);
                } else if sym == 16 && i != 0 {
                    if let Some((r, q2)) = read_bits(s, q1, 2) {
                        let rep = r + 3;
                        let prev = lengths[i - 1];
                        lemma_lengths_advance(s, q2, cl, Seq::new(316, |j: int| if i <= j < i + rep { prev } else { lengths[j] }), i + rep, target);
                    }
                } else if sym == 17 {
                    if let Some((r, q2)) = read_bits(s, q1, 3) {
                        lemma_lengths_advance(s, q2, cl, lengths, i + r + 3, target);
                    }
                } else if sym == 18 {
                    if let Some((r, q2)) = read_bits(s, q1, 7) {
                        lemma_lengths_advance(s, q2, cl, lengths, i + r + 11, target);
                    }
                }
            }
        }
    }
}

/// Whether the inflater, reading blocks from bit `q` with `total` bytes
/// produced so far, panics before it stops.
pub open spec fn blocks_panic(s: Seq<u8>, q: int, total: int) -> bool
    decreases 8 * s.len() - q,
{
    if q < 0 {
        false
    } else {
        match read_bits(s, q, 1) {
            None => false,
            Some((fin, q1)) => match read_bits(s, q1, 2) {
                None => false,
                Some((ty, q2)) => {
                    proof { lemma_block_advances(s, q2, ty, total); }
                    match block_walk(s, q2, ty, total) {
                        Flow::Panics => true,
                        Flow::Fails => false,
                        Flow::Ends(q3, blk) => if blk == 0 || fin == 1 || q3 > 8 * s.len() {
                            false
                        } else {
                            blocks_panic(s, q3, total + blk)
                        },
                    }
                },
            },
        }
    }
}

/// A zlib stream that `compress::zlib::Decoder` reads without panicking: one whose
/// two-byte header it refuses, or whose blocks do not lead it into a fault
/// before it stops.
pub open spec fn zlib_stream_decodable(s: Seq<u8>) -> bool {
    if s.len() < 2 {
        true
    } else {
        let cmf = s[0] as int;
        let flg = s[1] as int;
        if cmf % 16 != 8 || cmf / 16 != 7 || (flg / 32) % 2 == 1 || (cmf * 256 + flg) % 31 != 0 {
            true
        } else {
            !blocks_panic(s, 16, 0)
        }
    }
}

fn length_base_table() -> (t: Vec<u16>)
    ensures
        t@ == length_bases(),
{
    let t = vec![3u16, 4, 5, 6, 7, 8, 9, 10, 11, 13, 15, 17, 19, 23, 27, 31, 35, 43, 51, 59, 67, 83, 99, 115, 131, 163, 195, 227, 258];
    assert(t@ =~= length_bases());
    t
}

fn length_extra_table() -> (t: Vec<u16>)
    ensures
        t@ == length_extra(),
{
    let t = vec![0u16, 0, 0, 0, 0, 0, 0, 0, 1, 1, 1, 1, 2, 2, 2, 2, 3, 3, 3, 3, 4, 4, 4, 4, 5, 5, 5, 5, 0];
    assert(t@ =~= length_extra());
    t
}

fn dist_base_table() -> (t: Vec<u16>)
    ensures
        t@ == dist_bases(),
{
    let t = vec![1u16, 2, 3, 4, 5, 7, 9, 13, 17, 25, 33, 49, 65, 97, 129, 193, 257, 385, 513, 769, 1025, 1537, 2049, 3073, 4097, 6145, 8193, 12289, 16385, 24577];
    assert(t@ =~= dist_bases());
    t
}

fn dist_extra_table() -> (t: Vec<u16>)
    ensures
        t@ == dist_extra(),
{
    let t = vec![0u16, 0, 0, 0, 1, 1, 2, 2, 3, 3, 4, 4, 5, 5, 6, 6, 7, 7, 8, 8, 9, 9, 10, 10, 11, 11, 12, 12, 13, 13];
    assert(t@ =~= dist_extra());
    t
}

fn code_length_order_table() -> (t: Vec<u16>)
    ensures
        t@ == code_length_order(),
{
    let t = vec![16u16, 17, 18, 0, 8, 7, 9, 6, 10, 5, 11, 4, 12, 3, 13, 2, 14, 1, 15];
    assert(t@ =~= code_length_order());
    t
}

fn fixed_lit_table() -> (t: Vec<u16>)
    ensures
        t@ == fixed_lit_lens(),
{
    let mut t: Vec<u16> = Vec::new();
    let mut i: usize = 0;
    while i < 288
        invariant
            i <= 288,
            t@ == fixed_lit_lens().take(i as int),
        decreases 288 - i,
    {
        let v: u16 = if i < 144 { 8 } else if i < 256 { 9 } else if i < 280 { 7 } else { 8 };
        t.push(v);
        assert(t@ =~= fixed_lit_lens().take(i + 1));
        i = i + 1;
    }
    assert(t@ =~= fixed_lit_lens());
    t
}

fn fixed_dist_table() -> (t: Vec<u16>)
    ensures
        t@ == fixed_dist_lens(),
{
    let mut t: Vec<u16> = Vec::new();
    let mut i: usize = 0;
    while i < 30
        invariant
            i <= 30,
            t@ == fixed_dist_lens().take(i as int),
        decreases 30 - i,
    {
        t.push(5);
        assert(t@ =~= fixed_dist_lens().take(i + 1));
        i = i + 1;
    }
    assert(t@ =~= fixed_dist_lens());
    t
}

/// The bit position `8 * byte + bit`.
pub open spec fn pos(byte: usize, bit: usize) -> int {
    8 * byte + bit
}

/// A bit position inside the input or at its end.
pub open spec fn pos_ok(s: Seq<u8>, byte: usize, bit: usize) -> bool {
    bit < 8 && (byte < s.len() || (byte == s.len() && bit == 0))
}

proof fn lemma_p2_bound(k: nat)
    requires
        k <= 16,
    ensures
        1 <= p2(k) <= 65536,
    decreases k,
{
    if k > 0 {
        lemma_p2_bound((k - 1) as nat);
        reveal_with_fuel(p2, 17);
        assert(p2(k) == 2 * p2((k - 1) as nat));
        if k == 16 {
            assert(p2(16) == 65536);
        } else {
            lemma_p2_bound((k - 1) as nat);
            assert(p2((k - 1) as nat) <= 32768) by {
                lemma_p2_le((k - 1) as nat, 15);
            }
        }
    }
}

proof fn lemma_p2_values()
    ensures
        p2(0) == 1,
        p2(1) == 2,
        p2(2) == 4,
        p2(3) == 8,
        p2(4) == 16,
        p2(5) == 32,
        forall|k: nat| #[trigger] p2(k + 1) == 2 * p2(k),
{
    reveal_with_fuel(p2, 7);
    assert forall|k: nat| #[trigger] p2(k + 1) == 2 * p2(k) by {}
}

proof fn lemma_p2_le(a: nat, b: nat)
    requires
        a <= b,
    ensures
        p2(a) <= p2(b),
        b == 15 ==> p2(b) == 32768,
    decreases b,
{
    reveal_with_fuel(p2, 16);
    if a < b {
        lemma_p2_le(a, (b - 1) as nat);
    }
}

fn bit_weight(k: usize) -> (w: u32)
    requires
        k < 16,
    ensures
        w == p2(k as nat),
{
    reveal_with_fuel(p2, 17);
    match k {
        0 => 1,
        1 => 2,
        2 => 4,
        3 => 8,
        4 => 16,
        5 => 32,
        6 => 64,
        7 => 128,
        8 => 256,
        9 => 512,
        10 => 1024,
        11 => 2048,
        12 => 4096,
        13 => 8192,
        14 => 16384,
        _ => 32768,
    }
}

/// Reads `cnt` bits (see `read_bits`).
fn read_bits_at(s: &[u8], byte: usize, bit: usize, cnt: usize) -> (r: Option<(u32, usize, usize)>)
    requires
        pos_ok(s@, byte, bit),
        cnt <= 15,
    ensures
        match read_bits(s@, pos(byte, bit), cnt as nat) {
            None => r is None,
            Some((v, q)) => r matches Some((v2, b2, k2)) && v2 == v && pos(b2, k2) == q && pos_ok(s@, b2, k2),
        },
        r matches Some((v2, _, _)) ==> v2 <= 32767 && v2 < p2(cnt as nat),
{
    let ghost q0 = pos(byte, bit);
    let mut b = byte;
    let mut k = bit;
    let mut value: u32 = 0;
    let mut i: usize = 0;
    while i < cnt
        invariant
            i <= cnt <= 15,
            pos_ok(s@, b, k),
            pos(b, k) == q0 + i,
            q0 == pos(byte, bit),
            q0 >= 0,
            value == bits_value(s@, q0, i as nat),
            value < p2(i as nat),
        decreases cnt - i,
    {
        proof {
            lemma_p2_values();
            lemma_p2_bound(k as nat);
            lemma_p2_bound(i as nat);
            lemma_p2_bound((i + 1) as nat);
        }
        if b >= s.len() {
            assert(q0 + cnt > 8 * s@.len());
            assert(read_bits(s@, q0, cnt as nat) is None);
            return None;
        }
        let w = bit_weight(k);
        let x = (s[b] as u32 / w) % 2;
        assert((pos(b, k)) / 8 == b && pos(b, k) % 8 == k);
        assert(x == bit_at(s@, q0 + i));
        let wi = bit_weight(i);
        assert(x <= 1);
        assert(bit_at(s@, q0 + i) * p2(i as nat) == if x == 1 { p2(i as nat) as int } else { 0 }) by (nonlinear_arith)
            requires
                x == bit_at(s@, q0 + i),
                x <= 1,
        ;
        assert(bits_value(s@, q0, (i + 1) as nat) == bits_value(s@, q0, i as nat) + bit_at(s@, q0 + i) * p2(i as nat));
        if x == 1 {
            value = value + wi;
        }
        assert(p2((i + 1) as nat) == 2 * p2(i as nat));
        if k == 7 {
            b = b + 1;
            k = 0;
        } else {
            k = k + 1;
        }
        i = i + 1;
    }
    assert(read_bits(s@, q0, cnt as nat) == Some((value as int, q0 + cnt)));
    proof { lemma_p2_le(cnt as nat, 15); }
    Some((value, b, k))
}

/// A Huffman table as the inflater keeps it: per code length, the count of
/// symbols and where their sorted list starts.
struct Huffman {
    counts: Vec<u32>,
    offsets: Vec<usize>,
    sorted: Vec<u16>,
}

/// Whether the table holds the code of the code lengths `lens`.
spec fn huffman_of(t: Huffman, lens: Seq<u16>) -> bool {
    &&& t.counts@.len() == 16
    &&& t.offsets@.len() == 16
    &&& forall|l: int|
        0 <= l < 16 ==> {
            &&& #[trigger] t.counts@[l] == code_count(lens, l)
            &&& t.offsets@[l] + t.counts@[l] <= t.sorted@.len()
            &&& forall|k: int|
                0 <= k < t.counts@[l] ==> t.sorted@[t.offsets@[l] + k] as int == #[trigger] syms_with_len(
                    lens,
                    l,
                    lens.len(),
                )[k]
        }
}

proof fn lemma_syms_bound(lens: Seq<u16>, l: int, n: nat)
    ensures
        syms_with_len(lens, l, n).len() <= n,
        forall|k: int| 0 <= k < syms_with_len(lens, l, n).len() ==> 0 <= #[trigger] syms_with_len(lens, l, n)[k] < n,
    decreases n,
{
    if n > 0 {
        lemma_syms_bound(lens, l, (n - 1) as nat);
    }
}

/// Builds the table of the code with code lengths `lens`.
fn build_huffman(lens: &[u16]) -> (t: Huffman)
    requires
        lens@.len() <= 400,
    ensures
        huffman_of(t, lens@),
{
    let n = lens.len();
    let mut counts: Vec<u32> = Vec::new();
    let mut offsets: Vec<usize> = Vec::new();
    let mut sorted: Vec<u16> = Vec::new();
    let mut l: usize = 0;
    while l < 16
        invariant
            n == lens@.len() <= 400,
            l <= 16,
            counts@.len() == l,
            offsets@.len() == l,
            sorted@.len() <= 400 * l,
            forall|m: int|
                0 <= m < l ==> {
                    &&& #[trigger] counts@[m] == code_count(lens@, m)
                    &&& offsets@[m] + counts@[m] <= sorted@.len()
                    &&& forall|k: int|
                        0 <= k < counts@[m] ==> sorted@[offsets@[m] + k] as int == #[trigger] syms_with_len(
                            lens@,
                            m,
                            lens@.len(),
                        )[k]
                },
        decreases 16 - l,
    {
        let off = sorted.len();
        let ghost before = sorted@;
        let mut i: usize = 0;
        while i < n
            invariant
                n == lens@.len() <= 400,
                l < 16,
                i <= n,
                off == before.len(),
                off <= 400 * l,
                sorted@.len() == off + syms_with_len(lens@, l as int, i as nat).len(),
                sorted@.take(off as int) == before,
                forall|k: int|
                    0 <= k < syms_with_len(lens@, l as int, i as nat).len() ==> sorted@[off + k] as int
                        == #[trigger] syms_with_len(lens@, l as int, i as nat)[k],
            decreases n - i,
        {
            proof { lemma_syms_bound(lens@, l as int, i as nat); }
            if lens[i] as usize == l {
                sorted.push(i as u16);
                assert(sorted@.take(off as int) =~= before);
            }
            i = i + 1;
        }
        proof { lemma_syms_bound(lens@, l as int, n as nat); }
        let count = (sorted.len() - off) as u32;
        counts.push(count);
        offsets.push(off);
        assert forall|m: int| 0 <= m < l implies {
            &&& #[trigger] counts@[m] == code_count(lens@, m)
            &&& offsets@[m] + counts@[m] <= sorted@.len()
            &&& forall|k: int|
                0 <= k < counts@[m] ==> sorted@[offsets@[m] + k] as int == #[trigger] syms_with_len(
                    lens@,
                    m,
                    lens@.len(),
                )[k]
        } by {
            assert forall|k: int| 0 <= k < counts@[m] implies sorted@[offsets@[m] + k] as int
                == #[trigger] syms_with_len(lens@, m, lens@.len())[k] by {
                assert(sorted@.take(off as int)[offsets@[m] + k] == before[offsets@[m] + k]);
            }
        }
        l = l + 1;
    }
    Huffman { counts, offsets, sorted }
}

/// Whether the code lengths give a table (see `tree_ok`).
fn tree_is_ok(t: &Huffman, n: usize, ghost_lens: Ghost<Seq<u16>>) -> (r: bool)
    requires
        huffman_of(*t, ghost_lens@),
        n == ghost_lens@.len(),
        n <= 400,
    ensures
        r == tree_ok(ghost_lens@),
{
    let ghost lens = ghost_lens@;
    assert(t.counts@[0] == code_count(lens, 0));
    if t.counts[0] as usize == n {
        return true;
    }
    let mut left: i64 = 1;
    let mut l: usize = 1;
    proof { lemma_p2_values(); }
    while l <= 15
        invariant
            huffman_of(*t, lens),
            n == lens.len() <= 400,
            1 <= l <= 16,
            0 <= left <= p2(l as nat),
            code_count(lens, 0) != lens.len(),
            lens == ghost_lens@,
            kraft_ok(lens, 1, 1) == kraft_ok(lens, l as int, left as int),
        decreases 16 - l,
    {
        proof {
            lemma_syms_bound(lens, l as int, lens.len());
            lemma_p2_bound(l as nat);
            lemma_p2_bound((l + 1) as nat);
            lemma_p2_values();
        }
        assert(t.counts@[l as int] == code_count(lens, l as int));
        let rest = 2 * left - t.counts[l] as i64;
        if rest < 0 {
            assert(!kraft_ok(lens, l as int, left as int));
            return false;
        }
        left = rest;
        l = l + 1;
    }
    true
}

/// Decodes one symbol (see `huff_symbol`).
fn huff_symbol_at(t: &Huffman, lens: Ghost<Seq<u16>>, s: &[u8], byte: usize, bit: usize) -> (r: Option<(u16, usize, usize)>)
    requires
        huffman_of(*t, lens@),
        lens@.len() <= 400,
        pos_ok(s@, byte, bit),
    ensures
        match huff_symbol(lens@, s@, pos(byte, bit)) {
            None => r is None,
            Some((sym, q)) => r matches Some((v, b2, k2)) && v as int == sym && pos(b2, k2) == q && pos_ok(s@, b2, k2),
        },
{
    let mut code: u64 = 0;
    let mut first: u64 = 0;
    let mut b = byte;
    let mut k = bit;
    let mut l: usize = 1;
    while l <= 15
        invariant
            huffman_of(*t, lens@),
            lens@.len() <= 400,
            1 <= l <= 16,
            pos_ok(s@, b, k),
            first <= code,
            code + 2 <= 2 * p2(l as nat),
            first + 800 <= 800 * p2(l as nat),
            huff_symbol(lens@, s@, pos(byte, bit)) == huff_decode(lens@, s@, pos(b, k), l as int, code as int, first as int),
        decreases 16 - l,
    {
        proof {
            lemma_p2_bound(l as nat);
            lemma_p2_bound((l + 1) as nat);
            lemma_p2_values();
            lemma_syms_bound(lens@, l as int, lens@.len());
        }
        let (x, b2, k2) = match read_bits_at(s, b, k, 1) {
            Some(v) => v,
            None => return None,
        };
        assert(bits_value(s@, pos(b, k), 1) == bit_at(s@, pos(b, k))) by {
            lemma_p2_values();
            assert(bits_value(s@, pos(b, k), 0) == 0);
            assert(bits_value(s@, pos(b, k), 1) == bits_value(s@, pos(b, k), 0) + bit_at(s@, pos(b, k) + 1 - 1) * p2(0));
        }
        assert(t.counts@[l as int] == code_count(lens@, l as int));
        assert(t.offsets@[l as int] + t.counts@[l as int] <= t.sorted@.len());
        assert(t.sorted@.len() == t.sorted.len());
        let c = code + x as u64;
        let cnt = t.counts[l] as u64;
        if c < first + cnt {
            let idx = t.offsets[l] + (c - first) as usize;
            let sym = t.sorted[idx];
            return Some((sym, b2, k2));
        }
        code = 2 * c;
        first = 2 * (first + cnt);
        b = b2;
        k = k2;
        l = l + 1;
    }
    None
}

/// The constant tables of the inflater.
struct Tables {
    length_base: Vec<u16>,
    length_extra: Vec<u16>,
    dist_base: Vec<u16>,
    dist_extra: Vec<u16>,
    order: Vec<u16>,
}

spec fn tables_ok(t: Tables) -> bool {
    &&& t.length_base@ == length_bases()
    &&& t.length_extra@ == length_extra()
    &&& t.dist_base@ == dist_bases()
    &&& t.dist_extra@ == dist_extra()
    &&& t.order@ == code_length_order()
}

/// What an exec scan of a part of the stream gives, against the walk `f` with
/// `before` bytes produced before the part.
spec fn scan_matches(s: Seq<u8>, r: Result<(usize, usize, usize, bool), bool>, f: Flow, before: int) -> bool {
    match f {
        Flow::Panics => r == Err::<(usize, usize, usize, bool), bool>(true),
        Flow::Fails => r == Err::<(usize, usize, usize, bool), bool>(false),
        Flow::Ends(q, blk) => r matches Ok((b2, k2, h, ne)) && pos(b2, k2) == q && pos_ok(s, b2, k2)
            && h == history(before + blk) && ne == (blk > 0) && blk >= 0,
    }
}

/// Scans the literals, lengths and distances of a block (see `codes_walk`).
#[verifier::rlimit(60)]
fn codes_at(
    s: &[u8],
    byte: usize,
    bit: usize,
    lit: &Huffman,
    lit_lens: Ghost<Seq<u16>>,
    dist: &Huffman,
    dist_lens: Ghost<Seq<u16>>,
    hist: usize,
    before: Ghost<int>,
    tables: &Tables,
) -> (r: Result<(usize, usize, usize, bool), bool>)
    requires
        huffman_of(*lit, lit_lens@),
        huffman_of(*dist, dist_lens@),
        lit_lens@.len() <= 400,
        dist_lens@.len() <= 400,
        pos_ok(s@, byte, bit),
        before@ >= 0,
        hist == history(before@),
        tables_ok(*tables),
    ensures
        scan_matches(s@, r, codes_walk(s@, pos(byte, bit), lit_lens@, dist_lens@, before@, 0), before@),
{
    let ghost q0 = pos(byte, bit);
    let ghost mut blk: int = 0;
    let mut b = byte;
    let mut k = bit;
    let mut h = hist;
    let mut nonempty = false;
    loop
        invariant
            huffman_of(*lit, lit_lens@),
            huffman_of(*dist, dist_lens@),
            lit_lens@.len() <= 400,
            dist_lens@.len() <= 400,
            pos_ok(s@, b, k),
            before@ >= 0,
            blk >= 0,
            h == history(before@ + blk),
            nonempty == (blk > 0),
            tables_ok(*tables),
            q0 == pos(byte, bit),
            codes_walk(s@, q0, lit_lens@, dist_lens@, before@, 0) == codes_walk(
                s@,
                pos(b, k),
                lit_lens@,
                dist_lens@,
                before@,
                blk,
            ),
        decreases 8 * s@.len() - pos(b, k),
    {
        proof { lemma_huff_advances(lit_lens@, s@, pos(b, k), 1, 0, 0); }
        let (sym, b1, k1) = match huff_symbol_at(lit, lit_lens, s, b, k) {
            Some(v) => v,
            None => return Err(false),
        };
        if sym < 256 {
            proof { blk = blk + 1; }
            h = if h < 32768 { h + 1 } else { h };
            nonempty = true;
            b = b1;
            k = k1;
        } else if sym == 256 {
            return Ok((b1, k1, h, nonempty));
        } else if sym < 290 {
            let n = (sym - 257) as usize;
            if n > 29 {
                return Err(false);
            }
            if n == 29 {
                return Err(true);
            }
            let (e, b2, k2) = match read_bits_at(s, b1, k1, tables.length_extra[n] as usize) {
                Some(v) => v,
                None => return Err(false),
            };
            let len = tables.length_base[n] as usize + e as usize;
            proof { lemma_huff_advances(dist_lens@, s@, pos(b2, k2), 1, 0, 0); }
            let (ds, b3, k3) = match huff_symbol_at(dist, dist_lens, s, b2, k2) {
                Some(v) => v,
                None => return Err(false),
            };
            if ds >= 30 {
                return Err(true);
            }
            let (e2, b4, k4) = match read_bits_at(s, b3, k3, tables.dist_extra[ds as usize] as usize) {
                Some(v) => v,
                None => return Err(false),
            };
            let d = tables.dist_base[ds as usize] as usize + e2 as usize;
            if d > h {
                return Err(false);
            }
            proof { blk = blk + len; }
            h = if h + len < 32768 { h + len } else { 32768 };
            nonempty = nonempty || len > 0;
            b = b4;
            k = k4;
        } else {
            return Err(false);
        }
    }
}

/// Fills the code lengths of a dynamic block (see `lengths_walk`).
#[verifier::rlimit(60)]
fn lengths_at(s: &[u8], byte: usize, bit: usize, cl: &Huffman, cl_lens: Ghost<Seq<u16>>, target: usize) -> (r: Result<(usize, usize, Vec<u16>), bool>)
    requires
        huffman_of(*cl, cl_lens@),
        cl_lens@.len() <= 400,
        pos_ok(s@, byte, bit),
        target <= 316,
    ensures
        match lengths_walk(s@, pos(byte, bit), cl_lens@, Seq::new(316, |j: int| 0u16), 0, target as int) {
            LensFlow::Panics => r is Err && r->Err_0 == true,
            LensFlow::Fails => r is Err && r->Err_0 == false,
            LensFlow::Ends(q, ls) => r matches Ok((b2, k2, v)) && pos(b2, k2) == q && pos_ok(s@, b2, k2) && v@ == ls,
        },
        r matches Ok((_, _, v)) ==> v@.len() == 316,
{
    let mut lengths: Vec<u16> = Vec::new();
    let mut j: usize = 0;
    while j < 316
        invariant
            j <= 316,
            lengths@ == Seq::new(j as nat, |x: int| 0u16),
        decreases 316 - j,
    {
        lengths.push(0);
        assert(lengths@ =~= Seq::new((j + 1) as nat, |x: int| 0u16));
        j = j + 1;
    }
    assert(lengths@ =~= Seq::new(316, |x: int| 0u16));
    let ghost q0 = pos(byte, bit);
    let mut b = byte;
    let mut k = bit;
    let mut i: usize = 0;
    while i < target
        invariant
            huffman_of(*cl, cl_lens@),
            cl_lens@.len() <= 400,
            pos_ok(s@, b, k),
            target <= 316,
            i <= 316 + 32767 + 11,
            lengths@.len() == 316,
            q0 == pos(byte, bit),
            lengths_walk(s@, q0, cl_lens@, Seq::new(316, |j: int| 0u16), 0, target as int) == lengths_walk(
                s@,
                pos(b, k),
                cl_lens@,
                lengths@,
                i as int,
                target as int,
            ),
        decreases 8 * s@.len() - pos(b, k),
    {
        proof { lemma_huff_advances(cl_lens@, s@, pos(b, k), 1, 0, 0); }
        let (sym, b1, k1) = match huff_symbol_at(cl, cl_lens, s, b, k) {
            Some(v) => v,
            None => return Err(false),
        };
        if sym < 16 {
            lengths.set(i, sym);
            i = i + 1;
            b = b1;
            k = k1;
        } else if sym == 16 {
            if i == 0 {
                return Err(false);
            }
            let (x, b2, k2) = match read_bits_at(s, b1, k1, 2) {
                Some(v) => v,
                None => return Err(false),
            };
            let rep = x as usize + 3;
            if i + rep > 316 {
                return Err(true);
            }
            let prev = lengths[i - 1];
            let ghost old_lengths = lengths@;
            let mut m: usize = 0;
            while m < rep
                invariant
                    i + rep <= 316,
                    m <= rep,
                    lengths@.len() == 316,
                    old_lengths.len() == 316,
                    lengths@ == Seq::new(316, |j: int| if i <= j < i + m { prev } else { old_lengths[j] }),
                decreases rep - m,
            {
                lengths.set(i + m, prev);
                assert(lengths@ =~= Seq::new(316, |j: int| if i <= j < i + m + 1 { prev } else { old_lengths[j] }));
                m = m + 1;
            }
            i = i + rep;
            b = b2;
            k = k2;
        } else if sym == 17 {
            let (x, b2, k2) = match read_bits_at(s, b1, k1, 3) {
                Some(v) => v,
                None => return Err(false),
            };
            i = i + x as usize + 3;
            b = b2;
            k = k2;
        } else if sym == 18 {
            let (x, b2, k2) = match read_bits_at(s, b1, k1, 7) {
                Some(v) => v,
                None => return Err(false),
            };
            i = i + x as usize + 11;
            b = b2;
            k = k2;
        } else {
            return Err(false);
        }
    }
    if i > target {
        return Err(false);
    }
    Ok((b, k, lengths))
}

proof fn lemma_code_length_lens_fail(s: Seq<u8>, q: int, i: nat, j: nat)
    requires
        i <= j,
        code_length_lens(s, q, i) is None,
    ensures
        code_length_lens(s, q, j) is None,
    decreases j,
{
    if i < j {
        lemma_code_length_lens_fail(s, q, i, (j - 1) as nat);
    }
}

/// Reads the code-length code lengths of a dynamic block (see `code_length_lens`).
fn code_length_lens_at(s: &[u8], byte: usize, bit: usize, hclen: usize, tables: &Tables) -> (r: Option<(Vec<u16>, usize, usize)>)
    requires
        pos_ok(s@, byte, bit),
        hclen <= 19,
        tables_ok(*tables),
    ensures
        match code_length_lens(s@, pos(byte, bit), hclen as nat) {
            None => r is None,
            Some((ls, q)) => r matches Some((v, b2, k2)) && v@ == ls && pos(b2, k2) == q && pos_ok(s@, b2, k2),
        },
        r matches Some((v, _, _)) ==> v@.len() == 19,
{
    let mut cl: Vec<u16> = Vec::new();
    let mut j: usize = 0;
    while j < 19
        invariant
            j <= 19,
            cl@ == Seq::new(j as nat, |x: int| 0u16),
        decreases 19 - j,
    {
        cl.push(0);
        assert(cl@ =~= Seq::new((j + 1) as nat, |x: int| 0u16));
        j = j + 1;
    }
    assert(cl@ =~= Seq::new(19, |x: int| 0u16));
    let ghost q3 = pos(byte, bit);
    let mut b = byte;
    let mut k = bit;
    let mut i: usize = 0;
    while i < hclen
        invariant
            hclen <= 19,
            i <= hclen,
            cl@.len() == 19,
            pos_ok(s@, b, k),
            tables_ok(*tables),
            q3 == pos(byte, bit),
            code_length_lens(s@, q3, i as nat) == Some((cl@, pos(b, k))),
        decreases hclen - i,
    {
        let (v, b4, k4) = match read_bits_at(s, b, k, 3) {
            Some(x) => x,
            None => {
                proof { lemma_code_length_lens_fail(s@, q3, (i + 1) as nat, hclen as nat); }
                return None;
            },
        };
        let idx = tables.order[i] as usize;
        cl.set(idx, v as u16);
        b = b4;
        k = k4;
        i = i + 1;
    }
    Some((cl, b, k))
}

/// Scans a dynamic block (see `dynamic_walk`).
fn dynamic_at(s: &[u8], byte: usize, bit: usize, hist: usize, before: Ghost<int>, tables: &Tables) -> (r: Result<(usize, usize, usize, bool), bool>)
    requires
        pos_ok(s@, byte, bit),
        before@ >= 0,
        hist == history(before@),
        tables_ok(*tables),
    ensures
        scan_matches(s@, r, dynamic_walk(s@, pos(byte, bit), before@), before@),
{
    proof { lemma_p2_values(); }
    let (a, b1, k1) = match read_bits_at(s, byte, bit, 5) {
        Some(v) => v,
        None => return Err(false),
    };
    let (bb, b2, k2) = match read_bits_at(s, b1, k1, 5) {
        Some(v) => v,
        None => return Err(false),
    };
    let (c, b3, k3) = match read_bits_at(s, b2, k2, 4) {
        Some(v) => v,
        None => return Err(false),
    };
    let hlit = a as usize + 257;
    let hdist = bb as usize + 1;
    let hclen = c as usize + 4;
    if hlit > 286 || hdist > 30 {
        return Err(false);
    }
    let (cl, b4, k4) = match code_length_lens_at(s, b3, k3, hclen, tables) {
        Some(v) => v,
        None => return Err(false),
    };
    dynamic_codes_at(s, b4, k4, &cl, hlit, hdist, hist, before, tables)
}

/// The rest of a dynamic block after its code-length code lengths `cl`.
fn dynamic_codes_at(
    s: &[u8],
    byte: usize,
    bit: usize,
    cl: &Vec<u16>,
    hlit: usize,
    hdist: usize,
    hist: usize,
    before: Ghost<int>,
    tables: &Tables,
) -> (r: Result<(usize, usize, usize, bool), bool>)
    requires
        pos_ok(s@, byte, bit),
        cl@.len() == 19,
        hlit <= 286,
        1 <= hdist <= 30,
        before@ >= 0,
        hist == history(before@),
        tables_ok(*tables),
    ensures
        scan_matches(
            s@,
            r,
            if !tree_ok(cl@) {
                Flow::Fails
            } else {
                match lengths_walk(s@, pos(byte, bit), cl@, Seq::new(316, |j: int| 0u16), 0, hlit + hdist) {
                    LensFlow::Panics => Flow::Panics,
                    LensFlow::Fails => Flow::Fails,
                    LensFlow::Ends(q5, lengths) => {
                        let lit = lengths.subrange(0, hlit as int);
                        let dist = lengths.subrange(hlit as int, hlit + hdist);
                        if !tree_ok(lit) || !tree_ok(dist) {
                            Flow::Fails
                        } else {
                            codes_walk(s@, q5, lit, dist, before@, 0)
                        }
                    },
                }
            },
            before@,
        ),
{
    let cl_tree = build_huffman(cl.as_slice());
    if !tree_is_ok(&cl_tree, 19, Ghost(cl@)) {
        return Err(false);
    }
    let (b5, k5, lengths) = match lengths_at(s, byte, bit, &cl_tree, Ghost(cl@), hlit + hdist) {
        Ok(v) => v,
        Err(p) => return Err(p),
    };
    let lit_lens = &lengths[0..hlit];
    let dist_lens = &lengths[hlit..hlit + hdist];
    let lit = build_huffman(lit_lens);
    let dist = build_huffman(dist_lens);
    if !tree_is_ok(&lit, hlit, Ghost(lit_lens@)) || !tree_is_ok(&dist, hdist, Ghost(dist_lens@)) {
        return Err(false);
    }
    codes_at(s, b5, k5, &lit, Ghost(lit_lens@), &dist, Ghost(dist_lens@), hist, before, tables)
}

/// Scans a stored block (see `stored_walk`).
fn stored_at(s: &[u8], byte: usize, bit: usize, hist: usize, before: Ghost<int>) -> (r: Result<(usize, usize, usize, bool), bool>)
    requires
        pos_ok(s@, byte, bit),
        before@ >= 0,
        hist == history(before@),
    ensures
        scan_matches(s@, r, stored_walk(s@, pos(byte, bit)), before@),
{
    assert(s@.len() == s.len());
    let b = if bit == 0 { byte } else { byte + 1 };
    assert(b == (pos(byte, bit) + 7) / 8);
    if b > s.len() || s.len() - b < 4 {
        return Err(false);
    }
    let len = s[b] as usize + 256 * s[b + 1] as usize;
    let nlen = s[b + 2] as usize + 256 * s[b + 3] as usize;
    if nlen != 65535 - len || len > s.len() - b - 4 {
        return Err(false);
    }
    let h = if hist + len < 32768 { hist + len } else { 32768 };
    Ok((b + 4 + len, 0, h, len > 0))
}

/// Scans one block of type `ty` (see `block_walk`).
fn block_at(s: &[u8], byte: usize, bit: usize, ty: u32, hist: usize, before: Ghost<int>, tables: &Tables) -> (r: Result<(usize, usize, usize, bool), bool>)
    requires
        pos_ok(s@, byte, bit),
        before@ >= 0,
        hist == history(before@),
        tables_ok(*tables),
    ensures
        scan_matches(s@, r, block_walk(s@, pos(byte, bit), ty as int, before@), before@),
{
    if ty == 0 {
        stored_at(s, byte, bit, hist, before)
    } else if ty == 1 {
        let lit_lens = fixed_lit_table();
        let dist_lens = fixed_dist_table();
        let lit = build_huffman(lit_lens.as_slice());
        let dist = build_huffman(dist_lens.as_slice());
        codes_at(s, byte, bit, &lit, Ghost(lit_lens@), &dist, Ghost(dist_lens@), hist, before, tables)
    } else if ty == 2 {
        dynamic_at(s, byte, bit, hist, before, tables)
    } else {
        Err(false)
    }
}

/// Whether `compress::zlib::Decoder` reads the stream without panicking
/// (see `zlib_stream_decodable`).
pub fn zlib_stream_is_decodable(s: &[u8]) -> (r: bool)
    ensures
        r == zlib_stream_decodable(s@),
{
    if s.len() < 2 {
        return true;
    }
    let cmf = s[0] as u32;
    let flg = s[1] as u32;
    if cmf % 16 != 8 || cmf / 16 != 7 || (flg / 32) % 2 == 1 || (cmf * 256 + flg) % 31 != 0 {
        return true;
    }
    let tables = Tables {
        length_base: length_base_table(),
        length_extra: length_extra_table(),
        dist_base: dist_base_table(),
        dist_extra: dist_extra_table(),
        order: code_length_order_table(),
    };
    let ghost mut total: int = 0;
    let mut h: usize = 0;
    let mut b: usize = 2;
    let mut k: usize = 0;
    loop
        invariant
            pos_ok(s@, b, k),
            total >= 0,
            h == history(total),
            tables_ok(tables),
            zlib_stream_decodable(s@) == !blocks_panic(s@, pos(b, k), total),
        decreases 8 * s@.len() - pos(b, k),
    {
        let (fin, b1, k1) = match read_bits_at(s, b, k, 1) {
            Some(v) => v,
            None => return true,
        };
        let (ty, b2, k2) = match read_bits_at(s, b1, k1, 2) {
            Some(v) => v,
            None => return true,
        };
        proof { lemma_block_advances(s@, pos(b2, k2), ty as int, total); }
        let ghost f = block_walk(s@, pos(b2, k2), ty as int, total);
        match block_at(s, b2, k2, ty, h, Ghost(total), &tables) {
            Err(p) => return !p,
            Ok((b3, k3, h3, nonempty)) => {
                if !nonempty || fin == 1 {
                    return true;
                }
                proof {
                    let blk = f->Ends_1;
                    total = total + blk;
                }
                b = b3;
                k = k3;
                h = h3;
            },
        }
    }
}

} // verus!
