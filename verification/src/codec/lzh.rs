//! LZH: LZ77 matching with canonical Huffman coding of literals and match lengths.
//!
//! A block is the 286 code lengths (four bits each), then the coded symbols: a literal, the
//! end-of-block symbol, or a length code followed by its extra bits, a five-bit distance code
//! and the distance's extra bits. Bits are packed least significant first.
use vstd::prelude::*;

use crate::codec::lzf::{copy_match, lemma_copy_match_data, lemma_copy_match_len};
use crate::codec::{step_error_is, step_result_is, DecodeStep};
use crate::entropy::bitstream::{bits_value, bytes_to_bits, low_bits, padded_bits, BitReader, BitWriter};
use crate::entropy::canonical::{
    canonical_code, canonical_slot, code_rank, len_count, lemma_len_count_mono, msb_value, two_pow, valid_code_lengths,
};
use crate::entropy::huffman::{
    build_canonical_codes, build_code_lengths, is_ranked_symbol, spec_code_lengths, HuffmanDecoderTable,
};
use crate::error::CodropError;

verus! {

/// Shortest match.
pub const MIN_MATCH: usize = 3;
/// Longest match.
pub const MAX_MATCH: usize = 258;
/// End-of-block symbol.
pub const EOB_SYMBOL: usize = 256;
/// Literals, end of block and the 29 length codes.
pub const NUM_SYMBOLS: usize = 286;
/// Farthest match distance.
pub const MAX_DISTANCE: usize = 32768;
/// Number of distance codes.
pub const NUM_DISTANCE_CODES: usize = 30;
/// Match finder hash table entries.
pub const HASH_SIZE: usize = 16384;
/// Candidates examined per position.
pub const MAX_CHAIN: usize = 32;
/// A match this long is taken at once.
pub const GOOD_MATCH: usize = 32;
/// Marks an empty hash slot.
pub const NO_POS: u32 = 0xFFFF_FFFF;

/// One LZ77 symbol: a literal byte, or a copy of `length` bytes from `distance` back.
#[derive(Debug, Clone, Copy, PartialEq, Eq)]
pub enum LzSymbol {
    Literal(u8),
    Match { length: u16, distance: u16 },
}

/// `out` followed by what the symbol `t` stands for.
pub open spec fn expand_step(out: Seq<u8>, t: LzSymbol) -> Seq<u8> {
    match t {
        LzSymbol::Literal(b) => out.push(b),
        LzSymbol::Match { length, distance } => copy_match(out, distance as int, length as nat),
    }
}

/// The bytes that the symbols `ts` stand for.
pub open spec fn expand(ts: Seq<LzSymbol>) -> Seq<u8>
    decreases ts.len(),
{
    if ts.len() == 0 {
        Seq::empty()
    } else {
        expand_step(expand(ts.drop_last()), ts.last())
    }
}

/// A symbol that can follow `hist` bytes of output.
pub open spec fn symbol_fits(t: LzSymbol, hist: int) -> bool {
    match t {
        LzSymbol::Literal(_) => true,
        LzSymbol::Match { length, distance } => MIN_MATCH <= length <= MAX_MATCH && 1 <= distance <= MAX_DISTANCE
            && distance <= hist,
    }
}

/// Every symbol of `ts` fits the output before it.
pub open spec fn symbols_fit(ts: Seq<LzSymbol>) -> bool
    decreases ts.len(),
{
    ts.len() == 0 || (symbols_fit(ts.drop_last()) && symbol_fits(ts.last(), expand(ts.drop_last()).len() as int))
}

/// Smallest match length of length code `i`.
pub open spec fn length_base(i: int) -> int {
    if i == 0 {
        3
    } else if i == 1 {
        4
    } else if i == 2 {
        5
    } else if i == 3 {
        6
    } else if i == 4 {
        7
    } else if i == 5 {
        8
    } else if i == 6 {
        9
    } else if i == 7 {
        10
    } else if i == 8 {
        11
    } else if i == 9 {
        13
    } else if i == 10 {
        15
    } else if i == 11 {
        17
    } else if i == 12 {
        19
    } else if i == 13 {
        23
    } else if i == 14 {
        27
    } else if i == 15 {
        31
    } else if i == 16 {
        35
    } else if i == 17 {
        43
    } else if i == 18 {
        51
    } else if i == 19 {
        59
    } else if i == 20 {
        67
    } else if i == 21 {
        83
    } else if i == 22 {
        99
    } else if i == 23 {
        115
    } else if i == 24 {
        131
    } else if i == 25 {
        163
    } else if i == 26 {
        195
    } else if i == 27 {
        227
    } else if i == 28 {
        258
    } else {
        0
    }
}

/// Extra bits of length code `i`.
pub open spec fn length_extra(i: int) -> int {
    if i == 0 {
        0
    } else if i == 1 {
        0
    } else if i == 2 {
        0
    } else if i == 3 {
        0
    } else if i == 4 {
        0
    } else if i == 5 {
        0
    } else if i == 6 {
        0
    } else if i == 7 {
        0
    } else if i == 8 {
        1
    } else if i == 9 {
        1
    } else if i == 10 {
        1
    } else if i == 11 {
        1
    } else if i == 12 {
        2
    } else if i == 13 {
        2
    } else if i == 14 {
        2
    } else if i == 15 {
        2
    } else if i == 16 {
        3
    } else if i == 17 {
        3
    } else if i == 18 {
        3
    } else if i == 19 {
        3
    } else if i == 20 {
        4
    } else if i == 21 {
        4
    } else if i == 22 {
        4
    } else if i == 23 {
        4
    } else if i == 24 {
        5
    } else if i == 25 {
        5
    } else if i == 26 {
        5
    } else if i == 27 {
        5
    } else if i == 28 {
        0
    } else {
        0
    }
}

/// Smallest distance of distance code `i`.
pub open spec fn dist_base(i: int) -> int {
    if i == 0 {
        1
    } else if i == 1 {
        2
    } else if i == 2 {
        3
    } else if i == 3 {
        4
    } else if i == 4 {
        5
    } else if i == 5 {
        7
    } else if i == 6 {
        9
    } else if i == 7 {
        13
    } else if i == 8 {
        17
    } else if i == 9 {
        25
    } else if i == 10 {
        33
    } else if i == 11 {
        49
    } else if i == 12 {
        65
    } else if i == 13 {
        97
    } else if i == 14 {
        129
    } else if i == 15 {
        193
    } else if i == 16 {
        257
    } else if i == 17 {
        385
    } else if i == 18 {
        513
    } else if i == 19 {
        769
    } else if i == 20 {
        1025
    } else if i == 21 {
        1537
    } else if i == 22 {
        2049
    } else if i == 23 {
        3073
    } else if i == 24 {
        4097
    } else if i == 25 {
        6145
    } else if i == 26 {
        8193
    } else if i == 27 {
        12289
    } else if i == 28 {
        16385
    } else if i == 29 {
        24577
    } else {
        0
    }
}

/// Extra bits of distance code `i`.
pub open spec fn dist_extra(i: int) -> int {
    if i == 0 {
        0
    } else if i == 1 {
        0
    } else if i == 2 {
        0
    } else if i == 3 {
        0
    } else if i == 4 {
        1
    } else if i == 5 {
        1
    } else if i == 6 {
        2
    } else if i == 7 {
        2
    } else if i == 8 {
        3
    } else if i == 9 {
        3
    } else if i == 10 {
        4
    } else if i == 11 {
        4
    } else if i == 12 {
        5
    } else if i == 13 {
        5
    } else if i == 14 {
        6
    } else if i == 15 {
        6
    } else if i == 16 {
        7
    } else if i == 17 {
        7
    } else if i == 18 {
        8
    } else if i == 19 {
        8
    } else if i == 20 {
        9
    } else if i == 21 {
        9
    } else if i == 22 {
        10
    } else if i == 23 {
        10
    } else if i == 24 {
        11
    } else if i == 25 {
        11
    } else if i == 26 {
        12
    } else if i == 27 {
        12
    } else if i == 28 {
        13
    } else if i == 29 {
        13
    } else {
        0
    }
}

/// The smallest match length of length code `i`.
fn length_base_of(i: usize) -> (r: u16)
    requires
        i < 29,
    ensures
        r == length_base(i as int),
{
    match i {
        0 => 3,
        1 => 4,
        2 => 5,
        3 => 6,
        4 => 7,
        5 => 8,
        6 => 9,
        7 => 10,
        8 => 11,
        9 => 13,
        10 => 15,
        11 => 17,
        12 => 19,
        13 => 23,
        14 => 27,
        15 => 31,
        16 => 35,
        17 => 43,
        18 => 51,
        19 => 59,
        20 => 67,
        21 => 83,
        22 => 99,
        23 => 115,
        24 => 131,
        25 => 163,
        26 => 195,
        27 => 227,
        28 => 258,
        _ => 0,
    }
}

/// The extra bits of length code `i`.
fn length_extra_of(i: usize) -> (r: u8)
    requires
        i < 29,
    ensures
        r == length_extra(i as int),
{
    match i {
        0 => 0,
        1 => 0,
        2 => 0,
        3 => 0,
        4 => 0,
        5 => 0,
        6 => 0,
        7 => 0,
        8 => 1,
        9 => 1,
        10 => 1,
        11 => 1,
        12 => 2,
        13 => 2,
        14 => 2,
        15 => 2,
        16 => 3,
        17 => 3,
        18 => 3,
        19 => 3,
        20 => 4,
        21 => 4,
        22 => 4,
        23 => 4,
        24 => 5,
        25 => 5,
        26 => 5,
        27 => 5,
        28 => 0,
        _ => 0,
    }
}

/// The smallest distance of distance code `i`.
fn dist_base_of(i: usize) -> (r: u16)
    requires
        i < 30,
    ensures
        r == dist_base(i as int),
{
    match i {
        0 => 1,
        1 => 2,
        2 => 3,
        3 => 4,
        4 => 5,
        5 => 7,
        6 => 9,
        7 => 13,
        8 => 17,
        9 => 25,
        10 => 33,
        11 => 49,
        12 => 65,
        13 => 97,
        14 => 129,
        15 => 193,
        16 => 257,
        17 => 385,
        18 => 513,
        19 => 769,
        20 => 1025,
        21 => 1537,
        22 => 2049,
        23 => 3073,
        24 => 4097,
        25 => 6145,
        26 => 8193,
        27 => 12289,
        28 => 16385,
        29 => 24577,
        _ => 0,
    }
}

/// The extra bits of distance code `i`.
fn dist_extra_of(i: usize) -> (r: u8)
    requires
        i < 30,
    ensures
        r == dist_extra(i as int),
{
    match i {
        0 => 0,
        1 => 0,
        2 => 0,
        3 => 0,
        4 => 1,
        5 => 1,
        6 => 2,
        7 => 2,
        8 => 3,
        9 => 3,
        10 => 4,
        11 => 4,
        12 => 5,
        13 => 5,
        14 => 6,
        15 => 6,
        16 => 7,
        17 => 7,
        18 => 8,
        19 => 8,
        20 => 9,
        21 => 9,
        22 => 10,
        23 => 10,
        24 => 11,
        25 => 11,
        26 => 12,
        27 => 12,
        28 => 13,
        29 => 13,
        _ => 0,
    }
}

/// The length code of a match length: the last code whose base is at most `l`.
pub open spec fn length_code_from(l: int, i: int) -> int
    decreases i,
{
    if i <= 0 {
        0
    } else if l >= length_base(i) {
        i
    } else {
        length_code_from(l, i - 1)
    }
}

/// The length code of a match length `l`.
pub open spec fn length_code(l: int) -> int {
    length_code_from(l, 28)
}

/// The distance code of a distance: the last code whose base is at most `d`.
pub open spec fn dist_code_from(d: int, i: int) -> int
    decreases i,
{
    if i <= 0 {
        0
    } else if d >= dist_base(i) {
        i
    } else {
        dist_code_from(d, i - 1)
    }
}

/// The distance code of a distance `d`.
pub open spec fn dist_code(d: int) -> int {
    dist_code_from(d, 29)
}

/// Splits a match length (3 to 258) into its symbol, extra bit count and extra value.
pub fn encode_length(length: u16) -> (r: (usize, u8, u32))
    requires
        MIN_MATCH <= length <= MAX_MATCH,
    ensures
        r.0 == 257 + length_code(length as int),
        r.1 == length_extra(length_code(length as int)),
        r.2 == length - length_base(length_code(length as int)),
        0 <= length_code(length as int) < 29,
{
    let mut i: usize = 28;
    while i > 0 && length < length_base_of(i)
        invariant
            i <= 28,
            length_code(length as int) == length_code_from(length as int, i as int),
        decreases i,
    {
        i = i - 1;
    }
    let b = length_base_of(i);
    assert(b <= length) by {
        assert(length_base(0) == 3);
    }
    (257 + i, length_extra_of(i), (length - b) as u32)
}

/// Splits a distance (1 to 32768) into its code, extra bit count and extra value.
pub fn encode_distance(distance: u16) -> (r: (usize, u8, u32))
    requires
        1 <= distance <= MAX_DISTANCE,
    ensures
        r.0 == dist_code(distance as int),
        r.1 == dist_extra(dist_code(distance as int)),
        r.2 == distance - dist_base(dist_code(distance as int)),
        0 <= dist_code(distance as int) < 30,
{
    let mut i: usize = 29;
    while i > 0 && distance < dist_base_of(i)
        invariant
            i <= 29,
            dist_code(distance as int) == dist_code_from(distance as int, i as int),
        decreases i,
    {
        i = i - 1;
    }
    let b = dist_base_of(i);
    assert(b <= distance) by {
        assert(dist_base(0) == 1);
    }
    (i, dist_extra_of(i), (distance - b) as u32)
}

/// `n` bits read at `pos`, as a number, if they are there.
pub open spec fn read_field(bits: Seq<bool>, pos: int, n: int) -> Option<int> {
    if pos + n <= bits.len() { Some(bits_value(bits.skip(pos).take(n)) as int) } else { None }
}

/// Reads the extra bits of length symbol `sym` (257 to 285) and returns the match length.
pub fn decode_length(sym: usize, reader: &mut BitReader) -> (r: Result<usize, CodropError>)
    requires
        257 <= sym <= 285,
        old(reader).wf(),
    ensures
        final(reader).wf(),
        final(reader).bits() == old(reader).bits(),
        match read_field(old(reader).bits(), old(reader).position(), length_extra(sym - 257)) {
            None => r == Err::<usize, CodropError>(CodropError::UnexpectedEof),
            Some(v) => r matches Ok(l) && l == length_base(sym - 257) + v
                && final(reader).position() == old(reader).position() + length_extra(sym - 257),
        },
{
    let i = sym - 257;
    let base = length_base_of(i);
    let extra = length_extra_of(i);
    match reader.read_bits(extra) {
        Ok(v) => {
            proof {
                old(reader).lemma_wf();
                assert(extra <= 13);
                assert(old(reader).remaining().take(extra as int).len() == extra);
                crate::entropy::canonical::lemma_bits_value_lt_pow(old(reader).remaining().take(extra as int));
                crate::entropy::canonical::lemma_two_pow_mono(extra as nat, 13);
                assert(crate::entropy::canonical::two_pow(13) == 8192) by {
                    reveal_with_fuel(crate::entropy::canonical::two_pow, 14);
                }
                assert(v < 8192);
            }
            Ok(base as usize + v as usize)
        },
        Err(e) => Err(e),
    }
}

/// Reads the extra bits of distance code `code` and returns the distance; codes past the
/// table are refused.
pub fn decode_distance(code: usize, reader: &mut BitReader) -> (r: Result<usize, CodropError>)
    requires
        old(reader).wf(),
    ensures
        final(reader).wf(),
        final(reader).bits() == old(reader).bits(),
        code >= 30 ==> (r matches Err(e) && e is CorruptedEntropyStream),
        code < 30 ==> match read_field(old(reader).bits(), old(reader).position(), dist_extra(code as int)) {
            None => r == Err::<usize, CodropError>(CodropError::UnexpectedEof),
            Some(v) => r matches Ok(d) && d == dist_base(code as int) + v
                && final(reader).position() == old(reader).position() + dist_extra(code as int),
        },
{
    if code >= NUM_DISTANCE_CODES {
        return Err(CodropError::CorruptedEntropyStream("Invalid distance code".to_string()));
    }
    let base = dist_base_of(code);
    let extra = dist_extra_of(code);
    match reader.read_bits(extra) {
        Ok(v) => {
            proof {
                old(reader).lemma_wf();
                assert(extra <= 13);
                assert(old(reader).remaining().take(extra as int).len() == extra);
                crate::entropy::canonical::lemma_bits_value_lt_pow(old(reader).remaining().take(extra as int));
                crate::entropy::canonical::lemma_two_pow_mono(extra as nat, 13);
                assert(crate::entropy::canonical::two_pow(13) == 8192) by {
                    reveal_with_fuel(crate::entropy::canonical::two_pow, 14);
                }
                assert(v < 8192);
            }
            Ok(base as usize + v as usize)
        },
        Err(e) => Err(e),
    }
}

/// How far the bytes from `i` repeat those from `r`, counting from `k` and stopping at
/// `MAX_MATCH`, where they differ, or at the end of the data.
pub open spec fn capped_extent(data: Seq<u8>, r: int, i: int, k: int) -> int
    decreases MAX_MATCH - k,
{
    if 0 <= r && 0 <= k && i + k < data.len() && k < MAX_MATCH && data[r + k] == data[i + k] {
        capped_extent(data, r, i, k + 1)
    } else {
        k
    }
}

/// A capped extent lies between its starting count, `MAX_MATCH` and the end of the data.
pub proof fn lemma_capped_extent_bounds(data: Seq<u8>, r: int, i: int, k: int)
    requires
        0 <= k <= MAX_MATCH,
        i + k <= data.len(),
    ensures
        k <= capped_extent(data, r, i, k) <= MAX_MATCH,
        i + capped_extent(data, r, i, k) <= data.len(),
    decreases MAX_MATCH - k,
{
    if 0 <= r && i + k < data.len() && k < MAX_MATCH && data[r + k] == data[i + k] {
        lemma_capped_extent_bounds(data, r, i, k + 1);
    }
}

/// The best match for position `ip` along the hash chain from `pos` (a position, or
/// `NO_POS`), having walked `depth` links and found a match of `best_len` at `best_dist`: the
/// walk stops after `MAX_CHAIN` links, at the chain's end, at a position not before `ip`, at
/// one farther than `MAX_DISTANCE`, or once a match reaches `GOOD_MATCH`; a candidate counts
/// when its first three bytes agree and it is longer than the best so far.
pub open spec fn chain_best(data: Seq<u8>, ip: int, pos: u32, depth: int, best_len: int, best_dist: int, prev: Seq<u32>) -> (int, int)
    decreases MAX_CHAIN - depth,
{
    if pos == NO_POS || depth >= MAX_CHAIN {
        (best_len, best_dist)
    } else {
        let r = pos as int;
        if r >= ip || ip - r > MAX_DISTANCE {
            (best_len, best_dist)
        } else if data[r] == data[ip] && data[r + 1] == data[ip + 1] && data[r + 2] == data[ip + 2]
            && capped_extent(data, r, ip, 3) > best_len {
            if capped_extent(data, r, ip, 3) >= GOOD_MATCH {
                (capped_extent(data, r, ip, 3), ip - r)
            } else {
                chain_best(data, ip, prev[r], depth + 1, capped_extent(data, r, ip, 3), ip - r, prev)
            }
        } else {
            chain_best(data, ip, prev[r], depth + 1, best_len, best_dist, prev)
        }
    }
}

/// The bounds of the best match found along a chain.
pub proof fn lemma_chain_best_bounds(data: Seq<u8>, ip: int, pos: u32, depth: int, best_len: int, best_dist: int, prev: Seq<u32>)
    requires
        0 <= ip,
        ip + 4 <= data.len(),
        0 <= best_len <= MAX_MATCH,
        ip + best_len <= data.len(),
    ensures
        0 <= chain_best(data, ip, pos, depth, best_len, best_dist, prev).0 <= MAX_MATCH,
        ip + chain_best(data, ip, pos, depth, best_len, best_dist, prev).0 <= data.len(),
    decreases MAX_CHAIN - depth,
{
    if !(pos == NO_POS || depth >= MAX_CHAIN) {
        let r = pos as int;
        if !(r >= ip || ip - r > MAX_DISTANCE) {
            lemma_capped_extent_bounds(data, r, ip, 3);
            lemma_chain_best_bounds(data, ip, prev[r], depth + 1, capped_extent(data, r, ip, 3), ip - r, prev);
            lemma_chain_best_bounds(data, ip, prev[r], depth + 1, best_len, best_dist, prev);
        }
    }
}

/// The symbols of `data` from position `ip` on, with the hash heads `head`, the chain links
/// `prev` and the symbols `toks` already produced. While four bytes remain past `ip`, the
/// position joins its hash chain; the best match along the chain is taken when it reaches
/// `MIN_MATCH`, else one literal. The last bytes are literals.
#[verifier::opaque]
pub open spec fn tokens_from(data: Seq<u8>, ip: int, head: Seq<u32>, prev: Seq<u32>, toks: Seq<LzSymbol>) -> Seq<LzSymbol>
    decreases data.len() - ip,
{
    if 0 <= ip && ip + 4 < data.len() {
        let h = crate::codec::lzf::spec_hash4(data, ip);
        let rp = head[h];
        let head2 = head.update(h, ip as u32);
        let prev2 = prev.update(ip, rp);
        let best = chain_best(data, ip, rp, 0, 0, 0, prev2);
        proof {
            lemma_chain_best_bounds(data, ip, rp, 0, 0, 0, prev2);
        }
        if best.0 >= MIN_MATCH {
            tokens_from(
                data,
                ip + best.0,
                head2,
                prev2,
                toks.push(LzSymbol::Match { length: best.0 as u16, distance: best.1 as u16 }),
            )
        } else {
            tokens_from(data, ip + 1, head2, prev2, toks.push(LzSymbol::Literal(data[ip])))
        }
    } else if 0 <= ip <= data.len() {
        toks + Seq::new((data.len() - ip) as nat, |j: int| LzSymbol::Literal(data[ip + j]))
    } else {
        toks
    }
}

/// One step of the tokenizer at a position with more than four bytes after it.
proof fn lemma_tokens_step(data: Seq<u8>, ip: int, head: Seq<u32>, prev: Seq<u32>, toks: Seq<LzSymbol>)
    requires
        0 <= ip,
        ip + 4 < data.len(),
    ensures
        ({
            let h = crate::codec::lzf::spec_hash4(data, ip);
            let rp = head[h];
            let head2 = head.update(h, ip as u32);
            let prev2 = prev.update(ip, rp);
            let best = chain_best(data, ip, rp, 0, 0, 0, prev2);
            tokens_from(data, ip, head, prev, toks) == if best.0 >= MIN_MATCH {
                tokens_from(
                    data,
                    ip + best.0,
                    head2,
                    prev2,
                    toks.push(LzSymbol::Match { length: best.0 as u16, distance: best.1 as u16 }),
                )
            } else {
                tokens_from(data, ip + 1, head2, prev2, toks.push(LzSymbol::Literal(data[ip])))
            }
        }),
{
    reveal(tokens_from);
}

/// Near the end, the tokenizer emits the remaining bytes as literals.
proof fn lemma_tokens_tail(data: Seq<u8>, ip: int, head: Seq<u32>, prev: Seq<u32>, toks: Seq<LzSymbol>)
    requires
        0 <= ip <= data.len(),
        ip + 4 >= data.len(),
    ensures
        tokens_from(data, ip, head, prev, toks) == toks + Seq::new((data.len() - ip) as nat, |j: int| LzSymbol::Literal(data[ip + j])),
{
    reveal(tokens_from);
}

/// The LZ symbols that the tokenizer produces for `data`.
pub open spec fn spec_tokenize(data: Seq<u8>) -> Seq<LzSymbol> {
    tokens_from(
        data,
        0,
        Seq::new(HASH_SIZE as nat, |i: int| NO_POS),
        Seq::new(data.len(), |i: int| NO_POS),
        Seq::empty(),
    )
}

/// Splits `data` into literals and matches: at each position the longest match among the
/// last few positions with the same four-byte hash, if it reaches three bytes.
pub fn tokenize_lz(data: &[u8]) -> (r: Vec<LzSymbol>)
    ensures
        r@ == spec_tokenize(data@),
        expand(r@) == data@,
        symbols_fit(r@),
{
    let n = data.len();
    let mut tokens: Vec<LzSymbol> = Vec::new();
    let mut head: Vec<u32> = Vec::new();
    let mut q: usize = 0;
    while q < HASH_SIZE
        invariant
            q <= HASH_SIZE,
            head@.len() == q,
            forall|j: int| 0 <= j < q ==> #[trigger] head@[j] == NO_POS,
        decreases HASH_SIZE - q,
    {
        head.push(NO_POS);
        q = q + 1;
    }
    let mut prev: Vec<u32> = Vec::new();
    q = 0;
    while q < n
        invariant
            q <= n,
            n == data@.len(),
            prev@.len() == q,
            forall|j: int| 0 <= j < q ==> #[trigger] prev@[j] == NO_POS,
        decreases n - q,
    {
        prev.push(NO_POS);
        q = q + 1;
    }
    assert(head@ =~= Seq::new(HASH_SIZE as nat, |i: int| NO_POS));
    assert(prev@ =~= Seq::new(data@.len(), |i: int| NO_POS));
    let ghost target = spec_tokenize(data@);
    let limit = if n >= 4 { n - 4 } else { 0 };
    let mut ip: usize = 0;
    assert(data@.take(0) =~= Seq::<u8>::empty());
    while ip < limit
        invariant
            n == data@.len(),
            ip <= n,
            limit <= n,
            limit > 0 ==> limit + 4 == n,
            head@.len() == HASH_SIZE,
            prev@.len() == n,
            expand(tokens@) == data@.take(ip as int),
            symbols_fit(tokens@),
            target == spec_tokenize(data@),
            tokens_from(data@, ip as int, head@, prev@, tokens@) == target,
        decreases n - ip,
    {
        proof {
            lemma_tokens_step(data@, ip as int, head@, prev@, tokens@);
        }
        let h = crate::codec::lzf::hash4(data, ip);
        let mut ref_pos = head[h];
        head.set(h, #[verifier::truncate] (ip as u32));
        prev.set(ip, ref_pos);
        let ghost goal = chain_best(data@, ip as int, ref_pos, 0, 0, 0, prev@);
        let mut best_len: usize = 0;
        let mut best_dist: usize = 0;
        let mut depth: usize = 0;
        while ref_pos != NO_POS && depth < MAX_CHAIN
            invariant_except_break
                chain_best(data@, ip as int, ref_pos, depth as int, best_len as int, best_dist as int, prev@) == goal,
            invariant
                n == data@.len(),
                ip < limit,
                limit + 4 == n,
                prev@.len() == n,
                best_len == 0 || (MIN_MATCH <= best_len <= MAX_MATCH && 1 <= best_dist <= MAX_DISTANCE && best_dist
                    <= ip && ip + best_len <= n),
                forall|i: int| 0 <= i < best_len ==> #[trigger] data@[ip + i] == data@[ip + i - best_dist],
            ensures
                (best_len as int, best_dist as int) == goal,
            decreases MAX_CHAIN - depth,
        {
            let r = ref_pos as usize;
            if r >= ip {
                break;
            }
            let dist = ip - r;
            if dist > MAX_DISTANCE {
                break;
            }
            if data[r] == data[ip] && data[r + 1] == data[ip + 1] && data[r + 2] == data[ip + 2] {
                let mut ml: usize = 3;
                while ip + ml < n && ml < MAX_MATCH && data[r + ml] == data[ip + ml]
                    invariant
                        n == data@.len(),
                        3 <= ml <= MAX_MATCH,
                        ip + ml <= n,
                        r < ip,
                        dist == ip - r,
                        forall|i: int| 0 <= i < ml ==> #[trigger] data@[ip + i] == data@[ip + i - dist],
                        capped_extent(data@, r as int, ip as int, ml as int) == capped_extent(data@, r as int, ip as int, 3),
                    decreases n - ip - ml,
                {
                    ml = ml + 1;
                }
                assert(ml == capped_extent(data@, r as int, ip as int, 3));
                if ml > best_len {
                    best_len = ml;
                    best_dist = dist;
                    if ml >= GOOD_MATCH {
                        break;
                    }
                }
            }
            ref_pos = prev[r];
            depth = depth + 1;
        }
        let ghost before = tokens@;
        if best_len >= MIN_MATCH {
            tokens.push(LzSymbol::Match { length: best_len as u16, distance: best_dist as u16 });
            proof {
                assert(tokens@.drop_last() =~= before);
                lemma_copy_match_data(data@, ip as int, best_dist as int, best_len as nat);
                assert(data@.take(ip as int).len() == ip);
            }
            ip = ip + best_len;
        } else {
            tokens.push(LzSymbol::Literal(data[ip]));
            proof {
                assert(tokens@.drop_last() =~= before);
                assert(data@.take(ip as int).push(data@[ip as int]) =~= data@.take(ip + 1));
            }
            ip = ip + 1;
        }
    }
    proof {
        lemma_tokens_tail(data@, ip as int, head@, prev@, tokens@);
    }
    while ip < n
        invariant
            n == data@.len(),
            ip <= n,
            expand(tokens@) == data@.take(ip as int),
            symbols_fit(tokens@),
            tokens@ + Seq::new((n - ip) as nat, |j: int| LzSymbol::Literal(data@[ip + j])) == target,
        decreases n - ip,
    {
        let ghost before = tokens@;
        let ghost ip0 = ip as int;
        tokens.push(LzSymbol::Literal(data[ip]));
        proof {
            assert(tokens@.drop_last() =~= before);
            assert(data@.take(ip as int).push(data@[ip as int]) =~= data@.take(ip + 1));
            assert(tokens@ + Seq::new((n - ip0 - 1) as nat, |j: int| LzSymbol::Literal(data@[ip0 + 1 + j])) =~= before
                + Seq::new((n - ip0) as nat, |j: int| LzSymbol::Literal(data@[ip0 + j])));
        }
        ip = ip + 1;
    }
    assert(tokens@ + Seq::new(0, |j: int| LzSymbol::Literal(data@[n as int + j])) =~= tokens@);
    assert(data@.take(n as int) =~= data@);
    tokens
}

/// The symbol of rank `k` among those of code length `l`.
pub open spec fn ranked_symbol(lengths: Seq<u8>, l: int, k: int) -> int {
    choose|x: int| is_ranked_symbol(lengths, x, l, k)
}

/// Length and rank name at most one symbol.
pub proof fn lemma_ranked_unique(lengths: Seq<u8>, x: int, y: int, l: int, k: int)
    requires
        is_ranked_symbol(lengths, x, l, k),
        is_ranked_symbol(lengths, y, l, k),
    ensures
        x == y,
{
    if x < y {
        lemma_len_count_mono(lengths, x + 1, y, l);
    } else if y < x {
        lemma_len_count_mono(lengths, y + 1, x, l);
    }
}

/// The next Huffman-coded symbol at `pos` and the position after its code, if the bits
/// there (zero-padded) start with a code.
pub open spec fn huffman_next(lengths: Seq<u8>, bits: Seq<bool>, pos: int) -> Option<(int, int)> {
    match canonical_slot(lengths, padded_bits(bits.skip(pos), 15)) {
        None => None,
        Some((l, k)) => Some(
            (ranked_symbol(lengths, l, k), if l < bits.len() - pos { pos + l } else { bits.len() as int }),
        ),
    }
}

/// Decodes the next symbol with `table`.
fn next_symbol(table: &HuffmanDecoderTable, reader: &mut BitReader) -> (r: Result<usize, CodropError>)
    requires
        table.wf(),
        old(reader).wf(),
    ensures
        final(reader).wf(),
        final(reader).bits() == old(reader).bits(),
        match huffman_next(table.code_lengths(), old(reader).bits(), old(reader).position()) {
            None => r matches Err(e) && e is CorruptedEntropyStream,
            Some((s, p)) => r == Ok::<usize, CodropError>(s as usize) && final(reader).position() == p && 0 <= s
                < table.code_lengths().len(),
        },
{
    proof {
        old(reader).lemma_wf();
    }
    match table.decode_symbol(reader) {
        Ok(sym) => {
            proof {
                let lengths = table.code_lengths();
                let b = padded_bits(old(reader).remaining(), 15);
                if let Some((l, k)) = canonical_slot(lengths, b) {
                    lemma_ranked_unique(lengths, sym as int, ranked_symbol(lengths, l, k), l, k);
                }
            }
            Ok(sym as usize)
        },
        Err(e) => Err(e),
    }
}

/// The code lengths at the head of an LZH block: 286 fields of four bits.
pub open spec fn lzh_code_lengths(bits: Seq<bool>) -> Seq<u8> {
    Seq::new(286, |i: int| bits_value(bits.skip(4 * i).take(4)) as u8)
}

/// Decoding of the coded symbols from bit `pos` on, with `out` decoded so far.
pub open spec fn lzh_body(lengths: Seq<u8>, bits: Seq<bool>, pos: int, out: Seq<u8>, expected: int) -> DecodeStep<Seq<u8>>
    decreases expected - out.len(),
{
    match huffman_next(lengths, bits, pos) {
        None => DecodeStep::Corrupt,
        Some((sym, p1)) => {
            if sym == 256 {
                if out.len() == expected { DecodeStep::Done(out, p1) } else { DecodeStep::Corrupt }
            } else if sym < 256 {
                if out.len() >= expected {
                    DecodeStep::BadLength(1, 0)
                } else {
                    lzh_body(lengths, bits, p1, out.push(sym as u8), expected)
                }
            } else if sym - 257 >= 29 {
                DecodeStep::Corrupt
            } else {
                let li = sym - 257;
                match read_field(bits, p1, length_extra(li)) {
                    None => DecodeStep::Eof,
                    Some(ev) => {
                        let ml = length_base(li) + ev;
                        let p2 = p1 + length_extra(li);
                        match read_field(bits, p2, 5) {
                            None => DecodeStep::Eof,
                            Some(oc) => {
                                if oc >= 30 {
                                    DecodeStep::Corrupt
                                } else {
                                    match read_field(bits, p2 + 5, dist_extra(oc)) {
                                        None => DecodeStep::Eof,
                                        Some(dv) => {
                                            let d = dist_base(oc) + dv;
                                            let p3 = p2 + 5 + dist_extra(oc);
                                            if d == 0 || d > out.len() {
                                                DecodeStep::BadOffset(d, out.len() as int)
                                            } else if out.len() + ml > expected {
                                                DecodeStep::BadLength(ml, if expected > out.len() { expected - out.len() } else { 0 })
                                            } else if ml <= 0 {
                                                DecodeStep::Corrupt
                                            } else {
                                                proof {
                                                    lemma_copy_match_len(out, d, ml as nat);
                                                }
                                                lzh_body(lengths, bits, p3, copy_match(out, d, ml as nat), expected)
                                            }
                                        },
                                    }
                                }
                            },
                        }
                    },
                }
            }
        },
    }
}

/// Decoding of a whole LZH block that must produce `expected` bytes.
pub open spec fn spec_lzh_decode(compressed: Seq<u8>, expected: int) -> DecodeStep<Seq<u8>> {
    let bits = bytes_to_bits(compressed);
    if expected == 0 && compressed.len() == 0 {
        DecodeStep::Done(Seq::empty(), 0)
    } else if bits.len() < 1144 {
        DecodeStep::Eof
    } else if !valid_code_lengths(lzh_code_lengths(bits)) {
        DecodeStep::Corrupt
    } else {
        lzh_body(lzh_code_lengths(bits), bits, 1144, Seq::empty(), expected)
    }
}

/// LZH codec: LZ77 with canonical Huffman coding.
pub struct LzhCodec;

impl LzhCodec {
    /// Decode an LZH block that must produce `expected_len` bytes.
    pub fn decode(compressed: &[u8], expected_len: usize) -> (r: Result<Vec<u8>, CodropError>)
        ensures
            step_result_is(spec_lzh_decode(compressed@, expected_len as int), r),
    {
        if expected_len == 0 && compressed.len() == 0 {
            return Ok(Vec::new());
        }
        let ghost bits = bytes_to_bits(compressed@);
        let mut reader = BitReader::new(compressed);
        let mut lengths: Vec<u8> = Vec::new();
        let mut i: usize = 0;
        while i < NUM_SYMBOLS
            invariant
                i <= NUM_SYMBOLS,
                reader.wf(),
                reader.bits() == bits,
                bits == bytes_to_bits(compressed@),
                reader.position() == 4 * i,
                4 * i <= bits.len(),
                !(expected_len == 0 && compressed@.len() == 0),
                lengths@.len() == i,
                forall|j: int| 0 <= j < i ==> #[trigger] lengths@[j] == bits_value(bits.skip(4 * j).take(4)) as u8,
            decreases NUM_SYMBOLS - i,
        {
            match reader.read_bits(4) {
                Ok(v) => {
                    lengths.push(v as u8);
                },
                Err(e) => {
                    return Err(e);
                },
            }
            i = i + 1;
        }
        let ghost lens = lzh_code_lengths(bits);
        assert(lengths@ =~= lens);
        let table = match HuffmanDecoderTable::build(&lengths) {
            Ok(t) => t,
            Err(e) => {
                return Err(e);
            },
        };
        let ghost target = lzh_body(lens, bits, 1144, Seq::empty(), expected_len as int);
        let mut out: Vec<u8> = Vec::new();
        loop
            invariant
                reader.wf(),
                reader.bits() == bits,
                table.wf(),
                table.code_lengths() == lens,
                lens == lzh_code_lengths(bits),
                bits == bytes_to_bits(compressed@),
                out@.len() <= expected_len,
                target == spec_lzh_decode(compressed@, expected_len as int),
                target == lzh_body(lens, bits, reader.position(), out@, expected_len as int),
            decreases expected_len - out@.len(),
        {
            let ghost p0 = reader.position();
            let sym = match next_symbol(&table, &mut reader) {
                Ok(s) => s,
                Err(e) => {
                    return Err(e);
                },
            };
            assert(huffman_next(lens, bits, p0) == Some((sym as int, reader.position())));
            if sym == EOB_SYMBOL {
                if out.len() != expected_len {
                    return Err(CodropError::CorruptedEntropyStream("LZH decoded length mismatch".to_string()));
                }
                return Ok(out);
            }
            if sym < 256 {
                if out.len() >= expected_len {
                    return Err(CodropError::InvalidMatchLength { length: 1, remaining: 0 });
                }
                out.push(sym as u8);
            } else {
                if sym - 257 >= 29 {
                    return Err(CodropError::CorruptedEntropyStream("Invalid length symbol".to_string()));
                }
                let match_len = match decode_length(sym, &mut reader) {
                    Ok(l) => l,
                    Err(e) => {
                        return Err(e);
                    },
                };
                let ghost p2 = reader.position();
                let code = match reader.read_bits(5) {
                    Ok(c) => c as usize,
                    Err(e) => {
                        return Err(e);
                    },
                };
                if code >= NUM_DISTANCE_CODES {
                    return Err(CodropError::CorruptedEntropyStream("Invalid offset symbol".to_string()));
                }
                let offset = match decode_distance(code, &mut reader) {
                    Ok(d) => d,
                    Err(e) => {
                        return Err(e);
                    },
                };
                if offset == 0 || offset > out.len() {
                    return Err(CodropError::InvalidOffset { offset, max_valid: out.len() });
                }
                if match_len > expected_len - out.len() {
                    return Err(CodropError::InvalidMatchLength {
                        length: match_len,
                        remaining: expected_len - out.len(),
                    });
                }
                if match_len == 0 {
                    return Err(CodropError::CorruptedEntropyStream("Empty match".to_string()));
                }
                let start = out.len() - offset;
                let ghost out2 = out@;
                let mut k: usize = 0;
                while k < match_len
                    invariant
                        k <= match_len,
                        start + offset == out2.len(),
                        offset >= 1,
                        out@ == copy_match(out2, offset as int, k as nat),
                        out@.len() == out2.len() + k,
                        out2.len() + match_len <= expected_len,
                    decreases match_len - k,
                {
                    let b = out[start + k];
                    out.push(b);
                    k = k + 1;
                }
            }
        }
    }
}

/// A match length's code, base and extra value fit the tables.
pub proof fn lemma_length_code(l: int)
    requires
        MIN_MATCH <= l <= MAX_MATCH,
    ensures
        0 <= length_code(l) < 29,
        length_base(length_code(l)) <= l,
        l - length_base(length_code(l)) < crate::entropy::canonical::two_pow(length_extra(length_code(l)) as nat),
        length_extra(length_code(l)) <= 5,
{
    reveal_with_fuel(length_code_from, 30);
    reveal_with_fuel(crate::entropy::canonical::two_pow, 7);
}

/// A distance's code, base and extra value fit the tables.
pub proof fn lemma_dist_code(d: int)
    requires
        1 <= d <= MAX_DISTANCE,
    ensures
        0 <= dist_code(d) < 30,
        dist_base(dist_code(d)) <= d,
        d - dist_base(dist_code(d)) < crate::entropy::canonical::two_pow(dist_extra(dist_code(d)) as nat),
        dist_extra(dist_code(d)) <= 13,
{
    reveal_with_fuel(dist_code_from, 31);
    reveal_with_fuel(crate::entropy::canonical::two_pow, 15);
}

/// The symbol that codes `t`: the byte, or the length code's symbol.
pub open spec fn symbol_of(t: LzSymbol) -> int {
    match t {
        LzSymbol::Literal(b) => b as int,
        LzSymbol::Match { length, distance: _ } => 257 + length_code(length as int),
    }
}

/// `f` with one more occurrence of symbol `s`, a count stopping at `u32::MAX`.
pub open spec fn bump(f: Seq<u32>, s: int) -> Seq<u32> {
    if f[s] < 0xFFFF_FFFF {
        f.update(s, (f[s] + 1) as u32)
    } else {
        f
    }
}

/// The symbol counts of `ts` for the literal/length code: one end of block, and per symbol
/// its byte or its length code.
pub open spec fn lzh_tally(ts: Seq<LzSymbol>) -> Seq<u32>
    decreases ts.len(),
{
    if ts.len() == 0 {
        Seq::new(NUM_SYMBOLS as nat, |i: int| if i == EOB_SYMBOL { 1u32 } else { 0u32 })
    } else {
        bump(lzh_tally(ts.drop_last()), symbol_of(ts.last()))
    }
}

/// Code lengths fit for the counts `freqs`: a prefix code of at most 15 bits in which exactly
/// the counted symbols have a code, a lone symbol getting a one-bit code.
pub open spec fn lengths_fit_counts(freqs: Seq<u32>, lens: Seq<u8>) -> bool {
    &&& lens.len() == freqs.len()
    &&& valid_code_lengths(lens)
    &&& forall|s: int| 0 <= s < freqs.len() && freqs[s] == 0 ==> #[trigger] lens[s] == 0
    &&& forall|s: int| 0 <= s < freqs.len() && freqs[s] > 0 ==> 1 <= #[trigger] lens[s] <= 15
    &&& crate::entropy::huffman::nonzero_count(freqs, freqs.len() as int) == 1 ==> forall|s: int|
        0 <= s < freqs.len() && freqs[s] > 0 ==> #[trigger] lens[s] == 1
}

/// `r` is the LZH coding of `data` with the codes `codes`: the code lengths (those that
/// `spec_code_lengths` builds from the symbol counts) in four bits each, the LZ symbols, and
/// the end of block, zero-padded to bytes. The codes are the canonical ones for the lengths,
/// which fixes every bit written.
pub open spec fn lzh_encoded_with(data: Seq<u8>, lens: Seq<u8>, codes: Seq<u16>, r: Seq<u8>) -> bool {
    let v = header_bits(lens, NUM_SYMBOLS as int) + tokens_bits(lens, codes, spec_tokenize(data)) + code_bits(
        lens,
        codes,
        EOB_SYMBOL as int,
    );
    &&& lens == spec_code_lengths(lzh_tally(spec_tokenize(data)), NUM_SYMBOLS as int)
    &&& lengths_fit_counts(lzh_tally(spec_tokenize(data)), lens)
    &&& codes_match(lens, codes)
    &&& forall|k: int| 0 <= k < spec_tokenize(data).len() ==> 0 <= #[trigger] symbol_of(spec_tokenize(data)[k]) < 286
    &&& bytes_to_bits(r) == v + Seq::new((if v.len() % 8 == 0 { 0 } else { 8 - v.len() % 8 }) as nat, |i: int| false)
}

proof fn lemma_tally_positive(ts: Seq<LzSymbol>)
    requires
        forall|k: int| 0 <= k < ts.len() ==> 0 <= #[trigger] symbol_of(ts[k]) < 286,
    ensures
        lzh_tally(ts).len() == 286,
        lzh_tally(ts)[256] > 0,
        forall|k: int| 0 <= k < ts.len() ==> lzh_tally(ts)[#[trigger] symbol_of(ts[k])] > 0,
    decreases ts.len(),
{
    if ts.len() > 0 {
        let p = ts.drop_last();
        assert forall|k: int| 0 <= k < p.len() implies 0 <= #[trigger] symbol_of(p[k]) < 286 by {
            assert(p[k] == ts[k]);
        }
        lemma_tally_positive(p);
        assert(symbol_of(ts[ts.len() - 1]) < 286);
        assert forall|k: int| 0 <= k < ts.len() implies lzh_tally(ts)[#[trigger] symbol_of(ts[k])] > 0 by {
            if k < ts.len() - 1 {
                assert(p[k] == ts[k]);
            }
        }
    }
}

proof fn lemma_msb_injective(b1: Seq<bool>, b2: Seq<bool>, l: int)
    requires
        0 <= l <= b1.len(),
        l <= b2.len(),
        msb_value(b1, l) == msb_value(b2, l),
    ensures
        b1.take(l) == b2.take(l),
    decreases l,
{
    if l > 0 {
        let m1 = msb_value(b1, l - 1);
        let m2 = msb_value(b2, l - 1);
        assert(b1[l - 1] == b2[l - 1]) by {
            if b1[l - 1] != b2[l - 1] {
                assert(2 * m1 + 1 != 2 * m2);
                assert(2 * m1 != 2 * m2 + 1);
            }
        }
        assert(m1 == m2);
        lemma_msb_injective(b1, b2, l - 1);
        assert(b1.take(l) =~= b1.take(l - 1).push(b1[l - 1]));
        assert(b2.take(l) =~= b2.take(l - 1).push(b2[l - 1]));
    } else {
        assert(b1.take(0) =~= b2.take(0));
    }
}

proof fn lemma_code_bits_agree(lens: Seq<u8>, c1: Seq<u16>, c2: Seq<u16>, s: int)
    requires
        codes_match(lens, c1),
        codes_match(lens, c2),
        0 <= s < lens.len(),
        lens[s] > 0,
    ensures
        code_bits(lens, c1, s) == code_bits(lens, c2, s),
{
    let l = lens[s] as int;
    let a = low_bits(c1[s] as u64, l as nat);
    let b = low_bits(c2[s] as u64, l as nat);
    lemma_msb_injective(a, b, l);
    assert(a.take(l) =~= a);
    assert(b.take(l) =~= b);
}

proof fn lemma_tokens_bits_agree(lens: Seq<u8>, c1: Seq<u16>, c2: Seq<u16>, ts: Seq<LzSymbol>)
    requires
        codes_match(lens, c1),
        codes_match(lens, c2),
        forall|k: int| 0 <= k < ts.len() ==> 0 <= #[trigger] symbol_of(ts[k]) < lens.len() && lens[symbol_of(ts[k])] > 0,
    ensures
        tokens_bits(lens, c1, ts) == tokens_bits(lens, c2, ts),
    decreases ts.len(),
{
    if ts.len() > 0 {
        let p = ts.drop_last();
        assert forall|k: int| 0 <= k < p.len() implies 0 <= #[trigger] symbol_of(p[k]) < lens.len() && lens[symbol_of(p[k])] > 0 by {
            assert(p[k] == ts[k]);
        }
        lemma_tokens_bits_agree(lens, c1, c2, p);
        let t = ts.last();
        assert(symbol_of(ts[ts.len() - 1]) < lens.len());
        lemma_code_bits_agree(lens, c1, c2, symbol_of(t));
    }
}

/// Two LZH codings of the same data are equal.
pub proof fn lemma_lzh_encoded_unique(data: Seq<u8>, l1: Seq<u8>, c1: Seq<u16>, q1: Seq<u8>, l2: Seq<u8>, c2: Seq<u16>, q2: Seq<u8>)
    requires
        lzh_encoded_with(data, l1, c1, q1),
        lzh_encoded_with(data, l2, c2, q2),
    ensures
        q1 == q2,
{
    let ts = spec_tokenize(data);
    let f = lzh_tally(ts);
    lemma_tally_positive(ts);
    assert forall|k: int| 0 <= k < ts.len() implies 0 <= #[trigger] symbol_of(ts[k]) < l1.len() && l1[symbol_of(ts[k])] > 0 by {
        assert(f[symbol_of(ts[k])] > 0);
    }
    lemma_tokens_bits_agree(l1, c1, c2, ts);
    assert(f[256] > 0);
    lemma_code_bits_agree(l1, c1, c2, 256);
    crate::entropy::bitstream::lemma_bytes_to_bits_injective(q1, q2);
}

/// `q` is an LZH coding of `data` with some codes.
pub open spec fn lzh_codes_to(data: Seq<u8>, q: Seq<u8>) -> bool {
    exists|lens: Seq<u8>, codes: Seq<u16>| #[trigger] lzh_encoded_with(data, lens, codes, q)
}

/// The LZH coding of `data` (nothing for no data, else the one sequence that
/// `lzh_encoded_with` admits).
pub open spec fn spec_lzh_bytes(data: Seq<u8>) -> Seq<u8> {
    if data.len() == 0 {
        Seq::empty()
    } else {
        choose|q: Seq<u8>| #[trigger] lzh_codes_to(data, q)
    }
}

proof fn lemma_tokens_bits_len(lens: Seq<u8>, c1: Seq<u16>, c2: Seq<u16>, ts: Seq<LzSymbol>)
    ensures
        tokens_bits(lens, c1, ts).len() == tokens_bits(lens, c2, ts).len(),
    decreases ts.len(),
{
    if ts.len() > 0 {
        lemma_tokens_bits_len(lens, c1, c2, ts.drop_last());
    }
}

/// Two LZH codings of the same data have the same length.
pub proof fn lemma_lzh_encoded_len(data: Seq<u8>, l1: Seq<u8>, c1: Seq<u16>, q1: Seq<u8>, l2: Seq<u8>, c2: Seq<u16>, q2: Seq<u8>)
    requires
        lzh_encoded_with(data, l1, c1, q1),
        lzh_encoded_with(data, l2, c2, q2),
    ensures
        q1.len() == q2.len(),
{
    lemma_tokens_bits_len(l1, c1, c2, spec_tokenize(data));
    crate::entropy::bitstream::lemma_bytes_to_bits_len(q1);
    crate::entropy::bitstream::lemma_bytes_to_bits_len(q2);
}

/// The code lengths `lengths` and the bit-reversed codes `codes` agree: each code, read
/// first bit most significant, is the canonical code of its symbol.
pub open spec fn codes_match(lengths: Seq<u8>, codes: Seq<u16>) -> bool {
    &&& codes.len() == lengths.len()
    &&& forall|s: int| 0 <= s < lengths.len() && lengths[s] > 0 ==>
        msb_value(low_bits(#[trigger] codes[s] as u64, lengths[s] as nat), lengths[s] as int) == canonical_code(lengths, s)
}

/// The bits of the code of symbol `s`, as written.
pub open spec fn code_bits(lengths: Seq<u8>, codes: Seq<u16>, s: int) -> Seq<bool> {
    low_bits(codes[s] as u64, lengths[s] as nat)
}

/// The bits written for the symbol `t`.
pub open spec fn token_bits(lengths: Seq<u8>, codes: Seq<u16>, t: LzSymbol) -> Seq<bool> {
    match t {
        LzSymbol::Literal(b) => code_bits(lengths, codes, b as int),
        LzSymbol::Match { length, distance } => {
            let lc = length_code(length as int);
            let dc = dist_code(distance as int);
            code_bits(lengths, codes, 257 + lc) + low_bits((length - length_base(lc)) as u64, length_extra(lc) as nat)
                + low_bits(dc as u64, 5) + low_bits((distance - dist_base(dc)) as u64, dist_extra(dc) as nat)
        },
    }
}

/// The bits written for the symbols `ts`.
pub open spec fn tokens_bits(lengths: Seq<u8>, codes: Seq<u16>, ts: Seq<LzSymbol>) -> Seq<bool>
    decreases ts.len(),
{
    if ts.len() == 0 {
        Seq::empty()
    } else {
        tokens_bits(lengths, codes, ts.drop_last()) + token_bits(lengths, codes, ts.last())
    }
}

/// The bits of the first `n` code lengths, four each.
pub open spec fn header_bits(lengths: Seq<u8>, n: int) -> Seq<bool>
    decreases n,
{
    if n <= 0 {
        Seq::empty()
    } else {
        header_bits(lengths, n - 1) + low_bits(lengths[n - 1] as u64, 4)
    }
}

/// The first `l` bits decide `msb_value`.
proof fn lemma_msb_prefix(b1: Seq<bool>, b2: Seq<bool>, l: int)
    requires
        0 <= l <= b1.len(),
        l <= b2.len(),
        b1.take(l) == b2.take(l),
    ensures
        msb_value(b1, l) == msb_value(b2, l),
    decreases l,
{
    if l > 0 {
        assert(b1.take(l - 1) =~= b1.take(l).take(l - 1));
        assert(b2.take(l - 1) =~= b2.take(l).take(l - 1));
        assert(b1[l - 1] == b1.take(l)[l - 1]);
        assert(b2[l - 1] == b2.take(l)[l - 1]);
        lemma_msb_prefix(b1, b2, l - 1);
    }
}

/// A field written as the `k` low bits of `v < 2^k` reads back as `v`.
pub proof fn lemma_field(bits: Seq<bool>, p: int, v: u32, k: nat)
    requires
        k <= 32,
        v < two_pow(k),
        0 <= p,
        p + k <= bits.len(),
        bits.subrange(p, p + k) == low_bits(v as u64, k),
    ensures
        read_field(bits, p, k as int) == Some(v as int),
{
    assert(bits.skip(p).take(k as int) =~= bits.subrange(p, p + k));
    crate::entropy::bitstream::law_bits_read_back(v, k);
    crate::entropy::huffman::lemma_mask_small(v as u64, k);
}

/// A symbol's code, written at `pos`, decodes to the symbol.
proof fn lemma_symbol(lengths: Seq<u8>, codes: Seq<u16>, bits: Seq<bool>, pos: int, s: int)
    requires
        valid_code_lengths(lengths),
        codes_match(lengths, codes),
        0 <= s < lengths.len(),
        lengths[s] >= 1,
        0 <= pos,
        pos + lengths[s] <= bits.len(),
        bits.subrange(pos, pos + lengths[s]) == code_bits(lengths, codes, s),
    ensures
        huffman_next(lengths, bits, pos) == Some((s, pos + lengths[s])),
{
    let l = lengths[s] as int;
    let b = padded_bits(bits.skip(pos), 15);
    let c = code_bits(lengths, codes, s);
    assert(l <= 15);
    assert(b.take(l) =~= c.take(l));
    lemma_msb_prefix(b, c, l);
    crate::entropy::canonical::law_canonical_decode(lengths, b, s);
    let k = code_rank(lengths, s) as int;
    assert(is_ranked_symbol(lengths, s, l, k));
    lemma_ranked_unique(lengths, s, ranked_symbol(lengths, l, k), l, k);
}

/// Decoding the bits written for one symbol appends what the symbol stands for.
#[verifier::spinoff_prover]
proof fn lemma_token_step(
    lengths: Seq<u8>,
    codes: Seq<u16>,
    bits: Seq<bool>,
    pos: int,
    out: Seq<u8>,
    n: int,
    t: LzSymbol,
)
    requires
        valid_code_lengths(lengths),
        lengths.len() == 286,
        codes_match(lengths, codes),
        symbol_fits(t, out.len() as int),
        0 <= symbol_of(t) < 286,
        lengths[symbol_of(t)] >= 1,
        0 <= pos,
        pos + token_bits(lengths, codes, t).len() <= bits.len(),
        bits.subrange(pos, pos + token_bits(lengths, codes, t).len()) == token_bits(lengths, codes, t),
        expand_step(out, t).len() <= n,
    ensures
        lzh_body(lengths, bits, pos, out, n) == lzh_body(
            lengths,
            bits,
            pos + token_bits(lengths, codes, t).len(),
            expand_step(out, t),
            n,
        ),
{
    let tb = token_bits(lengths, codes, t);
    let s = symbol_of(t);
    let cb = code_bits(lengths, codes, s);
    let l = lengths[s] as int;
    assert(bits.subrange(pos, pos + l) =~= tb.subrange(0, l));
    match t {
        LzSymbol::Literal(b) => {
            assert(tb.subrange(0, l) =~= cb);
            lemma_symbol(lengths, codes, bits, pos, s);
        },
        LzSymbol::Match { length, distance } => {
            let lc = length_code(length as int);
            let dc = dist_code(distance as int);
            lemma_length_code(length as int);
            lemma_dist_code(distance as int);
            let le = length_extra(lc) as nat;
            let de = dist_extra(dc) as nat;
            let lv = (length - length_base(lc)) as u32;
            let dv = (distance - dist_base(dc)) as u32;
            assert(tb =~= cb + low_bits(lv as u64, le) + low_bits(dc as u64, 5) + low_bits(dv as u64, de));
            assert(tb.subrange(0, l) =~= cb);
            lemma_symbol(lengths, codes, bits, pos, s);
            let p1 = pos + l;
            assert(bits.subrange(p1, p1 + le) =~= tb.subrange(l, l + le));
            assert(tb.subrange(l, l + le) =~= low_bits(lv as u64, le));
            lemma_field(bits, p1, lv, le);
            let p2 = p1 + le;
            assert(bits.subrange(p2, p2 + 5) =~= tb.subrange(l + le, l + le + 5));
            assert(tb.subrange(l + le, l + le + 5) =~= low_bits(dc as u64, 5));
            assert(two_pow(5) == 32) by {
                reveal_with_fuel(two_pow, 6);
            }
            lemma_field(bits, p2, dc as u32, 5);
            let p3 = p2 + 5;
            assert(bits.subrange(p3, p3 + de) =~= tb.subrange(l + le + 5, l + le + 5 + de));
            assert(tb.subrange(l + le + 5, l + le + 5 + de) =~= low_bits(dv as u64, de));
            lemma_field(bits, p3, dv, de);
            lemma_copy_match_len(out, distance as int, length as nat);
        },
    }
}

/// The bits written for a prefix of the symbols are a prefix of the bits written for all.
proof fn lemma_tokens_bits_prefix(lengths: Seq<u8>, codes: Seq<u16>, ts: Seq<LzSymbol>, j: int)
    requires
        0 <= j <= ts.len(),
    ensures
        tokens_bits(lengths, codes, ts.take(j)).len() <= tokens_bits(lengths, codes, ts).len(),
        tokens_bits(lengths, codes, ts).take(tokens_bits(lengths, codes, ts.take(j)).len() as int) == tokens_bits(
            lengths,
            codes,
            ts.take(j),
        ),
    decreases ts.len(),
{
    if j == ts.len() {
        assert(ts.take(j) =~= ts);
        assert(tokens_bits(lengths, codes, ts).take(tokens_bits(lengths, codes, ts).len() as int) =~= tokens_bits(
            lengths,
            codes,
            ts,
        ));
    } else {
        let d = ts.drop_last();
        assert(d.take(j) =~= ts.take(j));
        lemma_tokens_bits_prefix(lengths, codes, d, j);
        let a = tokens_bits(lengths, codes, d);
        let b = tokens_bits(lengths, codes, ts.take(j));
        assert((a + token_bits(lengths, codes, ts.last())).take(b.len() as int) =~= a.take(b.len() as int));
    }
}

/// A prefix of fitting symbols fits, and stands for no more bytes than the whole.
pub proof fn lemma_fit_prefix(ts: Seq<LzSymbol>, j: int)
    requires
        0 <= j <= ts.len(),
        symbols_fit(ts),
    ensures
        symbols_fit(ts.take(j)),
        expand(ts.take(j)).len() <= expand(ts).len(),
    decreases ts.len(),
{
    if j == ts.len() {
        assert(ts.take(j) =~= ts);
    } else {
        let d = ts.drop_last();
        assert(d.take(j) =~= ts.take(j));
        lemma_fit_prefix(d, j);
        match ts.last() {
            LzSymbol::Literal(_) => {},
            LzSymbol::Match { length, distance } => {
                lemma_copy_match_len(expand(d), distance as int, length as nat);
            },
        }
    }
}

/// Decoding the bits written for the symbols `ts` from the `k`-th on, followed by the
/// end-of-block code, completes the bytes that `ts` stand for.
proof fn lemma_tokens_decode(
    lengths: Seq<u8>,
    codes: Seq<u16>,
    ts: Seq<LzSymbol>,
    k: int,
    bits: Seq<bool>,
    base: int,
)
    requires
        valid_code_lengths(lengths),
        lengths.len() == 286,
        codes_match(lengths, codes),
        symbols_fit(ts),
        lengths[256] >= 1,
        forall|j: int| 0 <= j < ts.len() ==> 0 <= #[trigger] symbol_of(ts[j]) < 286 && lengths[symbol_of(ts[j])] >= 1,
        0 <= k <= ts.len(),
        0 <= base,
        base + tokens_bits(lengths, codes, ts).len() + lengths[256] <= bits.len(),
        bits.subrange(base, base + tokens_bits(lengths, codes, ts).len()) == tokens_bits(lengths, codes, ts),
        bits.subrange(
            base + tokens_bits(lengths, codes, ts).len(),
            base + tokens_bits(lengths, codes, ts).len() + lengths[256],
        ) == code_bits(lengths, codes, 256),
    ensures
        lzh_body(
            lengths,
            bits,
            base + tokens_bits(lengths, codes, ts.take(k)).len(),
            expand(ts.take(k)),
            expand(ts).len() as int,
        ) matches DecodeStep::Done(d, _) && d == expand(ts),
    decreases ts.len() - k,
{
    let all = tokens_bits(lengths, codes, ts);
    let n = expand(ts).len() as int;
    if k == ts.len() {
        assert(ts.take(k) =~= ts);
        lemma_symbol(lengths, codes, bits, base + all.len(), 256);
    } else {
        let pre = tokens_bits(lengths, codes, ts.take(k));
        let t = ts[k];
        let tb = token_bits(lengths, codes, t);
        let next = ts.take(k + 1);
        assert(next.drop_last() =~= ts.take(k));
        assert(next.last() == t);
        assert(tokens_bits(lengths, codes, next) == pre + tb);
        lemma_tokens_bits_prefix(lengths, codes, ts, k + 1);
        let pos = base + pre.len();
        assert(bits.subrange(pos, pos + tb.len()) =~= all.take((pre.len() + tb.len()) as int).subrange(
            pre.len() as int,
            (pre.len() + tb.len()) as int,
        ));
        assert((pre + tb).subrange(pre.len() as int, (pre.len() + tb.len()) as int) =~= tb);
        lemma_fit_prefix(ts, k + 1);
        assert(symbol_fits(t, expand(ts.take(k)).len() as int));
        assert(expand(next) == expand_step(expand(ts.take(k)), t));
        lemma_token_step(lengths, codes, bits, pos, expand(ts.take(k)), n, t);
        lemma_tokens_decode(lengths, codes, ts, k + 1, bits, base);
    }
}

proof fn lemma_header_len(lengths: Seq<u8>, n: int)
    requires
        0 <= n,
    ensures
        header_bits(lengths, n).len() == 4 * n,
    decreases n,
{
    if n > 0 {
        lemma_header_len(lengths, n - 1);
    }
}

/// The header bits read back as the code lengths.
proof fn lemma_header(lengths: Seq<u8>, n: int, bits: Seq<bool>)
    requires
        0 <= n <= lengths.len(),
        forall|i: int| 0 <= i < lengths.len() ==> #[trigger] lengths[i] <= 15,
        bits.take(4 * n) == header_bits(lengths, n),
        bits.len() >= 4 * n,
    ensures
        header_bits(lengths, n).len() == 4 * n,
        forall|i: int| 0 <= i < n ==> #[trigger] bits_value(bits.skip(4 * i).take(4)) == lengths[i],
    decreases n,
{
    if n > 0 {
        let h = header_bits(lengths, n - 1);
        lemma_header_len(lengths, n - 1);
        assert(bits.take(4 * (n - 1)) =~= bits.take(4 * n).take(4 * (n - 1)));
        assert((h + low_bits(lengths[n - 1] as u64, 4)).take(4 * (n - 1)) =~= h);
        lemma_header(lengths, n - 1, bits);
        assert(bits.skip(4 * (n - 1)).take(4) =~= bits.take(4 * n).subrange(4 * (n - 1), 4 * n));
        assert((h + low_bits(lengths[n - 1] as u64, 4)).subrange(4 * (n - 1), 4 * n) =~= low_bits(lengths[n - 1] as u64, 4));
        assert(two_pow(4) == 16) by {
            reveal_with_fuel(two_pow, 5);
        }
        crate::entropy::bitstream::law_bits_read_back(lengths[n - 1] as u32, 4);
        crate::entropy::huffman::lemma_mask_small(lengths[n - 1] as u64, 4);
    }
}

/// Each symbol of a fitting sequence fits the output before it.
pub proof fn lemma_fit_at(ts: Seq<LzSymbol>, j: int)
    requires
        0 <= j < ts.len(),
        symbols_fit(ts),
    ensures
        symbol_fits(ts[j], expand(ts.take(j)).len() as int),
{
    lemma_fit_prefix(ts, j + 1);
    assert(ts.take(j + 1).drop_last() =~= ts.take(j));
}

/// Appends the bits of symbol `t`.
fn write_token(w: &mut BitWriter, lengths: &Vec<u8>, codes: &Vec<u16>, t: LzSymbol)
    requires
        old(w).wf(),
        lengths@.len() == 286,
        codes@.len() == 286,
        forall|i: int| 0 <= i < 286 ==> #[trigger] lengths@[i] <= 15,
        t matches LzSymbol::Match { length, distance } ==> MIN_MATCH <= length <= MAX_MATCH && 1 <= distance
            <= MAX_DISTANCE,
    ensures
        final(w).wf(),
        final(w).view() == old(w).view() + token_bits(lengths@, codes@, t),
{
    match t {
        LzSymbol::Literal(b) => {
            let s = b as usize;
            w.write_bits(codes[s] as u32, lengths[s]);
        },
        LzSymbol::Match { length, distance } => {
            let (s, le, lv) = encode_length(length);
            let ghost v0 = w.view();
            w.write_bits(codes[s] as u32, lengths[s]);
            w.write_bits(lv, le);
            let (dc, de, dv) = encode_distance(distance);
            w.write_bits(dc as u32, 5);
            w.write_bits(dv, de);
            assert(w.view() =~= v0 + token_bits(lengths@, codes@, t));
        },
    }
}

impl LzhCodec {
    /// Encode `input` as an LZH block; it decodes back to `input`.
    pub fn encode(input: &[u8]) -> (r: Vec<u8>)
        ensures
            input@.len() == 0 ==> r@.len() == 0,
            input@.len() > 0 ==> exists|lens: Seq<u8>, codes: Seq<u16>| #[trigger] lzh_encoded_with(input@, lens, codes, r@),
            r@ == spec_lzh_bytes(input@),
            spec_lzh_decode(r@, input@.len() as int) matches DecodeStep::Done(d, _) && d == input@,
    {
        if input.len() == 0 {
            return Vec::new();
        }
        let tokens = tokenize_lz(input);
        let ghost ts = tokens@;
        let mut freqs: Vec<u32> = Vec::new();
        let mut q: usize = 0;
        while q < NUM_SYMBOLS
            invariant
                q <= NUM_SYMBOLS,
                freqs@.len() == q,
                forall|j: int| 0 <= j < q ==> #[trigger] freqs@[j] == 0u32,
            decreases NUM_SYMBOLS - q,
        {
            freqs.push(0);
            q = q + 1;
        }
        freqs.set(EOB_SYMBOL, 1);
        assert(freqs@ =~= lzh_tally(ts.take(0)));
        let mut k: usize = 0;
        while k < tokens.len()
            invariant
                k <= tokens@.len(),
                ts == tokens@,
                symbols_fit(ts),
                freqs@.len() == NUM_SYMBOLS,
                freqs@[256] >= 1,
                forall|j: int| 0 <= j < k ==> 0 <= #[trigger] symbol_of(ts[j]) < 286 && freqs@[symbol_of(ts[j])] >= 1,
                freqs@ == lzh_tally(ts.take(k as int)),
            decreases tokens@.len() - k,
        {
            proof {
                lemma_fit_at(ts, k as int);
                assert(ts.take(k as int + 1).drop_last() =~= ts.take(k as int));
                assert(ts.take(k as int + 1).last() == ts[k as int]);
            }
            let sym = match tokens[k] {
                LzSymbol::Literal(b) => b as usize,
                LzSymbol::Match { length, distance: _ } => {
                    let (s, _, _) = encode_length(length);
                    s
                },
            };
            if freqs[sym] < 0xFFFF_FFFF {
                freqs.set(sym, freqs[sym] + 1);
            }
            k = k + 1;
        }
        assert(ts.take(ts.len() as int) =~= ts);
        let lengths = build_code_lengths(&freqs, NUM_SYMBOLS);
        proof {
            crate::entropy::canonical::lemma_valid_fits16(lengths@);
        }
        let codes = build_canonical_codes(&lengths);
        let ghost lens = lengths@;
        let ghost cs = codes@;
        let mut w = BitWriter::new();
        let mut i: usize = 0;
        while i < NUM_SYMBOLS
            invariant
                i <= NUM_SYMBOLS,
                w.wf(),
                lengths@.len() == NUM_SYMBOLS,
                w.view() == header_bits(lengths@, i as int),
            decreases NUM_SYMBOLS - i,
        {
            w.write_bits(lengths[i] as u32, 4);
            i = i + 1;
        }
        let ghost hdr = w.view();
        let mut k: usize = 0;
        while k < tokens.len()
            invariant
                k <= tokens@.len(),
                ts == tokens@,
                symbols_fit(ts),
                w.wf(),
                lengths@ == lens,
                codes@ == cs,
                lens.len() == 286,
                cs.len() == 286,
                forall|i: int| 0 <= i < 286 ==> #[trigger] lens[i] <= 15,
                w.view() == hdr + tokens_bits(lens, cs, ts.take(k as int)),
            decreases tokens@.len() - k,
        {
            proof {
                lemma_fit_at(ts, k as int);
                assert(ts.take(k + 1).drop_last() =~= ts.take(k as int));
            }
            write_token(&mut w, &lengths, &codes, tokens[k]);
            k = k + 1;
        }
        w.write_bits(codes[EOB_SYMBOL] as u32, lengths[EOB_SYMBOL]);
        let ghost v = w.view();
        let bytes = w.into_bytes();
        proof {
            let bits = bytes_to_bits(bytes@);
            let tb = tokens_bits(lens, cs, ts);
            let eob = code_bits(lens, cs, 256);
            assert(ts.take(ts.len() as int) =~= ts);
            lemma_header_len(lens, 286);
            assert(v == hdr + tb + eob);
            assert(bits.take(1144) =~= hdr);
            lemma_header(lens, 286, bits);
            assert(lzh_code_lengths(bits) =~= lens);
            assert(bits.subrange(1144, 1144 + tb.len() as int) =~= tb);
            assert(bits.subrange(1144 + tb.len() as int, 1144 + tb.len() + lens[256]) =~= eob);
            assert(ts.take(0) =~= Seq::<LzSymbol>::empty());
            lemma_tokens_decode(lens, cs, ts, 0, bits, 1144);
            assert(lzh_encoded_with(input@, lens, cs, bytes@));
            let q = spec_lzh_bytes(input@);
            assert(lzh_codes_to(input@, bytes@));
            let (l2, c2) = choose|l: Seq<u8>, c: Seq<u16>| lzh_encoded_with(input@, l, c, q);
            lemma_lzh_encoded_unique(input@, lens, cs, bytes@, l2, c2, q);
        }
        bytes
    }
}

} // verus!
