//! LZF: a byte-oriented LZ77 codec.
//!
//! A stream is a series of tokens. A token byte holds a literal-length nibble (high) and a
//! match-length nibble (low); a nibble of 15 is extended by bytes of 255 and one final byte
//! below 255. Then come the literal bytes and, unless the block ends there, the match's
//! extended length bytes and its offset (two or three bytes, little-endian). A match of
//! length `m` at offset `d` repeats the byte `d` back, `m` times, so it may overlap itself.
use vstd::prelude::*;

use crate::buf::append_range;
use crate::codec::{step_error_is, step_result_is, DecodeStep};
use crate::error::CodropError;

verus! {

/// Number of bits for the match finder hash table.
pub const HASH_BITS: usize = 14;
/// Number of match finder hash table entries.
pub const HASH_SIZE: usize = 16384;
/// Mask of a match finder hash value.
pub const HASH_MASK: u32 = 0x3FFF;
/// Maximum offset for 16-bit displacement.
pub const MAX_OFFSET_16: usize = 0xFFFF;
/// Maximum offset for 24-bit displacement.
pub const MAX_OFFSET_24: usize = 0xFF_FFFF;

/// Configured offset representation for LZF matches.
#[derive(Debug, Clone, Copy, PartialEq, Eq, Default)]
pub enum OffsetMode {
    #[default]
    Offset16,
    Offset24,
}

/// Bytes per offset in mode `m`.
pub open spec fn offset_width(m: OffsetMode) -> int {
    match m {
        OffsetMode::Offset16 => 2,
        OffsetMode::Offset24 => 3,
    }
}

/// Largest offset representable in mode `m`.
pub open spec fn offset_limit(m: OffsetMode) -> int {
    match m {
        OffsetMode::Offset16 => 0xFFFF,
        OffsetMode::Offset24 => 0xFF_FFFF,
    }
}

/// Little-endian value of the offset bytes at `c`.
pub open spec fn offset_at(src: Seq<u8>, c: int, m: OffsetMode) -> int {
    match m {
        OffsetMode::Offset16 => src[c] + 256 * src[c + 1],
        OffsetMode::Offset24 => src[c] + 256 * src[c + 1] + 65536 * src[c + 2],
    }
}

/// Extension bytes of a length: `rem / 255` bytes of 255 and a final byte `rem % 255`.
pub open spec fn ext_bytes(rem: nat) -> Seq<u8> {
    Seq::new(rem / 255, |i: int| 255u8) + seq![(rem % 255) as u8]
}

/// An extended length read from `c`: `acc` plus each byte, up to the first byte below 255.
/// `long` selects the error for a length above `max` (`TooLong` for literals).
pub open spec fn ext_len(src: Seq<u8>, c: int, acc: int, max: int, long: bool) -> DecodeStep<int>
    decreases src.len() - c,
{
    if c < 0 || c >= src.len() {
        DecodeStep::Eof
    } else {
        let len = acc + src[c];
        if len > usize::MAX {
            DecodeStep::Corrupt
        } else if len > max {
            if long { DecodeStep::TooLong(max, len) } else { DecodeStep::BadLength(len, max) }
        } else if src[c] < 255 {
            DecodeStep::Done(len, c + 1)
        } else {
            ext_len(src, c + 1, len, max, long)
        }
    }
}

/// A literal length with nibble `n`, extension bytes from `c`, at most `max`.
pub open spec fn spec_literal_length(n: u8, src: Seq<u8>, c: int, max: int) -> DecodeStep<int> {
    if n < 15 {
        if n > max { DecodeStep::BadLength(n as int, max) } else { DecodeStep::Done(n as int, c) }
    } else {
        ext_len(src, c, 15, max, true)
    }
}

/// A match length with nibble `n`, extension bytes from `c`, at most `max`.
pub open spec fn spec_match_length(n: u8, src: Seq<u8>, c: int, max: int) -> DecodeStep<int> {
    if n < 15 {
        if n + 3 > max { DecodeStep::BadLength(n + 3, max) } else { DecodeStep::Done(n + 3, c) }
    } else {
        ext_len(src, c, 18, max, false)
    }
}

/// `out` extended by `len` bytes, each copied from `off` bytes back.
pub open spec fn copy_match(out: Seq<u8>, off: int, len: nat) -> Seq<u8>
    decreases len,
{
    if len == 0 {
        out
    } else {
        let o = copy_match(out, off, (len - 1) as nat);
        o.push(o[o.len() - off])
    }
}

/// Decoding of the tokens from `c` on, with `out` decoded so far and `expected` bytes in all.
#[verifier::opaque]
pub open spec fn lzf_from(src: Seq<u8>, c: int, out: Seq<u8>, expected: int, m: OffsetMode) -> DecodeStep<Seq<u8>>
    decreases src.len() - c,
{
    if c < 0 || c >= src.len() {
        if out.len() != expected { DecodeStep::Eof } else { DecodeStep::Done(out, c) }
    } else {
        let token = src[c];
        let max_lit = if expected > out.len() { expected - out.len() } else { 0 };
        match spec_literal_length(token / 16, src, c + 1, max_lit) {
            DecodeStep::Done(l, c2) => {
                if c2 + l > src.len() {
                    DecodeStep::Eof
                } else {
                    let out2 = out + src.subrange(c2, c2 + l);
                    let c3 = c2 + l;
                    if out2.len() == expected {
                        if c3 == src.len() { DecodeStep::Done(out2, c3) } else { DecodeStep::Corrupt }
                    } else if c3 >= src.len() {
                        DecodeStep::Eof
                    } else {
                        let max_m = if expected > out2.len() { expected - out2.len() } else { 0 };
                        match spec_match_length(token % 16, src, c3, max_m) {
                            DecodeStep::Done(ml, c4) => {
                                if c4 + offset_width(m) > src.len() {
                                    DecodeStep::Eof
                                } else {
                                    let off = offset_at(src, c4, m);
                                    let c5 = c4 + offset_width(m);
                                    if off == 0 || off > out2.len() {
                                        DecodeStep::BadOffset(off, out2.len() as int)
                                    } else {
                                        let out3 = copy_match(out2, off, ml as nat);
                                        if out3.len() == expected {
                                            if c5 == src.len() { DecodeStep::Done(out3, c5) } else { DecodeStep::Corrupt }
                                        } else if c5 <= c {
                                            DecodeStep::Corrupt
                                        } else {
                                            lzf_from(src, c5, out3, expected, m)
                                        }
                                    }
                                }
                            },
                            DecodeStep::Eof => DecodeStep::Eof,
                            DecodeStep::BadLength(a, b) => DecodeStep::BadLength(a, b),
                            DecodeStep::TooLong(a, b) => DecodeStep::TooLong(a, b),
                            DecodeStep::BadOffset(a, b) => DecodeStep::BadOffset(a, b),
                            DecodeStep::Corrupt => DecodeStep::Corrupt,
                        }
                    }
                }
            },
            DecodeStep::Eof => DecodeStep::Eof,
            DecodeStep::BadLength(a, b) => DecodeStep::BadLength(a, b),
            DecodeStep::TooLong(a, b) => DecodeStep::TooLong(a, b),
            DecodeStep::BadOffset(a, b) => DecodeStep::BadOffset(a, b),
            DecodeStep::Corrupt => DecodeStep::Corrupt,
        }
    }
}

/// Decoding of a whole LZF block that must produce `expected` bytes.
pub open spec fn spec_lzf_decode(src: Seq<u8>, expected: int, m: OffsetMode) -> DecodeStep<Seq<u8>> {
    if expected == 0 {
        if src.len() == 0 { DecodeStep::Done(Seq::empty(), 0) } else { DecodeStep::Corrupt }
    } else {
        lzf_from(src, 0, Seq::empty(), expected, m)
    }
}

/// Encodes a literal length into a nibble and appends any extension bytes to `out`.
pub fn encode_literal_length(len: usize, out: &mut Vec<u8>) -> (r: u8)
    ensures
        len < 15 ==> r == len && final(out)@ == old(out)@,
        len >= 15 ==> r == 15 && final(out)@ == old(out)@ + ext_bytes((len - 15) as nat),
{
    if len < 15 {
        len as u8
    } else {
        append_ext(out, len - 15);
        15
    }
}

/// Append the extension bytes of `rem`.
fn append_ext(out: &mut Vec<u8>, rem: usize)
    ensures
        final(out)@ == old(out)@ + ext_bytes(rem as nat),
{
    let mut r = rem;
    let ghost base = old(out)@;
    while r >= 255
        invariant
            r <= rem,
            (rem - r) % 255 == 0,
            out@ == base + Seq::new(((rem - r) / 255) as nat, |i: int| 255u8),
            base == old(out)@,
        decreases r,
    {
        out.push(255);
        r = r - 255;
        assert(out@ =~= base + Seq::new(((rem - r) / 255) as nat, |i: int| 255u8));
    }
    out.push(r as u8);
    assert(rem as nat / 255 == (rem - r) / 255 && rem as nat % 255 == r);
    assert(out@ =~= base + ext_bytes(rem as nat));
}

/// Decodes a literal length from its nibble, reading extension bytes at `*cursor`.
pub fn decode_literal_length(nibble: u8, cursor: &mut usize, input: &[u8], max_allowed: usize) -> (r: Result<usize, CodropError>)
    ensures
        match spec_literal_length(nibble, input@, *old(cursor) as int, max_allowed as int) {
            DecodeStep::Done(l, c) => r == Ok::<usize, CodropError>(l as usize) && *final(cursor) == c,
            p => r matches Err(e) && step_error_is(p, e),
        },
{
    if nibble < 15 {
        let len = nibble as usize;
        if len > max_allowed {
            return Err(CodropError::InvalidMatchLength { length: len, remaining: max_allowed });
        }
        return Ok(len);
    }
    read_ext_len(cursor, input, 15, max_allowed, true)
}

/// Decodes a match length from its nibble, reading extension bytes at `*cursor`.
pub fn decode_match_length(nibble: u8, cursor: &mut usize, input: &[u8], max_allowed: usize) -> (r: Result<usize, CodropError>)
    ensures
        match spec_match_length(nibble, input@, *old(cursor) as int, max_allowed as int) {
            DecodeStep::Done(l, c) => r == Ok::<usize, CodropError>(l as usize) && *final(cursor) == c,
            p => r matches Err(e) && step_error_is(p, e),
        },
{
    if nibble < 15 {
        let len = (nibble as usize) + 3;
        if len > max_allowed {
            return Err(CodropError::InvalidMatchLength { length: len, remaining: max_allowed });
        }
        return Ok(len);
    }
    read_ext_len(cursor, input, 18, max_allowed, false)
}

/// Read extension bytes onto `acc`.
fn read_ext_len(cursor: &mut usize, input: &[u8], acc: usize, max_allowed: usize, long: bool) -> (r: Result<usize, CodropError>)
    ensures
        match ext_len(input@, *old(cursor) as int, acc as int, max_allowed as int, long) {
            DecodeStep::Done(l, c) => r == Ok::<usize, CodropError>(l as usize) && *final(cursor) == c,
            p => r matches Err(e) && step_error_is(p, e),
        },
{
    let mut len = acc;
    let ghost target = ext_len(input@, *old(cursor) as int, acc as int, max_allowed as int, long);
    loop
        invariant
            ext_len(input@, *cursor as int, len as int, max_allowed as int, long) == target,
            target == ext_len(input@, *old(cursor) as int, acc as int, max_allowed as int, long),
        decreases input@.len() - *cursor,
    {
        if *cursor >= input.len() {
            return Err(CodropError::UnexpectedEof);
        }
        let b = input[*cursor];
        *cursor = *cursor + 1;
        let sum = len.checked_add(b as usize);
        match sum {
            None => {
                return Err(CodropError::CorruptedEntropyStream("length overflow".to_string()));
            },
            Some(l) => {
                len = l;
            },
        }
        if len > max_allowed {
            if long {
                return Err(CodropError::MemoryLimitExceeded { limit: max_allowed, requested: len });
            } else {
                return Err(CodropError::InvalidMatchLength { length: len, remaining: max_allowed });
            }
        }
        if b < 255 {
            return Ok(len);
        }
    }
}

/// Encodes a match length (at least 3) into a nibble and appends any extension bytes.
pub fn encode_match_length(len: usize, out: &mut Vec<u8>) -> (r: Result<u8, CodropError>)
    ensures
        len < 3 ==> r == Err::<u8, CodropError>(CodropError::InvalidMatchLength { length: len, remaining: 3 })
            && final(out)@ == old(out)@,
        3 <= len < 18 ==> r == Ok::<u8, CodropError>((len - 3) as u8) && final(out)@ == old(out)@,
        len >= 18 ==> r == Ok::<u8, CodropError>(15) && final(out)@ == old(out)@ + ext_bytes((len - 18) as nat),
{
    if len < 3 {
        return Err(CodropError::InvalidMatchLength { length: len, remaining: 3 });
    }
    let m = len - 3;
    if m < 15 {
        Ok(m as u8)
    } else {
        append_ext(out, len - 18);
        Ok(15)
    }
}

proof fn lemma_ext_len_advance(src: Seq<u8>, c: int, acc: int, max: int, long: bool)
    ensures
        ext_len(src, c, acc, max, long) matches DecodeStep::Done(l, c2) ==> c2 > c && c2 <= src.len() && l >= acc && l <= max,
    decreases src.len() - c,
{
    if 0 <= c < src.len() {
        let len = acc + src[c];
        if len <= usize::MAX && len <= max && src[c] >= 255 {
            lemma_ext_len_advance(src, c + 1, len, max, long);
        }
    }
}

proof fn lemma_token_nibbles(t: u8)
    ensures
        (t >> 4u8) & 0x0F == t / 16,
        t & 0x0F == t % 16,
{
    assert((t >> 4u8) & 0x0F == t / 16 && t & 0x0F == t % 16) by (bit_vector);
}

/// LZF byte-oriented fast LZ codec.
pub struct LzfCodec;

impl LzfCodec {
    /// Decode an LZF block with 16-bit match offsets.
    pub fn decode(compressed: &[u8], expected_len: usize) -> (r: Result<Vec<u8>, CodropError>)
        ensures
            step_result_is(spec_lzf_decode(compressed@, expected_len as int, OffsetMode::Offset16), r),
    {
        Self::decode_with_offset_mode(compressed, expected_len, OffsetMode::Offset16)
    }

    /// Decode an LZF block with the given offset width.
    pub fn decode_with_offset_mode(compressed: &[u8], expected_len: usize, offset_mode: OffsetMode) -> (r: Result<Vec<u8>, CodropError>)
        ensures
            step_result_is(spec_lzf_decode(compressed@, expected_len as int, offset_mode), r),
    {
        let ghost src = compressed@;
        let ghost target = spec_lzf_decode(src, expected_len as int, offset_mode);
        proof {
            reveal(lzf_from);
        }
        if expected_len == 0 {
            if compressed.len() == 0 {
                return Ok(Vec::new());
            } else {
                return Err(CodropError::CorruptedEntropyStream("non-empty data for an empty block".to_string()));
            }
        }
        let n = compressed.len();
        let mut out: Vec<u8> = Vec::new();
        let mut cursor: usize = 0;
        while cursor < n
            invariant
                n == src.len(),
                src == compressed@,
                cursor <= n,
                expected_len > 0,
                out@.len() < expected_len,
                target == spec_lzf_decode(src, expected_len as int, offset_mode),
                target == lzf_from(src, cursor as int, out@, expected_len as int, offset_mode),
            decreases n - cursor,
        {
            proof {
                reveal(lzf_from);
            }
            let ghost c0 = cursor as int;
            let ghost out0 = out@;
            let token = compressed[cursor];
            cursor = cursor + 1;
            proof {
                lemma_token_nibbles(token);
            }
            let lit_nibble = (token >> 4) & 0x0F;
            let match_nibble = token & 0x0F;
            let max_lit = expected_len - out.len();
            let lit = match decode_literal_length(lit_nibble, &mut cursor, compressed, max_lit) {
                Ok(l) => l,
                Err(e) => {
                    return Err(e);
                },
            };
            let ghost c2 = cursor as int;
            proof {
                if lit_nibble >= 15 {
                    lemma_ext_len_advance(src, c0 + 1, 15, max_lit as int, true);
                }
                assert(spec_literal_length(token / 16, src, c0 + 1, max_lit as int) == DecodeStep::Done(lit as int, c2));
                assert(lit <= max_lit);
                assert(c2 > c0);
            }
            if lit > n - cursor {
                return Err(CodropError::UnexpectedEof);
            }
            append_range(&mut out, compressed, cursor, cursor + lit);
            cursor = cursor + lit;
            let ghost out_lit = out@;
            assert(out_lit == out0 + src.subrange(c2, c2 + lit));
            if out.len() == expected_len {
                if cursor == n {
                    return Ok(out);
                } else {
                    return Err(CodropError::CorruptedEntropyStream("trailing bytes after the block end".to_string()));
                }
            }
            if cursor >= n {
                return Err(CodropError::UnexpectedEof);
            }
            let ghost c3 = cursor as int;
            assert(out_lit.len() < expected_len);
            let max_match = expected_len - out.len();
            let ml = match decode_match_length(match_nibble, &mut cursor, compressed, max_match) {
                Ok(l) => l,
                Err(e) => {
                    proof {
                        let p = spec_match_length(token % 16, src, c3, max_match as int);
                        assert(out_lit.len() < expected_len);
                        assert(c3 < src.len());
                        match p {
                            DecodeStep::Eof => assert(target == DecodeStep::<Seq<u8>>::Eof),
                            DecodeStep::BadLength(a, b) => assert(target == DecodeStep::<Seq<u8>>::BadLength(a, b)),
                            DecodeStep::TooLong(a, b) => assert(target == DecodeStep::<Seq<u8>>::TooLong(a, b)),
                            DecodeStep::BadOffset(a, b) => assert(target == DecodeStep::<Seq<u8>>::BadOffset(a, b)),
                            DecodeStep::Corrupt => assert(target == DecodeStep::<Seq<u8>>::Corrupt),
                            DecodeStep::Done(_, _) => {},
                        }
                    }
                    return Err(e);
                },
            };
            let ghost c4 = cursor as int;
            proof {
                if match_nibble >= 15 {
                    lemma_ext_len_advance(src, c3, 18, max_match as int, false);
                }
                assert(spec_match_length(token % 16, src, c3, max_match as int) == DecodeStep::Done(ml as int, c4));
                assert(ml <= max_match);
            }
            let offset: usize = match offset_mode {
                OffsetMode::Offset16 => {
                    if n - cursor < 2 {
                        return Err(CodropError::UnexpectedEof);
                    }
                    let o = (compressed[cursor] as usize) + 256 * (compressed[cursor + 1] as usize);
                    cursor = cursor + 2;
                    o
                },
                OffsetMode::Offset24 => {
                    if n - cursor < 3 {
                        return Err(CodropError::UnexpectedEof);
                    }
                    let o = (compressed[cursor] as usize) + 256 * (compressed[cursor + 1] as usize) + 65536 * (
                    compressed[cursor + 2] as usize);
                    cursor = cursor + 3;
                    o
                },
            };
            assert(offset as int == offset_at(src, c4, offset_mode));
            assert(cursor as int == c4 + offset_width(offset_mode));
            if offset == 0 || offset > out.len() {
                return Err(CodropError::InvalidOffset { offset, max_valid: out.len() });
            }
            let start = out.len() - offset;
            let ghost out2 = out@;
            let mut i: usize = 0;
            while i < ml
                invariant
                    i <= ml,
                    start + offset == out2.len(),
                    offset >= 1,
                    out@ == copy_match(out2, offset as int, i as nat),
                    out@.len() == out2.len() + i,
                    out2.len() + ml <= expected_len,
                decreases ml - i,
            {
                let b = out[start + i];
                out.push(b);
                i = i + 1;
            }
            if out.len() == expected_len {
                if cursor == n {
                    return Ok(out);
                } else {
                    return Err(CodropError::CorruptedEntropyStream("trailing bytes after the block end".to_string()));
                }
            }
        }
        Err(CodropError::UnexpectedEof)
    }
}

/// The offset bytes of `d` in mode `m`, little-endian.
pub open spec fn offset_bytes(d: int, m: OffsetMode) -> Seq<u8> {
    match m {
        OffsetMode::Offset16 => seq![(d % 256) as u8, ((d / 256) % 256) as u8],
        OffsetMode::Offset24 => seq![(d % 256) as u8, ((d / 256) % 256) as u8, ((d / 65536) % 256) as u8],
    }
}

/// Literal-length nibble of `len`.
pub open spec fn lit_nibble(len: int) -> int {
    if len < 15 { len } else { 15 }
}

/// Match-length nibble of `len`.
pub open spec fn match_nibble(len: int) -> int {
    if len < 18 { len - 3 } else { 15 }
}

/// Extension bytes of a literal length, if its nibble is 15.
pub open spec fn lit_ext(lit: Seq<u8>) -> Seq<u8> {
    if lit.len() >= 15 { ext_bytes((lit.len() - 15) as nat) } else { Seq::empty() }
}

/// Extension bytes of a match length, if its nibble is 15.
pub open spec fn match_ext(ml: int) -> Seq<u8> {
    if ml >= 18 { ext_bytes((ml - 18) as nat) } else { Seq::empty() }
}

/// `pre` followed by a token carrying the literals `lit` and a match of length `ml` at offset `d`.
pub open spec fn token_after(pre: Seq<u8>, lit: Seq<u8>, ml: int, d: int, m: OffsetMode) -> Seq<u8> {
    pre + seq![(lit_nibble(lit.len() as int) * 16 + match_nibble(ml)) as u8] + lit_ext(lit) + lit + match_ext(ml)
        + offset_bytes(d, m)
}

/// `pre` followed by a final token carrying only the literals `lit`.
pub open spec fn last_token_after(pre: Seq<u8>, lit: Seq<u8>) -> Seq<u8> {
    pre + seq![(lit_nibble(lit.len() as int) * 16) as u8] + lit_ext(lit) + lit
}

proof fn lemma_ext_roundtrip(pre: Seq<u8>, rem: nat, rest: Seq<u8>, acc: int, max: int, long: bool)
    requires
        0 <= acc,
        acc + rem <= max,
        max <= usize::MAX,
    ensures
        ext_len(pre + ext_bytes(rem) + rest, pre.len() as int, acc, max, long) == DecodeStep::<int>::Done(
            acc + rem,
            (pre.len() + ext_bytes(rem).len()) as int,
        ),
    decreases rem,
{
    let src = pre + ext_bytes(rem) + rest;
    if rem < 255 {
        assert(ext_bytes(rem) =~= seq![rem as u8]);
        assert(src[pre.len() as int] == rem as u8);
    } else {
        let pre2 = pre.push(255u8);
        assert(ext_bytes(rem) =~= seq![255u8] + ext_bytes((rem - 255) as nat)) by {
            assert((rem - 255) as nat / 255 == rem / 255 - 1);
            assert((rem - 255) as nat % 255 == rem % 255);
        }
        assert(src =~= pre2 + ext_bytes((rem - 255) as nat) + rest);
        assert(src[pre.len() as int] == 255u8);
        lemma_ext_roundtrip(pre2, (rem - 255) as nat, rest, acc + 255, max, long);
    }
}

/// A literal length `len` written as `encode_literal_length` writes it (the nibble, and for 15
/// or more the extension bytes, between `pre` and whatever follows) reads back with
/// `decode_literal_length` as `len`, the cursor ending right after the extension bytes, under
/// any limit of at least `len`.
pub proof fn law_literal_length_roundtrip(len: nat, pre: Seq<u8>, rest: Seq<u8>, max: int)
    requires
        len <= max <= usize::MAX,
    ensures
        len < 15 ==> spec_literal_length(len as u8, pre + rest, pre.len() as int, max) == DecodeStep::<int>::Done(
            len as int,
            pre.len() as int,
        ),
        len >= 15 ==> spec_literal_length(15, pre + ext_bytes((len - 15) as nat) + rest, pre.len() as int, max)
            == DecodeStep::<int>::Done(len as int, (pre.len() + ext_bytes((len - 15) as nat).len()) as int),
{
    if len >= 15 {
        lemma_ext_roundtrip(pre, (len - 15) as nat, rest, 15, max, true);
    }
}

/// A match length `len` of at least 3 written as `encode_match_length` writes it reads back
/// with `decode_match_length` as `len`, the cursor ending right after the extension bytes,
/// under any limit of at least `len`.
pub proof fn law_match_length_roundtrip(len: nat, pre: Seq<u8>, rest: Seq<u8>, max: int)
    requires
        3 <= len <= max <= usize::MAX,
    ensures
        len < 18 ==> spec_match_length((len - 3) as u8, pre + rest, pre.len() as int, max) == DecodeStep::<int>::Done(
            len as int,
            pre.len() as int,
        ),
        len >= 18 ==> spec_match_length(15, pre + ext_bytes((len - 18) as nat) + rest, pre.len() as int, max)
            == DecodeStep::<int>::Done(len as int, (pre.len() + ext_bytes((len - 18) as nat).len()) as int),
{
    if len >= 18 {
        lemma_ext_roundtrip(pre, (len - 18) as nat, rest, 18, max, false);
    }
}

pub proof fn lemma_copy_match_data(data: Seq<u8>, ip: int, d: int, ml: nat)
    requires
        1 <= d <= ip,
        ip + ml <= data.len(),
        forall|i: int| 0 <= i < ml ==> #[trigger] data[ip + i] == data[ip + i - d],
    ensures
        copy_match(data.take(ip), d, ml) == data.take(ip + ml),
    decreases ml,
{
    if ml > 0 {
        lemma_copy_match_data(data, ip, d, (ml - 1) as nat);
        let o = data.take(ip + ml - 1);
        assert(data[ip + (ml - 1)] == data[ip + (ml - 1) - d]);
        assert(o.push(o[o.len() - d]) =~= data.take(ip + ml));
    }
}

pub proof fn lemma_copy_match_len(out: Seq<u8>, d: int, ml: nat)
    ensures
        copy_match(out, d, ml).len() == out.len() + ml,
    decreases ml,
{
    if ml > 0 {
        lemma_copy_match_len(out, d, (ml - 1) as nat);
    }
}

/// One step of `lzf_from` over a token with literals and a match.
proof fn lemma_lzf_from_step(
    src: Seq<u8>,
    c: int,
    out: Seq<u8>,
    expected: int,
    m: OffsetMode,
    l: int,
    c2: int,
    ml: int,
    c4: int,
)
    requires
        0 <= c < src.len(),
        out.len() < expected,
        c < c2,
        0 <= l,
        0 <= ml,
        spec_literal_length(src[c] / 16, src, c + 1, expected - out.len()) == DecodeStep::<int>::Done(l, c2),
        c2 + l < src.len(),
        out.len() + l < expected,
        spec_match_length(src[c] % 16, src, c2 + l, expected - out.len() - l) == DecodeStep::<int>::Done(ml, c4),
        c4 + offset_width(m) <= src.len(),
        1 <= offset_at(src, c4, m) <= out.len() + l,
        c4 + offset_width(m) > c,
    ensures
        ({
            let out3 = copy_match(out + src.subrange(c2, c2 + l), offset_at(src, c4, m), ml as nat);
            let c5 = c4 + offset_width(m);
            lzf_from(src, c, out, expected, m) == if out3.len() == expected {
                if c5 == src.len() { DecodeStep::Done(out3, c5) } else { DecodeStep::Corrupt }
            } else {
                lzf_from(src, c5, out3, expected, m)
            }
        }),
{
    reveal(lzf_from);
    let out2 = out + src.subrange(c2, c2 + l);
    assert(out2.len() == out.len() + l);
}

/// The literal part of a token emitted by the encoder reads back.
proof fn lemma_token_literals(pre: Seq<u8>, tok: u8, lit: Seq<u8>, tail: Seq<u8>, max_lit: int)
    requires
        tok / 16 == lit_nibble(lit.len() as int),
        lit.len() <= max_lit <= usize::MAX,
    ensures
        ({
            let src = pre + seq![tok] + lit_ext(lit) + lit + tail;
            let c2 = (pre.len() + 1 + lit_ext(lit).len()) as int;
            &&& spec_literal_length(tok / 16, src, (pre.len() + 1) as int, max_lit) == DecodeStep::<int>::Done(
                lit.len() as int,
                c2,
            )
            &&& src.subrange(c2, c2 + lit.len()) == lit
            &&& src[pre.len() as int] == tok
        }),
{
    let src = pre + seq![tok] + lit_ext(lit) + lit + tail;
    let c2 = (pre.len() + 1 + lit_ext(lit).len()) as int;
    if lit.len() >= 15 {
        assert(src =~= (pre + seq![tok]) + ext_bytes((lit.len() - 15) as nat) + (lit + tail));
        lemma_ext_roundtrip(pre + seq![tok], (lit.len() - 15) as nat, lit + tail, 15, max_lit, true);
    }
    assert(src.subrange(c2, c2 + lit.len()) =~= lit);
}

/// The match part of a token emitted by the encoder reads back.
proof fn lemma_token_match(head: Seq<u8>, tok: u8, ml: int, d: int, m: OffsetMode, tail: Seq<u8>, max_m: int)
    requires
        tok % 16 == match_nibble(ml),
        3 <= ml <= max_m <= usize::MAX,
        1 <= d <= offset_limit(m),
    ensures
        ({
            let src = head + match_ext(ml) + offset_bytes(d, m) + tail;
            let c4 = (head.len() + match_ext(ml).len()) as int;
            &&& spec_match_length(tok % 16, src, head.len() as int, max_m) == DecodeStep::<int>::Done(ml, c4)
            &&& c4 + offset_width(m) <= src.len()
            &&& offset_at(src, c4, m) == d
        }),
{
    let ob = offset_bytes(d, m);
    let src = head + match_ext(ml) + ob + tail;
    let c4 = (head.len() + match_ext(ml).len()) as int;
    if ml >= 18 {
        assert(src =~= head + ext_bytes((ml - 18) as nat) + (ob + tail));
        lemma_ext_roundtrip(head, (ml - 18) as nat, ob + tail, 18, max_m, false);
    }
    match m {
        OffsetMode::Offset16 => {
            assert(src[c4] == ob[0] && src[c4 + 1] == ob[1]);
        },
        OffsetMode::Offset24 => {
            assert(src[c4] == ob[0] && src[c4 + 1] == ob[1] && src[c4 + 2] == ob[2]);
        },
    }
}

/// Decoding one token emitted by the encoder.
#[verifier::spinoff_prover]
proof fn lemma_lzf_token(
    pre: Seq<u8>,
    rest: Seq<u8>,
    out: Seq<u8>,
    expected: int,
    m: OffsetMode,
    lit: Seq<u8>,
    ml: int,
    d: int,
)
    requires
        ml >= 3,
        1 <= d <= out.len() + lit.len(),
        d <= offset_limit(m),
        out.len() + lit.len() + ml <= expected,
        expected <= usize::MAX,
        out.len() + lit.len() + ml == expected ==> rest.len() == 0,
    ensures
        ({
            let t = token_after(pre, lit, ml, d, m);
            let out3 = copy_match(out + lit, d, ml as nat);
            lzf_from(t + rest, pre.len() as int, out, expected, m) == if out3.len() == expected {
                DecodeStep::Done(out3, (t + rest).len() as int)
            } else {
                lzf_from(t + rest, t.len() as int, out3, expected, m)
            }
        }),
{
    let tok = (lit_nibble(lit.len() as int) * 16 + match_nibble(ml)) as u8;
    let head = pre + seq![tok] + lit_ext(lit) + lit;
    let src = head + match_ext(ml) + offset_bytes(d, m) + rest;
    assert(token_after(pre, lit, ml, d, m) + rest == src);
    assert(tok / 16 == lit_nibble(lit.len() as int) && tok % 16 == match_nibble(ml));
    let max_lit = expected - out.len();
    assert(src =~= pre + seq![tok] + lit_ext(lit) + lit + (match_ext(ml) + offset_bytes(d, m) + rest));
    lemma_token_literals(pre, tok, lit, match_ext(ml) + offset_bytes(d, m) + rest, max_lit);
    let c2 = (pre.len() + 1 + lit_ext(lit).len()) as int;
    let max_m = expected - out.len() - lit.len();
    lemma_token_match(head, tok, ml, d, m, rest, max_m);
    let c4 = (head.len() + match_ext(ml).len()) as int;
    lemma_copy_match_len(out + lit, d, ml as nat);
    lemma_lzf_from_step(src, pre.len() as int, out, expected, m, lit.len() as int, c2, ml, c4);
}

/// Decoding the final literal token emitted by the encoder.
proof fn lemma_lzf_last(pre: Seq<u8>, out: Seq<u8>, expected: int, m: OffsetMode, lit: Seq<u8>)
    requires
        lit.len() >= 1,
        out.len() + lit.len() == expected,
        expected <= usize::MAX,
    ensures
        lzf_from(last_token_after(pre, lit), pre.len() as int, out, expected, m) == DecodeStep::Done(
            out + lit,
            last_token_after(pre, lit).len() as int,
        ),
{
    reveal(lzf_from);
    let tok = (lit_nibble(lit.len() as int) * 16) as u8;
    let src = last_token_after(pre, lit);
    assert(tok / 16 == lit_nibble(lit.len() as int));
    assert(src =~= pre + seq![tok] + lit_ext(lit) + lit + Seq::empty());
    lemma_token_literals(pre, tok, lit, Seq::empty(), expected - out.len());
}

/// The four bytes at `i` as a little-endian `u32`.
pub open spec fn spec_word4(data: Seq<u8>, i: int) -> u32 {
    (data[i] as u32) | ((data[i + 1] as u32) << 8) | ((data[i + 2] as u32) << 16) | ((data[i + 3] as u32) << 24)
}

/// The match finder's hash-table slot for the four bytes at `i`: the top 14 bits of the
/// word's 32-bit product with `0x9E3779B1`.
pub open spec fn spec_hash4(data: Seq<u8>, i: int) -> int {
    ((vstd::wrapping::u32_specs::wrapping_mul(spec_word4(data, i), 0x9E37_79B1) >> 18) & HASH_MASK) as int
}

/// Hash of the four bytes at `i`, for the match finder.
pub(crate) fn hash4(data: &[u8], i: usize) -> (r: usize)
    requires
        i + 4 <= data@.len(),
    ensures
        r < HASH_SIZE,
        r == spec_hash4(data@, i as int),
{
    let v: u32 = (data[i] as u32) | ((data[i + 1] as u32) << 8) | ((data[i + 2] as u32) << 16) | ((data[i + 3] as u32) << 24);
    let h = v.wrapping_mul(0x9E37_79B1);
    let r = (h >> 18) & HASH_MASK;
    assert(r < 16384) by (bit_vector)
        requires
            r == (h >> 18) & 0x3FFF;
    r as usize
}

/// Append the token for the literals `data[anchor..ip]` and a match of `ml` at offset `d`.
fn emit_token(out: &mut Vec<u8>, data: &[u8], anchor: usize, ip: usize, ml: usize, d: usize, m: OffsetMode)
    requires
        anchor <= ip <= data@.len(),
        ml >= 3,
        1 <= d <= offset_limit(m),
    ensures
        final(out)@ == token_after(old(out)@, data@.subrange(anchor as int, ip as int), ml as int, d as int, m),
{
    let ghost lit = data@.subrange(anchor as int, ip as int);
    let lit_len = ip - anchor;
    let ln: u8 = if lit_len < 15 { lit_len as u8 } else { 15 };
    let mn: u8 = if ml < 18 { (ml - 3) as u8 } else { 15 };
    assert((ln << 4u8) | mn == ln * 16 + mn) by (bit_vector)
        requires
            ln <= 15,
            mn <= 15;
    let ghost b0 = old(out)@;
    out.push((ln << 4) | mn);
    let ghost b1 = out@;
    assert(b1 =~= b0 + seq![(ln * 16 + mn) as u8]);
    if ln == 15 {
        append_ext(out, lit_len - 15);
    } else {
        assert(out@ =~= b1 + Seq::<u8>::empty());
    }
    let ghost b2 = out@;
    assert(b2 == b1 + lit_ext(lit));
    append_range(out, data, anchor, ip);
    let ghost b3 = out@;
    if mn == 15 {
        append_ext(out, ml - 18);
    } else {
        assert(out@ =~= b3 + Seq::<u8>::empty());
    }
    let ghost b4 = out@;
    assert(b4 == b3 + match_ext(ml as int));
    match m {
        OffsetMode::Offset16 => {
            out.push((d % 256) as u8);
            out.push(((d / 256) % 256) as u8);
        },
        OffsetMode::Offset24 => {
            out.push((d % 256) as u8);
            out.push(((d / 256) % 256) as u8);
            out.push(((d / 65536) % 256) as u8);
        },
    }
    assert(out@ =~= b4 + offset_bytes(d as int, m));
}

/// Append the final token for the literals `data[anchor..]`.
fn emit_last(out: &mut Vec<u8>, data: &[u8], anchor: usize)
    requires
        anchor <= data@.len(),
    ensures
        final(out)@ == last_token_after(old(out)@, data@.subrange(anchor as int, data@.len() as int)),
{
    let ghost lit = data@.subrange(anchor as int, data@.len() as int);
    let lit_len = data.len() - anchor;
    let ln: u8 = if lit_len < 15 { lit_len as u8 } else { 15 };
    assert(ln << 4u8 == ln * 16) by (bit_vector)
        requires
            ln <= 15;
    let ghost b0 = old(out)@;
    out.push(ln << 4);
    let ghost b1 = out@;
    assert(b1 =~= b0 + seq![(ln * 16) as u8]);
    if ln == 15 {
        append_ext(out, lit_len - 15);
    } else {
        assert(out@ =~= b1 + Seq::<u8>::empty());
    }
    assert(out@ == b1 + lit_ext(lit));
    append_range(out, data, anchor, data.len());
}

/// How far the bytes from `i` repeat those from `r`, counting from `k`: the first `k' >= k`
/// at which they differ or the data ends.
pub open spec fn match_extent(data: Seq<u8>, r: int, i: int, k: int) -> int
    decreases data.len() - i - k,
{
    if 0 <= r && 0 <= k && i + k < data.len() && data[r + k] == data[i + k] {
        match_extent(data, r, i, k + 1)
    } else {
        k
    }
}

/// A match extent lies between its starting count and the end of the data.
pub proof fn lemma_match_extent_bounds(data: Seq<u8>, r: int, i: int, k: int)
    requires
        0 <= k,
        i + k <= data.len(),
    ensures
        k <= match_extent(data, r, i, k) <= data.len() - i,
    decreases data.len() - i - k,
{
    if 0 <= r && i + k < data.len() && data[r + k] == data[i + k] {
        lemma_match_extent_bounds(data, r, i, k + 1);
    }
}

/// A match candidate at `ip` from the hash-table entry `prev` (a position plus one, 0 for
/// none): earlier, within the offset range, and agreeing on three bytes.
pub open spec fn match_found(data: Seq<u8>, m: OffsetMode, ip: int, prev: u32) -> bool {
    let r = prev - 1;
    &&& prev != 0
    &&& r < ip
    &&& ip - r <= offset_limit(m)
    &&& data[r] == data[ip]
    &&& data[r + 1] == data[ip + 1]
    &&& data[r + 2] == data[ip + 2]
}

/// The encoder's output from position `ip` on, with the literals from `anchor` pending, the
/// hash table `table` (each slot the last position plus one whose four bytes hashed there, or
/// 0) and the bytes `out` already emitted. At each position with four bytes left it records the
/// position in the table; when the slot's previous position starts a match it emits the pending
/// literals and the longest match from there and jumps past it, else it moves one byte on.
/// The remaining literals end the output.
#[verifier::opaque]
pub open spec fn lzf_enc_from(data: Seq<u8>, m: OffsetMode, ip: int, anchor: int, table: Seq<u32>, out: Seq<u8>) -> Seq<u8>
    decreases data.len() - ip,
{
    if 0 <= ip && ip + 4 <= data.len() {
        let h = spec_hash4(data, ip);
        let prev = table[h];
        let t2 = table.update(h, (ip + 1) as u32);
        if match_found(data, m, ip, prev) {
            let r = prev - 1;
            let ml = match_extent(data, r, ip, 3);
            proof {
                lemma_match_extent_bounds(data, r, ip, 3);
            }
            lzf_enc_from(data, m, ip + ml, ip + ml, t2, token_after(out, data.subrange(anchor, ip), ml, ip - r, m))
        } else {
            lzf_enc_from(data, m, ip + 1, anchor, t2, out)
        }
    } else if 0 <= anchor < data.len() {
        last_token_after(out, data.subrange(anchor, data.len() as int))
    } else {
        out
    }
}

/// One step of the encoder at a position with four bytes left.
proof fn lemma_enc_step(data: Seq<u8>, m: OffsetMode, ip: int, anchor: int, table: Seq<u32>, out: Seq<u8>)
    requires
        0 <= ip,
        ip + 4 <= data.len(),
    ensures
        ({
            let h = spec_hash4(data, ip);
            let prev = table[h];
            let t2 = table.update(h, (ip + 1) as u32);
            let r = prev - 1;
            let ml = match_extent(data, r, ip, 3);
            lzf_enc_from(data, m, ip, anchor, table, out) == if match_found(data, m, ip, prev) {
                lzf_enc_from(data, m, ip + ml, ip + ml, t2, token_after(out, data.subrange(anchor, ip), ml, ip - r, m))
            } else {
                lzf_enc_from(data, m, ip + 1, anchor, t2, out)
            }
        }),
{
    reveal(lzf_enc_from);
}

/// Where fewer than four bytes are left, the encoder ends with the pending literals.
proof fn lemma_enc_end(data: Seq<u8>, m: OffsetMode, ip: int, anchor: int, table: Seq<u32>, out: Seq<u8>)
    requires
        0 <= ip,
        ip + 4 > data.len(),
    ensures
        lzf_enc_from(data, m, ip, anchor, table, out) == if 0 <= anchor < data.len() {
            last_token_after(out, data.subrange(anchor, data.len() as int))
        } else {
            out
        },
{
    reveal(lzf_enc_from);
}

/// The LZF coding of `data` with offsets in mode `m`.
pub open spec fn spec_lzf_encode(data: Seq<u8>, m: OffsetMode) -> Seq<u8> {
    lzf_enc_from(data, m, 0, 0, Seq::new(HASH_SIZE as nat, |i: int| 0u32), Seq::empty())
}

/// `out` decodes, from its start, to the same as from its end with `data[..anchor]` decoded,
/// whatever follows it.
pub open spec fn lzf_prefix_ok(out: Seq<u8>, data: Seq<u8>, anchor: int, m: OffsetMode) -> bool {
    forall|rest: Seq<u8>| #![trigger out + rest]
        lzf_from(out + rest, 0, Seq::empty(), data.len() as int, m)
            == lzf_from(out + rest, out.len() as int, data.take(anchor), data.len() as int, m)
}

impl LzfCodec {
    /// Encode with 16-bit match offsets.
    pub fn encode(data: &[u8]) -> (r: Vec<u8>)
        ensures
            r@ == spec_lzf_encode(data@, OffsetMode::Offset16),
            spec_lzf_decode(r@, data@.len() as int, OffsetMode::Offset16) matches DecodeStep::Done(d, _) && d == data@,
            data@.len() == 0 ==> r@.len() == 0,
    {
        Self::encode_with_offset_mode(data, OffsetMode::Offset16)
    }

    /// Encode with the given offset width. The output is `spec_lzf_encode`'s, and it decodes
    /// back to `data`.
    pub fn encode_with_offset_mode(data: &[u8], offset_mode: OffsetMode) -> (r: Vec<u8>)
        ensures
            r@ == spec_lzf_encode(data@, offset_mode),
            spec_lzf_decode(r@, data@.len() as int, offset_mode) matches DecodeStep::Done(d, _) && d == data@,
            data@.len() == 0 ==> r@.len() == 0,
    {
        let n = data.len();
        let mut out: Vec<u8> = Vec::new();
        if n == 0 {
            proof {
                lemma_enc_end(data@, offset_mode, 0, 0, Seq::new(HASH_SIZE as nat, |i: int| 0u32), Seq::empty());
            }
            return out;
        }
        let max_offset = match offset_mode {
            OffsetMode::Offset16 => MAX_OFFSET_16,
            OffsetMode::Offset24 => MAX_OFFSET_24,
        };
        if n < 4 {
            proof {
                lemma_enc_end(data@, offset_mode, 0, 0, Seq::new(HASH_SIZE as nat, |i: int| 0u32), Seq::empty());
            }
            emit_last(&mut out, data, 0);
            proof {
                lemma_lzf_last(Seq::empty(), Seq::empty(), n as int, offset_mode, data@.subrange(0, n as int));
                assert(Seq::<u8>::empty() + data@.subrange(0, n as int) =~= data@);
            }
            return out;
        }
        let mut table: Vec<u32> = Vec::new();
        let mut q: usize = 0;
        while q < HASH_SIZE
            invariant
                q <= HASH_SIZE,
                table@.len() == q,
                forall|j: int| 0 <= j < q ==> #[trigger] table@[j] == 0u32,
            decreases HASH_SIZE - q,
        {
            table.push(0);
            q = q + 1;
        }
        let mut ip: usize = 0;
        let mut anchor: usize = 0;
        assert(table@ =~= Seq::new(HASH_SIZE as nat, |i: int| 0u32));
        let ghost target = spec_lzf_encode(data@, offset_mode);
        proof {
            assert forall|rest: Seq<u8>| #![trigger out@ + rest]
                lzf_from(out@ + rest, 0, Seq::empty(), n as int, offset_mode)
                    == lzf_from(out@ + rest, out@.len() as int, data@.take(0), n as int, offset_mode) by {
                assert(data@.take(0) =~= Seq::<u8>::empty());
            }
        }
        while n - ip >= 4
            invariant
                n == data@.len(),
                n >= 4,
                anchor <= ip <= n,
                anchor < n,
                table@.len() == HASH_SIZE,
                max_offset == offset_limit(offset_mode),
                lzf_prefix_ok(out@, data@, anchor as int, offset_mode),
                target == spec_lzf_encode(data@, offset_mode),
                lzf_enc_from(data@, offset_mode, ip as int, anchor as int, table@, out@) == target,
            decreases n - ip,
        {
            let ghost st = table@;
            let ghost out0 = out@;
            let ghost ip0 = ip as int;
            let ghost anchor0 = anchor as int;
            proof {
                lemma_enc_step(data@, offset_mode, ip0, anchor0, st, out0);
            }
            let h = hash4(data, ip);
            let prev = table[h];
            table.set(h, #[verifier::truncate] ((ip + 1) as u32));
            assert(table@ == st.update(h as int, (ip0 + 1) as u32));
            let mut matched = false;
            if prev != 0 {
                let ref_pos = (prev - 1) as usize;
                if ref_pos < ip && ip - ref_pos <= max_offset && data[ref_pos] == data[ip] && data[ref_pos + 1]
                    == data[ip + 1] && data[ref_pos + 2] == data[ip + 2] {
                    let dist = ip - ref_pos;
                    let mut ml: usize = 3;
                    while ip + ml < n && data[ref_pos + ml] == data[ip + ml]
                        invariant
                            ref_pos < ip,
                            ip + 3 <= n,
                            3 <= ml,
                            ip + ml <= n,
                            n == data@.len(),
                            dist == ip - ref_pos,
                            forall|i: int| 0 <= i < ml ==> #[trigger] data@[ip + i] == data@[ip + i - dist],
                            match_extent(data@, ref_pos as int, ip as int, ml as int) == match_extent(
                                data@,
                                ref_pos as int,
                                ip as int,
                                3,
                            ),
                        decreases n - ip - ml,
                    {
                        ml = ml + 1;
                    }
                    assert(match_found(data@, offset_mode, ip0, prev));
                    assert(ml == match_extent(data@, ref_pos as int, ip as int, 3));
                    let ghost before = out@;
                    emit_token(&mut out, data, anchor, ip, ml, dist, offset_mode);
                    proof {
                        let lit = data@.subrange(anchor as int, ip as int);
                        let tail = out@.subrange(before.len() as int, out@.len() as int);
                        assert(out@.subrange(0, before.len() as int) =~= before);
                        assert(data@.take(anchor as int) + lit =~= data@.take(ip as int));
                        lemma_copy_match_data(data@, ip as int, dist as int, ml as nat);
                        if ip + ml < n {
                            assert forall|rest: Seq<u8>| #![trigger out@ + rest]
                                lzf_from(out@ + rest, 0, Seq::empty(), n as int, offset_mode)
                                    == lzf_from(out@ + rest, out@.len() as int, data@.take(ip + ml), n as int, offset_mode) by {
                                assert(before + (tail + rest) =~= out@ + rest);
                                lemma_lzf_token(before, rest, data@.take(anchor as int), n as int, offset_mode, lit, ml as int, dist as int);
                            }
                        } else {
                            assert(before + (tail + Seq::<u8>::empty()) =~= out@ + Seq::<u8>::empty());
                            lemma_lzf_token(before, Seq::empty(), data@.take(anchor as int), n as int, offset_mode, lit, ml as int, dist as int);
                            assert(data@.take(ip + ml) =~= data@);
                            assert(out@ + Seq::<u8>::empty() =~= out@);
                            assert(spec_lzf_decode(out@, n as int, offset_mode) == DecodeStep::Done(data@, out@.len() as int));
                        }
                    }
                    ip = ip + ml;
                    anchor = ip;
                    matched = true;
                    if ip == n {
                        proof {
                            lemma_enc_end(data@, offset_mode, n as int, n as int, table@, out@);
                        }
                        return out;
                    }
                }
            }
            if !matched {
                ip = ip + 1;
            }
        }
        let ghost before = out@;
        proof {
            lemma_enc_end(data@, offset_mode, ip as int, anchor as int, table@, out@);
        }
        emit_last(&mut out, data, anchor);
        proof {
            let lit = data@.subrange(anchor as int, n as int);
            let tail = out@.subrange(before.len() as int, out@.len() as int);
            assert(out@.subrange(0, before.len() as int) =~= before);
            assert(before + tail =~= out@);
            assert(lzf_from(before + tail, 0, Seq::empty(), n as int, offset_mode) == lzf_from(before + tail,
                before.len() as int, data@.take(anchor as int), n as int, offset_mode));
            lemma_lzf_last(before, data@.take(anchor as int), n as int, offset_mode, lit);
            assert(data@.take(anchor as int) + lit =~= data@);
        }
        out
    }
}

} // verus!
