//! Block headers of the `.cdp` container.
use vstd::prelude::*;

use crate::checksum::crc32c::{spec_crc32c, Crc32c};
use crate::error::CodropError;
use crate::le_bytes::{le16, le16_val, le32, le32_val, lemma_le16_roundtrip, lemma_le32_roundtrip, read_u16_le, read_u32_le, write_u16_le, write_u32_le};
use crate::varint::{leb_enc_u32, leb_read_u32, lemma_leb_read_u32_enc, lemma_leb_read_u32_local, read_leb_u32, write_leb_u32, LebRead};

verus! {

/// Block type codes of the `.cdp` container (3 bits).
#[derive(Debug, Clone, Copy, PartialEq, Eq, Structural)]
pub enum BlockType {
    Raw,
    Rle,
    Lzf,
    Lzh,
    Lza,
    TextPrefilter,
    ReservedCustom,
    EndOfStream,
}

/// The 3-bit code of a block type.
pub open spec fn spec_block_type_code(t: BlockType) -> u8 {
    match t {
        BlockType::Raw => 0,
        BlockType::Rle => 1,
        BlockType::Lzf => 2,
        BlockType::Lzh => 3,
        BlockType::Lza => 4,
        BlockType::TextPrefilter => 5,
        BlockType::ReservedCustom => 6,
        BlockType::EndOfStream => 7,
    }
}

/// The block type of a code below 8.
pub open spec fn spec_block_type_of(c: u8) -> BlockType {
    if c == 0 {
        BlockType::Raw
    } else if c == 1 {
        BlockType::Rle
    } else if c == 2 {
        BlockType::Lzf
    } else if c == 3 {
        BlockType::Lzh
    } else if c == 4 {
        BlockType::Lza
    } else if c == 5 {
        BlockType::TextPrefilter
    } else if c == 6 {
        BlockType::ReservedCustom
    } else {
        BlockType::EndOfStream
    }
}

impl BlockType {
    /// The 3-bit code of this block type.
    pub fn code(&self) -> (r: u8)
        ensures
            r == spec_block_type_code(*self),
    {
        match self {
            BlockType::Raw => 0,
            BlockType::Rle => 1,
            BlockType::Lzf => 2,
            BlockType::Lzh => 3,
            BlockType::Lza => 4,
            BlockType::TextPrefilter => 5,
            BlockType::ReservedCustom => 6,
            BlockType::EndOfStream => 7,
        }
    }

    /// The block type with code `val`; codes above 7 are invalid.
    pub fn from_code(val: u8) -> (r: Result<BlockType, CodropError>)
        ensures
            val < 8 ==> r == Ok::<BlockType, CodropError>(spec_block_type_of(val)),
            val >= 8 ==> r == Err::<BlockType, CodropError>(CodropError::InvalidBlockType(val)),
    {
        if val == 0 {
            Ok(BlockType::Raw)
        } else if val == 1 {
            Ok(BlockType::Rle)
        } else if val == 2 {
            Ok(BlockType::Lzf)
        } else if val == 3 {
            Ok(BlockType::Lzh)
        } else if val == 4 {
            Ok(BlockType::Lza)
        } else if val == 5 {
            Ok(BlockType::TextPrefilter)
        } else if val == 6 {
            Ok(BlockType::ReservedCustom)
        } else if val == 7 {
            Ok(BlockType::EndOfStream)
        } else {
            Err(CodropError::InvalidBlockType(val))
        }
    }
}

/// Header of one block.
#[derive(Debug, Clone, PartialEq, Eq)]
pub struct BlockHeader {
    pub block_type: BlockType,
    pub has_checksum: bool,
    pub is_last: bool,
    pub compressed_size: u32,
    pub uncompressed_size: u32,
    pub checksum: Option<u32>,
}

/// Outcome of parsing a structure at the front of a byte sequence.
pub enum Parse<T> {
    /// The structure and the number of bytes it occupied.
    Done(T, nat),
    /// The bytes ended before the structure was complete.
    Eof,
    /// The bytes hold a malformed structure.
    Corrupt,
}

/// First byte of a block header.
pub open spec fn spec_block_byte0(h: BlockHeader) -> u8 {
    spec_block_type_code(h.block_type) | (if h.has_checksum { 8u8 } else { 0u8 }) | (if h.is_last { 16u8 } else { 0u8 })
}

/// Bytes of the compressed-size field.
pub open spec fn spec_csize_bytes(c: u32) -> Seq<u8> {
    if c < 0xFFFF {
        le16(c as u16)
    } else {
        le16(0xFFFFu16) + le32(c)
    }
}

/// Serialized form of a block header.
pub open spec fn spec_block_header_bytes(h: BlockHeader) -> Seq<u8> {
    if h.block_type == BlockType::EndOfStream {
        seq![spec_block_byte0(h)]
    } else {
        seq![spec_block_byte0(h)] + spec_csize_bytes(h.compressed_size) + leb_enc_u32(h.uncompressed_size) + (if h.has_checksum {
            le32(
                match h.checksum {
                    Some(c) => c,
                    None => 0u32,
                },
            )
        } else {
            Seq::<u8>::empty()
        })
    }
}

/// A block header takes at most 16 bytes: the type byte, two or six size bytes, at most five
/// bytes of uncompressed size and four checksum bytes.
pub proof fn lemma_block_header_bytes_len(h: BlockHeader)
    ensures
        spec_block_header_bytes(h).len() <= 16,
{
    crate::varint::lemma_leb_enc_u32_len(h.uncompressed_size);
}

/// The end-of-stream header.
pub open spec fn spec_end_of_stream() -> BlockHeader {
    BlockHeader {
        block_type: BlockType::EndOfStream,
        has_checksum: false,
        is_last: true,
        compressed_size: 0,
        uncompressed_size: 0,
        checksum: None,
    }
}

/// Parse of the compressed-size field: value and length.
pub open spec fn spec_read_csize(s: Seq<u8>) -> Option<(u32, nat)> {
    if s.len() < 2 {
        None
    } else if le16_val(s) < 0xFFFF {
        Some((le16_val(s) as u32, 2))
    } else if s.len() < 6 {
        None
    } else {
        Some((le32_val(s.skip(2)), 6))
    }
}

/// Parse of a block header at the front of `s`.
pub open spec fn spec_read_block_header(s: Seq<u8>) -> Parse<BlockHeader> {
    if s.len() < 1 {
        Parse::Eof
    } else {
        let b0 = s[0];
        let t = spec_block_type_of(b0 & 7);
        let cs = b0 & 8 != 0;
        let last = b0 & 16 != 0;
        if t == BlockType::EndOfStream {
            Parse::Done(spec_end_of_stream(), 1)
        } else {
            match spec_read_csize(s.skip(1)) {
                None => Parse::Eof,
                Some((csize, n1)) => {
                    let p = 1 + n1;
                    match leb_read_u32(s.skip(p as int)) {
                        LebRead::Truncated => Parse::Eof,
                        LebRead::TooLong => Parse::Corrupt,
                        LebRead::Value(usize_v, n2) => {
                            let q = p + n2 as int;
                            if cs && s.len() < q + 4 {
                                Parse::Eof
                            } else {
                                let h = BlockHeader {
                                    block_type: t,
                                    has_checksum: cs,
                                    is_last: last,
                                    compressed_size: csize,
                                    uncompressed_size: usize_v,
                                    checksum: if cs { Some(le32_val(s.skip(q))) } else { None },
                                };
                                Parse::Done(h, (if cs { q + 4 } else { q }) as nat)
                            }
                        },
                    }
                },
            }
        }
    }
}

/// A header that reads back to itself: an end-of-stream header carries no other information, and a
/// checksum is present exactly when announced.
pub open spec fn block_header_canonical(h: BlockHeader) -> bool {
    if h.block_type == BlockType::EndOfStream {
        h == spec_end_of_stream()
    } else {
        h.has_checksum == (h.checksum is Some)
    }
}

impl BlockHeader {
    /// The header that terminates a stream.
    pub fn end_of_stream() -> (r: Self)
        ensures
            r == spec_end_of_stream(),
    {
        Self {
            block_type: BlockType::EndOfStream,
            has_checksum: false,
            is_last: true,
            compressed_size: 0,
            uncompressed_size: 0,
            checksum: None,
        }
    }

    /// Append the serialized header to `out`; returns the number of bytes written.
    pub fn write_to(&self, out: &mut Vec<u8>) -> (r: usize)
        ensures
            final(out)@ == old(out)@ + spec_block_header_bytes(*self),
            r == spec_block_header_bytes(*self).len(),
    {
        let ghost start = out@;
        let old_len = out.len();
        let code = self.block_type.code();
        let a: u8 = if self.has_checksum { 8 } else { 0 };
        let b: u8 = if self.is_last { 16 } else { 0 };
        let byte0: u8 = (code & 0x07) | a | b;
        proof {
            assert(code < 8);
            assert((code & 7) | a | b == code | a | b) by (bit_vector)
                requires code < 8;
        }
        out.push(byte0);
        if self.block_type == BlockType::EndOfStream {
            return 1;
        }
        if self.compressed_size < 0xFFFF {
            write_u16_le(out, self.compressed_size as u16);
        } else {
            write_u16_le(out, 0xFFFF);
            write_u32_le(out, self.compressed_size);
        }
        write_leb_u32(out, self.uncompressed_size);
        if self.has_checksum {
            let chk = match self.checksum {
                Some(c) => c,
                None => 0,
            };
            write_u32_le(out, chk);
        }
        proof {
            let cb = spec_csize_bytes(self.compressed_size);
            let lb = leb_enc_u32(self.uncompressed_size);
            let kb = if self.has_checksum { le32(match self.checksum { Some(c) => c, None => 0u32 }) } else { Seq::<u8>::empty() };
            assert(out@ =~= start + seq![byte0] + cb + lb + kb);
            assert(spec_block_header_bytes(*self) =~= seq![byte0] + cb + lb + kb);
        }
        out.len() - old_len
    }

    /// Parse a block header at `input[*cursor..]`, advancing the cursor past it.
    pub fn read_from(input: &[u8], cursor: &mut usize) -> (r: Result<Self, CodropError>)
        requires
            *old(cursor) <= input@.len(),
        ensures
            match spec_read_block_header(input@.skip(*old(cursor) as int)) {
                Parse::Done(h, n) => r == Ok::<BlockHeader, CodropError>(h) && *final(cursor) == *old(cursor) + n,
                Parse::Eof => r == Err::<BlockHeader, CodropError>(CodropError::UnexpectedEof),
                Parse::Corrupt => r matches Err(CodropError::CorruptedHeader(_)),
            },
            *final(cursor) <= input@.len(),
    {
        let pos = *cursor;
        let ghost s = input@.skip(pos as int);
        if pos >= input.len() {
            return Err(CodropError::UnexpectedEof);
        }
        let b0 = input[pos];
        let block_type = match BlockType::from_code(b0 & 0x07) {
            Ok(t) => t,
            Err(e) => {
                proof {
                    assert(b0 & 0x07 < 8) by (bit_vector);
                }
                return Err(e);
            },
        };
        let has_checksum = (b0 & 8) != 0;
        let is_last = (b0 & 16) != 0;
        if block_type == BlockType::EndOfStream {
            *cursor = pos + 1;
            return Ok(Self::end_of_stream());
        }
        let mut p = pos + 1;
        if input.len() - p < 2 {
            return Err(CodropError::UnexpectedEof);
        }
        let c16 = read_u16_le(input, p);
        assert(s.skip(1) =~= input@.skip(p as int));
        let compressed_size: u32;
        if c16 < 0xFFFF {
            compressed_size = c16 as u32;
            p = p + 2;
        } else {
            if input.len() - p < 6 {
                return Err(CodropError::UnexpectedEof);
            }
            compressed_size = read_u32_le(input, p + 2);
            assert(s.skip(1).skip(2) =~= input@.skip(p + 2));
            p = p + 6;
        }
        assert(s.skip(p - pos) =~= input@.skip(p as int));
        let uncompressed_size: u32;
        match read_leb_u32(input, p) {
            LebRead::Value(v, n) => {
                uncompressed_size = v;
                p = p + n;
            },
            LebRead::Truncated => {
                return Err(CodropError::UnexpectedEof);
            },
            LebRead::TooLong => {
                return Err(CodropError::CorruptedHeader("ULEB128 overflow in block uncompressed size".to_string()));
            },
        }
        let checksum = if has_checksum {
            if input.len() - p < 4 {
                return Err(CodropError::UnexpectedEof);
            }
            let c = read_u32_le(input, p);
            assert(s.skip(p - pos) =~= input@.skip(p as int));
            p = p + 4;
            Some(c)
        } else {
            None
        };
        *cursor = p;
        Ok(Self { block_type, has_checksum, is_last, compressed_size, uncompressed_size, checksum })
    }

    /// Check a decoded block against the header's CRC-32C, when the header carries one.
    pub fn verify_checksum(&self, decompressed_data: &[u8]) -> (r: Result<(), CodropError>)
        ensures
            !self.has_checksum ==> r == Ok::<(), CodropError>(()),
            self.has_checksum && self.checksum is None ==> r matches Err(CodropError::CorruptedHeader(_)),
            self.has_checksum && self.checksum is Some ==> (
                if self.checksum->0 == spec_crc32c(decompressed_data@) {
                    r == Ok::<(), CodropError>(())
                } else {
                    r == Err::<(), CodropError>(CodropError::BlockChecksumMismatch {
                        expected: self.checksum->0,
                        actual: spec_crc32c(decompressed_data@),
                    })
                }
            ),
    {
        if self.has_checksum {
            let expected = match self.checksum {
                Some(c) => c,
                None => {
                    return Err(CodropError::CorruptedHeader("Missing block checksum".to_string()));
                },
            };
            let actual = Crc32c::compute(decompressed_data);
            if expected != actual {
                return Err(CodropError::BlockChecksumMismatch { expected, actual });
            }
        }
        Ok(())
    }
}

/// Reading back a written block header gives the header, and consumes exactly its bytes.
proof fn lemma_byte0_fields(h: BlockHeader)
    ensures
        spec_block_type_of(spec_block_byte0(h) & 7) == h.block_type,
        (spec_block_byte0(h) & 8 != 0) == h.has_checksum,
        (spec_block_byte0(h) & 16 != 0) == h.is_last,
{
    let c = spec_block_type_code(h.block_type);
    let a = if h.has_checksum { 8u8 } else { 0u8 };
    let b = if h.is_last { 16u8 } else { 0u8 };
    let b0 = spec_block_byte0(h);
    assert(b0 == c | a | b);
    assert(c < 8);
    assert((b0 & 7) == c && ((b0 & 8 != 0) == (a == 8)) && ((b0 & 16 != 0) == (b == 16))) by (bit_vector)
        requires b0 == c | a | b, a == 0 || a == 8, b == 0 || b == 16, c < 8;
}

/// A block header occupies no more bytes than it was read from.
pub proof fn lemma_block_header_fits(t: Seq<u8>)
    ensures
        spec_read_block_header(t) matches Parse::Done(_, n) ==> n <= t.len(),
{
    if t.len() >= 1 && spec_block_type_of(t[0] & 7) != BlockType::EndOfStream {
        match spec_read_csize(t.skip(1)) {
            Some((_, n1)) => {
                let p = 1 + n1;
                crate::varint::lemma_leb_term_bounds(t.skip(p as int));
            },
            None => {},
        }
    }
}

/// A block header reads the same from any bytes that start with those it occupies.
pub proof fn lemma_block_header_local(t: Seq<u8>, s: Seq<u8>)
    requires
        spec_read_block_header(t) matches Parse::Done(_, n) && n <= s.len() && s.take(n as int) == t.take(n as int),
    ensures
        spec_read_block_header(s) == spec_read_block_header(t),
{
    lemma_block_header_fits(t);
    let n = match spec_read_block_header(t) {
        Parse::Done(_, n) => n as int,
        _ => 0,
    };
    assert forall|i: int| 0 <= i < n implies s[i] == t[i] by {
        assert(s.take(n)[i] == t.take(n)[i]);
    }
    assert(s[0] == t[0]);
    let b0 = t[0];
    if spec_block_type_of(b0 & 7) != BlockType::EndOfStream {
        let t1 = t.skip(1);
        let s1 = s.skip(1);
        assert(s1[0] == t1[0] && s1[1] == t1[1]);
        if le16_val(t1) >= 0xFFFF {
            assert(s1.skip(2)[0] == t1.skip(2)[0] && s1.skip(2)[1] == t1.skip(2)[1]);
            assert(s1.skip(2)[2] == t1.skip(2)[2] && s1.skip(2)[3] == t1.skip(2)[3]);
        }
        match spec_read_csize(t1) {
            Some((csize, n1)) => {
                let p = 1 + n1;
                match leb_read_u32(t.skip(p as int)) {
                    LebRead::Value(v, n2) => {
                        let q = p + n2;
                        assert(s.skip(p as int).take(n2 as int) =~= t.skip(p as int).take(n2 as int)) by {
                            assert forall|i: int| 0 <= i < n2 implies s.skip(p as int)[i] == t.skip(p as int)[i] by {
                                assert(s[p + i] == t[p + i]);
                            }
                        }
                        lemma_leb_read_u32_local(t.skip(p as int), s.skip(p as int));
                        if b0 & 8 != 0 {
                            assert(s.skip(q as int)[0] == t.skip(q as int)[0] && s.skip(q as int)[1] == t.skip(q as int)[1]);
                            assert(s.skip(q as int)[2] == t.skip(q as int)[2] && s.skip(q as int)[3] == t.skip(q as int)[3]);
                        }
                    },
                    _ => {},
                }
            },
            None => {},
        }
    }
}

/// No block header reads from fewer bytes than it occupies.
pub proof fn lemma_block_header_prefix(s: Seq<u8>, k: int)
    requires
        spec_read_block_header(s) matches Parse::Done(_, n) && 0 <= k < n,
    ensures
        !(spec_read_block_header(s.take(k)) is Done),
{
    let t = s.take(k);
    lemma_block_header_fits(s);
    if let Parse::Done(_, n2) = spec_read_block_header(t) {
        lemma_block_header_fits(t);
        assert(s.take(n2 as int) =~= t.take(n2 as int));
        lemma_block_header_local(t, s);
    }
}

/// Reading back a written block header gives the header, and consumes exactly its bytes.
#[verifier::rlimit(50)]
pub proof fn law_block_header_roundtrip(h: BlockHeader, rest: Seq<u8>)
    requires
        block_header_canonical(h),
    ensures
        spec_read_block_header(spec_block_header_bytes(h) + rest) == Parse::Done(h, spec_block_header_bytes(h).len()),
{
    let s = spec_block_header_bytes(h) + rest;
    lemma_byte0_fields(h);
    assert(s[0] == spec_block_byte0(h));
    if h.block_type != BlockType::EndOfStream {
        let cb = spec_csize_bytes(h.compressed_size);
        let lb = leb_enc_u32(h.uncompressed_size);
        let kb = if h.has_checksum { le32(h.checksum->0) } else { Seq::<u8>::empty() };
        assert(spec_block_header_bytes(h) =~= seq![spec_block_byte0(h)] + cb + lb + kb);
        assert(s.skip(1) =~= cb + (lb + kb + rest));
        if h.compressed_size < 0xFFFF {
            lemma_le16_roundtrip(h.compressed_size as u16, lb + kb + rest);
            assert(cb.len() == 2);
        } else {
            lemma_le16_roundtrip(0xFFFFu16, le32(h.compressed_size) + (lb + kb + rest));
            assert(s.skip(1) =~= le16(0xFFFFu16) + (le32(h.compressed_size) + (lb + kb + rest)));
            assert(s.skip(1).skip(2) =~= le32(h.compressed_size) + (lb + kb + rest));
            lemma_le32_roundtrip(h.compressed_size, lb + kb + rest);
            assert(cb.len() == 6);
        }
        assert(spec_read_csize(s.skip(1)) == Some((h.compressed_size, cb.len())));
        let p: int = 1 + cb.len() as int;
        assert(s.skip(p) =~= lb + (kb + rest));
        lemma_leb_read_u32_enc(h.uncompressed_size, kb + rest);
        assert(leb_read_u32(s.skip(p)) == LebRead::Value(h.uncompressed_size, lb.len() as usize));
        let q: int = p + lb.len() as int;
        assert(s.skip(q) =~= kb + rest);
        if h.has_checksum {
            lemma_le32_roundtrip(h.checksum->0, rest);
            assert(s.len() >= q + 4);
        }
        let h2 = BlockHeader {
            block_type: h.block_type,
            has_checksum: h.has_checksum,
            is_last: h.is_last,
            compressed_size: h.compressed_size,
            uncompressed_size: h.uncompressed_size,
            checksum: if h.has_checksum { Some(le32_val(s.skip(q))) } else { None },
        };
        assert(h2 == h);
        assert(spec_block_header_bytes(h).len() == q + kb.len());
    }
}

} // verus!
