//! A summary of a `.cdp` stream taken from its headers alone: the stream header, then each
//! block header, skipping the payloads without decoding them.
use vstd::prelude::*;

use crate::error::CodropError;
use crate::format::block::{spec_read_block_header, BlockHeader, BlockType, Parse};
use crate::format::header::{header_error_is, spec_read_stream_header, HeaderParse, StreamHeader};
use crate::streaming::decoder::lemma_block_header_len;

verus! {

/// The block headers met from `pos` on, each skipping its payload, up to the end-of-stream
/// marker or the end of the data (a payload may run past it); `None` when a header is
/// malformed.
pub open spec fn spec_walk_headers(s: Seq<u8>, pos: nat) -> Option<Seq<BlockHeader>>
    decreases s.len() - pos,
{
    if pos >= s.len() {
        Some(Seq::empty())
    } else {
        match spec_read_block_header(s.skip(pos as int)) {
            Parse::Done(h, n) => {
                if h.block_type == BlockType::EndOfStream {
                    Some(Seq::empty())
                } else {
                    let next = pos + n + h.compressed_size;
                    if next < s.len() {
                        proof {
                            lemma_block_header_len(s.skip(pos as int));
                        }
                        match spec_walk_headers(s, next as nat) {
                            Some(rest) => Some(seq![h] + rest),
                            None => None,
                        }
                    } else {
                        Some(seq![h])
                    }
                }
            },
            Parse::Eof => Some(Seq::empty()),
            Parse::Corrupt => None,
        }
    }
}

/// How many of the headers in `hs` have block type `t`.
pub open spec fn count_type(hs: Seq<BlockHeader>, t: BlockType) -> nat
    decreases hs.len(),
{
    if hs.len() == 0 {
        0
    } else {
        count_type(hs.drop_last(), t) + if hs.last().block_type == t {
            1nat
        } else {
            0nat
        }
    }
}

/// The sum of the uncompressed sizes announced by `hs`.
pub open spec fn sum_uncompressed(hs: Seq<BlockHeader>) -> nat
    decreases hs.len(),
{
    if hs.len() == 0 {
        0
    } else {
        (sum_uncompressed(hs.drop_last()) + hs.last().uncompressed_size) as nat
    }
}

/// The sum of the payload sizes announced by `hs`.
pub open spec fn sum_compressed(hs: Seq<BlockHeader>) -> nat
    decreases hs.len(),
{
    if hs.len() == 0 {
        0
    } else {
        (sum_compressed(hs.drop_last()) + hs.last().compressed_size) as nat
    }
}

/// `x` reduced to 64 bits, as the running totals wrap.
pub open spec fn wrap64(x: int) -> int {
    x % 0x1_0000_0000_0000_0000
}

/// Block counts and announced sizes of a stream.
pub struct StreamSummary {
    pub header: StreamHeader,
    pub total_blocks: usize,
    pub raw_blocks: usize,
    pub rle_blocks: usize,
    pub lzf_blocks: usize,
    pub lzh_blocks: usize,
    pub lza_blocks: usize,
    pub prefilter_blocks: usize,
    pub other_blocks: usize,
    /// Sum of the blocks' uncompressed sizes, modulo 2^64.
    pub total_uncompressed_bytes: u64,
    /// Sum of the blocks' payload sizes, modulo 2^64.
    pub total_compressed_payload_bytes: u64,
}

/// The summary describes the header `h` and the block headers `hs`.
pub open spec fn summary_of(sm: StreamSummary, h: StreamHeader, hs: Seq<BlockHeader>) -> bool {
    &&& sm.header == h
    &&& sm.total_blocks == hs.len()
    &&& sm.raw_blocks == count_type(hs, BlockType::Raw)
    &&& sm.rle_blocks == count_type(hs, BlockType::Rle)
    &&& sm.lzf_blocks == count_type(hs, BlockType::Lzf)
    &&& sm.lzh_blocks == count_type(hs, BlockType::Lzh)
    &&& sm.lza_blocks == count_type(hs, BlockType::Lza)
    &&& sm.prefilter_blocks == count_type(hs, BlockType::TextPrefilter)
    &&& sm.other_blocks == count_type(hs, BlockType::ReservedCustom)
    &&& sm.total_uncompressed_bytes == wrap64(sum_uncompressed(hs) as int)
    &&& sm.total_compressed_payload_bytes == wrap64(sum_compressed(hs) as int)
}

proof fn lemma_walk_len(s: Seq<u8>, pos: nat)
    ensures
        spec_walk_headers(s, pos) matches Some(hs) ==> hs.len() <= s.len() - pos || (pos >= s.len() && hs.len() == 0),
        spec_walk_headers(s, pos) matches Some(hs) ==> forall|i: int| 0 <= i < hs.len() ==> (#[trigger] hs[i]).block_type
            != BlockType::EndOfStream,
    decreases s.len() - pos,
{
    if pos < s.len() {
        lemma_block_header_len(s.skip(pos as int));
        match spec_read_block_header(s.skip(pos as int)) {
            Parse::Done(h, n) => {
                let next = pos + n + h.compressed_size;
                if h.block_type != BlockType::EndOfStream && next < s.len() {
                    lemma_walk_len(s, next as nat);
                    if let Some(rest) = spec_walk_headers(s, next as nat) {
                        assert forall|i: int| 0 <= i < rest.len() + 1 implies (#[trigger] (seq![h] + rest)[i]).block_type
                            != BlockType::EndOfStream by {
                            if i > 0 {
                                assert((seq![h] + rest)[i] == rest[i - 1]);
                            }
                        }
                    }
                }
            },
            _ => {},
        }
    }
}

proof fn lemma_tally_push(hs: Seq<BlockHeader>, h: BlockHeader)
    ensures
        forall|t: BlockType| #[trigger] count_type(hs.push(h), t) == count_type(hs, t) + if h.block_type == t {
            1nat
        } else {
            0nat
        },
        sum_uncompressed(hs.push(h)) == sum_uncompressed(hs) + h.uncompressed_size,
        sum_compressed(hs.push(h)) == sum_compressed(hs) + h.compressed_size,
{
    assert(hs.push(h).drop_last() =~= hs);
}

proof fn lemma_count_le(hs: Seq<BlockHeader>, t: BlockType)
    ensures
        count_type(hs, t) <= hs.len(),
    decreases hs.len(),
{
    if hs.len() > 0 {
        lemma_count_le(hs.drop_last(), t);
    }
}

proof fn lemma_wrap_add(a: int, x: u64, y: u32)
    requires
        a >= 0,
        x == wrap64(a),
    ensures
        vstd::wrapping::u64_specs::wrapping_add(x, y as u64) == wrap64(a + y),
{
    let m: int = 0x1_0000_0000_0000_0000;
    let r: int = a % m;
    assert((a + y) % m == (r + y) % m) by {
        vstd::arithmetic::div_mod::lemma_add_mod_noop(a, y as int, m);
        vstd::arithmetic::div_mod::lemma_small_mod(y as nat, m as nat);
    }
    assert(0 <= r + y < 2 * m);
    if r + y >= m {
        vstd::arithmetic::div_mod::lemma_fundamental_div_mod_converse(r + y, m, 1, r + y - m);
    } else {
        vstd::arithmetic::div_mod::lemma_small_mod((r + y) as nat, m as nat);
    }
}

/// Reads the stream header of `data`, then walks its block headers, skipping each payload,
/// until the end-of-stream marker or the end of the data, and counts the blocks by type.
pub fn summarize_stream(data: &[u8]) -> (r: Result<StreamSummary, CodropError>)
    ensures
        match spec_read_stream_header(data@) {
            HeaderParse::Done(h, n) => match spec_walk_headers(data@, n) {
                Some(hs) => r matches Ok(sm) && summary_of(sm, h, hs),
                None => r matches Err(CodropError::CorruptedHeader(_)),
            },
            p => r matches Err(e) && header_error_is(p, e),
        },
{
    let mut pos: usize = 0;
    assert(data@.skip(0) =~= data@);
    let header = match StreamHeader::read_from(data, &mut pos) {
        Ok(h) => h,
        Err(e) => {
            return Err(e);
        },
    };
    let ghost s = data@;
    let ghost n0 = pos as nat;
    let ghost all = spec_walk_headers(s, n0);
    let ghost mut seen: Seq<BlockHeader> = Seq::empty();
    let mut total_blocks: usize = 0;
    let mut raw_blocks: usize = 0;
    let mut rle_blocks: usize = 0;
    let mut lzf_blocks: usize = 0;
    let mut lzh_blocks: usize = 0;
    let mut lza_blocks: usize = 0;
    let mut prefilter_blocks: usize = 0;
    let mut other_blocks: usize = 0;
    let mut total_uncompressed_bytes: u64 = 0;
    let mut total_compressed_payload_bytes: u64 = 0;
    proof {
        lemma_walk_len(s, n0);
    }
    loop
        invariant_except_break
            all matches Some(hs) ==> spec_walk_headers(s, pos as nat) matches Some(rest) && hs == seen + rest,
            all is None ==> spec_walk_headers(s, pos as nat) is None,
            seen.len() <= pos,
        invariant
            s == data@,
            pos <= data@.len(),
            all == spec_walk_headers(s, n0),
            spec_read_stream_header(s) == HeaderParse::Done(header, n0),
            total_blocks == seen.len(),
            raw_blocks == count_type(seen, BlockType::Raw),
            rle_blocks == count_type(seen, BlockType::Rle),
            lzf_blocks == count_type(seen, BlockType::Lzf),
            lzh_blocks == count_type(seen, BlockType::Lzh),
            lza_blocks == count_type(seen, BlockType::Lza),
            prefilter_blocks == count_type(seen, BlockType::TextPrefilter),
            other_blocks == count_type(seen, BlockType::ReservedCustom),
            forall|i: int| 0 <= i < seen.len() ==> (#[trigger] seen[i]).block_type != BlockType::EndOfStream,
            total_uncompressed_bytes == wrap64(sum_uncompressed(seen) as int),
            total_compressed_payload_bytes == wrap64(sum_compressed(seen) as int),
        ensures
            all matches Some(hs) ==> hs == seen,
            all is None ==> false,
        decreases data@.len() - pos,
    {
        if pos >= data.len() {
            proof {
                assert(seen + Seq::<BlockHeader>::empty() =~= seen);
            }
            break;
        }
        let ghost p0 = pos as nat;
        let h = match BlockHeader::read_from(data, &mut pos) {
            Ok(h) => h,
            Err(CodropError::UnexpectedEof) => {
                proof {
                    assert(seen + Seq::<BlockHeader>::empty() =~= seen);
                }
                break;
            },
            Err(e) => {
                proof {
                    assert(spec_read_block_header(s.skip(p0 as int)) is Corrupt);
                }
                return Err(e);
            },
        };
        proof {
            lemma_block_header_len(s.skip(p0 as int));
        }
        if h.block_type == BlockType::EndOfStream {
            proof {
                assert(seen + Seq::<BlockHeader>::empty() =~= seen);
            }
            break;
        }
        proof {
            lemma_tally_push(seen, h);
            lemma_count_le(seen, BlockType::Raw);
            lemma_count_le(seen, BlockType::Rle);
            lemma_count_le(seen, BlockType::Lzf);
            lemma_count_le(seen, BlockType::Lzh);
            lemma_count_le(seen, BlockType::Lza);
            lemma_count_le(seen, BlockType::TextPrefilter);
            lemma_count_le(seen, BlockType::ReservedCustom);
            lemma_wrap_add(sum_uncompressed(seen) as int, total_uncompressed_bytes, h.uncompressed_size);
            lemma_wrap_add(sum_compressed(seen) as int, total_compressed_payload_bytes, h.compressed_size);
        }
        total_blocks = total_blocks + 1;
        match h.block_type {
            BlockType::Raw => {
                raw_blocks = raw_blocks + 1;
            },
            BlockType::Rle => {
                rle_blocks = rle_blocks + 1;
            },
            BlockType::Lzf => {
                lzf_blocks = lzf_blocks + 1;
            },
            BlockType::Lzh => {
                lzh_blocks = lzh_blocks + 1;
            },
            BlockType::Lza => {
                lza_blocks = lza_blocks + 1;
            },
            BlockType::TextPrefilter => {
                prefilter_blocks = prefilter_blocks + 1;
            },
            _ => {
                other_blocks = other_blocks + 1;
            },
        }
        total_uncompressed_bytes = total_uncompressed_bytes.wrapping_add(h.uncompressed_size as u64);
        total_compressed_payload_bytes = total_compressed_payload_bytes.wrapping_add(h.compressed_size as u64);
        proof {
            assert(seen.push(h) + Seq::<BlockHeader>::empty() =~= seen.push(h));
            if let Some(hs) = all {
                let next = p0 + (pos - p0) + h.compressed_size;
                if next < s.len() {
                    if let Some(rest) = spec_walk_headers(s, next as nat) {
                        assert(seq![h] + rest =~= seq![h].add(rest));
                        assert(seen + (seq![h] + rest) =~= seen.push(h) + rest);
                    }
                } else {
                    assert(seen + seq![h] =~= seen.push(h));
                }
            }
            seen = seen.push(h);
        }
        if h.compressed_size as usize >= data.len() - pos {
            break;
        }
        pos = pos + h.compressed_size as usize;
    }
    Ok(StreamSummary {
        header,
        total_blocks,
        raw_blocks,
        rle_blocks,
        lzf_blocks,
        lzh_blocks,
        lza_blocks,
        prefilter_blocks,
        other_blocks,
        total_uncompressed_bytes,
        total_compressed_payload_bytes,
    })
}

} // verus!
