//! Block payloads: choosing the codec of a block and decoding a payload by its type.
use vstd::prelude::*;

use crate::codec::lza::{lemma_lza_encoded_len, lza_encoded, spec_lza_bytes, spec_lza_decode, LzaCodec};
use crate::codec::lzf::{spec_lzf_decode, spec_lzf_encode, LzfCodec, OffsetMode};
use crate::codec::lzh::{lemma_lzh_encoded_len, lzh_encoded_with, spec_lzh_bytes, spec_lzh_decode, LzhCodec};
use crate::codec::raw::RawCodec;
use crate::codec::rle::{law_rle_roundtrip, rle_error_is, spec_rle_decode, spec_rle_encode, RleCodec, RleDecode};
use crate::codec::{step_error_is, DecodeStep};
use crate::error::{CodropError, CodropResult};
use crate::format::block::BlockType;
use crate::prefilter::{
    decode_prefiltered_payload, prefiltered_error_is, spec_prefilter_choice, spec_prefiltered, try_encode_prefilter,
    PrefilterBackend,
};
use crate::streaming::encoder::CompressionLevel;

verus! {

/// The `ulen` bytes a block payload of type `t` decodes to, if it decodes.
#[verifier::opaque]
pub open spec fn spec_block_payload(t: BlockType, payload: Seq<u8>, ulen: int) -> Option<Seq<u8>> {
    match t {
        BlockType::Raw => if payload.len() == ulen {
            Some(payload)
        } else {
            None
        },
        BlockType::Rle => match spec_rle_decode(payload, ulen) {
            RleDecode::Done(d) => Some(d),
            _ => None,
        },
        BlockType::Lzf => match spec_lzf_decode(payload, ulen, OffsetMode::Offset16) {
            DecodeStep::Done(d, _) => Some(d),
            _ => None,
        },
        BlockType::Lzh => match spec_lzh_decode(payload, ulen) {
            DecodeStep::Done(d, _) => Some(d),
            _ => None,
        },
        BlockType::Lza => match spec_lza_decode(payload, ulen) {
            DecodeStep::Done(d, _) => Some(d),
            _ => None,
        },
        BlockType::TextPrefilter => spec_prefiltered(payload, ulen, ulen),
        _ => None,
    }
}

/// `e` is what a failed decoding of a block payload of type `t`, to expand to `ulen` bytes,
/// reports: the error of the codec of that type.
pub open spec fn payload_error_is(t: BlockType, payload: Seq<u8>, ulen: int, e: CodropError) -> bool {
    match t {
        BlockType::Raw => e is CorruptedHeader,
        BlockType::Rle => rle_error_is(spec_rle_decode(payload, ulen), e),
        BlockType::Lzf => step_error_is(spec_lzf_decode(payload, ulen, OffsetMode::Offset16), e),
        BlockType::Lzh => step_error_is(spec_lzh_decode(payload, ulen), e),
        BlockType::Lza => step_error_is(spec_lza_decode(payload, ulen), e),
        BlockType::TextPrefilter => prefiltered_error_is(payload, ulen, ulen, e),
        BlockType::ReservedCustom => e == CodropError::UnsupportedBlockType(BlockType::ReservedCustom),
        BlockType::EndOfStream => e is CorruptedHeader,
    }
}

/// Decodes a block payload of type `block_type` that must expand to `ulen` bytes.
pub fn decode_block_payload(block_type: BlockType, payload: &[u8], ulen: usize) -> (r: CodropResult<Vec<u8>>)
    ensures
        r is Ok <==> spec_block_payload(block_type, payload@, ulen as int) is Some,
        r matches Ok(v) ==> spec_block_payload(block_type, payload@, ulen as int) == Some(v@),
        block_type == BlockType::ReservedCustom ==> r == Err::<Vec<u8>, CodropError>(
            CodropError::UnsupportedBlockType(BlockType::ReservedCustom),
        ),
        r matches Err(e) ==> payload_error_is(block_type, payload@, ulen as int, e),
{
    proof {
        reveal(spec_block_payload);
    }
    match block_type {
        BlockType::Raw => RawCodec::decode(payload, ulen),
        BlockType::Rle => RleCodec::decode(payload, ulen),
        BlockType::Lzf => LzfCodec::decode(payload, ulen),
        BlockType::Lzh => LzhCodec::decode(payload, ulen),
        BlockType::Lza => LzaCodec::decode(payload, ulen),
        BlockType::TextPrefilter => decode_prefiltered_payload(payload, ulen, ulen),
        BlockType::ReservedCustom => Err(CodropError::UnsupportedBlockType(BlockType::ReservedCustom)),
        BlockType::EndOfStream => Err(CodropError::CorruptedHeader("End-of-stream block carries no payload".to_string())),
    }
}

/// A payload of type `t` for `block`: it decodes back to the block, and the type is one that
/// carries data.
pub open spec fn payload_ok(t: BlockType, payload: Seq<u8>, block: Seq<u8>) -> bool {
    &&& t != BlockType::EndOfStream
    &&& t != BlockType::ReservedCustom
    &&& spec_block_payload(t, payload, block.len() as int) == Some(block)
}

/// Codec candidates of a compression level, in order of preference on ties.
pub open spec fn level_candidates(level: CompressionLevel) -> Seq<BlockType> {
    match level {
        CompressionLevel::Fast => seq![BlockType::Rle, BlockType::Lzf],
        CompressionLevel::Balanced => seq![BlockType::Rle, BlockType::Lzh, BlockType::TextPrefilter],
        CompressionLevel::Compact => seq![BlockType::Rle, BlockType::Lza, BlockType::Lzh, BlockType::TextPrefilter],
        CompressionLevel::Auto => seq![
            BlockType::Rle,
            BlockType::Lzf,
            BlockType::Lzh,
            BlockType::Lza,
            BlockType::TextPrefilter,
        ],
    }
}

/// No coding of `block` by the codec of type `t` is shorter than `len` (for the codecs whose
/// output is specified: run-length, LZF, LZH and LZA).
pub open spec fn no_shorter_codec(t: BlockType, block: Seq<u8>, len: int) -> bool {
    match t {
        BlockType::Rle => len <= spec_rle_encode(block).len(),
        BlockType::Lzf => len <= spec_lzf_encode(block, OffsetMode::Offset16).len(),
        BlockType::Lza => forall|q: Seq<u8>| #[trigger] lza_encoded(block, q) ==> len <= q.len(),
        BlockType::Lzh => block.len() > 0 ==> forall|q: Seq<u8>, lens: Seq<u8>, codes: Seq<u16>| #[trigger] lzh_encoded_with(
            block,
            lens,
            codes,
            q,
        ) ==> len <= q.len(),
        _ => true,
    }
}

/// The prefilter backend of a level: LZA for the compact level, else LZH.
pub open spec fn level_backend(level: CompressionLevel) -> PrefilterBackend {
    match level {
        CompressionLevel::Compact => PrefilterBackend::Lza,
        _ => PrefilterBackend::Lzh,
    }
}

/// The payload that codec `t` gives for `block` at `level`: the codec's output, or for the
/// prefilter the chosen prefilter payload when it decodes back to the block.
pub open spec fn spec_candidate(block: Seq<u8>, t: BlockType, level: CompressionLevel) -> Option<Seq<u8>> {
    match t {
        BlockType::Rle => Some(spec_rle_encode(block)),
        BlockType::Lzf => Some(spec_lzf_encode(block, OffsetMode::Offset16)),
        BlockType::Lzh => Some(spec_lzh_bytes(block)),
        BlockType::Lza => Some(spec_lza_bytes(block)),
        _ => match spec_prefilter_choice(block, level_backend(level)) {
            Some((_, p)) => if spec_prefiltered(p, block.len() as int, block.len() as int) == Some(block) {
                Some(p)
            } else {
                None
            },
            None => None,
        },
    }
}

/// The choice among the candidates `cands[i..]`, starting from `best`: a candidate replaces the
/// best only when strictly shorter.
pub open spec fn choose_from(
    block: Seq<u8>,
    level: CompressionLevel,
    cands: Seq<BlockType>,
    i: int,
    best: (BlockType, Seq<u8>),
) -> (BlockType, Seq<u8>)
    decreases cands.len() - i,
{
    if i < 0 || i >= cands.len() {
        best
    } else {
        let next = match spec_candidate(block, cands[i], level) {
            Some(p) => if p.len() < best.1.len() {
                (cands[i], p)
            } else {
                best
            },
            None => best,
        };
        choose_from(block, level, cands, i + 1, next)
    }
}

/// The block type and payload chosen for `block` at `level`.
pub open spec fn spec_choose_payload(block: Seq<u8>, level: CompressionLevel) -> (BlockType, Seq<u8>) {
    choose_from(block, level, level_candidates(level), 0, (BlockType::Raw, block))
}

/// The payload of `block` with codec `t` (the prefilter backend follows the level), if that
/// codec gives one that decodes back.
fn candidate_payload(block: &[u8], t: BlockType, level: CompressionLevel) -> (r: Option<Vec<u8>>)
    requires
        block@.len() <= 0xFFFF_FFFF,
        t != BlockType::EndOfStream,
        t != BlockType::ReservedCustom,
        t != BlockType::Raw,
    ensures
        r matches Some(p) ==> payload_ok(t, p@, block@),
        t == BlockType::Rle ==> (r matches Some(p) && p@ == spec_rle_encode(block@)),
        t != BlockType::TextPrefilter ==> (r matches Some(p) && no_shorter_codec(t, block@, p@.len() as int)),
        match r {
            Some(p) => spec_candidate(block@, t, level) == Some(p@),
            None => spec_candidate(block@, t, level) is None,
        },
{
    proof {
        reveal(spec_block_payload);
    }
    match t {
        BlockType::Rle => {
            let p = RleCodec::encode(block);
            proof {
                law_rle_roundtrip(block@);
            }
            Some(p)
        },
        BlockType::Lzf => Some(LzfCodec::encode(block)),
        BlockType::Lzh => {
            let p = LzhCodec::encode(block);
            proof {
                if block@.len() > 0 {
                    let (l1, c1) = choose|lens: Seq<u8>, codes: Seq<u16>| lzh_encoded_with(block@, lens, codes, p@);
                    assert forall|q: Seq<u8>, lens: Seq<u8>, codes: Seq<u16>| #[trigger] lzh_encoded_with(
                        block@,
                        lens,
                        codes,
                        q,
                    ) implies p@.len() <= q.len() by {
                        lemma_lzh_encoded_len(block@, l1, c1, p@, lens, codes, q);
                    }
                }
            }
            Some(p)
        },
        BlockType::Lza => {
            let p = LzaCodec::encode(block);
            proof {
                assert forall|q: Seq<u8>| #[trigger] lza_encoded(block@, q) implies p@.len() <= q.len() by {
                    lemma_lza_encoded_len(block@, p@, q);
                }
            }
            Some(p)
        },
        _ => {
            let backend = match level {
                CompressionLevel::Compact => PrefilterBackend::Lza,
                _ => PrefilterBackend::Lzh,
            };
            match try_encode_prefilter(block, backend, 0) {
                Some(c) => {
                    let p = c.encoded_payload;
                    match decode_prefiltered_payload(&p, block.len(), block.len()) {
                        Ok(v) => if crate::buf::bytes_equal(&v, block) {
                            Some(p)
                        } else {
                            None
                        },
                        Err(_) => None,
                    }
                },
                None => None,
            }
        },
    }
}

/// Chooses the block type and payload for `block` at `level`: the smallest candidate of the
/// level that is shorter than the block, the first one on ties, and else the block stored raw.
/// No run-length, LZF, LZH or LZA coding that the level tries is shorter than the payload.
pub fn choose_payload(block: &[u8], level: CompressionLevel) -> (r: (BlockType, Vec<u8>))
    requires
        block@.len() <= 0xFFFF_FFFF,
    ensures
        payload_ok(r.0, r.1@, block@),
        r.1@.len() <= block@.len(),
        r.0 == BlockType::Raw || level_candidates(level).contains(r.0),
        spec_rle_encode(block@).len() < block@.len() ==> r.1@.len() <= spec_rle_encode(block@).len(),
        r.0 == BlockType::Rle ==> r.1@ == spec_rle_encode(block@),
        forall|j: int| 0 <= j < level_candidates(level).len() ==> no_shorter_codec(
            #[trigger] level_candidates(level)[j],
            block@,
            r.1@.len() as int,
        ),
        (r.0, r.1@) == spec_choose_payload(block@, level),
{
    let cands: Vec<BlockType> = match level {
        CompressionLevel::Fast => vec![BlockType::Rle, BlockType::Lzf],
        CompressionLevel::Balanced => vec![BlockType::Rle, BlockType::Lzh, BlockType::TextPrefilter],
        CompressionLevel::Compact => vec![BlockType::Rle, BlockType::Lza, BlockType::Lzh, BlockType::TextPrefilter],
        CompressionLevel::Auto => vec![
            BlockType::Rle,
            BlockType::Lzf,
            BlockType::Lzh,
            BlockType::Lza,
            BlockType::TextPrefilter,
        ],
    };
    assert(cands@ =~= level_candidates(level));
    let mut best_type = BlockType::Raw;
    let mut best = RawCodec::encode(block);
    proof {
        reveal(spec_block_payload);
    }
    let mut i: usize = 0;
    while i < cands.len()
        invariant
            i <= cands@.len(),
            cands@ == level_candidates(level),
            block@.len() <= 0xFFFF_FFFF,
            payload_ok(best_type, best@, block@),
            best@.len() <= block@.len(),
            best_type == BlockType::Raw || level_candidates(level).contains(best_type),
            i > 0 && spec_rle_encode(block@).len() < block@.len() ==> best@.len() <= spec_rle_encode(block@).len(),
            forall|j: int| 0 <= j < i ==> no_shorter_codec(#[trigger] cands@[j], block@, best@.len() as int),
            choose_from(block@, level, cands@, i as int, (best_type, best@)) == spec_choose_payload(block@, level),
            best_type == BlockType::Rle ==> best@ == spec_rle_encode(block@) && best@.len() < block@.len(),
        decreases cands@.len() - i,
    {
        let t = cands[i];
        assert(level_candidates(level).contains(t)) by {
            assert(level_candidates(level)[i as int] == t);
        }
        match candidate_payload(block, t, level) {
            Some(p) => {
                if p.len() < best.len() {
                    best_type = t;
                    best = p;
                }
            },
            None => {},
        }
        i = i + 1;
    }
    (best_type, best)
}

} // verus!
