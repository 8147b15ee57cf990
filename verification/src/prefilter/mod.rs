//! Data-aware prefilters and static dictionary transformations.
//!
//! A prefilter transforms structured data (JSON, text, sequential binary) before entropy
//! compression with LZH or LZA, and the decoder inverts the transform exactly.
//!
//! A prefiltered payload starts with the backend code, the prefilter type and the length of
//! the transformed data (four bytes, little-endian); then come the prefilter's own fields and
//! the compressed transformed data.
use vstd::prelude::*;

use crate::codec::lza::{spec_lza_bytes, spec_lza_decode, LzaCodec};
use crate::codec::lzh::{spec_lzh_bytes, spec_lzh_decode, LzhCodec};
use crate::codec::{step_error_is, step_result_is, DecodeStep};
use crate::error::{CodropError, CodropResult};
use crate::le_bytes::{le16, le16_val, le32, le32_val, lemma_le16_roundtrip, lemma_le32_roundtrip, read_u16_le, read_u32_le, write_u16_le, write_u32_le};
use crate::prefilter::delta::{delta_decode, delta_encode, law_delta_roundtrip, spec_delta_decode, spec_delta_encode, stride_ok};
use crate::prefilter::dict::{
    clamp_u64, find_least_frequent_byte, invert_tokens, law_substitute_invert, lookup_static_dict, spec_invert_tokens,
    spec_json_dict_v1, spec_least_frequent_byte, spec_substitute_from, spec_web_dict_v1, substitute_tokens,
    InvertResult, DICT_ID_JSON, DICT_ID_WEB, DICT_VERSION_CURRENT,
};
use crate::prefilter::json::{
    is_json, json_prefilter_decode, json_prefilter_encode, spec_is_json, spec_json_prefilter_encode, spec_json_tokens,
};
use crate::prefilter::text::{
    is_text, spec_is_text, spec_table_prefilter_decode, spec_text_prefilter_encode, text_prefilter_decode,
    text_prefilter_encode,
};

pub mod delta;
pub mod dict;
pub mod json;
pub mod text;
pub mod tokens;

verus! {

/// Sub-codec backend used to compress transformed prefilter data.
#[derive(Debug, Clone, Copy, PartialEq, Eq, Structural)]
pub enum PrefilterBackend {
    Lzh,
    Lza,
}

/// The code of a backend.
pub open spec fn backend_code(b: PrefilterBackend) -> u8 {
    match b {
        PrefilterBackend::Lzh => 0,
        PrefilterBackend::Lza => 1,
    }
}

impl PrefilterBackend {
    /// The backend with code `val`.
    pub fn from_code(val: u8) -> (r: CodropResult<Self>)
        ensures
            val == 0 ==> r == Ok::<Self, CodropError>(PrefilterBackend::Lzh),
            val == 1 ==> r == Ok::<Self, CodropError>(PrefilterBackend::Lza),
            val > 1 ==> r matches Err(CodropError::CorruptedPrefilterData(_)),
    {
        if val == 0 {
            Ok(PrefilterBackend::Lzh)
        } else if val == 1 {
            Ok(PrefilterBackend::Lza)
        } else {
            Err(CodropError::CorruptedPrefilterData("invalid prefilter sub-codec backend".to_string()))
        }
    }

    /// The code of this backend.
    pub fn code(&self) -> (r: u8)
        ensures
            r == backend_code(*self),
    {
        match self {
            PrefilterBackend::Lzh => 0,
            PrefilterBackend::Lza => 1,
        }
    }
}

/// Identifiers for supported prefilter transformations.
#[derive(Debug, Clone, Copy, PartialEq, Eq, Structural)]
pub enum PrefilterType {
    Delta,
    StaticDictionary,
    Json,
    Text,
}

/// The code of a prefilter type.
pub open spec fn prefilter_code(t: PrefilterType) -> u8 {
    match t {
        PrefilterType::Delta => 1,
        PrefilterType::StaticDictionary => 2,
        PrefilterType::Json => 3,
        PrefilterType::Text => 4,
    }
}

impl PrefilterType {
    /// The prefilter type with code `val`.
    pub fn from_code(val: u8) -> (r: CodropResult<Self>)
        ensures
            val == 1 ==> r == Ok::<Self, CodropError>(PrefilterType::Delta),
            val == 2 ==> r == Ok::<Self, CodropError>(PrefilterType::StaticDictionary),
            val == 3 ==> r == Ok::<Self, CodropError>(PrefilterType::Json),
            val == 4 ==> r == Ok::<Self, CodropError>(PrefilterType::Text),
            (val == 0 || val > 4) ==> r == Err::<Self, CodropError>(CodropError::UnsupportedPrefilter(val)),
    {
        if val == 1 {
            Ok(PrefilterType::Delta)
        } else if val == 2 {
            Ok(PrefilterType::StaticDictionary)
        } else if val == 3 {
            Ok(PrefilterType::Json)
        } else if val == 4 {
            Ok(PrefilterType::Text)
        } else {
            Err(CodropError::UnsupportedPrefilter(val))
        }
    }

    /// The code of this prefilter type.
    pub fn code(&self) -> (r: u8)
        ensures
            r == prefilter_code(*self),
    {
        match self {
            PrefilterType::Delta => 1,
            PrefilterType::StaticDictionary => 2,
            PrefilterType::Json => 3,
            PrefilterType::Text => 4,
        }
    }
}

/// Result of evaluating a prefilter candidate.
pub struct PrefilterCandidate {
    pub backend: PrefilterBackend,
    pub prefilter_type: PrefilterType,
    pub encoded_payload: Vec<u8>,
}

/// Decoding of `src` by the backend with code `code`.
pub open spec fn spec_backend_decode(code: u8, src: Seq<u8>, len: int) -> DecodeStep<Seq<u8>> {
    if code == 0 {
        spec_lzh_decode(src, len)
    } else {
        spec_lza_decode(src, len)
    }
}

/// The registered static dictionary with this id and version.
pub open spec fn static_dict(dict_id: u16, version: u8) -> Option<Seq<Seq<u8>>> {
    if version != DICT_VERSION_CURRENT {
        None
    } else if dict_id == DICT_ID_JSON {
        Some(spec_json_dict_v1())
    } else if dict_id == DICT_ID_WEB {
        Some(spec_web_dict_v1())
    } else {
        None
    }
}

fn decompress_backend(backend: PrefilterBackend, src: &[u8], transformed_len: usize) -> (r: CodropResult<Vec<u8>>)
    ensures
        step_result_is(spec_backend_decode(backend_code(backend), src@, transformed_len as int), r),
{
    match backend {
        PrefilterBackend::Lzh => LzhCodec::decode(src, transformed_len),
        PrefilterBackend::Lza => LzaCodec::decode(src, transformed_len),
    }
}

/// The coding of `data` by the backend `b`.
pub open spec fn spec_backend_bytes(b: PrefilterBackend, data: Seq<u8>) -> Seq<u8> {
    match b {
        PrefilterBackend::Lzh => spec_lzh_bytes(data),
        PrefilterBackend::Lza => spec_lza_bytes(data),
    }
}

fn compress_backend(backend: PrefilterBackend, transformed: &[u8]) -> (r: Vec<u8>)
    ensures
        spec_backend_decode(backend_code(backend), r@, transformed@.len() as int) matches DecodeStep::Done(d, _) && d
            == transformed@,
        r@ == spec_backend_bytes(backend, transformed@),
{
    match backend {
        PrefilterBackend::Lzh => LzhCodec::encode(transformed),
        PrefilterBackend::Lza => LzaCodec::encode(transformed),
    }
}

/// Transformed data of length `tlen`, decoded by backend `b` from `comp`, if it decodes.
pub open spec fn backend_output(b: u8, comp: Seq<u8>, tlen: int) -> Option<Seq<u8>> {
    match spec_backend_decode(b, comp, tlen) {
        DecodeStep::Done(t, _) => Some(t),
        _ => None,
    }
}

/// Decoding of a delta payload `p`.
#[verifier::opaque]
pub open spec fn delta_body(p: Seq<u8>, tlen: int, max: int) -> Option<Seq<u8>> {
    if p.len() < 7 {
        None
    } else {
        match backend_output(p[0], p.skip(7), tlen) {
            Some(t) => if stride_ok(p[6]) && t.len() <= max {
                Some(spec_delta_decode(t, p[6]))
            } else {
                None
            },
            None => None,
        }
    }
}

/// Decoding of a static dictionary payload `p`.
#[verifier::opaque]
pub open spec fn dict_body(p: Seq<u8>, tlen: int, max: int) -> Option<Seq<u8>> {
    if p.len() < 10 {
        None
    } else {
        match static_dict(le16_val(p.skip(6)), p[8]) {
            None => None,
            Some(toks) => match backend_output(p[0], p.skip(10), tlen) {
                Some(t) => match spec_invert_tokens(t, toks, p[9], max) {
                    InvertResult::Done(d) => Some(d),
                    _ => None,
                },
                None => None,
            },
        }
    }
}

/// Decoding of a table (JSON keys or text words) payload `p`.
#[verifier::opaque]
pub open spec fn table_body(p: Seq<u8>, tlen: int, max: int) -> Option<Seq<u8>> {
    if p.len() < 8 || 8 + le16_val(p.skip(6)) > p.len() {
        None
    } else {
        let ml = le16_val(p.skip(6)) as int;
        match backend_output(p[0], p.skip(8 + ml), tlen) {
            Some(t) => match spec_table_prefilter_decode(p.subrange(8, 8 + ml), t, max) {
                Some(InvertResult::Done(d)) => Some(d),
                _ => None,
            },
            None => None,
        }
    }
}

/// What decoding the prefiltered payload `p` gives, when it succeeds: `ulen` bytes, with no
/// intermediate result above `max` bytes.
#[verifier::opaque]
pub open spec fn spec_prefiltered(p: Seq<u8>, ulen: int, max: int) -> Option<Seq<u8>> {
    if p.len() < 6 || p[0] > 1 || p[1] < 1 || p[1] > 4 || le32_val(p.skip(2)) > max {
        None
    } else {
        let tlen = le32_val(p.skip(2)) as int;
        let decoded = if p[1] == 1 {
            delta_body(p, tlen, max)
        } else if p[1] == 2 {
            dict_body(p, tlen, max)
        } else {
            table_body(p, tlen, max)
        };
        match decoded {
            Some(d) => if d.len() == ulen {
                Some(d)
            } else {
                None
            },
            None => None,
        }
    }
}

/// `e` is what a failed token reversal with outcome `ir` and limit `max` reports.
pub open spec fn invert_error_is(ir: InvertResult, e: CodropError, max: int) -> bool {
    match ir {
        InvertResult::Done(_) => e is CorruptedPrefilterData,
        InvertResult::Truncated => e is CorruptedPrefilterData,
        InvertResult::BadIndex(_) => e is CorruptedPrefilterData,
        InvertResult::Bomb(req) => e == (CodropError::DecompressionBombDetected {
            limit: max as u64,
            requested: clamp_u64(req),
        }),
    }
}

/// `e` is what a failed decoding of the prefiltered payload `p` reports, following the steps
/// in order: the head, the prefilter type, the announced length against `max`, the prefilter's
/// metadata, the backend, the reversal, and the decoded length against `ulen`.
pub open spec fn prefiltered_error_is(p: Seq<u8>, ulen: int, max: int, e: CodropError) -> bool {
    if p.len() < 6 || p[0] > 1 {
        e is CorruptedPrefilterData
    } else if p[1] < 1 || p[1] > 4 {
        e == CodropError::UnsupportedPrefilter(p[1])
    } else if le32_val(p.skip(2)) > max {
        e == (CodropError::DecompressionBombDetected { limit: max as u64, requested: le32_val(p.skip(2)) as u64 })
    } else {
        let tlen = le32_val(p.skip(2)) as int;
        if p[1] == 1 {
            if p.len() < 7 {
                e is CorruptedPrefilterData
            } else {
                match spec_backend_decode(p[0], p.skip(7), tlen) {
                    DecodeStep::Done(t, _) => if !stride_ok(p[6]) {
                        e is CorruptedPrefilterData
                    } else if t.len() > max {
                        e == (CodropError::DecompressionBombDetected { limit: max as u64, requested: t.len() as u64 })
                    } else {
                        e is CorruptedPrefilterData
                    },
                    q => step_error_is(q, e),
                }
            }
        } else if p[1] == 2 {
            if p.len() < 10 {
                e is CorruptedPrefilterData
            } else {
                match static_dict(le16_val(p.skip(6)), p[8]) {
                    None => e == (CodropError::UnknownDictionary { dict_id: le16_val(p.skip(6)), version: p[8] }),
                    Some(toks) => match spec_backend_decode(p[0], p.skip(10), tlen) {
                        DecodeStep::Done(t, _) => invert_error_is(spec_invert_tokens(t, toks, p[9], max), e, max),
                        q => step_error_is(q, e),
                    },
                }
            }
        } else {
            if p.len() < 8 || 8 + le16_val(p.skip(6)) > p.len() {
                e is CorruptedPrefilterData
            } else {
                let ml = le16_val(p.skip(6)) as int;
                match spec_backend_decode(p[0], p.skip(8 + ml), tlen) {
                    DecodeStep::Done(t, _) => match spec_table_prefilter_decode(p.subrange(8, 8 + ml), t, max) {
                        Some(ir) => invert_error_is(ir, e, max),
                        None => e is CorruptedPrefilterData,
                    },
                    q => step_error_is(q, e),
                }
            }
        }
    }
}

/// Checks the decoded length of a prefiltered block.
fn check_decoded_len(decoded: Vec<u8>, uncompressed_len: usize) -> (r: CodropResult<Vec<u8>>)
    ensures
        decoded@.len() == uncompressed_len ==> r == Ok::<Vec<u8>, CodropError>(decoded),
        decoded@.len() != uncompressed_len ==> r matches Err(CodropError::CorruptedPrefilterData(_)),
{
    if decoded.len() != uncompressed_len {
        return Err(CodropError::CorruptedPrefilterData("decoded length mismatch".to_string()));
    }
    Ok(decoded)
}

/// Decodes a complete prefiltered block payload into the original bytes, which must be
/// `uncompressed_len` long; no intermediate result may exceed `max_output_size` bytes.
pub fn decode_prefiltered_payload(payload: &[u8], uncompressed_len: usize, max_output_size: usize) -> (r: CodropResult<Vec<u8>>)
    ensures
        r is Ok <==> spec_prefiltered(payload@, uncompressed_len as int, max_output_size as int) is Some,
        r matches Ok(v) ==> spec_prefiltered(payload@, uncompressed_len as int, max_output_size as int) == Some(v@),
        r matches Err(e) ==> prefiltered_error_is(payload@, uncompressed_len as int, max_output_size as int, e),
        payload@.len() < 6 ==> r matches Err(CodropError::CorruptedPrefilterData(_)),
        payload@.len() >= 6 && payload@[0] > 1 ==> r matches Err(CodropError::CorruptedPrefilterData(_)),
        payload@.len() >= 6 && payload@[0] <= 1 && (payload@[1] == 0 || payload@[1] > 4) ==> r == Err::<
            Vec<u8>,
            CodropError,
        >(CodropError::UnsupportedPrefilter(payload@[1])),
        payload@.len() >= 6 && payload@[0] <= 1 && 1 <= payload@[1] <= 4 && le32_val(payload@.skip(2)) > max_output_size
            ==> r == Err::<Vec<u8>, CodropError>(
            CodropError::DecompressionBombDetected {
                limit: max_output_size as u64,
                requested: le32_val(payload@.skip(2)) as u64,
            },
        ),
        payload@.len() >= 10 && payload@[0] <= 1 && payload@[1] == 2 && le32_val(payload@.skip(2)) <= max_output_size
            && static_dict(le16_val(payload@.skip(6)), payload@[8]) is None ==> r == Err::<Vec<u8>, CodropError>(
            CodropError::UnknownDictionary { dict_id: le16_val(payload@.skip(6)), version: payload@[8] },
        ),
{
    proof {
        reveal(spec_prefiltered);
        reveal(delta_body);
        reveal(dict_body);
        reveal(table_body);
    }
    if payload.len() < 6 {
        return Err(CodropError::CorruptedPrefilterData("truncated prefilter block header".to_string()));
    }
    let sub_codec = match PrefilterBackend::from_code(payload[0]) {
        Ok(b) => b,
        Err(e) => {
            return Err(e);
        },
    };
    let prefilter_type = match PrefilterType::from_code(payload[1]) {
        Ok(t) => t,
        Err(e) => {
            return Err(e);
        },
    };
    let transformed_len = read_u32_le(payload, 2) as usize;
    if transformed_len > max_output_size {
        return Err(CodropError::DecompressionBombDetected {
            limit: max_output_size as u64,
            requested: transformed_len as u64,
        });
    }
    let n = payload.len();
    match prefilter_type {
        PrefilterType::Delta => {
            if n < 7 {
                return Err(CodropError::CorruptedPrefilterData("truncated delta stride in prefilter payload".to_string()));
            }
            let stride = payload[6];
            let comp = vstd::slice::slice_subrange(payload, 7, n);
            assert(comp@ =~= payload@.skip(7));
            let transformed = match decompress_backend(sub_codec, comp, transformed_len) {
                Ok(t) => t,
                Err(e) => {
                    return Err(e);
                },
            };
            let decoded = match delta_decode(&transformed, stride, max_output_size) {
                Ok(d) => d,
                Err(e) => {
                    return Err(e);
                },
            };
            check_decoded_len(decoded, uncompressed_len)
        },
        PrefilterType::StaticDictionary => {
            if n < 10 {
                return Err(
                    CodropError::CorruptedPrefilterData("truncated static dictionary metadata in prefilter payload".to_string()),
                );
            }
            let dict_id = read_u16_le(payload, 6);
            let version = payload[8];
            let esc_byte = payload[9];
            let tokens = match lookup_static_dict(dict_id, version) {
                Ok(t) => t,
                Err(e) => {
                    return Err(e);
                },
            };
            let comp = vstd::slice::slice_subrange(payload, 10, n);
            assert(comp@ =~= payload@.skip(10));
            let transformed = match decompress_backend(sub_codec, comp, transformed_len) {
                Ok(t) => t,
                Err(e) => {
                    return Err(e);
                },
            };
            let decoded = match invert_tokens(&transformed, &tokens, esc_byte, max_output_size) {
                Ok(d) => d,
                Err(e) => {
                    return Err(e);
                },
            };
            check_decoded_len(decoded, uncompressed_len)
        },
        _ => {
            if n < 8 {
                return Err(CodropError::CorruptedPrefilterData("truncated prefilter metadata length".to_string()));
            }
            let meta_len = read_u16_le(payload, 6) as usize;
            if meta_len > n - 8 {
                return Err(CodropError::CorruptedPrefilterData("truncated prefilter metadata payload".to_string()));
            }
            let meta = vstd::slice::slice_subrange(payload, 8, 8 + meta_len);
            let comp = vstd::slice::slice_subrange(payload, 8 + meta_len, n);
            assert(comp@ =~= payload@.skip(8 + meta_len));
            let transformed = match decompress_backend(sub_codec, comp, transformed_len) {
                Ok(t) => t,
                Err(e) => {
                    return Err(e);
                },
            };
            let decoded = if payload[1] == 3 {
                json_prefilter_decode(meta, &transformed, max_output_size)
            } else {
                text_prefilter_decode(meta, &transformed, max_output_size)
            };
            match decoded {
                Ok(d) => check_decoded_len(d, uncompressed_len),
                Err(e) => Err(e),
            }
        },
    }
}

/// The candidate's payload decodes back to `src` under any limit of at least its length.
pub open spec fn candidate_decodes(c: PrefilterCandidate, src: Seq<u8>) -> bool {
    forall|max: int| max >= src.len() ==> #[trigger] spec_prefiltered(c.encoded_payload@, src.len() as int, max) == Some(src)
}

/// The payload head: backend, prefilter type and transformed length.
pub open spec fn payload_head(b: u8, t: u8, tlen: int) -> Seq<u8> {
    seq![b, t] + le32(tlen as u32)
}

proof fn lemma_head(b: u8, t: u8, tlen: int, rest: Seq<u8>)
    ensures
        (payload_head(b, t, tlen) + rest).len() == 6 + rest.len(),
        (payload_head(b, t, tlen) + rest)[0] == b,
        (payload_head(b, t, tlen) + rest)[1] == t,
        0 <= tlen <= 0xFFFF_FFFF ==> le32_val((payload_head(b, t, tlen) + rest).skip(2)) == tlen,
        forall|k: int| 0 <= k <= rest.len() ==> #[trigger] (payload_head(b, t, tlen) + rest).skip(6 + k) == rest.skip(k),
{
    let p = payload_head(b, t, tlen) + rest;
    assert(p.skip(2) =~= le32(tlen as u32) + rest);
    lemma_le32_roundtrip(tlen as u32, rest);
    assert forall|k: int| 0 <= k <= rest.len() implies #[trigger] p.skip(6 + k) == rest.skip(k) by {
        assert(p.skip(6 + k) =~= rest.skip(k));
    }
}

proof fn lemma_delta_payload(b: u8, src: Seq<u8>, stride: u8, comp: Seq<u8>, max: int)
    requires
        b <= 1,
        stride_ok(stride),
        src.len() <= 0xFFFF_FFFF,
        max >= src.len(),
        spec_backend_decode(b, comp, src.len() as int) matches DecodeStep::Done(d, _) && d == spec_delta_encode(src, stride),
    ensures
        spec_prefiltered(payload_head(b, 1, src.len() as int) + (seq![stride] + comp), src.len() as int, max) == Some(src),
{
    reveal(spec_prefiltered);
    reveal(delta_body);
    let rest = seq![stride] + comp;
    lemma_head(b, 1, src.len() as int, rest);
    let p = payload_head(b, 1, src.len() as int) + rest;
    assert(p.skip(7) == rest.skip(1));
    assert(rest.skip(1) =~= comp);
    assert(p[6] == stride);
    law_delta_roundtrip(src, stride);
}

proof fn lemma_dict_payload(b: u8, src: Seq<u8>, id: u16, esc: u8, comp: Seq<u8>, t: Seq<u8>, max: int)
    requires
        b <= 1,
        static_dict(id, DICT_VERSION_CURRENT) is Some,
        t == spec_substitute_from(src, 0, static_dict(id, DICT_VERSION_CURRENT)->0, esc),
        t.len() <= src.len() <= 0xFFFF_FFFF,
        max >= src.len(),
        spec_backend_decode(b, comp, t.len() as int) matches DecodeStep::Done(d, _) && d == t,
    ensures
        spec_prefiltered(
            payload_head(b, 2, t.len() as int) + (le16(id) + seq![DICT_VERSION_CURRENT, esc] + comp),
            src.len() as int,
            max,
        ) == Some(src),
{
    reveal(spec_prefiltered);
    reveal(dict_body);
    let rest = le16(id) + seq![DICT_VERSION_CURRENT, esc] + comp;
    lemma_head(b, 2, t.len() as int, rest);
    let p = payload_head(b, 2, t.len() as int) + rest;
    assert(p.skip(6) == rest.skip(0));
    assert(rest.skip(0) =~= le16(id) + (seq![DICT_VERSION_CURRENT, esc] + comp));
    lemma_le16_roundtrip(id, seq![DICT_VERSION_CURRENT, esc] + comp);
    assert(p.skip(10) == rest.skip(4));
    assert(rest.skip(4) =~= comp);
    assert(p[8] == DICT_VERSION_CURRENT);
    assert(p[9] == esc);
    law_substitute_invert(src, static_dict(id, DICT_VERSION_CURRENT)->0, esc, max);
}

proof fn lemma_table_payload(b: u8, code: u8, src: Seq<u8>, meta: Seq<u8>, comp: Seq<u8>, t: Seq<u8>, max: int)
    requires
        b <= 1,
        code == 3 || code == 4,
        meta.len() <= 0xFFFF,
        t.len() <= src.len() <= 0xFFFF_FFFF,
        max >= src.len(),
        spec_backend_decode(b, comp, t.len() as int) matches DecodeStep::Done(d, _) && d == t,
        spec_table_prefilter_decode(meta, t, max) == Some(InvertResult::Done(src)),
    ensures
        spec_prefiltered(
            payload_head(b, code, t.len() as int) + (le16(meta.len() as u16) + meta + comp),
            src.len() as int,
            max,
        ) == Some(src),
{
    reveal(spec_prefiltered);
    reveal(table_body);
    let rest = le16(meta.len() as u16) + meta + comp;
    lemma_head(b, code, t.len() as int, rest);
    let p = payload_head(b, code, t.len() as int) + rest;
    assert(p.skip(6) == rest.skip(0));
    assert(rest.skip(0) =~= le16(meta.len() as u16) + (meta + comp));
    lemma_le16_roundtrip(meta.len() as u16, meta + comp);
    let ml = meta.len() as int;
    assert(p.skip(8 + ml) == rest.skip(2 + ml));
    assert(rest.skip(2 + ml) =~= comp);
    assert(p.subrange(8, 8 + ml) =~= meta);
}

/// Appends the payload head: backend, prefilter type and transformed length.
fn push_head(out: &mut Vec<u8>, backend: PrefilterBackend, ptype: u8, tlen: usize)
    ensures
        final(out)@ == old(out)@ + payload_head(backend_code(backend), ptype, tlen as int),
{
    out.push(backend.code());
    out.push(ptype);
    write_u32_le(out, #[verifier::truncate] (tlen as u32));
    assert(final(out)@ =~= old(out)@ + payload_head(backend_code(backend), ptype, tlen as int));
}

/// A nonempty block compresses to a nonempty payload.
proof fn lemma_backend_nonempty(b: u8, comp: Seq<u8>, n: int)
    requires
        n > 0,
        spec_backend_decode(b, comp, n) is Done,
    ensures
        comp.len() > 0,
{
    if comp.len() == 0 {
        crate::entropy::bitstream::lemma_bytes_to_bits_len(comp);
    }
}

/// `r` holds the bytes `s` holds.
pub open spec fn opt_bytes_is(s: Option<Seq<u8>>, r: Option<Vec<u8>>) -> bool {
    match r {
        Some(p) => s == Some(p@),
        None => s is None,
    }
}

/// The static dictionary payload for `src` with dictionary `dict_id` and backend `b`: kept when
/// the substitution saves more than `slack` bytes and the backend output is not empty.
pub open spec fn spec_dict_candidate(src: Seq<u8>, b: PrefilterBackend, dict_id: u16, slack: int) -> Option<Seq<u8>> {
    let toks = if dict_id == DICT_ID_JSON { spec_json_dict_v1() } else { spec_web_dict_v1() };
    let esc = spec_least_frequent_byte(src);
    let tr = spec_substitute_from(src, 0, toks, esc);
    let comp = spec_backend_bytes(b, tr);
    if tr.len() >= src.len() - slack || comp.len() == 0 {
        None
    } else {
        Some(payload_head(backend_code(b), 2, tr.len() as int) + le16(dict_id) + seq![DICT_VERSION_CURRENT, esc] + comp)
    }
}

/// The token-table payload (`code` 3 for JSON keys, 4 for text words) with metadata `meta`
/// and transformed data `tr`: kept when the metadata fits 16 bits of length and the backend
/// output is not empty.
pub open spec fn spec_table_candidate(b: PrefilterBackend, code: u8, meta: Seq<u8>, tr: Seq<u8>) -> Option<Seq<u8>> {
    let comp = spec_backend_bytes(b, tr);
    if comp.len() == 0 || meta.len() > 0xFFFF {
        None
    } else {
        Some(payload_head(backend_code(b), code, tr.len() as int) + le16(meta.len() as u16) + meta + comp)
    }
}

/// The delta payload for `src` with `stride`: kept when the backend output is not empty.
pub open spec fn spec_delta_candidate(src: Seq<u8>, b: PrefilterBackend, stride: u8) -> Option<Seq<u8>> {
    let tr = spec_delta_encode(src, stride);
    let comp = spec_backend_bytes(b, tr);
    if comp.len() == 0 {
        None
    } else {
        Some(payload_head(backend_code(b), 1, tr.len() as int) + seq![stride] + comp)
    }
}

/// The better of the current best (type and payload) and a new payload of type `t`: the new
/// one only when strictly shorter.
pub open spec fn spec_keep(best: Option<(PrefilterType, Seq<u8>)>, t: PrefilterType, p: Option<Seq<u8>>) -> Option<
    (PrefilterType, Seq<u8>),
> {
    match p {
        None => best,
        Some(q) => match best {
            None => Some((t, q)),
            Some(bb) => if q.len() < bb.1.len() {
                Some((t, q))
            } else {
                best
            },
        },
    }
}

/// The prefilter type and payload chosen for `src` with the backend `b`: none below 32 bytes;
/// for JSON the better of the static JSON dictionary and the key table, for other text the
/// better of the static web dictionary (when it saves more than 16 bytes) and the word table,
/// and for anything else the best of delta coding with strides 1, 2 and 4.
pub open spec fn spec_prefilter_choice(src: Seq<u8>, b: PrefilterBackend) -> Option<(PrefilterType, Seq<u8>)> {
    if src.len() < 32 {
        None
    } else if spec_is_json(src) {
        let best = spec_keep(None, PrefilterType::StaticDictionary, spec_dict_candidate(src, b, DICT_ID_JSON, 0));
        match spec_json_prefilter_encode(src) {
            Some((m, tr)) => spec_keep(best, PrefilterType::Json, spec_table_candidate(b, 3, m, tr)),
            None => best,
        }
    } else if spec_is_text(src) {
        let best = spec_keep(None, PrefilterType::StaticDictionary, spec_dict_candidate(src, b, DICT_ID_WEB, 16));
        match spec_text_prefilter_encode(src) {
            Some((m, tr)) => spec_keep(best, PrefilterType::Text, spec_table_candidate(b, 4, m, tr)),
            None => best,
        }
    } else {
        let b1 = spec_keep(None, PrefilterType::Delta, spec_delta_candidate(src, b, 1));
        let b2 = spec_keep(b1, PrefilterType::Delta, spec_delta_candidate(src, b, 2));
        spec_keep(b2, PrefilterType::Delta, spec_delta_candidate(src, b, 4))
    }
}

/// The type and payload a candidate holds.
pub open spec fn cand_view(c: Option<PrefilterCandidate>) -> Option<(PrefilterType, Seq<u8>)> {
    match c {
        Some(c) => Some((c.prefilter_type, c.encoded_payload@)),
        None => None,
    }
}

/// The payload of the static dictionary `dict_id` for `src`, if the substitution saves more
/// than `slack` bytes.
fn dict_candidate(src: &[u8], backend: PrefilterBackend, dict_id: u16, slack: usize) -> (r: Option<Vec<u8>>)
    requires
        dict_id == DICT_ID_JSON || dict_id == DICT_ID_WEB,
        src@.len() > slack,
    ensures
        r matches Some(p) ==> p@.len() >= 6 && p@[0] == backend_code(backend) && p@[1] == 2,
        opt_bytes_is(spec_dict_candidate(src@, backend, dict_id, slack as int), r),
        r matches Some(p) ==> src@.len() <= 0xFFFF_FFFF ==> forall|max: int| max >= src@.len() ==> #[trigger] spec_prefiltered(
            p@,
            src@.len() as int,
            max,
        ) == Some(src@),
{
    let tokens = match lookup_static_dict(dict_id, DICT_VERSION_CURRENT) {
        Ok(t) => t,
        Err(_) => {
            proof {
                assert(false);
            }
            return None;
        },
    };
    let esc = find_least_frequent_byte(src);
    let transformed = substitute_tokens(src, &tokens, esc);
    if transformed.len() >= src.len() - slack {
        return None;
    }
    let comp = compress_backend(backend, &transformed);
    if comp.len() == 0 {
        return None;
    }
    let mut payload: Vec<u8> = Vec::new();
    push_head(&mut payload, backend, 2, transformed.len());
    write_u16_le(&mut payload, dict_id);
    payload.push(DICT_VERSION_CURRENT);
    payload.push(esc);
    crate::buf::append_slice(&mut payload, &comp);
    proof {
        let h = payload_head(backend_code(backend), 2, transformed@.len() as int);
        let rest = le16(dict_id) + seq![DICT_VERSION_CURRENT, esc] + comp@;
        assert(payload@ =~= h + rest);
        assert(payload@ =~= h + le16(dict_id) + seq![DICT_VERSION_CURRENT, esc] + comp@);
        lemma_head(backend_code(backend), 2, transformed@.len() as int, rest);
        if src@.len() <= 0xFFFF_FFFF {
            assert forall|max: int| max >= src@.len() implies #[trigger] spec_prefiltered(payload@, src@.len() as int, max)
                == Some(src@) by {
                lemma_dict_payload(backend_code(backend), src@, dict_id, esc, comp@, transformed@, max);
            }
        }
    }
    Some(payload)
}

/// The payload of a table prefilter (`code` 3 for JSON keys, 4 for text words) with metadata
/// `meta` and transformed data `transformed`; `decodes` tells that they decode back to `src`.
fn table_candidate(
    backend: PrefilterBackend,
    code: u8,
    meta: &Vec<u8>,
    transformed: &Vec<u8>,
    src: Ghost<Seq<u8>>,
) -> (r: Option<Vec<u8>>)
    requires
        code == 3 || code == 4,
        transformed@.len() <= src@.len(),
        forall|max: int| max >= src@.len() ==> spec_table_prefilter_decode(meta@, transformed@, max)
            == Some(InvertResult::Done(src@)),
    ensures
        r matches Some(p) ==> p@.len() >= 6 && p@[0] == backend_code(backend) && p@[1] == code,
        opt_bytes_is(spec_table_candidate(backend, code, meta@, transformed@), r),
        r matches Some(p) ==> src@.len() <= 0xFFFF_FFFF ==> forall|max: int| max >= src@.len()
            ==> #[trigger] spec_prefiltered(p@, src@.len() as int, max) == Some(src@),
{
    let comp = compress_backend(backend, transformed);
    if comp.len() == 0 || meta.len() > 0xFFFF {
        return None;
    }
    let mut payload: Vec<u8> = Vec::new();
    push_head(&mut payload, backend, code, transformed.len());
    write_u16_le(&mut payload, meta.len() as u16);
    crate::buf::append_slice(&mut payload, meta);
    crate::buf::append_slice(&mut payload, &comp);
    proof {
        let h = payload_head(backend_code(backend), code, transformed@.len() as int);
        let rest = le16(meta@.len() as u16) + meta@ + comp@;
        assert(payload@ =~= h + rest);
        assert(payload@ =~= h + le16(meta@.len() as u16) + meta@ + comp@);
        lemma_head(backend_code(backend), code, transformed@.len() as int, rest);
        if src@.len() <= 0xFFFF_FFFF {
            assert forall|max: int| max >= src@.len() implies #[trigger] spec_prefiltered(payload@, src@.len() as int, max)
                == Some(src@) by {
                lemma_table_payload(backend_code(backend), code, src@, meta@, comp@, transformed@, max);
            }
        }
    }
    Some(payload)
}

/// The payload of delta coding `src` with `stride`.
fn delta_candidate(src: &[u8], backend: PrefilterBackend, stride: u8) -> (r: Option<Vec<u8>>)
    requires
        stride_ok(stride),
    ensures
        src@.len() > 0 ==> r is Some,
        r matches Some(p) ==> p@.len() >= 6 && p@[0] == backend_code(backend) && p@[1] == 1,
        opt_bytes_is(spec_delta_candidate(src@, backend, stride), r),
        r matches Some(p) ==> src@.len() <= 0xFFFF_FFFF ==> forall|max: int| max >= src@.len() ==> #[trigger] spec_prefiltered(
            p@,
            src@.len() as int,
            max,
        ) == Some(src@),
{
    let transformed = match delta_encode(src, stride) {
        Ok(t) => t,
        Err(_) => {
            proof {
                assert(false);
            }
            return None;
        },
    };
    let comp = compress_backend(backend, &transformed);
    if comp.len() == 0 {
        return None;
    }
    proof {
        if src@.len() > 0 {
            lemma_backend_nonempty(backend_code(backend), comp@, transformed@.len() as int);
        }
    }
    let mut payload: Vec<u8> = Vec::new();
    push_head(&mut payload, backend, 1, transformed.len());
    payload.push(stride);
    crate::buf::append_slice(&mut payload, &comp);
    proof {
        let h = payload_head(backend_code(backend), 1, transformed@.len() as int);
        let rest = seq![stride] + comp@;
        assert(payload@ =~= h + rest);
        assert(payload@ =~= h + seq![stride] + comp@);
        lemma_head(backend_code(backend), 1, transformed@.len() as int, rest);
        if src@.len() <= 0xFFFF_FFFF {
            assert forall|max: int| max >= src@.len() implies #[trigger] spec_prefiltered(payload@, src@.len() as int, max)
                == Some(src@) by {
                lemma_delta_payload(backend_code(backend), src@, stride, comp@, max);
            }
        }
    }
    Some(payload)
}

/// Keeps the smaller of the current best candidate and a new payload.
fn keep_best(best: Option<PrefilterCandidate>, backend: PrefilterBackend, t: PrefilterType, payload: Option<Vec<u8>>) -> (r: Option<PrefilterCandidate>)
    ensures
        best is Some || payload is Some ==> r is Some,
        r matches Some(c) ==> (best matches Some(b) && c == b) || (payload matches Some(p) && c.backend == backend
            && c.prefilter_type == t && c.encoded_payload == p),
        cand_view(r) == spec_keep(
            cand_view(best),
            t,
            match payload {
                Some(p) => Some(p@),
                None => None,
            },
        ),
{
    match payload {
        None => best,
        Some(p) => match best {
            None => Some(PrefilterCandidate { backend, prefilter_type: t, encoded_payload: p }),
            Some(b) => if p.len() < b.encoded_payload.len() {
                Some(PrefilterCandidate { backend, prefilter_type: t, encoded_payload: p })
            } else {
                Some(b)
            },
        },
    }
}

/// Tries to encode `src` with a prefilter suited to it and the backend `backend`: for JSON
/// the static JSON dictionary and the dynamic key table, for other text the static web
/// dictionary and the dynamic word table, for anything else delta coding with strides 1, 2
/// and 4. The smallest payload wins; `None` when no prefilter applies.
pub fn try_encode_prefilter(src: &[u8], backend: PrefilterBackend, level: u8) -> (r: Option<PrefilterCandidate>)
    ensures
        src@.len() < 32 ==> r is None,
        r matches Some(c) ==> c.backend == backend && c.encoded_payload@.len() >= 6 && c.encoded_payload@[0]
            == backend_code(backend) && c.encoded_payload@[1] == prefilter_code(c.prefilter_type),
        r matches Some(c) ==> (spec_is_json(src@) ==> (c.prefilter_type == PrefilterType::StaticDictionary
            || c.prefilter_type == PrefilterType::Json)),
        r matches Some(c) ==> (!spec_is_json(src@) && spec_is_text(src@) ==> (c.prefilter_type
            == PrefilterType::StaticDictionary || c.prefilter_type == PrefilterType::Text)),
        src@.len() >= 32 && !spec_is_json(src@) && !spec_is_text(src@) ==> (r matches Some(c) && c.prefilter_type
            == PrefilterType::Delta),
        r matches Some(c) ==> src@.len() <= 0xFFFF_FFFF ==> candidate_decodes(c, src@),
        cand_view(r) == spec_prefilter_choice(src@, backend),
{
    if src.len() < 32 {
        return None;
    }
    let ghost s = src@;
    if is_json(src) {
        let p1 = dict_candidate(src, backend, DICT_ID_JSON, 0);
        let best = keep_best(None, backend, PrefilterType::StaticDictionary, p1);
        match json_prefilter_encode(src) {
            Some((meta, transformed)) => {
                let p2 = table_candidate(backend, 3, &meta, &transformed, Ghost(s));
                keep_best(best, backend, PrefilterType::Json, p2)
            },
            None => best,
        }
    } else if is_text(src) {
        let p1 = dict_candidate(src, backend, DICT_ID_WEB, 16);
        let best = keep_best(None, backend, PrefilterType::StaticDictionary, p1);
        match text_prefilter_encode(src) {
            Some((meta, transformed)) => {
                let p2 = table_candidate(backend, 4, &meta, &transformed, Ghost(s));
                keep_best(best, backend, PrefilterType::Text, p2)
            },
            None => best,
        }
    } else {
        let p1 = delta_candidate(src, backend, 1);
        let best = keep_best(None, backend, PrefilterType::Delta, p1);
        let p2 = delta_candidate(src, backend, 2);
        let best = keep_best(best, backend, PrefilterType::Delta, p2);
        let p4 = delta_candidate(src, backend, 4);
        keep_best(best, backend, PrefilterType::Delta, p4)
    }
}

} // verus!
