//! Byte-wise delta prefilter: `out[i] = in[i] - in[i - stride] (mod 256)`.
use vstd::prelude::*;

use crate::error::{CodropError, CodropResult};

verus! {

/// Maximum supported stride for delta encoding.
pub const MAX_DELTA_STRIDE: u8 = 8;

/// Whether a stride is supported.
pub open spec fn stride_ok(stride: u8) -> bool {
    1 <= stride <= MAX_DELTA_STRIDE
}

/// Delta encoding of `src` with the given stride.
pub open spec fn spec_delta_encode(src: Seq<u8>, stride: u8) -> Seq<u8> {
    Seq::new(src.len(), |i: int| if i < stride { src[i] } else { src[i].wrapping_sub(src[i - stride]) })
}

/// The `i`-th byte recovered from a delta-encoded sequence.
pub open spec fn delta_value_at(src: Seq<u8>, stride: u8, i: int) -> u8
    decreases i,
{
    if i < stride || stride == 0 || i < 0 {
        src[i]
    } else {
        delta_value_at(src, stride, i - stride).wrapping_add(src[i])
    }
}

/// Inverse delta transform of `src` with the given stride.
pub open spec fn spec_delta_decode(src: Seq<u8>, stride: u8) -> Seq<u8> {
    Seq::new(src.len(), |i: int| delta_value_at(src, stride, i))
}

/// Encode `src` using modulo-256 byte differences at distance `stride` (1..=8).
pub fn delta_encode(src: &[u8], stride: u8) -> (r: CodropResult<Vec<u8>>)
    ensures
        stride_ok(stride) ==> (r matches Ok(v) && v@ == spec_delta_encode(src@, stride)),
        !stride_ok(stride) ==> r matches Err(CodropError::CorruptedPrefilterData(_)),
{
    if stride == 0 || stride > MAX_DELTA_STRIDE {
        return Err(CodropError::CorruptedPrefilterData("invalid delta stride (must be 1..=8)".to_string()));
    }
    let s = stride as usize;
    let mut out: Vec<u8> = Vec::new();
    let mut i: usize = 0;
    while i < src.len()
        invariant
            i <= src@.len(),
            s == stride as usize,
            out@ == spec_delta_encode(src@, stride).take(i as int),
        decreases src@.len() - i,
    {
        if i < s {
            out.push(src[i]);
        } else {
            out.push(src[i].wrapping_sub(src[i - s]));
        }
        i = i + 1;
        assert(out@ =~= spec_delta_encode(src@, stride).take(i as int));
    }
    assert(spec_delta_encode(src@, stride).take(i as int) =~= spec_delta_encode(src@, stride));
    Ok(out)
}

/// Invert delta encoding; rejects outputs longer than `max_output_size`.
pub fn delta_decode(src: &[u8], stride: u8, max_output_size: usize) -> (r: CodropResult<Vec<u8>>)
    ensures
        !stride_ok(stride) ==> r matches Err(CodropError::CorruptedPrefilterData(_)),
        stride_ok(stride) && src@.len() > max_output_size ==> r == Err::<Vec<u8>, CodropError>(
            CodropError::DecompressionBombDetected { limit: max_output_size as u64, requested: src@.len() as u64 },
        ),
        stride_ok(stride) && src@.len() <= max_output_size ==> (r matches Ok(v) && v@ == spec_delta_decode(src@, stride)),
{
    if stride == 0 || stride > MAX_DELTA_STRIDE {
        return Err(CodropError::CorruptedPrefilterData("invalid delta stride (must be 1..=8)".to_string()));
    }
    if src.len() > max_output_size {
        return Err(CodropError::DecompressionBombDetected { limit: max_output_size as u64, requested: src.len() as u64 });
    }
    let s = stride as usize;
    let mut out: Vec<u8> = Vec::new();
    let mut i: usize = 0;
    while i < src.len()
        invariant
            i <= src@.len(),
            s == stride as usize,
            stride_ok(stride),
            out@ == spec_delta_decode(src@, stride).take(i as int),
        decreases src@.len() - i,
    {
        if i < s {
            out.push(src[i]);
        } else {
            let prev = out[i - s];
            out.push(prev.wrapping_add(src[i]));
        }
        i = i + 1;
        assert(out@ =~= spec_delta_decode(src@, stride).take(i as int));
    }
    assert(spec_delta_decode(src@, stride).take(i as int) =~= spec_delta_decode(src@, stride));
    Ok(out)
}

proof fn lemma_delta_value_at(x: Seq<u8>, stride: u8, i: int)
    requires
        stride_ok(stride),
        0 <= i < x.len(),
    ensures
        delta_value_at(spec_delta_encode(x, stride), stride, i) == x[i],
    decreases i,
{
    if i >= stride {
        lemma_delta_value_at(x, stride, i - stride);
        let a = x[i - stride];
        let b = x[i];
        assert(a.wrapping_add(b.wrapping_sub(a)) == b);
    }
}

/// Decoding the delta encoding of `x` with the same stride gives `x` back.
pub proof fn law_delta_roundtrip(x: Seq<u8>, stride: u8)
    requires
        stride_ok(stride),
    ensures
        spec_delta_decode(spec_delta_encode(x, stride), stride) == x,
{
    assert forall|i: int| 0 <= i < x.len() implies #[trigger] spec_delta_decode(spec_delta_encode(x, stride), stride)[i] == x[i] by {
        lemma_delta_value_at(x, stride, i);
    }
    assert(spec_delta_decode(spec_delta_encode(x, stride), stride) =~= x);
}

} // verus!
