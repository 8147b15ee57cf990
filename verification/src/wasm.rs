//! Entry points for embedding hosts: version, and compression with a numeric level.
use vstd::prelude::*;

use crate::error::CodropError;
use crate::streaming::decoder::{decode_limit, spec_decode_stream, stream_error_is};
use crate::streaming::encoder::CompressionLevel;
use crate::streaming::encoder::{spec_stream_bytes, stream_size_bound};
use crate::{compress_options, limit_options, DecoderOptions};

verus! {

/// The engine version.
pub fn version() -> (r: &'static str)
    ensures
        r@ == "1.0.0"@,
{
    "1.0.0"
}

/// The level with numeric code `code`: 0 fast, 1 balanced, 2 compact, anything else auto.
pub open spec fn spec_level_from_code(code: u8) -> CompressionLevel {
    if code == 0 {
        CompressionLevel::Fast
    } else if code == 1 {
        CompressionLevel::Balanced
    } else if code == 2 {
        CompressionLevel::Compact
    } else {
        CompressionLevel::Auto
    }
}

/// The compression level with numeric code `code` (0 fast, 1 balanced, 2 compact, other
/// codes auto), as embedding hosts pass it.
pub fn level_from_code(code: u8) -> (r: CompressionLevel)
    ensures
        r == spec_level_from_code(code),
{
    if code == 0 {
        CompressionLevel::Fast
    } else if code == 1 {
        CompressionLevel::Balanced
    } else if code == 2 {
        CompressionLevel::Compact
    } else {
        CompressionLevel::Auto
    }
}

/// Compresses `data` at the level with code `level` (see `level_from_code`), as
/// `crate::compress` does at that level.
pub fn compress(data: &[u8], level: u8) -> (r: Result<Vec<u8>, CodropError>)
    ensures
        r matches Ok(c) && forall|opts: DecoderOptions| data@.len() <= decode_limit(opts) ==> #[trigger] spec_decode_stream(
            c@,
            opts,
        ) == Some(data@),
        r matches Ok(c) && c@.len() <= stream_size_bound(
            compress_options(spec_level_from_code(level), data@.len() as u64),
            data@.len(),
        ),
        r matches Ok(c) && c@ == spec_stream_bytes(compress_options(spec_level_from_code(level), data@.len() as u64), data@),
{
    let comp_level = level_from_code(level);
    crate::compress(data, comp_level)
}

/// Decompresses `compressed` with the output limit `max_size`, 1 GB when absent.
pub fn decompress(compressed: &[u8], max_size: Option<u64>) -> (r: Result<Vec<u8>, CodropError>)
    ensures
        ({
            let limit = match max_size {
                Some(m) => m,
                None => 1073741824u64,
            };
            &&& r is Ok <==> spec_decode_stream(compressed@, limit_options(limit)) is Some
            &&& r matches Ok(v) ==> spec_decode_stream(compressed@, limit_options(limit)) == Some(v@)
            &&& r matches Err(e) ==> stream_error_is(compressed@, limit_options(limit), e)
        }),
{
    let limit = match max_size {
        Some(m) => m,
        None => 1024 * 1024 * 1024,
    };
    crate::decompress_with_limit(compressed, limit)
}

} // verus!
