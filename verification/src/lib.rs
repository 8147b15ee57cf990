//! Codrop: a block-based lossless compression container with verified codecs.
//!
//! A `.cdp` stream is a header, a series of blocks (stored, run-length, LZF, LZH, LZA or
//! prefiltered) and an end-of-stream marker with an optional whole-stream hash.
use vstd::prelude::*;

pub mod analysis;
pub mod buf;
pub mod checksum;
pub mod cli;
pub mod codec;
pub mod entropy;
pub mod error;
pub mod format;
pub mod image_codec;
pub mod inspect;
pub mod le_bytes;
pub mod prefilter;
pub mod streaming;
pub mod varint;
pub mod wasm;

pub use error::CodropError;
pub use format::{BlockHeader, BlockType, HeaderFlags, StreamHeader};
pub use image_codec::{compress_image, CodropImageFormat, ImageOptions};
pub use streaming::{CompressionLevel, Decoder, DecoderOptions, Encoder, EncoderOptions, DEFAULT_BLOCK_SIZE};

use streaming::decoder::{decode_limit, law_decode_within_limit, spec_decode_stream, stream_error_is};
use streaming::encoder::{spec_stream_bytes, stream_size_bound};

verus! {

/// The decoder settings used by `decompress_with_limit`: all checks on, at most `limit`
/// bytes of output.
pub open spec fn limit_options(limit: u64) -> DecoderOptions {
    DecoderOptions { max_output_bytes: Some(limit), verify_block_checksums: true, verify_stream_checksum: true }
}

/// The encoder settings that `compress` uses for `n` bytes at `level`.
pub open spec fn compress_options(level: CompressionLevel, n: u64) -> EncoderOptions {
    EncoderOptions {
        level,
        block_size: DEFAULT_BLOCK_SIZE,
        include_block_checksum: true,
        include_stream_checksum: true,
        known_uncompressed_size: Some(n),
    }
}

/// Compresses `data` into a `.cdp` stream at `level`, with block and stream checksums and
/// the data's length in the header: exactly `spec_stream_bytes` of the data, so the same data
/// always gives the same stream. The stream decodes back to `data` under any settings whose
/// output limit admits it, and it is never longer than the data plus the container's own
/// overhead (no block is stored longer than it is): at most 48 bytes plus 16 per full
/// 128 KB block.
pub fn compress(data: &[u8], level: CompressionLevel) -> (r: Result<Vec<u8>, CodropError>)
    ensures
        r matches Ok(c) && forall|opts: DecoderOptions| data@.len() <= decode_limit(opts) ==> #[trigger] spec_decode_stream(
            c@,
            opts,
        ) == Some(data@),
        r matches Ok(c) && c@.len() <= stream_size_bound(compress_options(level, data@.len() as u64), data@.len()),
        r matches Ok(c) && c@ == spec_stream_bytes(compress_options(level, data@.len() as u64), data@),
        r matches Ok(c) && c@.len() <= data@.len() + 16 * (data@.len() / (DEFAULT_BLOCK_SIZE as nat)) + 48,
{
    proof {
        crate::format::header::lemma_header_bytes_len(
            streaming::encoder::options_header(compress_options(level, data@.len() as u64)),
        );
    }
    let options = EncoderOptions {
        level,
        block_size: DEFAULT_BLOCK_SIZE,
        include_block_checksum: true,
        include_stream_checksum: true,
        known_uncompressed_size: Some(data.len() as u64),
    };
    let mut encoder = Encoder::new(options);
    match encoder.write_chunk(data) {
        Ok(_) => {},
        Err(e) => {
            return Err(e);
        },
    }
    encoder.finish()
}

/// Decompresses a `.cdp` stream with a 1 GB output limit.
pub fn decompress(compressed: &[u8]) -> (r: Result<Vec<u8>, CodropError>)
    ensures
        r is Ok <==> spec_decode_stream(compressed@, limit_options(1073741824u64)) is Some,
        r matches Ok(v) ==> spec_decode_stream(compressed@, limit_options(1073741824u64)) == Some(v@),
        r matches Err(e) ==> stream_error_is(compressed@, limit_options(1073741824u64), e),
{
    decompress_with_limit(compressed, 1024 * 1024 * 1024)
}

/// Decompresses a `.cdp` stream, refusing to produce more than `max_output_bytes` bytes.
pub fn decompress_with_limit(compressed: &[u8], max_output_bytes: u64) -> (r: Result<Vec<u8>, CodropError>)
    ensures
        r is Ok <==> spec_decode_stream(compressed@, limit_options(max_output_bytes)) is Some,
        r matches Ok(v) ==> spec_decode_stream(compressed@, limit_options(max_output_bytes)) == Some(v@),
        r matches Ok(v) ==> v@.len() <= max_output_bytes,
        r matches Err(e) ==> stream_error_is(compressed@, limit_options(max_output_bytes), e),
{
    proof {
        law_decode_within_limit(compressed@, limit_options(max_output_bytes));
    }
    let options = DecoderOptions {
        max_output_bytes: Some(max_output_bytes),
        verify_block_checksums: true,
        verify_stream_checksum: true,
    };
    let mut decoder = match Decoder::new(compressed, options) {
        Ok(d) => d,
        Err(e) => {
            return Err(e);
        },
    };
    let mut output: Vec<u8> = Vec::new();
    match decoder.decompress_to(&mut output) {
        Ok(_) => {
            assert(output@.skip(0) =~= output@);
            assert(Seq::<u8>::empty() + output@ =~= output@);
            Ok(output)
        },
        Err(e) => Err(e),
    }
}

/// A stream that `compress` writes, cut short anywhere, fails to decompress, whatever the
/// output limit.
pub proof fn law_truncated_compressed_fails(level: CompressionLevel, n: u64, data: Seq<u8>, cut: int, limit: u64)
    requires
        0 <= cut < spec_stream_bytes(compress_options(level, n), data).len(),
    ensures
        spec_decode_stream(spec_stream_bytes(compress_options(level, n), data).take(cut), limit_options(limit)) is None,
{
    streaming::truncation::law_truncated_stream_fails(compress_options(level, n), data, cut, limit_options(limit));
}

/// Compressing and then decompressing gives back the data, whenever it fits the limit.
pub proof fn law_compress_decompress(data: Seq<u8>, compressed: Seq<u8>, limit: u64)
    requires
        forall|opts: DecoderOptions| data.len() <= decode_limit(opts) ==> #[trigger] spec_decode_stream(compressed, opts)
            == Some(data),
        data.len() <= limit,
    ensures
        spec_decode_stream(compressed, limit_options(limit)) == Some(data),
{
    assert(decode_limit(limit_options(limit)) == limit);
}

} // verus!
