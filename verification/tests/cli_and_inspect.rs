use libcodrop::cli::{
    error_to_exit_code, parse_level_name, EXIT_GENERAL_FAILURE, EXIT_LIMIT_EXCEEDED, EXIT_MALFORMED_STREAM, EXIT_UNSUPPORTED_FEATURE,
};
use libcodrop::error::CodropError;
use libcodrop::inspect::summarize_stream;
use libcodrop::streaming::{Encoder, EncoderOptions};
use libcodrop::{compress, BlockType, CompressionLevel};

#[test]
fn test_exit_codes() {
    assert_eq!(error_to_exit_code(&CodropError::UnsupportedVersion { major: 2, minor: 0 }), EXIT_UNSUPPORTED_FEATURE);
    assert_eq!(error_to_exit_code(&CodropError::UnsupportedBlockType(BlockType::ReservedCustom)), 3);
    assert_eq!(error_to_exit_code(&CodropError::UnsupportedPrefilter(9)), 3);
    assert_eq!(error_to_exit_code(&CodropError::UnknownDictionary { dict_id: 7, version: 1 }), 3);
    assert_eq!(error_to_exit_code(&CodropError::InvalidMagic(*b"ABCD")), EXIT_MALFORMED_STREAM);
    assert_eq!(error_to_exit_code(&CodropError::UnexpectedEof), 2);
    assert_eq!(error_to_exit_code(&CodropError::StreamChecksumMismatch { expected: 1, actual: 2 }), 2);
    assert_eq!(error_to_exit_code(&CodropError::DecompressionBombDetected { limit: 1, requested: 2 }), EXIT_LIMIT_EXCEEDED);
    assert_eq!(error_to_exit_code(&CodropError::Io("x".to_string())), EXIT_GENERAL_FAILURE);
    assert_eq!(error_to_exit_code(&CodropError::ImageError("x".to_string())), 1);
}

#[test]
fn test_level_names() {
    assert_eq!(parse_level_name(b"fast"), Some(CompressionLevel::Fast));
    assert_eq!(parse_level_name(b"FAST"), Some(CompressionLevel::Fast));
    assert_eq!(parse_level_name(b"Balanced"), Some(CompressionLevel::Balanced));
    assert_eq!(parse_level_name(b"compact"), Some(CompressionLevel::Compact));
    assert_eq!(parse_level_name(b"aUtO"), Some(CompressionLevel::Auto));
    assert_eq!(parse_level_name(b"max"), None);
    assert_eq!(parse_level_name(b"fast "), None);
    assert_eq!(parse_level_name(b""), None);
}

#[test]
fn test_summarize_compressed_stream() {
    let mut data = vec![0x41u8; 300_000];
    data.extend((0..200_000u32).map(|i| (i.wrapping_mul(2654435761) >> 13) as u8));
    let cdp = compress(&data, CompressionLevel::Fast).unwrap();
    let summary = summarize_stream(&cdp).unwrap();
    assert_eq!(summary.header.version_major, 1);
    assert_eq!(summary.header.uncompressed_size, Some(data.len() as u64));
    assert_eq!(summary.total_uncompressed_bytes, data.len() as u64);
    assert!(summary.total_blocks >= 2);
    assert_eq!(
        summary.total_blocks,
        summary.raw_blocks
            + summary.rle_blocks
            + summary.lzf_blocks
            + summary.lzh_blocks
            + summary.lza_blocks
            + summary.prefilter_blocks
            + summary.other_blocks
    );
    assert!(summary.rle_blocks >= 1);
    assert!(summary.total_compressed_payload_bytes < cdp.len() as u64);
}

#[test]
fn test_summarize_empty_stream_and_errors() {
    let cdp = compress(&[], CompressionLevel::Balanced).unwrap();
    let summary = summarize_stream(&cdp).unwrap();
    assert_eq!(summary.total_blocks, 0);
    assert_eq!(summary.total_uncompressed_bytes, 0);

    assert!(matches!(summarize_stream(b"NOPE\x10\x00\x00\x00"), Err(CodropError::InvalidMagic(_))));
    assert!(matches!(summarize_stream(b""), Err(CodropError::UnexpectedEof)));
}

#[test]
fn test_summarize_stops_at_truncated_payload() {
    let options = EncoderOptions { level: CompressionLevel::Fast, block_size: 1000, ..EncoderOptions::default() };
    let mut encoder = Encoder::new(options);
    encoder.write_chunk(&vec![7u8; 3000]).unwrap();
    let cdp = encoder.finish().unwrap();
    let full = summarize_stream(&cdp).unwrap();
    assert_eq!(full.total_blocks, 3);
    assert_eq!(full.rle_blocks + full.lzf_blocks, 3);
    // Cut inside the last block's payload: the walk ends there without an error.
    let cut = &cdp[..cdp.len() - 10];
    let partial = summarize_stream(cut).unwrap();
    assert!(partial.total_blocks <= 3);
}
