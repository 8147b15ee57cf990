use libcodrop::checksum::{Crc32c, Crc8, StreamHash64};
use libcodrop::codec::{LzhCodec, RawCodec, RleCodec};
use libcodrop::error::CodropError;
use libcodrop::format::{validate_magic, BlockHeader, BlockType, StreamHeader, CODROP_MAGIC};

#[test]
fn test_crc32c_standard_check() {
    let data = b"123456789";
    let c = Crc32c::compute(data);
    assert_eq!(c, 0xE3069283);
}

#[test]
fn test_crc8_basic() {
    let data = b"123456789";
    let c = Crc8::compute(data);
    assert_eq!(c, 0xF4);
}

#[test]
fn test_stream_hash_deterministic() {
    let data = b"The quick brown fox jumps over the lazy dog";
    let h1 = StreamHash64::compute(data);
    let h2 = StreamHash64::compute(data);
    assert_eq!(h1, h2);

    let mut incremental = StreamHash64::new();
    incremental.update(&data[..10]);
    incremental.update(&data[10..]);
    assert_eq!(h1, incremental.finalize());
}

#[test]
fn test_crc32c_incremental_matches_single_pass() {
    let data = b"incremental checksum across a split point";
    let mut c = Crc32c::new();
    c.update(&data[..7]);
    c.update(&data[7..]);
    assert_eq!(c.finalize(), Crc32c::compute(data));
}

#[test]
fn test_crc8_incremental_matches_single_pass() {
    let data = b"header bytes";
    let mut c = Crc8::new();
    c.update(&data[..5]);
    c.update(&data[5..]);
    assert_eq!(c.finalize(), Crc8::compute(data));
}

#[test]
fn test_raw_codec_roundtrip() {
    let original = b"Arbitrary uncompressible binary or text payload 12345";
    let enc = RawCodec::encode(original);
    assert_eq!(enc, original);
    let dec = RawCodec::decode(&enc, original.len()).unwrap();
    assert_eq!(dec, original);
}

#[test]
fn test_raw_codec_length_mismatch() {
    let err = RawCodec::decode(b"abc", 4).unwrap_err();
    assert!(matches!(err, CodropError::CorruptedHeader(_)));
}

#[test]
fn test_rle_roundtrip() {
    let mut original = Vec::new();
    original.extend(vec![0xAA; 1000]);
    original.extend(vec![0xBB; 25]);
    original.extend(vec![0x00; 5000]);
    original.extend(b"Hello World!");

    let enc = RleCodec::encode(&original);
    assert!(enc.len() < original.len());

    let dec = RleCodec::decode(&enc, original.len()).unwrap();
    assert_eq!(dec, original);
}

#[test]
fn test_rle_overflow_protection() {
    let mut bad_stream = Vec::new();
    bad_stream.push(0x42);
    bad_stream.push(0xE8);
    bad_stream.push(0x07);

    let err = RleCodec::decode(&bad_stream, 500).unwrap_err();
    assert!(matches!(err, CodropError::InvalidMatchLength { .. }));
}

#[test]
fn test_rle_exact_encoding() {
    // A run of 300 bytes 0x41: the byte, then 300 as ULEB128 (0xAC 0x02).
    let enc = RleCodec::encode(&vec![0x41u8; 300]);
    assert_eq!(enc, vec![0x41, 0xAC, 0x02]);
}

#[test]
fn test_lzh_roundtrip() {
    let data = b"Lorem ipsum dolor sit amet, consectetur adipiscing elit. Sed do eiusmod tempor incididunt ut labore et dolore magna aliqua. Lorem ipsum dolor sit amet!";
    let compressed = LzhCodec::encode(data);
    let decompressed = LzhCodec::decode(&compressed, data.len()).unwrap();
    assert_eq!(decompressed, data);
}

#[test]
fn test_lzh_empty_and_truncated() {
    let compressed = LzhCodec::encode(b"");
    assert!(compressed.is_empty());
    assert_eq!(LzhCodec::decode(&compressed, 0).unwrap(), Vec::<u8>::new());
    let err = LzhCodec::decode(&[0x00, 0x01], 10).unwrap_err();
    assert_eq!(err, CodropError::UnexpectedEof);
}

#[test]
fn test_valid_magic() {
    assert!(validate_magic(&CODROP_MAGIC).is_ok());
}

#[test]
fn test_invalid_magic() {
    assert_eq!(validate_magic(b"GZIP"), Err(CodropError::InvalidMagic(*b"GZIP")));
}

#[test]
fn test_block_header_roundtrip() {
    let header = BlockHeader {
        block_type: BlockType::Lzh,
        has_checksum: true,
        is_last: false,
        compressed_size: 4096,
        uncompressed_size: 16384,
        checksum: Some(0xDEADBEEF),
    };

    let mut buf = Vec::new();
    header.write_to(&mut buf);

    let mut cursor = 0usize;
    let parsed = BlockHeader::read_from(&buf, &mut cursor).unwrap();
    assert_eq!(header, parsed);
    assert_eq!(cursor, buf.len());
}

#[test]
fn test_eos_block_roundtrip() {
    let eos = BlockHeader::end_of_stream();
    let mut buf = Vec::new();
    eos.write_to(&mut buf);

    let mut cursor = 0usize;
    let parsed = BlockHeader::read_from(&buf, &mut cursor).unwrap();
    assert_eq!(parsed.block_type, BlockType::EndOfStream);
    assert!(parsed.is_last);
}

#[test]
fn test_block_checksum_mismatch() {
    let header = BlockHeader {
        block_type: BlockType::Raw,
        has_checksum: true,
        is_last: true,
        compressed_size: 3,
        uncompressed_size: 3,
        checksum: Some(Crc32c::compute(b"abc")),
    };
    assert!(header.verify_checksum(b"abc").is_ok());
    assert!(matches!(
        header.verify_checksum(b"abd"),
        Err(CodropError::BlockChecksumMismatch { .. })
    ));
}

#[test]
fn test_header_roundtrip_default() {
    let header = StreamHeader::default();
    let mut buf = Vec::new();
    header.write_to(&mut buf);

    let mut cursor = 0usize;
    let parsed = StreamHeader::read_from(&buf, &mut cursor).unwrap();
    assert_eq!(header, parsed);
}

#[test]
fn test_header_roundtrip_with_size_and_custom_window() {
    let mut header = StreamHeader::default();
    header.flags.has_uncompressed_size = true;
    header.flags.window_code = 3;
    header.window_size = 4 * 1024 * 1024;
    header.uncompressed_size = Some(123456789);

    let mut buf = Vec::new();
    header.write_to(&mut buf);

    let mut cursor = 0usize;
    let parsed = StreamHeader::read_from(&buf, &mut cursor).unwrap();
    assert_eq!(header, parsed);
}

#[test]
fn test_header_corrupted_crc() {
    let header = StreamHeader::default();
    let mut buf = Vec::new();
    header.write_to(&mut buf);

    let last = buf.len() - 1;
    buf[last] ^= 0xFF;

    let mut cursor = 0usize;
    let err = StreamHeader::read_from(&buf, &mut cursor).unwrap_err();
    assert!(matches!(err, CodropError::HeaderChecksumMismatch { .. }));
}

#[test]
fn test_header_truncated_is_eof() {
    let mut cursor = 0usize;
    let err = StreamHeader::read_from(&CODROP_MAGIC, &mut cursor).unwrap_err();
    assert_eq!(err, CodropError::UnexpectedEof);
}
