use libcodrop::wasm::level_from_code;
use libcodrop::error::CodropError;
use libcodrop::format::{BlockHeader, BlockType, StreamHeader};
use libcodrop::streaming::{Decoder, DecoderOptions, Encoder, EncoderOptions};
use libcodrop::{compress, decompress, decompress_with_limit, CompressionLevel};

struct SimpleRng {
    state: u64,
}

impl SimpleRng {
    fn new(seed: u64) -> Self {
        Self { state: seed }
    }

    fn next_u32(&mut self) -> u32 {
        self.state = self.state.wrapping_mul(6364136223846793005).wrapping_add(1);
        (self.state >> 32) as u32
    }

    fn next_bytes(&mut self, len: usize) -> Vec<u8> {
        let mut buf = Vec::with_capacity(len);
        for _ in 0..len {
            buf.push((self.next_u32() & 0xFF) as u8);
        }
        buf
    }
}

fn decode_and_inspect(cdp_data: &[u8]) -> (Vec<u8>, Vec<BlockHeader>) {
    let options = DecoderOptions {
        max_output_bytes: Some(10 * 1024 * 1024),
        verify_block_checksums: true,
        verify_stream_checksum: true,
    };
    let mut decoder = Decoder::new(cdp_data, options).expect("valid stream header");
    let mut headers = Vec::new();
    let mut output = Vec::new();

    let mut pos = 0usize;
    let _stream_header = StreamHeader::read_from(cdp_data, &mut pos).expect("stream header");
    loop {
        let block_header = BlockHeader::read_from(cdp_data, &mut pos).expect("block header");
        if block_header.block_type == BlockType::EndOfStream {
            headers.push(block_header);
            break;
        }
        pos += block_header.compressed_size as usize;
        headers.push(block_header);
    }

    decoder.decompress_to(&mut output).expect("decompression succeeds");
    (output, headers)
}

#[test]
fn test_roundtrip_empty() {
    let empty: &[u8] = b"";
    let c = compress(empty, CompressionLevel::Auto).unwrap();
    let d = decompress(&c).unwrap();
    assert_eq!(d, empty);
}

#[test]
fn test_roundtrip_single_byte_zero() {
    let data = [0u8];
    let c = compress(&data, CompressionLevel::Fast).unwrap();
    let d = decompress(&c).unwrap();
    assert_eq!(d, data);
}

#[test]
fn test_roundtrip_single_byte_max() {
    let data = [255u8];
    let c = compress(&data, CompressionLevel::Balanced).unwrap();
    let d = decompress(&c).unwrap();
    assert_eq!(d, data);
}

#[test]
fn test_roundtrip_small_text() {
    let text = b"hello world";
    let c = compress(text, CompressionLevel::Auto).unwrap();
    let d = decompress(&c).unwrap();
    assert_eq!(d, text);
}

#[test]
fn test_roundtrip_repetitive_rle() {
    let data = b"AAAAAAAAAAAAAAAAAAAAAAAA";
    let c = compress(data, CompressionLevel::Auto).unwrap();
    let d = decompress(&c).unwrap();
    assert_eq!(d, data);
}

#[test]
fn test_roundtrip_alternating() {
    let data = b"ABABABABABABABAB";
    let c = compress(data, CompressionLevel::Compact).unwrap();
    let d = decompress(&c).unwrap();
    assert_eq!(d, data);
}

#[test]
fn test_roundtrip_structured_json() {
    let json = br#"{"name":"codrop","version":1}"#;
    let c = compress(json, CompressionLevel::Balanced).unwrap();
    let d = decompress(&c).unwrap();
    assert_eq!(d, json);
}

#[test]
fn test_roundtrip_binary_all_bytes() {
    let mut all_bytes = Vec::with_capacity(256);
    for b in 0..=255u8 {
        all_bytes.push(b);
    }
    let c = compress(&all_bytes, CompressionLevel::Auto).unwrap();
    let d = decompress(&c).unwrap();
    assert_eq!(d, all_bytes);
}

#[test]
fn test_roundtrip_large_deterministic_buffers() {
    for &size in &[1024, 64 * 1024, 128 * 1024, 256 * 1024] {
        let mut buf = Vec::with_capacity(size);
        for i in 0..size {
            buf.push((i % 251) as u8);
        }
        let c = compress(&buf, CompressionLevel::Balanced).unwrap();
        let d = decompress(&c).unwrap();
        assert_eq!(d, buf, "Failed for size {}", size);
    }
}

#[test]
fn test_expansion_safeguard_forces_raw() {
    let mut buf = Vec::with_capacity(500);
    for i in 0..500 {
        buf.push((i * 37 % 256) as u8);
    }
    let c = compress(&buf, CompressionLevel::Auto).unwrap();
    assert!(c.len() <= buf.len() + 40);
    let d = decompress(&c).unwrap();
    assert_eq!(d, buf);
}

#[test]
fn test_unsupported_future_block_type_error() {
    let mut header = StreamHeader::default();
    header.flags.has_stream_checksum = false;
    let mut buf = Vec::new();
    header.write_to(&mut buf);

    let rc_block = BlockHeader {
        block_type: BlockType::ReservedCustom,
        has_checksum: false,
        is_last: true,
        compressed_size: 4,
        uncompressed_size: 4,
        checksum: None,
    };
    rc_block.write_to(&mut buf);
    buf.extend_from_slice(b"1234");

    let err = decompress(&buf).unwrap_err();
    assert_eq!(err, CodropError::UnsupportedBlockType(BlockType::ReservedCustom));
}

#[test]
fn test_streaming_encoder_in_chunks_matches_one_shot() {
    let data: Vec<u8> = (0..10_000u32).map(|i| (i % 97) as u8).collect();
    let options = EncoderOptions { block_size: 1000, ..EncoderOptions::default() };
    let mut encoder = Encoder::new(options);
    assert_eq!(encoder.write_chunk(&data[..3333]).unwrap(), 3333);
    assert_eq!(encoder.write_chunk(&data[3333..]).unwrap(), data.len() - 3333);
    let stream = encoder.finish().unwrap();
    let (decoded, headers) = decode_and_inspect(&stream);
    assert_eq!(decoded, data);
    assert_eq!(headers.len(), 11);
}

#[test]
fn test_decoder_block_by_block() {
    let data = vec![7u8; 300];
    let options = EncoderOptions { block_size: 100, include_stream_checksum: false, ..EncoderOptions::default() };
    let mut encoder = Encoder::new(options);
    encoder.write_chunk(&data).unwrap();
    let stream = encoder.finish().unwrap();
    let mut decoder = Decoder::new(&stream, DecoderOptions::default()).unwrap();
    assert!(!decoder.header().flags.has_stream_checksum);
    let mut blocks = 0;
    while let Some(block) = decoder.decode_next_block().unwrap() {
        assert_eq!(block, vec![7u8; 100]);
        blocks += 1;
    }
    assert_eq!(blocks, 3);
    assert_eq!(decoder.decode_next_block().unwrap(), None);
}

#[test]
fn test_stream_checksum_mismatch_detected() {
    let mut cdp = compress(b"stream hash check", CompressionLevel::Fast).unwrap();
    let last = cdp.len() - 1;
    cdp[last] ^= 0x01;
    assert!(matches!(decompress(&cdp), Err(CodropError::StreamChecksumMismatch { .. })));
}

#[test]
fn test_wasm_version() {
    assert_eq!(libcodrop::wasm::version(), "1.0.0");
}

#[test]
fn test_wasm_compress_decompress_roundtrip() {
    let input = b"Hello from Codrop WebAssembly engine!";
    let compressed = libcodrop::wasm::compress(input, 1).expect("compression should succeed");
    let decompressed = libcodrop::wasm::decompress(&compressed, None).expect("decompression should succeed");
    assert_eq!(decompressed, input);
}

#[test]
fn test_wasm_level_codes_and_limit() {
    assert_eq!(level_from_code(0), CompressionLevel::Fast);
    assert_eq!(level_from_code(1), CompressionLevel::Balanced);
    assert_eq!(level_from_code(2), CompressionLevel::Compact);
    assert_eq!(level_from_code(3), CompressionLevel::Auto);
    assert_eq!(level_from_code(250), CompressionLevel::Auto);
    let input = vec![9u8; 5000];
    let compressed = libcodrop::wasm::compress(&input, 0).unwrap();
    assert!(matches!(
        libcodrop::wasm::decompress(&compressed, Some(100)),
        Err(CodropError::DecompressionBombDetected { .. })
    ));
    assert_eq!(libcodrop::wasm::decompress(&compressed, Some(5000)).unwrap(), input);
}

#[test]
fn test_golden_vector_raw() {
    let raw_input: Vec<u8> = (0..=255).collect();
    let cdp = compress(&raw_input, CompressionLevel::Fast).expect("encode succeeds");
    let (decoded, headers) = decode_and_inspect(&cdp);

    assert_eq!(decoded, raw_input);
    assert_eq!(headers[0].block_type, BlockType::Raw);
    assert!(headers[0].has_checksum);
}

#[test]
fn test_golden_vector_rle() {
    let rle_input = vec![0x42u8; 50_000];
    let cdp = compress(&rle_input, CompressionLevel::Fast).expect("encode succeeds");
    let (decoded, headers) = decode_and_inspect(&cdp);

    assert_eq!(decoded, rle_input);
    assert_eq!(headers[0].block_type, BlockType::Rle);
    assert!(headers[0].compressed_size < 10);
}

#[test]
fn test_golden_vector_lzf() {
    let phrase = b"Codrop LZF Fast Compression Engine. Fast byte-aligned matching without entropy tables. ";
    let mut lzf_input = Vec::new();
    for _ in 0..100 {
        lzf_input.extend_from_slice(phrase);
    }

    let cdp = compress(&lzf_input, CompressionLevel::Fast).expect("encode succeeds");
    let (decoded, headers) = decode_and_inspect(&cdp);

    assert_eq!(decoded, lzf_input);
    assert_eq!(headers[0].block_type, BlockType::Lzf);
}

#[test]
fn test_golden_vector_lzh() {
    let text = b"The quick brown fox jumps over the lazy dog. Canonical Huffman entropy coding with Kraft inequality bounded depths.";
    let mut lzh_input = Vec::new();
    for _ in 0..80 {
        lzh_input.extend_from_slice(text);
    }

    let cdp = compress(&lzh_input, CompressionLevel::Balanced).expect("encode succeeds");
    let (decoded, headers) = decode_and_inspect(&cdp);

    assert_eq!(decoded, lzh_input);
    assert!(headers[0].block_type == BlockType::Lzh || headers[0].block_type == BlockType::TextPrefilter);
}

#[test]
fn test_golden_vector_lza() {
    let text = b"Compact Asymmetric Numeral Systems (tANS) FSE-style entropy coding engine.";
    let mut lza_input = Vec::new();
    for _ in 0..60 {
        lza_input.extend_from_slice(text);
    }

    let cdp = compress(&lza_input, CompressionLevel::Compact).expect("encode succeeds");
    let (decoded, headers) = decode_and_inspect(&cdp);

    assert_eq!(decoded, lza_input);
    assert!(headers[0].compressed_size < lza_input.len() as u32);
}

#[test]
fn test_golden_vector_json_prefilter() {
    let json_doc = br#"[
  {"transaction_id": "tx_1001", "account_type": "savings", "balance_usd": 15000.50, "is_verified": true},
  {"transaction_id": "tx_1002", "account_type": "checking", "balance_usd": 4200.75, "is_verified": true},
  {"transaction_id": "tx_1003", "account_type": "investment", "balance_usd": 89000.00, "is_verified": false},
  {"transaction_id": "tx_1004", "account_type": "checking", "balance_usd": 120.00, "is_verified": true}
]"#;

    let cdp = compress(json_doc, CompressionLevel::Compact).expect("encode succeeds");
    let (decoded, _) = decode_and_inspect(&cdp);
    assert_eq!(decoded, json_doc);
}

#[test]
fn test_golden_vector_delta_prefilter() {
    let mut ramp = Vec::with_capacity(4096);
    for i in 0..4096 {
        ramp.push((i % 256) as u8);
    }

    let cdp = compress(&ramp, CompressionLevel::Compact).expect("encode succeeds");
    let (decoded, _) = decode_and_inspect(&cdp);
    assert_eq!(decoded, ramp);
}

#[test]
fn test_golden_vector_multi_block_streaming() {
    let phrase = b"Streaming block test across multiple 128KB container chunks with independent checksums. ";
    let target_size = 512 * 1024 + 1024;
    let mut stream_data = Vec::with_capacity(target_size);
    while stream_data.len() + phrase.len() <= target_size {
        stream_data.extend_from_slice(phrase);
    }

    let cdp = compress(&stream_data, CompressionLevel::Balanced).expect("encode succeeds");
    let (decoded, headers) = decode_and_inspect(&cdp);

    assert_eq!(decoded, stream_data);
    assert!(headers.len() >= 5);
    assert_eq!(headers.last().unwrap().block_type, BlockType::EndOfStream);
}

#[test]
fn test_golden_vector_checksum_tamper_detection() {
    let input = b"Tamper detection verification vector for CRC32c integrity verification.";
    let mut cdp = compress(input, CompressionLevel::Balanced).expect("encode succeeds");

    let last_payload_idx = cdp.len() - 10;
    cdp[last_payload_idx] ^= 0x55;

    let err = decompress(&cdp).unwrap_err();
    match err {
        CodropError::BlockChecksumMismatch { .. }
        | CodropError::StreamChecksumMismatch { .. }
        | CodropError::CorruptedEntropyStream(_)
        | CodropError::CorruptedPrefilterData(_) => {}
        other => panic!("expected checksum/stream corruption error, got {:?}", other),
    }
}

#[test]
fn test_property_exact_reversibility_across_all_profiles() {
    let mut rng = SimpleRng::new(0xCAFE_BABE_0001);
    let profiles = [CompressionLevel::Fast, CompressionLevel::Balanced, CompressionLevel::Compact, CompressionLevel::Auto];

    for len in [0, 1, 2, 7, 16, 64, 255, 512, 1024, 4096, 16384, 65536] {
        let original = rng.next_bytes(len);
        for &profile in &profiles {
            let compressed = compress(&original, profile).expect("compression succeeds");
            let restored = decompress(&compressed).expect("decompression succeeds");
            assert_eq!(restored, original, "failed for len {len}, profile {:?}", profile);
        }
    }
}

#[test]
fn test_property_non_expansion_guarantee() {
    let mut rng = SimpleRng::new(0xDEAD_BEEF_0002);
    for len in [128, 512, 1024, 4096, 16384, 65536] {
        let random_data = rng.next_bytes(len);
        let compressed = compress(&random_data, CompressionLevel::Auto).expect("compression succeeds");
        assert!(
            compressed.len() <= random_data.len() + 128,
            "Expansion detected for len {len}: compressed {} vs uncompressed {}",
            compressed.len(),
            random_data.len()
        );
        let restored = decompress(&compressed).expect("decompression succeeds");
        assert_eq!(restored, random_data);
    }
}

#[test]
fn test_property_encoder_determinism() {
    let mut rng = SimpleRng::new(0xFEED_FACE_0003);
    for len in [10, 100, 1000, 10000] {
        let data = rng.next_bytes(len);
        for &profile in &[CompressionLevel::Fast, CompressionLevel::Balanced, CompressionLevel::Compact] {
            let run1 = compress(&data, profile).unwrap();
            let run2 = compress(&data, profile).unwrap();
            assert_eq!(run1, run2, "Determinism violated for len {len}, profile {:?}", profile);
        }
    }
}

#[test]
fn test_property_decoder_panic_freedom_on_arbitrary_fuzzed_data() {
    let mut rng = SimpleRng::new(0x1234_5678_9ABC);
    for len in [0, 1, 2, 4, 8, 16, 32, 64, 128, 512, 1024, 4096] {
        for _ in 0..20 {
            let junk = rng.next_bytes(len);
            let _ = decompress(&junk);
            let _ = decompress_with_limit(&junk, 1024);
        }
    }
}

#[test]
fn test_fuzz_roundtrip_various_sizes() {
    let mut rng = SimpleRng::new(0x1337BEEF);
    let sizes = [0, 1, 2, 3, 4, 7, 8, 15, 16, 31, 32, 63, 64, 127, 128, 255, 256, 512, 1024, 4096, 16384, 65536];

    for &size in &sizes {
        let data = rng.next_bytes(size);
        for &level in &[CompressionLevel::Fast, CompressionLevel::Balanced, CompressionLevel::Auto] {
            let compressed = compress(&data, level).expect("Compression should succeed");
            let decompressed = decompress(&compressed).expect("Decompression should succeed");
            assert_eq!(data, decompressed, "Roundtrip failed for size {} at level {:?}", size, level);
        }
    }
}

#[test]
fn test_fuzz_truncation_resilience() {
    let original = b"Hostile input resilience is a foundational requirement of the Codrop engine. Never trust input bytes!";
    let compressed = compress(original, CompressionLevel::Balanced).unwrap();

    for cut in 0..compressed.len() {
        let truncated = &compressed[..cut];
        let result = decompress(truncated);
        assert!(result.is_err(), "Truncated stream at cut {}/{} must return Err, got Ok", cut, compressed.len());
    }
}

#[test]
fn test_fuzz_random_noise_rejection() {
    let mut rng = SimpleRng::new(0xDEADCAFE);

    for len in [4, 8, 16, 32, 64, 128, 512, 1024, 4096] {
        for _ in 0..20 {
            let noise = rng.next_bytes(len);
            let result = decompress(&noise);
            assert!(result.is_err(), "Random noise must never decode successfully as a valid stream");
        }
    }
}

#[test]
fn test_fuzz_bit_corruption_detection() {
    let original = b"Codrop stream integrity is guaranteed by CRC32c block checks and XXH3 whole-stream hashes.";
    let mut compressed = compress(original, CompressionLevel::Balanced).unwrap();

    for i in 4..compressed.len() {
        compressed[i] ^= 0xFF;
        let result = decompress(&compressed);
        assert!(result.is_err(), "Mutated byte at index {} must fail integrity check", i);
        compressed[i] ^= 0xFF;
    }
}

#[test]
fn test_fuzz_decompression_bomb_clamp() {
    let original = vec![0x41; 100_000];
    let compressed = compress(&original, CompressionLevel::Auto).unwrap();

    let result = decompress_with_limit(&compressed, 50_000);
    assert!(
        matches!(result, Err(CodropError::DecompressionBombDetected { .. })),
        "Decompression bomb safety clamp must trigger when exceeding limit"
    );
}

#[test]
fn test_corrupt_payload_is_never_a_bomb() {
    let input: Vec<u8> = b"abcabcabcabcabd corrupted payloads report corruption, not the output limit. "
        .iter()
        .cycle()
        .take(600)
        .copied()
        .collect();
    for level in [CompressionLevel::Fast, CompressionLevel::Balanced, CompressionLevel::Compact] {
        let cdp = compress(&input, level).unwrap();
        for idx in 20..cdp.len() - 9 {
            let mut bad = cdp.clone();
            bad[idx] ^= 0x5A;
            if let Err(e) = decompress(&bad) {
                if let CodropError::DecompressionBombDetected { limit, requested } = e {
                    // Only a tampered size field can ask for more than the limit allows.
                    assert!(requested > limit);
                }
            }
        }
    }
}
