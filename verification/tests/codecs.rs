use libcodrop::codec::lza::deserialize_ans_descriptors;
use libcodrop::codec::lzf::{decode_literal_length, decode_match_length, encode_literal_length, encode_match_length};
use libcodrop::codec::{LzaCodec, LzfCodec, OffsetMode};
use libcodrop::entropy::ans::{
    normalize_frequencies, AnsBitChunk, AnsDecodeTable, AnsEncodeTable, ANS_STEP, ANS_TABLE_SIZE,
};
use libcodrop::entropy::huffman::{build_canonical_codes, build_code_lengths, HuffmanDecoderTable};
use libcodrop::entropy::{BitReader, BitWriter};
use libcodrop::error::CodropError;

#[test]
fn test_literal_length_boundaries() {
    let test_cases = [0, 1, 14, 15, 16, 254, 255, 269, 270, 524, 525, 1000];
    for &len in &test_cases {
        let mut extra = Vec::new();
        let nibble = encode_literal_length(len, &mut extra);
        let mut cursor = 0;
        let decoded = decode_literal_length(nibble, &mut cursor, &extra, len + 10).unwrap();
        assert_eq!(decoded, len, "Failed for literal length {}", len);
        assert_eq!(cursor, extra.len());
    }
}

#[test]
fn test_match_length_boundaries() {
    assert!(encode_match_length(0, &mut Vec::new()).is_err());
    assert!(encode_match_length(1, &mut Vec::new()).is_err());
    assert!(encode_match_length(2, &mut Vec::new()).is_err());

    let test_cases = [3, 4, 17, 18, 19, 255, 272, 273, 527, 528, 1000];
    for &len in &test_cases {
        let mut extra = Vec::new();
        let nibble = encode_match_length(len, &mut extra).unwrap();
        let mut cursor = 0;
        let decoded = decode_match_length(nibble, &mut cursor, &extra, len + 10).unwrap();
        assert_eq!(decoded, len, "Failed for match length {}", len);
        assert_eq!(cursor, extra.len());
    }
}

#[test]
fn test_literal_length_exact_bytes() {
    // 15 + 255 + 255 + 3: nibble 15, two bytes of 255, then 3.
    let mut extra = Vec::new();
    let nibble = encode_literal_length(528, &mut extra);
    assert_eq!(nibble, 15);
    assert_eq!(extra, vec![255, 255, 3]);
}

#[test]
fn test_literal_length_above_limit() {
    let mut cursor = 0;
    let err = decode_literal_length(15, &mut cursor, &[10], 20).unwrap_err();
    assert_eq!(err, CodropError::MemoryLimitExceeded { limit: 20, requested: 25 });
}

#[test]
fn test_empty_and_small_inputs() {
    for size in 0..=16 {
        let data = vec![0x42; size];
        let compressed = LzfCodec::encode(&data);
        let decompressed = LzfCodec::decode(&compressed, data.len()).unwrap();
        assert_eq!(decompressed, data, "Failed for size {}", size);
    }
}

#[test]
fn test_overlapping_matches() {
    let data = vec![b'A'; 200];
    let compressed = LzfCodec::encode(&data);
    assert!(compressed.len() < data.len());
    let decompressed = LzfCodec::decode(&compressed, data.len()).unwrap();
    assert_eq!(decompressed, data);

    let mut data = Vec::new();
    for _ in 0..100 {
        data.extend_from_slice(b"AB");
    }
    let compressed = LzfCodec::encode(&data);
    assert!(compressed.len() < data.len());
    let decompressed = LzfCodec::decode(&compressed, data.len()).unwrap();
    assert_eq!(decompressed, data);

    let mut data = Vec::new();
    for _ in 0..100 {
        data.extend_from_slice(b"ABC");
    }
    let compressed = LzfCodec::encode(&data);
    assert!(compressed.len() < data.len());
    let decompressed = LzfCodec::decode(&compressed, data.len()).unwrap();
    assert_eq!(decompressed, data);
}

#[test]
fn test_mixed_literals_and_matches() {
    let text = b"The quick brown fox jumps over the lazy dog. The quick brown fox jumps over the lazy dog!";
    let compressed = LzfCodec::encode(text);
    assert!(compressed.len() < text.len());
    let decompressed = LzfCodec::decode(&compressed, text.len()).unwrap();
    assert_eq!(decompressed, text);
}

#[test]
fn test_24bit_offset_roundtrip() {
    let mut data = Vec::new();
    for _ in 0..50 {
        data.extend_from_slice(b"Codrop Universal Adaptive Compression System! ");
    }
    let compressed = LzfCodec::encode_with_offset_mode(&data, OffsetMode::Offset24);
    let decompressed = LzfCodec::decode_with_offset_mode(&compressed, data.len(), OffsetMode::Offset24).unwrap();
    assert_eq!(decompressed, data);
}

#[test]
fn test_malformed_offset_zero() {
    let token = 0x00;
    let offset = 0u16.to_le_bytes();
    let payload = [token, offset[0], offset[1]];
    let err = LzfCodec::decode(&payload, 3).unwrap_err();
    match err {
        CodropError::InvalidOffset { offset: 0, .. } => {}
        other => panic!("Expected InvalidOffset with 0, got {:?}", other),
    }
}

#[test]
fn test_malformed_offset_beyond_history() {
    let token = 1 << 4;
    let offset = 5u16.to_le_bytes();
    let payload = [token, b'A', offset[0], offset[1]];
    let err = LzfCodec::decode(&payload, 4).unwrap_err();
    match err {
        CodropError::InvalidOffset { offset: 5, max_valid: 1 } => {}
        other => panic!("Expected InvalidOffset with 5 > 1, got {:?}", other),
    }
}

#[test]
fn test_malformed_truncated_offset() {
    let token = 0x00;
    let payload = [token, 0x01];
    let err = LzfCodec::decode(&payload, 3).unwrap_err();
    assert_eq!(err, CodropError::UnexpectedEof);
}

#[test]
fn test_malformed_trailing_bytes() {
    let data = b"hello";
    let mut compressed = LzfCodec::encode(data);
    compressed.push(0xFF);
    let err = LzfCodec::decode(&compressed, data.len()).unwrap_err();
    match err {
        CodropError::CorruptedEntropyStream(_) => {}
        other => panic!("Expected CorruptedEntropyStream, got {:?}", other),
    }
}

#[test]
fn test_deterministic_output() {
    let data = b"Codrop deterministic LZF output test across repeated runs 123456789!";
    let run1 = LzfCodec::encode(data);
    let run2 = LzfCodec::encode(data);
    assert_eq!(run1, run2);
}

#[test]
fn test_lzf_exact_bytes() {
    // Three literals, then a match of nine bytes at offset 3 running to the end.
    assert_eq!(LzfCodec::encode(b"abcabcabcabc"), vec![0x36, b'a', b'b', b'c', 0x03, 0x00]);
    // Fewer than four bytes: one literal token.
    assert_eq!(LzfCodec::encode(b"xy"), vec![0x20, b'x', b'y']);
    assert_eq!(LzfCodec::encode_with_offset_mode(b"abcabcabcabc", OffsetMode::Offset24), vec![
        0x36, b'a', b'b', b'c', 0x03, 0x00, 0x00
    ]);
}

#[test]
fn test_lzf_match_length_over_block() {
    // lit=1 'A', match nibble 0 (length 3) at offset 1, but only 2 bytes announced.
    let payload = [0x10, b'A', 0x01, 0x00];
    let err = LzfCodec::decode(&payload, 2).unwrap_err();
    assert_eq!(err, CodropError::InvalidMatchLength { length: 3, remaining: 1 });
}

#[test]
fn test_lza_roundtrip_simple() {
    let text = b"The quick brown fox jumps over the lazy dog! The quick brown fox jumps over the lazy dog!";
    let compressed = LzaCodec::encode(text);
    let decompressed = LzaCodec::decode(&compressed, text.len()).unwrap();
    assert_eq!(decompressed, text);
}

#[test]
fn test_lza_roundtrip_empty_and_small() {
    for len in 0..=20 {
        let data = vec![b'y'; len];
        let compressed = LzaCodec::encode(&data);
        let decompressed = LzaCodec::decode(&compressed, data.len()).unwrap();
        assert_eq!(decompressed, data, "Failed for length {}", len);
    }
}

#[test]
fn test_lza_overlapping_matches() {
    let data = vec![b'K'; 500];
    let compressed = LzaCodec::encode(&data);
    assert!(compressed.len() < data.len());
    let decompressed = LzaCodec::decode(&compressed, data.len()).unwrap();
    assert_eq!(decompressed, data);
}

#[test]
fn test_lza_golden_vector() {
    let original = b"CODROP_LZA_GOLDEN_VECTOR_VERIFICATION_2026";
    let compressed = LzaCodec::encode(original);
    let decompressed = LzaCodec::decode(&compressed, original.len()).unwrap();
    assert_eq!(decompressed, original);
}

#[test]
fn test_lza_malformed_initial_state() {
    let text = b"Testing initial ANS state boundaries";
    let mut compressed = LzaCodec::encode(text);
    let mut cursor = 0;
    let _ = deserialize_ans_descriptors(&compressed, &mut cursor).unwrap();

    compressed[cursor] = 0;
    compressed[cursor + 1] = 0;

    let err = LzaCodec::decode(&compressed, text.len()).unwrap_err();
    assert!(matches!(err, CodropError::CorruptedEntropyStream(_)));
}

#[test]
fn test_lza_malformed_frequency_sum_mismatch() {
    let text = b"Frequency sum corruption test";
    let mut compressed = LzaCodec::encode(text);
    compressed[3] = compressed[3].wrapping_add(5);
    let err = LzaCodec::decode(&compressed, text.len()).unwrap_err();
    assert!(matches!(err, CodropError::CorruptedEntropyStream(_) | CodropError::UnexpectedEof));
}

#[test]
fn test_lza_large_buffers() {
    for &size in &[1024, 32 * 1024, 64 * 1024] {
        let mut buf = Vec::with_capacity(size);
        for i in 0..size {
            buf.push((i % 251) as u8);
        }
        let c = LzaCodec::encode(&buf);
        let d = LzaCodec::decode(&c, buf.len()).unwrap();
        assert_eq!(d, buf, "Failed for size {}", size);
    }
}

#[test]
fn test_ans_descriptor_exact_bytes() {
    let mut f = vec![0u16; 318];
    f[0] = 1000;
    f[3] = 24;
    let mut out = Vec::new();
    libcodrop::codec::lza::serialize_ans_descriptors(&f, &mut out);
    // max symbol 3; 1000 as two bytes (0x80 | 0x68, 7); a run of two zeros; 24.
    assert_eq!(out, vec![3, 0, 0xE8, 7, 0, 2, 24]);
    let mut cursor = 0;
    let back = deserialize_ans_descriptors(&out, &mut cursor).unwrap();
    assert_eq!(back, f);
    assert_eq!(cursor, out.len());
}

#[test]
fn test_ans_descriptor_bad_max_symbol() {
    let mut cursor = 0;
    let err = deserialize_ans_descriptors(&[0x3E, 0x01, 1], &mut cursor).unwrap_err();
    assert!(matches!(err, CodropError::CorruptedEntropyStream(_)));
}

#[test]
fn test_canonical_huffman_roundtrip() {
    let mut freqs = [0u32; 8];
    freqs[0] = 1000;
    freqs[1] = 500;
    freqs[2] = 200;
    freqs[3] = 100;
    freqs[4] = 50;
    freqs[5] = 20;
    freqs[6] = 10;
    freqs[7] = 5;

    let lengths = build_code_lengths(&freqs, 8);
    for &l in &lengths {
        assert!(l > 0 && l <= 15);
    }
    let codes = build_canonical_codes(&lengths);
    let decoder_table = HuffmanDecoderTable::build(&lengths).unwrap();

    let mut writer = BitWriter::new();
    let test_symbols = [0, 1, 2, 7, 3, 0, 0, 4, 5, 6, 7, 1];
    for &sym in &test_symbols {
        writer.write_bits(codes[sym] as u32, lengths[sym]);
    }
    let bytes = writer.into_bytes();

    let mut reader = BitReader::new(&bytes);
    for &expected in &test_symbols {
        let decoded = decoder_table.decode_symbol(&mut reader).unwrap();
        assert_eq!(decoded, expected as u16);
    }
}

#[test]
fn test_single_symbol_tree() {
    let mut freqs = [0u32; 4];
    freqs[2] = 42;

    let lengths = build_code_lengths(&freqs, 4);
    assert_eq!(lengths[2], 1);
    let codes = build_canonical_codes(&lengths);
    let decoder_table = HuffmanDecoderTable::build(&lengths).unwrap();

    let mut writer = BitWriter::new();
    writer.write_bits(codes[2] as u32, lengths[2]);
    writer.write_bits(codes[2] as u32, lengths[2]);
    let bytes = writer.into_bytes();

    let mut reader = BitReader::new(&bytes);
    assert_eq!(decoder_table.decode_symbol(&mut reader).unwrap(), 2);
    assert_eq!(decoder_table.decode_symbol(&mut reader).unwrap(), 2);
}

#[test]
fn test_pathological_fibonacci_depth_bounded_to_15() {
    let mut freqs = [0u32; 25];
    let mut a = 1u32;
    let mut b = 1u32;
    for f in freqs.iter_mut() {
        *f = a;
        let next = a.saturating_add(b);
        a = b;
        b = next;
    }

    let lengths = build_code_lengths(&freqs, 25);
    for &l in &lengths {
        assert!(l <= 15, "Code length {} exceeded 15 bits", l);
    }

    let table = HuffmanDecoderTable::build(&lengths).unwrap();

    let codes = build_canonical_codes(&lengths);
    let mut writer = BitWriter::new();
    for sym in 0..25 {
        writer.write_bits(codes[sym] as u32, lengths[sym]);
    }
    let bytes = writer.into_bytes();

    let mut reader = BitReader::new(&bytes);
    for sym in 0..25 {
        assert_eq!(table.decode_symbol(&mut reader).unwrap(), sym as u16);
    }
}

#[test]
fn test_oversubscribed_tree_rejected() {
    let invalid_lengths = [1u8, 1, 1];
    let err = HuffmanDecoderTable::build(&invalid_lengths).unwrap_err();
    match err {
        CodropError::CorruptedEntropyStream(msg) => {
            assert!(msg.contains("Oversubscribed"));
        }
        other => panic!("Expected CorruptedEntropyStream, got {:?}", other),
    }
}

#[test]
fn test_canonical_codes_exact() {
    // Lengths 2, 1, 3, 3: canonical codes 10, 0, 110, 111, written bit-reversed.
    let codes = build_canonical_codes(&[2, 1, 3, 3]);
    assert_eq!(codes, vec![0b01, 0b0, 0b011, 0b111]);
}

#[test]
fn test_spread_coprime_step_covers_all_states() {
    let mut visited = [false; ANS_TABLE_SIZE];
    let mut pos = 0;
    for _ in 0..ANS_TABLE_SIZE {
        assert!(!visited[pos], "Position {} visited twice", pos);
        visited[pos] = true;
        pos = (pos + ANS_STEP) & (ANS_TABLE_SIZE - 1);
    }
    assert!(visited.iter().all(|&v| v));
}

#[test]
fn test_frequency_normalization_invariants() {
    let raw = vec![10u32; 100];
    let norm = normalize_frequencies(&raw, 100, ANS_TABLE_SIZE);
    assert_eq!(norm.iter().map(|&f| f as usize).sum::<usize>(), ANS_TABLE_SIZE);
    assert!(norm.iter().all(|&f| f >= 1));

    let mut raw_single = vec![0u32; 256];
    raw_single[42] = 1000;
    let norm_single = normalize_frequencies(&raw_single, 256, ANS_TABLE_SIZE);
    assert_eq!(norm_single[42] as usize, ANS_TABLE_SIZE);
    assert_eq!(norm_single.iter().map(|&f| f as usize).sum::<usize>(), ANS_TABLE_SIZE);

    let mut raw_skewed = vec![1u32; 200];
    raw_skewed[0] = 100_000;
    let norm_skewed = normalize_frequencies(&raw_skewed, 200, ANS_TABLE_SIZE);
    assert_eq!(norm_skewed.iter().map(|&f| f as usize).sum::<usize>(), ANS_TABLE_SIZE);
    assert!(norm_skewed[0] > 500);
    assert!(norm_skewed.iter().all(|&f| f >= 1));
}

#[test]
fn test_ans_encode_decode_roundtrip_pure_symbols() {
    let alphabet_size = 50;
    let mut raw_counts = vec![0u32; alphabet_size];
    for (i, item) in raw_counts.iter_mut().enumerate() {
        *item = (i * 7 + 3) as u32;
    }

    let norm_freq = normalize_frequencies(&raw_counts, alphabet_size, ANS_TABLE_SIZE);
    let enc_table = AnsEncodeTable::build(&norm_freq).unwrap();
    let dec_table = AnsDecodeTable::build(&norm_freq).unwrap();

    let mut symbols = Vec::with_capacity(500);
    for i in 0..500 {
        symbols.push((i * 17) % alphabet_size);
    }

    let mut state = ANS_TABLE_SIZE as u16;
    let mut chunks = Vec::new();
    for &s in symbols.iter().rev() {
        let (nb_bits, bits_out) = enc_table.encode_symbol(s, &mut state);
        chunks.push(AnsBitChunk { bits: nb_bits, val: bits_out });
    }

    let final_state = state;

    let mut writer = BitWriter::new();
    for chunk in chunks.iter().rev() {
        writer.write_bits(chunk.val, chunk.bits);
    }
    let bytes = writer.into_bytes();

    let mut reader = BitReader::new(&bytes);
    let mut dec_state = final_state;
    let mut decoded = Vec::with_capacity(symbols.len());

    for _ in 0..symbols.len() {
        let sym = dec_table.decode_symbol(&mut dec_state, &mut reader).unwrap() as usize;
        decoded.push(sym);
    }

    assert_eq!(decoded, symbols);
    assert_eq!(dec_state, ANS_TABLE_SIZE as u16);
}

#[test]
fn test_ans_table_rejects_bad_sum() {
    assert!(matches!(AnsDecodeTable::build(&[1, 2, 3]), Err(CodropError::CorruptedEntropyStream(_))));
    assert!(matches!(AnsEncodeTable::build(&[1, 2, 3]), Err(CodropError::CorruptedEntropyStream(_))));
}

#[test]
fn test_bitstream_single_and_multi_bits() {
    let mut writer = BitWriter::new();
    writer.write_bits(1, 1);
    writer.write_bits(2, 2);
    writer.write_bits(13, 5);
    writer.write_bits(0xABCD, 16);
    writer.write_bits(7, 3);
    let bytes = writer.into_bytes();
    assert_eq!(bytes[0], 0x6D);

    let mut reader = BitReader::new(&bytes);
    assert_eq!(reader.read_bits(1).unwrap(), 1);
    assert_eq!(reader.read_bits(2).unwrap(), 2);
    assert_eq!(reader.read_bits(5).unwrap(), 13);
    assert_eq!(reader.read_bits(16).unwrap(), 0xABCD);
    assert_eq!(reader.read_bits(3).unwrap(), 7);
}

#[test]
fn test_bitstream_peek_and_drop() {
    let mut writer = BitWriter::new();
    writer.write_bits(42, 8);
    writer.write_bits(999, 10);
    let bytes = writer.into_bytes();

    let mut reader = BitReader::new(&bytes);
    assert_eq!(reader.peek_bits(8), 42);
    assert_eq!(reader.peek_bits(8), 42);
    reader.drop_bits(8);
    assert_eq!(reader.peek_bits(10), 999);
    assert_eq!(reader.read_bits(10).unwrap(), 999);
}

#[test]
fn test_bitstream_truncated_read() {
    let bytes = [0x55];
    let mut reader = BitReader::new(&bytes);
    assert_eq!(reader.read_bits(8).unwrap(), 0x55);
    assert_eq!(reader.read_bits(1).unwrap_err(), CodropError::UnexpectedEof);
}

#[test]
fn test_bitstream_write_masks_high_bits() {
    let mut writer = BitWriter::new();
    writer.write_bits(0xFF, 4);
    writer.write_bits(0, 4);
    assert_eq!(writer.into_bytes(), vec![0x0F]);
}

#[test]
fn test_spread_symbols_small_table() {
    // 643 = 3 mod 16: placements go to 0, 3, 6, 9, 12, 15, 2, 5, ...
    let table = libcodrop::entropy::ans::spread_symbols(&[3, 5, 8], 16);
    assert_eq!(table, vec![0, 2, 1, 0, 2, 1, 0, 2, 2, 1, 2, 2, 1, 2, 2, 1]);
}

#[test]
fn test_canonical_codes_fit_their_lengths() {
    let codes = build_canonical_codes(&[1, 2, 2]);
    assert_eq!(codes, vec![0, 1, 3]);
}

#[test]
fn test_length_codes_round_trip_through_extension_bytes() {
    for len in [0usize, 14, 15, 16, 269, 270, 271, 1000] {
        let mut extra = Vec::new();
        let nibble = encode_literal_length(len, &mut extra);
        let mut cursor = 0usize;
        assert_eq!(decode_literal_length(nibble, &mut cursor, &extra, len).unwrap(), len);
        assert_eq!(cursor, extra.len());
    }
    for len in [3usize, 17, 18, 19, 272, 273, 1000] {
        let mut extra = Vec::new();
        let nibble = encode_match_length(len, &mut extra).unwrap();
        let mut cursor = 0usize;
        assert_eq!(decode_match_length(nibble, &mut cursor, &extra, len).unwrap(), len);
        assert_eq!(cursor, extra.len());
    }
}

#[test]
fn test_short_descriptor_reads_back_padded() {
    let f: Vec<u16> = vec![0, 1000, 0, 24];
    let mut out = vec![0xAAu8];
    libcodrop::codec::lza::serialize_ans_descriptors(&f, &mut out);
    out.extend_from_slice(&[1, 2, 3]);
    let mut cursor = 1usize;
    let back = deserialize_ans_descriptors(&out, &mut cursor).unwrap();
    assert_eq!(back.len(), 318);
    assert_eq!(&back[..4], &f[..]);
    assert!(back[4..].iter().all(|&x| x == 0));
    assert_eq!(cursor, out.len() - 3);
}

#[test]
fn test_canonical_codes_of_oversubscribed_lengths_wrap() {
    // Three one-bit codes: counted up from 0 and kept to one bit each.
    assert_eq!(build_canonical_codes(&[1, 1, 1]), vec![0, 1, 0]);
}
