use libcodrop::error::CodropError;
use libcodrop::prefilter::delta::{delta_decode, delta_encode};
use libcodrop::prefilter::dict::{
    find_least_frequent_byte, invert_tokens, lookup_static_dict, substitute_tokens, DICT_ID_JSON, DICT_ID_WEB,
    DICT_VERSION_CURRENT,
};
use libcodrop::prefilter::json::{extract_json_keys, is_json, json_prefilter_decode, json_prefilter_encode};
use libcodrop::prefilter::text::{
    deserialize_token_table, extract_repeated_tokens, is_text, serialize_token_table, text_prefilter_decode,
    text_prefilter_encode,
};
use libcodrop::prefilter::{decode_prefiltered_payload, try_encode_prefilter, PrefilterBackend, PrefilterType};
use libcodrop::{compress, decompress, CompressionLevel};

#[test]
fn test_delta_round_trip_strides() {
    for stride in 1..=4 {
        let data: Vec<u8> = (0..500).map(|i| ((i * 3 + 7) % 256) as u8).collect();
        let encoded = delta_encode(&data, stride).unwrap();
        let decoded = delta_decode(&encoded, stride, 1024).unwrap();
        assert_eq!(decoded, data);
    }
}

#[test]
fn test_delta_wraparound() {
    let data = vec![0u8, 255, 0, 1, 254, 255, 0];
    let encoded = delta_encode(&data, 1).unwrap();
    let decoded = delta_decode(&encoded, 1, 64).unwrap();
    assert_eq!(decoded, data);
}

#[test]
fn test_delta_empty() {
    let encoded = delta_encode(&[], 1).unwrap();
    assert!(encoded.is_empty());
    let decoded = delta_decode(&encoded, 1, 64).unwrap();
    assert!(decoded.is_empty());
}

#[test]
fn test_delta_invalid_stride() {
    assert!(delta_encode(&[1, 2, 3], 0).is_err());
    assert!(delta_encode(&[1, 2, 3], 9).is_err());
    assert!(delta_decode(&[1, 2, 3], 0, 64).is_err());
    assert!(delta_decode(&[1, 2, 3], 9, 64).is_err());
}

#[test]
fn test_delta_exact_values_and_bomb() {
    assert_eq!(delta_encode(&[10, 12, 11, 20], 1).unwrap(), vec![10, 2, 255, 9]);
    assert_eq!(delta_decode(&[10, 2, 255, 9], 1, 64).unwrap(), vec![10, 12, 11, 20]);
    assert_eq!(
        delta_decode(&[1, 2, 3], 1, 2).unwrap_err(),
        CodropError::DecompressionBombDetected { limit: 2, requested: 3 }
    );
}

#[test]
fn test_lookup_static_dict() {
    assert!(lookup_static_dict(DICT_ID_JSON, 1).is_ok());
    assert!(lookup_static_dict(DICT_ID_WEB, 1).is_ok());
    assert!(lookup_static_dict(DICT_ID_JSON, 2).is_err());
    assert!(lookup_static_dict(999, 1).is_err());
}

#[test]
fn test_dict_token_substitution_roundtrip() {
    let text = br#"{"id": 101, "name": "Codrop", "status": "active", "value": true, "data": null}"#;
    let tokens = lookup_static_dict(DICT_ID_JSON, 1).unwrap();
    let esc = find_least_frequent_byte(text);
    let transformed = substitute_tokens(text, &tokens, esc);
    assert!(transformed.len() < text.len());
    let restored = invert_tokens(&transformed, &tokens, esc, 1024).unwrap();
    assert_eq!(restored, text);
}

#[test]
fn test_dict_with_literal_escape_byte() {
    let tokens: Vec<Vec<u8>> = vec![b"hello".to_vec(), b"world".to_vec()];
    let esc = b'X';
    let original = b"hello X world X hello";
    let transformed = substitute_tokens(original, &tokens, esc);
    let restored = invert_tokens(&transformed, &tokens, esc, 1024).unwrap();
    assert_eq!(restored, original);
}

#[test]
fn test_dict_corrupted_stream() {
    let tokens: Vec<Vec<u8>> = vec![b"hello".to_vec()];
    let esc = 0xAA;
    assert!(invert_tokens(&[esc], &tokens, esc, 100).is_err());
    assert!(invert_tokens(&[esc, 5], &tokens, esc, 100).is_err());
}

#[test]
fn test_dict_exact_substitution_and_least_frequent_byte() {
    let tokens: Vec<Vec<u8>> = vec![b"abc".to_vec()];
    // 'x' is the least frequent byte in "abcx"? All appear once; the smallest absent byte wins.
    assert_eq!(find_least_frequent_byte(b"abcabc"), 0);
    let transformed = substitute_tokens(b"zabcz", &tokens, 0xF0);
    assert_eq!(transformed, vec![b'z', 0xF0, 0, b'z']);
    assert_eq!(
        invert_tokens(&transformed, &tokens, 0xF0, 4).unwrap_err(),
        CodropError::DecompressionBombDetected { limit: 4, requested: 5 }
    );
}

#[test]
fn test_is_json() {
    assert!(is_json(b"{\"id\": 1, \"name\": \"test\"}"));
    assert!(is_json(b"[\n  {\"id\": 1},\n  {\"id\": 2}\n]"));
    assert!(!is_json(b"{ this is not valid json }"));
    assert!(!is_json(b"int main() { return 0; }"));
    assert!(!is_json(b""));
}

#[test]
fn test_json_prefilter_round_trip() {
    let json_data = br#"[
  {"product_id": 1001, "product_name": "Keyboard", "category_tag": "accessories", "in_stock": true},
  {"product_id": 1002, "product_name": "Mouse", "category_tag": "accessories", "in_stock": true},
  {"product_id": 1003, "product_name": "Monitor", "category_tag": "displays", "in_stock": false},
  {"product_id": 1004, "product_name": "Headphones", "category_tag": "audio", "in_stock": true}
]"#;
    let (meta, transformed) = json_prefilter_encode(json_data).expect("keys extracted");
    assert!(transformed.len() + meta.len() < json_data.len());

    let restored = json_prefilter_decode(&meta, &transformed, 2048).unwrap();
    assert_eq!(restored, json_data);
}

#[test]
fn test_json_keys_extracted() {
    // A key token is the quoted key with its colon and the blanks after it; it is kept when it
    // saves more than six bytes, which `"name": ` does from its third occurrence on.
    let twice = extract_json_keys(br#"{"name": 1, "name": 2, "kind": 3, "kind": 4}"#, 64);
    assert!(twice.is_empty());
    let keys = extract_json_keys(br#"{"name": 1, "name": 2, "name": 3, "kind": 4, "kind": 5, "kind": 6}"#, 64);
    assert!(keys.contains(&b"\"name\": ".to_vec()));
    assert!(keys.contains(&b"\"kind\": ".to_vec()));
}

#[test]
fn test_is_text() {
    assert!(is_text(b"The quick brown fox jumps over the lazy dog."));
    assert!(is_text(b"{\n  \"message\": \"Hello, World!\"\n}\n"));
    assert!(!is_text(&[0x00, 0xFF, 0x02, 0x03, 0x80]));
    assert!(!is_text(b""));
}

#[test]
fn test_text_prefilter_round_trip() {
    let input = b"Codrop is a universal compression codec. Codrop provides lossless compression. Codrop is fast, and Codrop is portable. Codrop preserves exact bytes.";
    let (meta, transformed) = text_prefilter_encode(input).expect("tokens extracted");
    assert!(transformed.len() + meta.len() < input.len());

    let restored = text_prefilter_decode(&meta, &transformed, 1024).unwrap();
    assert_eq!(restored, input);
}

#[test]
fn test_token_table_roundtrip_and_truncation() {
    let tokens = extract_repeated_tokens(b"alpha beta alpha beta alpha gamma", 64);
    let table = serialize_token_table(&tokens);
    let mut offset = 0usize;
    let back = deserialize_token_table(&table, &mut offset).unwrap();
    assert_eq!(back, tokens);
    assert_eq!(offset, table.len());
    let mut offset = 0usize;
    assert!(matches!(
        deserialize_token_table(&[5], &mut offset),
        Err(CodropError::CorruptedPrefilterData(_))
    ));
}

#[test]
fn test_text_plain_ascii_and_multilingual_utf8() {
    let ascii_text = b"The architecture of Codrop enables high efficiency compression. Codrop is portable. Codrop is reliable.";
    assert!(is_text(ascii_text));

    let utf8_multilingual = "Codrop 支持多种语言压缩。Codrop is fast! Codrop est rapide! Codrop ist schnell! Codrop 高速です。".as_bytes();
    assert!(is_text(utf8_multilingual));

    let compressed = compress(utf8_multilingual, CompressionLevel::Compact).unwrap();
    let decompressed = decompress(&compressed).unwrap();
    assert_eq!(decompressed, utf8_multilingual);
}

#[test]
fn test_text_repeated_words_and_phrases() {
    let phrase = "lossless compression algorithm with data-aware prefilters and verifiable round-trips. ";
    let repeated = phrase.repeat(50).into_bytes();

    let (meta, transformed) = text_prefilter_encode(&repeated).expect("repeated text should encode");
    assert!(transformed.len() + meta.len() < repeated.len());

    let restored = text_prefilter_decode(&meta, &transformed, repeated.len() * 2).unwrap();
    assert_eq!(restored, repeated);

    for level in [CompressionLevel::Balanced, CompressionLevel::Compact] {
        let cdp = compress(&repeated, level).unwrap();
        let dec = decompress(&cdp).unwrap();
        assert_eq!(dec, repeated);
    }
}

#[test]
fn test_text_whitespace_and_punctuation_heavy() {
    let input = b"    \t\t\n\n  --- [KEY: VALUE] ---   \t\n  --- [KEY: VALUE] ---   \t\n  --- [KEY: VALUE] ---   \t\n";
    assert!(is_text(input));

    let compressed = compress(input, CompressionLevel::Compact).unwrap();
    let decompressed = decompress(&compressed).unwrap();
    assert_eq!(decompressed, input);
}

#[test]
fn test_text_classifier_rejects_binary_random() {
    let random_binary: Vec<u8> = (0..512).map(|i| ((i * 73 + 19) % 256) as u8).collect();
    assert!(!is_text(&random_binary));
}

#[test]
fn test_json_empty_and_minimal_structures() {
    assert!(is_json(b"{}"));
    assert!(is_json(b"[]"));
    assert!(is_json(b"  {   }  "));
    assert!(is_json(b"  [   ]  "));

    for empty in [b"{}" as &[u8], b"[]", b"  {\n}\n"] {
        let compressed = compress(empty, CompressionLevel::Compact).unwrap();
        let decompressed = decompress(&compressed).unwrap();
        assert_eq!(decompressed, empty);
    }
}

#[test]
fn test_json_nested_structures_and_arrays() {
    let json = br#"{
  "store": {
    "book": [
      {
        "category": "reference",
        "author": "Nigel Rees",
        "title": "Sayings of the Century",
        "price": 8.95
      },
      {
        "category": "fiction",
        "author": "Evelyn Waugh",
        "title": "Sword of Honour",
        "price": 12.99
      },
      {
        "category": "fiction",
        "author": "Herman Melville",
        "title": "Moby Dick",
        "isbn": "0-553-21311-3",
        "price": 8.99
      }
    ],
    "bicycle": {
      "color": "red",
      "price": 19.95
    }
  },
  "expensive": 10
}"#;

    assert!(is_json(json));

    if let Some((meta, transformed)) = json_prefilter_encode(json) {
        let restored = json_prefilter_decode(&meta, &transformed, json.len() * 2).unwrap();
        assert_eq!(restored, json);
    }

    let cand = try_encode_prefilter(json, PrefilterBackend::Lzh, 5);
    assert!(cand.is_some());

    for level in [CompressionLevel::Fast, CompressionLevel::Balanced, CompressionLevel::Compact] {
        let compressed = compress(json, level).unwrap();
        let decompressed = decompress(&compressed).unwrap();
        assert_eq!(decompressed, json);
    }
}

#[test]
fn test_json_escaped_strings_unicode_and_numbers() {
    let json = br#"{"escaped": "quote: \" and newline: \n and unicode: \u0041", "pi": 3.141592653589793, "exp": -1.25e+10, "neg": -42, "zero": 0}"#;
    assert!(is_json(json));

    let compressed = compress(json, CompressionLevel::Compact).unwrap();
    let decompressed = decompress(&compressed).unwrap();
    assert_eq!(decompressed, json);
}

#[test]
fn test_json_classifier_rejects_code_and_pseudo_json() {
    assert!(!is_json(b"int main() { printf(\"hello\"); return 0; }"));
    assert!(!is_json(b"{ unquoted_key: not_json }"));
    assert!(!is_json(b"{ broken braces"));
    assert!(!is_json(b"[ unbalanced bracket }"));
}

#[test]
fn test_delta_monotonic_and_repeating() {
    for stride in 1..=4 {
        let ramp: Vec<u8> = (0..1000).map(|i| (i % 256) as u8).collect();
        let enc_ramp = delta_encode(&ramp, stride).unwrap();
        let dec_ramp = delta_decode(&enc_ramp, stride, 2048).unwrap();
        assert_eq!(dec_ramp, ramp);

        let repeating: Vec<u8> = (0..1000).map(|i| ((i % stride as usize) * 40) as u8).collect();
        let enc_rep = delta_encode(&repeating, stride).unwrap();
        let dec_rep = delta_decode(&enc_rep, stride, 2048).unwrap();
        assert_eq!(dec_rep, repeating);
    }
}

#[test]
fn test_delta_constant_values() {
    for val in [0u8, 127, 255] {
        let block = vec![val; 500];
        let enc = delta_encode(&block, 1).unwrap();
        let dec = delta_decode(&enc, 1, 1024).unwrap();
        assert_eq!(dec, block);
    }
}

#[test]
fn test_delta_wraparound_extremes() {
    let data = vec![0, 255, 0, 255, 1, 254, 2, 253];
    let enc = delta_encode(&data, 2).unwrap();
    let dec = delta_decode(&enc, 2, 64).unwrap();
    assert_eq!(dec, data);
}

#[test]
fn test_static_dictionary_known_registrations() {
    let json_dict = lookup_static_dict(DICT_ID_JSON, DICT_VERSION_CURRENT).unwrap();
    assert!(!json_dict.is_empty());

    let web_dict = lookup_static_dict(DICT_ID_WEB, DICT_VERSION_CURRENT).unwrap();
    assert!(!web_dict.is_empty());

    assert!(lookup_static_dict(9999, DICT_VERSION_CURRENT).is_err());
    assert!(lookup_static_dict(DICT_ID_JSON, 99).is_err());
}

#[test]
fn test_static_dictionary_web_html_roundtrip() {
    let html = b"<!DOCTYPE html><html><head><title>Test Page</title><meta name=\"viewport\" content=\"width=device-width\"></head><body><div class=\"container\"><p>Hello Codrop!</p></div></body></html>";
    let dict = lookup_static_dict(DICT_ID_WEB, DICT_VERSION_CURRENT).unwrap();
    let esc = find_least_frequent_byte(html);

    let transformed = substitute_tokens(html, &dict, esc);
    let restored = invert_tokens(&transformed, &dict, esc, 1024).unwrap();
    assert_eq!(restored, html);
}

#[test]
fn test_malformed_prefilter_header_too_short() {
    let bad_payload = vec![0, 1, 2];
    assert!(decode_prefiltered_payload(&bad_payload, 10, 100).is_err());
}

#[test]
fn test_malformed_prefilter_unknown_type() {
    let mut bad_payload = vec![0, 99, 10, 0, 0, 0];
    bad_payload.extend_from_slice(b"some bytes");
    let err = decode_prefiltered_payload(&bad_payload, 10, 100).unwrap_err();
    match err {
        CodropError::UnsupportedPrefilter(99) => {}
        other => panic!("expected UnsupportedPrefilter(99), got {:?}", other),
    }
}

#[test]
fn test_malformed_prefilter_unknown_dict() {
    let mut bad_payload = vec![0, 2, 10, 0, 0, 0];
    bad_payload.extend_from_slice(&0xbeefu16.to_le_bytes());
    bad_payload.push(1);
    bad_payload.push(0);
    bad_payload.extend_from_slice(b"fakecomp");

    let err = decode_prefiltered_payload(&bad_payload, 10, 100).unwrap_err();
    match err {
        CodropError::UnknownDictionary { dict_id, version } => {
            assert_eq!(dict_id, 0xbeef);
            assert_eq!(version, 1);
        }
        other => panic!("expected UnknownDictionary, got {:?}", other),
    }
}

#[test]
fn test_malformed_prefilter_decompression_bomb_limit() {
    let mut bomb = vec![0, 1];
    bomb.extend_from_slice(&1_000_000u32.to_le_bytes());
    bomb.push(1);

    let err = decode_prefiltered_payload(&bomb, 1_000_000, 1_000).unwrap_err();
    match err {
        CodropError::DecompressionBombDetected { limit, requested } => {
            assert_eq!(limit, 1_000);
            assert_eq!(requested, 1_000_000);
        }
        other => panic!("expected DecompressionBombDetected, got {:?}", other),
    }
}

#[test]
fn test_malformed_prefilter_bad_backend() {
    let bad_payload = vec![7, 1, 0, 0, 0, 0, 1];
    assert!(matches!(
        decode_prefiltered_payload(&bad_payload, 0, 100),
        Err(CodropError::CorruptedPrefilterData(_))
    ));
}

#[test]
fn test_randomized_json_like_roundtrips() {
    for seed in 1..=20 {
        let mut json = String::from("[\n");
        for i in 0..15 {
            json.push_str(&format!(
                "  {{\"index\": {}, \"hash\": \"h_{:x}\", \"active\": {}, \"value\": {}}},\n",
                i,
                (i * 37 + seed * 991),
                if i % 2 == 0 { "true" } else { "false" },
                (i * seed) as f64 * 1.5
            ));
        }
        json.push_str("  {\"final\": null}\n]");

        let bytes = json.into_bytes();
        let compressed = compress(&bytes, CompressionLevel::Compact).unwrap();
        let decompressed = decompress(&compressed).unwrap();
        assert_eq!(decompressed, bytes, "Failed for seed {seed}");
    }
}

#[test]
fn test_prefilter_json_roundtrip_lzh() {
    let json_data = br#"[
            {"user_id": 100, "status": "active", "created_at": "2026-09-24", "role": "admin"},
            {"user_id": 101, "status": "active", "created_at": "2026-09-24", "role": "user"},
            {"user_id": 102, "status": "active", "created_at": "2026-09-24", "role": "user"},
            {"user_id": 103, "status": "active", "created_at": "2026-09-24", "role": "editor"}
        ]"#;

    let candidate = try_encode_prefilter(json_data, PrefilterBackend::Lzh, 5).expect("should produce candidate");
    let decoded = decode_prefiltered_payload(&candidate.encoded_payload, json_data.len(), 4096).unwrap();
    assert_eq!(decoded, json_data);
}

#[test]
fn test_prefilter_delta_roundtrip_lza() {
    let mut ramp = Vec::new();
    for i in 0..500 {
        ramp.push((i * 2) as u8);
    }

    let candidate = try_encode_prefilter(&ramp, PrefilterBackend::Lza, 5).expect("delta candidate should be found");
    assert_eq!(candidate.prefilter_type, PrefilterType::Delta);

    let decoded = decode_prefiltered_payload(&candidate.encoded_payload, ramp.len(), 4096).unwrap();
    assert_eq!(decoded, ramp);
}

#[test]
fn test_prefilter_codes() {
    assert_eq!(PrefilterBackend::from_code(1).unwrap(), PrefilterBackend::Lza);
    assert!(PrefilterBackend::from_code(2).is_err());
    assert_eq!(PrefilterType::from_code(4).unwrap(), PrefilterType::Text);
    assert_eq!(PrefilterType::from_code(0).unwrap_err(), CodropError::UnsupportedPrefilter(0));
    assert!(try_encode_prefilter(b"too short", PrefilterBackend::Lzh, 5).is_none());
}

#[test]
fn test_json_long_keys_round_trip() {
    // Keys of 40 bytes: longer than the text prefilter's word limit, within the JSON key limit.
    let key = "configuration_parameter_identifier_name";
    let mut json = String::from("[");
    for i in 0..12 {
        if i > 0 {
            json.push_str(", ");
        }
        json.push_str(&format!("{{\"{}\": {}}}", key, i));
    }
    json.push(']');
    let json = json.as_bytes();
    assert!(is_json(json));
    let keys = extract_json_keys(json, 64);
    assert!(keys.iter().any(|k| k.len() > 32));
    let (meta, transformed) = json_prefilter_encode(json).expect("keys substituted");
    let restored = json_prefilter_decode(&meta, &transformed, json.len()).unwrap();
    assert_eq!(restored, json);
    let cand = try_encode_prefilter(json, PrefilterBackend::Lzh, 5).expect("candidate");
    let decoded = decode_prefiltered_payload(&cand.encoded_payload, json.len(), json.len()).unwrap();
    assert_eq!(decoded, json);
}
