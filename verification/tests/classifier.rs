use libcodrop::analysis::classifier::byte_histogram;
use libcodrop::analysis::{AdaptiveClassifier, CompressionLevel, EntropyBand};
use libcodrop::BlockType;

/// Measures the Shannon entropy of the classifier's sample and places it in its band.
fn entropy_band(input: &[u8]) -> EntropyBand {
    let hist = byte_histogram(input);
    let total: u32 = hist.iter().sum();
    if total == 0 {
        return EntropyBand::Low;
    }
    let total = total as f64;
    let mut entropy = 0.0f64;
    for &c in &hist {
        if c > 0 {
            let p = (c as f64) / total;
            entropy -= p * p.log2();
        }
    }
    if entropy >= 7.75 {
        EntropyBand::High
    } else if entropy > 7.4 {
        EntropyBand::Borderline
    } else {
        EntropyBand::Low
    }
}

fn select(input: &[u8], level: CompressionLevel) -> BlockType {
    AdaptiveClassifier::select_strategy(input, level, entropy_band(input))
}

#[test]
fn test_classify_repetitive_as_rle() {
    let repeated = vec![0x55; 5000];
    let chosen = select(&repeated, CompressionLevel::Auto);
    assert_eq!(chosen, BlockType::Rle);
}

#[test]
fn test_classify_random_as_raw() {
    // High entropy pseudo-random sequence
    let mut pseudo_random = Vec::with_capacity(4096);
    let mut seed: u32 = 0x12345678;
    for _ in 0..4096 {
        seed = seed.wrapping_mul(1664525).wrapping_add(1013904223);
        pseudo_random.push((seed >> 24) as u8);
    }
    let chosen = select(&pseudo_random, CompressionLevel::Auto);
    assert_eq!(chosen, BlockType::Raw);
}

#[test]
fn test_classify_text_as_lzh() {
    let text = b"The architecture of modern compression algorithms requires balancing speed and ratio.";
    let chosen = select(text, CompressionLevel::Balanced);
    assert_eq!(chosen, BlockType::Lzh);
}

#[test]
fn test_histogram_counts_only_the_first_4096_bytes() {
    let mut data = vec![7u8; 4096];
    data.extend_from_slice(&[9u8; 100]);
    let hist = byte_histogram(&data);
    assert_eq!(hist.len(), 256);
    assert_eq!(hist[7], 4096);
    assert_eq!(hist[9], 0);
    let hist = byte_histogram(b"abca");
    assert_eq!(hist[b'a' as usize], 2);
    assert_eq!(hist[b'b' as usize], 1);
    assert_eq!(hist[b'c' as usize], 1);
    assert_eq!(hist[b'd' as usize], 0);
}

#[test]
fn test_classify_empty_is_raw() {
    assert_eq!(AdaptiveClassifier::select_strategy(&[], CompressionLevel::Fast, EntropyBand::Low), BlockType::Raw);
}

#[test]
fn test_classify_dominant_byte_threshold() {
    // 12 of 20 bytes are the same byte: exactly 60%, which counts as dominated.
    let mut data = vec![b'x'; 12];
    data.extend_from_slice(b"abcdefgh");
    assert_eq!(AdaptiveClassifier::select_strategy(&data, CompressionLevel::Fast, EntropyBand::Low), BlockType::Rle);
    // 11 of 20 falls short, and ten distinct symbols rule out the small-alphabet case.
    let mut data = vec![b'x'; 11];
    data.extend_from_slice(b"abcdefghi");
    assert_eq!(AdaptiveClassifier::select_strategy(&data, CompressionLevel::Fast, EntropyBand::Low), BlockType::Lzf);
}

#[test]
fn test_classify_small_alphabet_threshold() {
    // Seven equally frequent symbols: fewer than eight, so run-length coding.
    let data: Vec<u8> = (0..700u32).map(|i| b'a' + (i % 7) as u8).collect();
    assert_eq!(select(&data, CompressionLevel::Balanced), BlockType::Rle);
    // Eight equally frequent symbols go to the level's codec.
    let data: Vec<u8> = (0..800u32).map(|i| b'a' + (i % 8) as u8).collect();
    assert_eq!(select(&data, CompressionLevel::Balanced), BlockType::Lzh);
}

#[test]
fn test_classify_entropy_threshold_commits_to_raw() {
    // 220 equiprobable symbols: entropy log2(220), about 7.78 bits per byte.
    let input: Vec<u8> = (0..3960u32).map(|i| (i % 220) as u8).collect();
    assert_eq!(entropy_band(&input), EntropyBand::High);
    assert_eq!(select(&input, CompressionLevel::Balanced), BlockType::Raw);
    // 200 equiprobable symbols: about 7.64 bits per byte, below the threshold.
    let input: Vec<u8> = (0..4000u32).map(|i| (i % 200) as u8).collect();
    assert_eq!(entropy_band(&input), EntropyBand::Borderline);
    assert_eq!(select(&input, CompressionLevel::Balanced), BlockType::Lzh);
    assert_eq!(select(&input, CompressionLevel::Auto), BlockType::Lzf);
}

#[test]
fn test_classify_levels_and_bands() {
    let text = b"The architecture of modern compression algorithms requires balancing speed and ratio.";
    assert_eq!(AdaptiveClassifier::select_strategy(text, CompressionLevel::Compact, EntropyBand::Low), BlockType::Lzh);
    assert_eq!(AdaptiveClassifier::select_strategy(text, CompressionLevel::Max, EntropyBand::Low), BlockType::Lzh);
    assert_eq!(AdaptiveClassifier::select_strategy(text, CompressionLevel::Auto, EntropyBand::Low), BlockType::Lzh);
    assert_eq!(AdaptiveClassifier::select_strategy(text, CompressionLevel::Auto, EntropyBand::Borderline), BlockType::Lzf);
    // An entropy of at least 7.75 bits per byte commits to a raw block.
    assert_eq!(AdaptiveClassifier::select_strategy(text, CompressionLevel::Balanced, EntropyBand::High), BlockType::Raw);
    let all: Vec<u8> = (0..=255u8).collect();
    assert_eq!(AdaptiveClassifier::select_strategy(&all, CompressionLevel::Balanced, EntropyBand::High), BlockType::Raw);
    assert_eq!(AdaptiveClassifier::select_strategy(&all, CompressionLevel::Balanced, EntropyBand::Borderline), BlockType::Lzh);
    assert_eq!(CompressionLevel::default(), CompressionLevel::Balanced);
}
