//! Block-type selection from a byte histogram of the first 4096 bytes.
//!
//! The heuristic follows the decision matrix: an entropy of at least 7.75 bits per byte commits
//! to a raw block; a dominant byte of at least 60% of the sample, or fewer than 8 distinct bytes,
//! commits to run-length coding; otherwise the level picks the codec (and `Auto` splits at an
//! entropy of 7.4). The entropy is a real number; the caller measures it and hands over its band.
use vstd::prelude::*;

use crate::format::BlockType;

verus! {

/// How many leading bytes of the input the classifier looks at.
pub const SAMPLE_LIMIT: usize = 4096;

/// The bytes that the classifier samples: the first `SAMPLE_LIMIT` of the input.
pub open spec fn sample(input: Seq<u8>) -> Seq<u8> {
    if input.len() <= SAMPLE_LIMIT {
        input
    } else {
        input.take(SAMPLE_LIMIT as int)
    }
}

/// How many times the byte `b` occurs in `s`.
pub open spec fn occurrences(s: Seq<u8>, b: u8) -> nat
    decreases s.len(),
{
    if s.len() == 0 {
        0
    } else {
        occurrences(s.drop_last(), b) + if s.last() == b {
            1nat
        } else {
            0nat
        }
    }
}

/// How many of the byte values below `k` occur in `s`.
pub open spec fn distinct_below(s: Seq<u8>, k: nat) -> nat
    decreases k,
{
    if k == 0 {
        0
    } else {
        distinct_below(s, (k - 1) as nat) + if occurrences(s, (k - 1) as u8) > 0 {
            1nat
        } else {
            0nat
        }
    }
}

/// The largest number of occurrences in `s` of a byte value below `k`.
pub open spec fn max_below(s: Seq<u8>, k: nat) -> nat
    decreases k,
{
    if k == 0 {
        0
    } else {
        let m = max_below(s, (k - 1) as nat);
        let c = occurrences(s, (k - 1) as u8);
        if c > m {
            c
        } else {
            m
        }
    }
}

/// The number of distinct byte values in the sample.
pub open spec fn distinct_symbols(input: Seq<u8>) -> nat {
    distinct_below(sample(input), 256)
}

/// The most frequent byte makes up at least 60% of the sample.
pub open spec fn dominated(input: Seq<u8>) -> bool {
    5 * max_below(sample(input), 256) >= 3 * sample(input).len()
}

/// Where the sample's Shannon entropy `H` (bits per byte) lies.
#[derive(Debug, Clone, Copy, PartialEq, Eq, Structural)]
pub enum EntropyBand {
    /// `H <= 7.4`
    Low,
    /// `7.4 < H < 7.75`
    Borderline,
    /// `H >= 7.75`
    High,
}

/// High-level strategy requested by the caller of the classifier.
#[derive(Debug, Clone, Copy, PartialEq, Eq, Structural)]
pub enum CompressionLevel {
    /// High-throughput linear speed (LZF).
    Fast,
    /// Balanced ratio and throughput (LZH); the default.
    Balanced,
    /// Archival high-ratio compression.
    Compact,
    /// Maximum effort compression.
    Max,
    /// Heuristic choice by the sample's entropy.
    Auto,
}

impl Default for CompressionLevel {
    fn default() -> (r: Self)
        ensures
            r == CompressionLevel::Balanced,
    {
        CompressionLevel::Balanced
    }
}

/// The block type that the heuristic picks.
pub open spec fn strategy_for(input: Seq<u8>, level: CompressionLevel, band: EntropyBand) -> BlockType {
    if input.len() == 0 {
        BlockType::Raw
    } else if band == EntropyBand::High {
        BlockType::Raw
    } else if dominated(input) || distinct_symbols(input) < 8 {
        BlockType::Rle
    } else {
        match level {
            CompressionLevel::Fast => BlockType::Lzf,
            CompressionLevel::Auto => if band == EntropyBand::Low {
                BlockType::Lzh
            } else {
                BlockType::Lzf
            },
            _ => BlockType::Lzh,
        }
    }
}

proof fn lemma_occurrences_le(s: Seq<u8>, b: u8)
    ensures
        occurrences(s, b) <= s.len(),
    decreases s.len(),
{
    if s.len() > 0 {
        lemma_occurrences_le(s.drop_last(), b);
    }
}

proof fn lemma_occurrences_push(s: Seq<u8>, i: int, b: u8)
    requires
        0 <= i < s.len(),
    ensures
        occurrences(s.take(i + 1), b) == occurrences(s.take(i), b) + if s[i] == b {
            1nat
        } else {
            0nat
        },
{
    assert(s.take(i + 1).drop_last() =~= s.take(i));
}

proof fn lemma_bounds_below(s: Seq<u8>, k: nat)
    ensures
        distinct_below(s, k) <= k,
        max_below(s, k) <= s.len(),
    decreases k,
{
    if k > 0 {
        lemma_bounds_below(s, (k - 1) as nat);
        lemma_occurrences_le(s, (k - 1) as u8);
    }
}

proof fn lemma_max_below_ge(s: Seq<u8>, k: nat, b: u8)
    requires
        b < k,
    ensures
        occurrences(s, b) <= max_below(s, k),
    decreases k,
{
    if b < k - 1 {
        lemma_max_below_ge(s, (k - 1) as nat, b);
    }
}

/// The classification reads only the first 4096 bytes: two inputs of at least 4096 bytes that
/// agree on those are classified alike, so bytes appended after them change nothing.
pub proof fn law_classification_reads_first_4096(a: Seq<u8>, b: Seq<u8>, level: CompressionLevel, band: EntropyBand)
    requires
        a.len() >= 4096,
        b.len() >= 4096,
        a.take(4096) == b.take(4096),
    ensures
        strategy_for(a, level, band) == strategy_for(b, level, band),
{
    assert(sample(a) =~= a.take(4096));
    assert(sample(b) =~= b.take(4096));
}

/// An empty input, and any input whose entropy is at least 7.75 bits per byte, is stored raw,
/// at every level.
pub proof fn law_raw_for_empty_or_high_entropy(input: Seq<u8>, level: CompressionLevel, band: EntropyBand)
    requires
        input.len() == 0 || band == EntropyBand::High,
    ensures
        strategy_for(input, level, band) == BlockType::Raw,
{
}

/// A non-empty input whose first `min(len, 4096)` bytes are at least 60% one byte value goes to
/// run-length coding, unless its entropy commits it to a raw block.
pub proof fn law_dominant_byte_is_rle(input: Seq<u8>, level: CompressionLevel, band: EntropyBand, x: u8)
    requires
        input.len() > 0,
        band != EntropyBand::High,
        5 * occurrences(input.take(if input.len() < 4096 { input.len() as int } else { 4096 }), x) >= 3 * (
        if input.len() < 4096 {
            input.len() as int
        } else {
            4096
        }),
    ensures
        strategy_for(input, level, band) == BlockType::Rle,
{
    let m: int = if input.len() < 4096 { input.len() as int } else { 4096 };
    assert(sample(input) =~= input.take(m));
    lemma_max_below_ge(sample(input), 256, x);
    assert(dominated(input));
}

/// The counts of each byte value in the sample (the first 4096 bytes of `input`).
pub fn byte_histogram(input: &[u8]) -> (h: Vec<u32>)
    ensures
        h@.len() == 256,
        forall|b: int| 0 <= b < 256 ==> #[trigger] h@[b] == occurrences(sample(input@), b as u8),
{
    let n: usize = if input.len() <= SAMPLE_LIMIT {
        input.len()
    } else {
        SAMPLE_LIMIT
    };
    let ghost s = sample(input@);
    assert(s =~= input@.take(n as int));
    let mut h: Vec<u32> = Vec::new();
    let mut k: usize = 0;
    while k < 256
        invariant
            k <= 256,
            h@.len() == k,
            forall|b: int| 0 <= b < k ==> #[trigger] h@[b] == 0,
        decreases 256 - k,
    {
        h.push(0);
        k = k + 1;
    }
    proof {
        assert forall|b: int| 0 <= b < 256 implies #[trigger] h@[b] == occurrences(s.take(0), b as u8) by {
            assert(s.take(0).len() == 0);
        }
    }
    let mut i: usize = 0;
    while i < n
        invariant
            n <= input@.len(),
            n <= SAMPLE_LIMIT,
            s =~= input@.take(n as int),
            i <= n,
            h@.len() == 256,
            forall|b: int| 0 <= b < 256 ==> #[trigger] h@[b] == occurrences(s.take(i as int), b as u8),
        decreases n - i,
    {
        let x = input[i];
        proof {
            assert(s[i as int] == x);
            assert forall|b: int| 0 <= b < 256 implies #[trigger] occurrences(s.take(i as int + 1), b as u8)
                == occurrences(s.take(i as int), b as u8) + if x == b as u8 {
                1nat
            } else {
                0nat
            } by {
                lemma_occurrences_push(s, i as int, b as u8);
            }
            lemma_occurrences_le(s.take(i as int), x);
        }
        let c = h[x as usize];
        h.set(x as usize, c + 1);
        i = i + 1;
    }
    assert(s.take(n as int) =~= s);
    h
}

/// The block-type heuristic.
pub struct AdaptiveClassifier;

impl AdaptiveClassifier {
    /// Picks the block type for `input` at `level`, given the band of the sample's entropy.
    pub fn select_strategy(input: &[u8], level: CompressionLevel, band: EntropyBand) -> (t: BlockType)
        ensures
            t == strategy_for(input@, level, band),
    {
        if input.len() == 0 || band == EntropyBand::High {
            return BlockType::Raw;
        }
        let h = byte_histogram(input);
        let ghost s = sample(input@);
        let n: usize = if input.len() <= SAMPLE_LIMIT {
            input.len()
        } else {
            SAMPLE_LIMIT
        };
        assert(s.len() == n);
        let mut unique: usize = 0;
        let mut max_count: u32 = 0;
        let mut b: usize = 0;
        while b < 256
            invariant
                b <= 256,
                h@.len() == 256,
                forall|j: int| 0 <= j < 256 ==> #[trigger] h@[j] == occurrences(s, j as u8),
                unique == distinct_below(s, b as nat),
                max_count == max_below(s, b as nat),
            decreases 256 - b,
        {
            proof {
                lemma_bounds_below(s, b as nat);
            }
            let c = h[b];
            if c > 0 {
                unique = unique + 1;
            }
            if c > max_count {
                max_count = c;
            }
            b = b + 1;
        }
        proof {
            lemma_bounds_below(s, 256);
        }
        let dominated: bool = (max_count as u64) * 5 >= (n as u64) * 3;
        if dominated || unique < 8 {
            return BlockType::Rle;
        }
        match level {
            CompressionLevel::Fast => BlockType::Lzf,
            CompressionLevel::Auto => if band == EntropyBand::Low {
                BlockType::Lzh
            } else {
                BlockType::Lzf
            },
            _ => BlockType::Lzh,
        }
    }
}

} // verus!
