//! Error type shared by every Codrop operation.
use vstd::prelude::*;

use crate::format::block::BlockType;

verus! {

/// Primary error type for all Codrop operations.
#[derive(Debug, Clone, PartialEq, Eq)]
pub enum CodropError {
    /// Stream does not begin with the "CDP1" magic identifier.
    InvalidMagic([u8; 4]),
    /// Stream declares a major/minor version this decoder does not support.
    UnsupportedVersion { major: u8, minor: u8 },
    /// Header CRC-8 failed verification.
    HeaderChecksumMismatch { expected: u8, actual: u8 },
    /// Header holds corrupted or contradictory fields.
    CorruptedHeader(String),
    /// A block type code outside the eight defined ones.
    InvalidBlockType(u8),
    /// A defined block type that this decoder does not implement.
    UnsupportedBlockType(BlockType),
    /// A back-reference points outside the decoded history.
    InvalidOffset { offset: usize, max_valid: usize },
    /// A length exceeds the room left in the block.
    InvalidMatchLength { length: usize, remaining: usize },
    /// Entropy-coded or token stream is malformed.
    CorruptedEntropyStream(String),
    /// Prefilter payload is malformed.
    CorruptedPrefilterData(String),
    /// Prefilter type code that is not registered.
    UnsupportedPrefilter(u8),
    /// Static dictionary id/version that is not registered.
    UnknownDictionary { dict_id: u16, version: u8 },
    /// Block CRC32c does not match the decoded block.
    BlockChecksumMismatch { expected: u32, actual: u32 },
    /// Whole-stream hash does not match the decoded data.
    StreamChecksumMismatch { expected: u64, actual: u64 },
    /// Input ended before the structure being read was complete.
    UnexpectedEof,
    /// Declared output exceeds the configured safety limit.
    DecompressionBombDetected { limit: u64, requested: u64 },
    /// A length exceeds a working-memory limit.
    MemoryLimitExceeded { limit: usize, requested: usize },
    /// Window size outside the supported range.
    InvalidWindowSize(u32),
    /// Input/output failure, or misuse of a finished encoder.
    Io(String),
    /// Image decoding or re-encoding failed.
    ImageError(String),
}

/// Result alias used throughout the library.
pub type CodropResult<T> = Result<T, CodropError>;

} // verus!
