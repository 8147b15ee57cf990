//! The decisions of the `codrop` command line that do not touch files: process exit codes
//! and compression level names.
use vstd::prelude::*;

use crate::error::CodropError;
use crate::streaming::CompressionLevel;

verus! {

/// Exit status: success.
pub const EXIT_SUCCESS: i32 = 0;

/// Exit status: general failure or I/O error.
pub const EXIT_GENERAL_FAILURE: i32 = 1;

/// Exit status: invalid input, malformed stream or checksum error.
pub const EXIT_MALFORMED_STREAM: i32 = 2;

/// Exit status: unsupported feature or format version.
pub const EXIT_UNSUPPORTED_FEATURE: i32 = 3;

/// Exit status: the decompressed output would exceed the configured limit.
pub const EXIT_LIMIT_EXCEEDED: i32 = 4;

/// The exit status reported for `err`.
pub open spec fn spec_exit_code(err: CodropError) -> i32 {
    match err {
        CodropError::UnsupportedVersion { .. }
        | CodropError::UnsupportedBlockType(_)
        | CodropError::UnsupportedPrefilter(_)
        | CodropError::UnknownDictionary { .. } => EXIT_UNSUPPORTED_FEATURE,
        CodropError::Io(_) | CodropError::ImageError(_) => EXIT_GENERAL_FAILURE,
        CodropError::DecompressionBombDetected { .. } => EXIT_LIMIT_EXCEEDED,
        _ => EXIT_MALFORMED_STREAM,
    }
}

/// Maps an error to the command line's exit status: 3 for unsupported features, 1 for I/O
/// and image failures, 4 when the output limit would be exceeded, 2 for every other
/// malformed-input error.
pub fn error_to_exit_code(err: &CodropError) -> (r: i32)
    ensures
        r == spec_exit_code(*err),
{
    match err {
        CodropError::UnsupportedVersion { .. }
        | CodropError::UnsupportedBlockType(_)
        | CodropError::UnsupportedPrefilter(_)
        | CodropError::UnknownDictionary { .. } => EXIT_UNSUPPORTED_FEATURE,
        CodropError::InvalidMagic(_)
        | CodropError::HeaderChecksumMismatch { .. }
        | CodropError::CorruptedHeader(_)
        | CodropError::InvalidBlockType(_)
        | CodropError::InvalidOffset { .. }
        | CodropError::InvalidMatchLength { .. }
        | CodropError::CorruptedEntropyStream(_)
        | CodropError::CorruptedPrefilterData(_)
        | CodropError::BlockChecksumMismatch { .. }
        | CodropError::StreamChecksumMismatch { .. }
        | CodropError::UnexpectedEof
        | CodropError::InvalidWindowSize(_)
        | CodropError::MemoryLimitExceeded { .. } => EXIT_MALFORMED_STREAM,
        CodropError::DecompressionBombDetected { .. } => EXIT_LIMIT_EXCEEDED,
        CodropError::Io(_) | CodropError::ImageError(_) => EXIT_GENERAL_FAILURE,
    }
}

/// `b` with ASCII upper-case letters folded to lower case.
pub open spec fn ascii_lower(b: u8) -> u8 {
    if 0x41 <= b <= 0x5A {
        (b + 0x20) as u8
    } else {
        b
    }
}

/// `s` spells the lower-case ASCII word `word`, ignoring ASCII case.
pub open spec fn names_word(s: Seq<u8>, word: Seq<u8>) -> bool {
    s.len() == word.len() && forall|i: int| 0 <= i < s.len() ==> ascii_lower(#[trigger] s[i]) == word[i]
}

/// `fast`
pub open spec fn word_fast() -> Seq<u8> {
    seq![0x66u8, 0x61, 0x73, 0x74]
}

/// `balanced`
pub open spec fn word_balanced() -> Seq<u8> {
    seq![0x62u8, 0x61, 0x6C, 0x61, 0x6E, 0x63, 0x65, 0x64]
}

/// `compact`
pub open spec fn word_compact() -> Seq<u8> {
    seq![0x63u8, 0x6F, 0x6D, 0x70, 0x61, 0x63, 0x74]
}

/// `auto`
pub open spec fn word_auto() -> Seq<u8> {
    seq![0x61u8, 0x75, 0x74, 0x6F]
}

/// The level that `name` spells, if any.
pub open spec fn spec_level_named(name: Seq<u8>) -> Option<CompressionLevel> {
    if names_word(name, word_fast()) {
        Some(CompressionLevel::Fast)
    } else if names_word(name, word_balanced()) {
        Some(CompressionLevel::Balanced)
    } else if names_word(name, word_compact()) {
        Some(CompressionLevel::Compact)
    } else if names_word(name, word_auto()) {
        Some(CompressionLevel::Auto)
    } else {
        None
    }
}

fn matches_word(name: &[u8], word: &[u8]) -> (r: bool)
    ensures
        r == names_word(name@, word@),
{
    if name.len() != word.len() {
        return false;
    }
    let mut i: usize = 0;
    while i < name.len()
        invariant
            name@.len() == word@.len(),
            i <= name@.len(),
            forall|j: int| 0 <= j < i ==> ascii_lower(#[trigger] name@[j]) == word@[j],
        decreases name@.len() - i,
    {
        let b = name[i];
        let l: u8 = if 0x41 <= b && b <= 0x5A {
            b + 0x20
        } else {
            b
        };
        if l != word[i] {
            return false;
        }
        i = i + 1;
    }
    true
}

/// The compression level named by `name` (the UTF-8 bytes of a command-line word), ignoring
/// ASCII case: `fast`, `balanced`, `compact` or `auto`; `None` for any other word.
pub fn parse_level_name(name: &[u8]) -> (r: Option<CompressionLevel>)
    ensures
        r == spec_level_named(name@),
{
    let fast: [u8; 4] = [0x66, 0x61, 0x73, 0x74];
    let balanced: [u8; 8] = [0x62, 0x61, 0x6C, 0x61, 0x6E, 0x63, 0x65, 0x64];
    let compact: [u8; 7] = [0x63, 0x6F, 0x6D, 0x70, 0x61, 0x63, 0x74];
    let auto_word: [u8; 4] = [0x61, 0x75, 0x74, 0x6F];
    assert(fast@ =~= word_fast());
    assert(balanced@ =~= word_balanced());
    assert(compact@ =~= word_compact());
    assert(auto_word@ =~= word_auto());
    if matches_word(name, &fast) {
        Some(CompressionLevel::Fast)
    } else if matches_word(name, &balanced) {
        Some(CompressionLevel::Balanced)
    } else if matches_word(name, &compact) {
        Some(CompressionLevel::Compact)
    } else if matches_word(name, &auto_word) {
        Some(CompressionLevel::Auto)
    } else {
        None
    }
}

} // verus!
