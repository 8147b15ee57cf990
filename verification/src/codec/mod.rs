//! Block codecs.
use vstd::prelude::*;

use crate::error::CodropError;


pub mod lzf;
pub mod lza;
pub mod lzh;
pub mod raw;
pub mod rle;


pub use lza::LzaCodec;
pub use lzf::{LzfCodec, OffsetMode};
pub use lzh::LzhCodec;

pub use raw::RawCodec;
pub use rle::RleCodec;

verus! {

/// Outcome of reading a length, or of decoding a block.
pub enum DecodeStep<T> {
    /// The value and the position after it.
    Done(T, int),
    /// The input ended early.
    Eof,
    /// A length above what the block allows (`InvalidMatchLength`).
    BadLength(int, int),
    /// An extended literal length above what the block allows (`MemoryLimitExceeded`).
    TooLong(int, int),
    /// An offset of zero or past the decoded history (`InvalidOffset`).
    BadOffset(int, int),
    /// A malformed stream (`CorruptedEntropyStream`).
    Corrupt,
}

/// `r` is the error of the failed parse `p` (and `p` did not succeed).
pub open spec fn step_error_is<T>(p: DecodeStep<T>, e: CodropError) -> bool {
    match p {
        DecodeStep::Done(_, _) => false,
        DecodeStep::Eof => e == CodropError::UnexpectedEof,
        DecodeStep::BadLength(l, m) => e == CodropError::InvalidMatchLength { length: l as usize, remaining: m as usize },
        DecodeStep::TooLong(m, l) => e == CodropError::MemoryLimitExceeded { limit: m as usize, requested: l as usize },
        DecodeStep::BadOffset(o, m) => e == CodropError::InvalidOffset { offset: o as usize, max_valid: m as usize },
        DecodeStep::Corrupt => e is CorruptedEntropyStream,
    }
}

/// The failure `p`, as the outcome of another kind of parse.
pub open spec fn step_fail<A, B>(p: DecodeStep<A>) -> DecodeStep<B> {
    match p {
        DecodeStep::Done(_, _) => DecodeStep::Corrupt,
        DecodeStep::Eof => DecodeStep::Eof,
        DecodeStep::BadLength(a, b) => DecodeStep::BadLength(a, b),
        DecodeStep::TooLong(a, b) => DecodeStep::TooLong(a, b),
        DecodeStep::BadOffset(a, b) => DecodeStep::BadOffset(a, b),
        DecodeStep::Corrupt => DecodeStep::Corrupt,
    }
}

/// `r` is the result of a decoding whose outcome is `p`.
pub open spec fn step_result_is(p: DecodeStep<Seq<u8>>, r: Result<Vec<u8>, CodropError>) -> bool {
    match p {
        DecodeStep::Done(d, _) => r matches Ok(v) && v@ == d,
        _ => r matches Err(e) && step_error_is(p, e),
    }
}

} // verus!
