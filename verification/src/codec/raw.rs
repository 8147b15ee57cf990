//! Stored (verbatim) blocks.
use vstd::prelude::*;

use crate::buf::copy_bytes;
use crate::error::CodropError;

verus! {

pub struct RawCodec;

impl RawCodec {
    /// The payload of a stored block is the data itself.
    pub fn encode(data: &[u8]) -> (r: Vec<u8>)
        ensures
            r@ == data@,
    {
        copy_bytes(data)
    }

    /// A stored payload decodes to itself when its length is the announced one.
    pub fn decode(compressed: &[u8], expected_len: usize) -> (r: Result<Vec<u8>, CodropError>)
        ensures
            compressed@.len() == expected_len ==> (r matches Ok(v) && v@ == compressed@),
            compressed@.len() != expected_len ==> r matches Err(CodropError::CorruptedHeader(_)),
    {
        if compressed.len() != expected_len {
            return Err(CodropError::CorruptedHeader("Raw block length mismatch".to_string()));
        }
        Ok(copy_bytes(compressed))
    }
}

} // verus!
