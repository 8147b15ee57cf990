//! The four-byte stream identifier.
use vstd::prelude::*;

use crate::error::CodropError;

verus! {

/// Standard magic sequence of Codrop streams: "CDP1".
pub const CODROP_MAGIC: [u8; 4] = [0x43, 0x44, 0x50, 0x31];

/// The magic as a byte sequence.
pub open spec fn spec_magic() -> Seq<u8> {
    seq![0x43u8, 0x44u8, 0x50u8, 0x31u8]
}

/// The first four bytes of `s` as an array.
pub open spec fn first4(s: Seq<u8>) -> [u8; 4] {
    [s[0], s[1], s[2], s[3]]
}

/// Check that `bytes` starts with the Codrop magic.
pub fn validate_magic(bytes: &[u8]) -> (r: Result<(), CodropError>)
    ensures
        bytes@.len() < 4 ==> r == Err::<(), CodropError>(CodropError::UnexpectedEof),
        bytes@.len() >= 4 && bytes@.take(4) == spec_magic() ==> r == Ok::<(), CodropError>(()),
        bytes@.len() >= 4 && bytes@.take(4) != spec_magic() ==> r == Err::<(), CodropError>(
            CodropError::InvalidMagic(first4(bytes@)),
        ),
{
    if bytes.len() < 4 {
        return Err(CodropError::UnexpectedEof);
    }
    let magic: [u8; 4] = [bytes[0], bytes[1], bytes[2], bytes[3]];
    if bytes[0] != 0x43 || bytes[1] != 0x44 || bytes[2] != 0x50 || bytes[3] != 0x31 {
        proof {
            if bytes@.take(4) == spec_magic() {
                assert(bytes@.take(4)[0] == bytes@[0]);
                assert(bytes@.take(4)[1] == bytes@[1]);
                assert(bytes@.take(4)[2] == bytes@[2]);
                assert(bytes@.take(4)[3] == bytes@[3]);
            }
        }
        return Err(CodropError::InvalidMagic(magic));
    }
    assert(bytes@.take(4) =~= spec_magic());
    Ok(())
}

} // verus!
