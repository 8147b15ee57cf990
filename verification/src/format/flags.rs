//! Stream header flag bits.
use vstd::prelude::*;

verus! {

pub const FLAG_HAS_UNCOMPRESSED_SIZE: u16 = 1;
pub const FLAG_HAS_STREAM_CHECKSUM: u16 = 2;
pub const FLAG_HAS_DICTIONARY: u16 = 4;
pub const FLAG_INDEPENDENT_BLOCKS: u16 = 8;
pub const WINDOW_CODE_MASK: u16 = 0x30;

/// Bitfield representation of stream header flags.
#[derive(Debug, Clone, Copy, PartialEq, Eq, Structural)]
pub struct HeaderFlags {
    pub has_uncompressed_size: bool,
    pub has_stream_checksum: bool,
    pub has_dictionary: bool,
    pub independent_blocks: bool,
    /// 2 bits: 0 = 64 KB, 1 = 1 MB, 2 = 8 MB, 3 = custom exponent.
    pub window_code: u8,
}

/// The 16-bit encoding of a set of flags.
pub open spec fn spec_flags_bits(f: HeaderFlags) -> u16 {
    (if f.has_uncompressed_size { 1u16 } else { 0u16 }) | (if f.has_stream_checksum { 2u16 } else { 0u16 })
        | (if f.has_dictionary { 4u16 } else { 0u16 }) | (if f.independent_blocks { 8u16 } else { 0u16 })
        | (((f.window_code & 3) as u16) << 4u16)
}

/// The flags decoded from a 16-bit field (unknown bits are ignored).
pub open spec fn spec_flags_from_bits(bits: u16) -> HeaderFlags {
    HeaderFlags {
        has_uncompressed_size: bits & 1 != 0,
        has_stream_checksum: bits & 2 != 0,
        has_dictionary: bits & 4 != 0,
        independent_blocks: bits & 8 != 0,
        window_code: ((bits >> 4u16) & 3) as u8,
    }
}

impl HeaderFlags {
    pub fn to_u16(&self) -> (r: u16)
        ensures
            r == spec_flags_bits(*self),
    {
        let a: u16 = if self.has_uncompressed_size { FLAG_HAS_UNCOMPRESSED_SIZE } else { 0 };
        let b: u16 = if self.has_stream_checksum { FLAG_HAS_STREAM_CHECKSUM } else { 0 };
        let c: u16 = if self.has_dictionary { FLAG_HAS_DICTIONARY } else { 0 };
        let d: u16 = if self.independent_blocks { FLAG_INDEPENDENT_BLOCKS } else { 0 };
        let bits: u16 = a | b | c | d | (((self.window_code & 0x03) as u16) << 4u16);
        bits
    }

    pub fn from_u16(bits: u16) -> (r: Self)
        ensures
            r == spec_flags_from_bits(bits),
    {
        HeaderFlags {
            has_uncompressed_size: (bits & FLAG_HAS_UNCOMPRESSED_SIZE) != 0,
            has_stream_checksum: (bits & FLAG_HAS_STREAM_CHECKSUM) != 0,
            has_dictionary: (bits & FLAG_HAS_DICTIONARY) != 0,
            independent_blocks: (bits & FLAG_INDEPENDENT_BLOCKS) != 0,
            window_code: ((bits >> 4u16) & 0x03) as u8,
        }
    }
}

/// Decoding the encoding of flags gives them back, provided the window code fits in 2 bits.
pub proof fn law_flags_roundtrip(f: HeaderFlags)
    requires
        f.window_code < 4,
    ensures
        spec_flags_from_bits(spec_flags_bits(f)) == f,
{
    let a = if f.has_uncompressed_size { 1u16 } else { 0u16 };
    let b = if f.has_stream_checksum { 2u16 } else { 0u16 };
    let c = if f.has_dictionary { 4u16 } else { 0u16 };
    let d = if f.independent_blocks { 8u16 } else { 0u16 };
    let wc = f.window_code;
    let x = a | b | c | d | (((wc & 3) as u16) << 4u16);
    assert((x & 1 != 0) == (a == 1) && (x & 2 != 0) == (b == 2) && (x & 4 != 0) == (c == 4) && (x & 8 != 0) == (d == 8)
        && ((x >> 4u16) & 3) as u8 == wc) by (bit_vector)
        requires
            x == a | b | c | d | (((wc & 3) as u16) << 4u16),
            (a == 0 || a == 1) && (b == 0 || b == 2) && (c == 0 || c == 4) && (d == 0 || d == 8) && wc < 4;
}

/// Each of the four low flag bits of `bits`, as a mask value.
proof fn lemma_single_bits(bits: u16)
    by (bit_vector)
    ensures
        (if bits & 1 != 0 { 1u16 } else { 0u16 }) == bits & 1,
        (if bits & 2 != 0 { 2u16 } else { 0u16 }) == bits & 2,
        (if bits & 4 != 0 { 4u16 } else { 0u16 }) == bits & 4,
        (if bits & 8 != 0 { 8u16 } else { 0u16 }) == bits & 8,
{
}

/// Encoding decoded flags gives back the six defined bits of the field.
pub proof fn law_flags_bits_roundtrip(bits: u16)
    ensures
        spec_flags_bits(spec_flags_from_bits(bits)) == bits & 0x3f,
{
    let f = spec_flags_from_bits(bits);
    let a = if f.has_uncompressed_size { 1u16 } else { 0u16 };
    let b = if f.has_stream_checksum { 2u16 } else { 0u16 };
    let c = if f.has_dictionary { 4u16 } else { 0u16 };
    let d = if f.independent_blocks { 8u16 } else { 0u16 };
    let wc = f.window_code;
    lemma_single_bits(bits);
    assert(a | b | c | d | (((wc & 3) as u16) << 4u16) == bits & 0x3f) by (bit_vector)
        requires a == (bits & 1) && b == (bits & 2) && c == (bits & 4) && d == (bits & 8) && wc == ((bits >> 4u16) & 3) as u8;
}

} // verus!
