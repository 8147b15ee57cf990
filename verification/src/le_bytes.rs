//! Fixed-width little-endian integers.
use vstd::prelude::*;

verus! {

/// Little-endian bytes of a `u16`.
pub open spec fn le16(v: u16) -> Seq<u8> {
    seq![(v & 0xff) as u8, (v >> 8u16) as u8]
}

/// Value of two little-endian bytes.
pub open spec fn le16_val(s: Seq<u8>) -> u16 {
    (s[0] as u16) | ((s[1] as u16) << 8u16)
}

/// Little-endian bytes of a `u32`.
pub open spec fn le32(v: u32) -> Seq<u8> {
    seq![(v & 0xff) as u8, ((v >> 8u32) & 0xff) as u8, ((v >> 16u32) & 0xff) as u8, (v >> 24u32) as u8]
}

/// Value of four little-endian bytes.
pub open spec fn le32_val(s: Seq<u8>) -> u32 {
    (s[0] as u32) | ((s[1] as u32) << 8u32) | ((s[2] as u32) << 16u32) | ((s[3] as u32) << 24u32)
}

/// Little-endian bytes of a `u64`.
pub open spec fn le64(v: u64) -> Seq<u8> {
    le32((v & 0xffff_ffff) as u32) + le32((v >> 32u64) as u32)
}

/// Value of eight little-endian bytes.
pub open spec fn le64_val(s: Seq<u8>) -> u64 {
    (le32_val(s) as u64) | ((le32_val(s.skip(4)) as u64) << 32u64)
}

pub proof fn lemma_le16_roundtrip(v: u16, rest: Seq<u8>)
    ensures
        le16_val(le16(v) + rest) == v,
{
    let s = le16(v) + rest;
    assert(s[0] == (v & 0xff) as u8 && s[1] == (v >> 8u16) as u8);
    assert(((((v & 0xff) as u8) as u16) | ((((v >> 8u16) as u8) as u16) << 8u16)) == v) by (bit_vector);
}

pub proof fn lemma_le32_roundtrip(v: u32, rest: Seq<u8>)
    ensures
        le32_val(le32(v) + rest) == v,
{
    let s = le32(v) + rest;
    assert(s[0] == (v & 0xff) as u8 && s[1] == ((v >> 8u32) & 0xff) as u8);
    assert(s[2] == ((v >> 16u32) & 0xff) as u8 && s[3] == (v >> 24u32) as u8);
    assert(((((v & 0xff) as u8) as u32) | (((((v >> 8u32) & 0xff) as u8) as u32) << 8u32)
        | (((((v >> 16u32) & 0xff) as u8) as u32) << 16u32) | ((((v >> 24u32) as u8) as u32) << 24u32)) == v)
        by (bit_vector);
}

pub proof fn lemma_le64_roundtrip(v: u64, rest: Seq<u8>)
    ensures
        le64_val(le64(v) + rest) == v,
{
    let lo = (v & 0xffff_ffff) as u32;
    let hi = (v >> 32u64) as u32;
    assert(le64(v) + rest =~= le32(lo) + (le32(hi) + rest));
    lemma_le32_roundtrip(lo, le32(hi) + rest);
    assert((le64(v) + rest).skip(4) =~= le32(hi) + rest);
    lemma_le32_roundtrip(hi, rest);
    assert(((((v & 0xffff_ffff) as u32) as u64) | ((((v >> 32u64) as u32) as u64) << 32u64)) == v) by (bit_vector);
}

/// Append the little-endian bytes of `v`.
pub fn write_u16_le(out: &mut Vec<u8>, v: u16)
    ensures
        final(out)@ == old(out)@ + le16(v),
{
    out.push((v & 0xff) as u8);
    out.push((v >> 8u16) as u8);
    assert(final(out)@ =~= old(out)@ + le16(v));
}

/// Append the little-endian bytes of `v`.
pub fn write_u32_le(out: &mut Vec<u8>, v: u32)
    ensures
        final(out)@ == old(out)@ + le32(v),
{
    out.push((v & 0xff) as u8);
    out.push(((v >> 8u32) & 0xff) as u8);
    out.push(((v >> 16u32) & 0xff) as u8);
    out.push((v >> 24u32) as u8);
    assert(final(out)@ =~= old(out)@ + le32(v));
}

/// Append the little-endian bytes of `v`.
pub fn write_u64_le(out: &mut Vec<u8>, v: u64)
    ensures
        final(out)@ == old(out)@ + le64(v),
{
    write_u32_le(out, (v & 0xffff_ffff) as u32);
    write_u32_le(out, (v >> 32u64) as u32);
    assert(final(out)@ =~= old(out)@ + le64(v));
}

/// Read two little-endian bytes at `s[pos..]`.
pub fn read_u16_le(s: &[u8], pos: usize) -> (r: u16)
    requires
        pos + 2 <= s@.len(),
    ensures
        r == le16_val(s@.skip(pos as int)),
{
    (s[pos] as u16) | ((s[pos + 1] as u16) << 8u16)
}

/// Read four little-endian bytes at `s[pos..]`.
pub fn read_u32_le(s: &[u8], pos: usize) -> (r: u32)
    requires
        pos + 4 <= s@.len(),
    ensures
        r == le32_val(s@.skip(pos as int)),
{
    (s[pos] as u32) | ((s[pos + 1] as u32) << 8u32) | ((s[pos + 2] as u32) << 16u32) | ((s[pos + 3] as u32) << 24u32)
}

/// Read eight little-endian bytes at `s[pos..]`.
pub fn read_u64_le(s: &[u8], pos: usize) -> (r: u64)
    requires
        pos + 8 <= s@.len(),
    ensures
        r == le64_val(s@.skip(pos as int)),
{
    assert(s@.len() == s.len());
    let lo = read_u32_le(s, pos);
    let hi = read_u32_le(s, pos + 4);
    assert(s@.skip(pos as int).skip(4) =~= s@.skip(pos + 4));
    (lo as u64) | ((hi as u64) << 32u64)
}

} // verus!
