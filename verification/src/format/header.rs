//! The stream header of the `.cdp` container.
use vstd::prelude::*;
use vstd::slice::slice_subrange;

use crate::checksum::crc8::{spec_crc8, Crc8};
use crate::error::CodropError;
use crate::format::flags::{spec_flags_bits, spec_flags_from_bits, law_flags_roundtrip, HeaderFlags};
use crate::format::magic::{first4, spec_magic, validate_magic};
use crate::le_bytes::{le16, le16_val, le32, le32_val, lemma_le16_roundtrip, lemma_le32_roundtrip, read_u16_le, read_u32_le, write_u16_le, write_u32_le};
use crate::varint::{leb_enc_u64, leb_read_u64, lemma_leb_read_u64_enc, read_leb_u64, write_leb_u64, LebRead};

verus! {

pub const FORMAT_VERSION_MAJOR: u8 = 1;
pub const FORMAT_VERSION_MINOR: u8 = 0;
pub const FORMAT_VERSION_BYTE: u8 = 0x10;

/// Stream header.
#[derive(Debug, Clone, PartialEq, Eq)]
pub struct StreamHeader {
    pub version_major: u8,
    pub version_minor: u8,
    pub flags: HeaderFlags,
    pub window_size: u32,
    pub uncompressed_size: Option<u64>,
    pub dictionary_id: Option<u32>,
}

/// The default header: version 1.0, stream checksum, 1 MB window.
pub open spec fn spec_default_header() -> StreamHeader {
    StreamHeader {
        version_major: 1,
        version_minor: 0,
        flags: HeaderFlags {
            has_uncompressed_size: false,
            has_stream_checksum: true,
            has_dictionary: false,
            independent_blocks: false,
            window_code: 1,
        },
        window_size: 0x10_0000,
        uncompressed_size: None,
        dictionary_id: None,
    }
}

impl Default for StreamHeader {
    fn default() -> (r: Self)
        ensures
            r == spec_default_header(),
    {
        Self {
            version_major: FORMAT_VERSION_MAJOR,
            version_minor: FORMAT_VERSION_MINOR,
            flags: HeaderFlags {
                has_uncompressed_size: false,
                has_stream_checksum: true,
                has_dictionary: false,
                independent_blocks: false,
                window_code: 1,
            },
            window_size: 1024 * 1024,
            uncompressed_size: None,
            dictionary_id: None,
        }
    }
}

/// Window size of a window code and custom exponent; `None` when they are rejected.
pub open spec fn spec_window_size(window_code: u8, exp: Option<u8>) -> Option<u32> {
    if window_code == 0 {
        Some(0x1_0000u32)
    } else if window_code == 1 {
        Some(0x10_0000u32)
    } else if window_code == 2 {
        Some(0x80_0000u32)
    } else if window_code == 3 {
        match exp {
            Some(e) => if 16 <= e <= 27 { Some(1u32 << e) } else { None },
            None => None,
        }
    } else {
        None
    }
}

/// Halving facts about a `u32` for the logarithm below.
pub proof fn lemma_halve_u32(x: u32)
    by (bit_vector)
    ensures
        x >= 2 ==> x >> 1 < x,
        (x as u64) < (1u64 << 32u64),
        1u32 << 0u8 == 1,
{
}

/// Position of the highest set bit of `x` (0 for 0 and 1).
pub open spec fn spec_floor_log2(x: u32) -> u8
    decreases x,
{
    if x < 2 {
        0
    } else {
        proof {
            lemma_halve_u32(x);
        }
        (1 + spec_floor_log2(x >> 1)) as u8
    }
}

/// The version byte of a header.
pub open spec fn spec_version_byte(h: StreamHeader) -> u8 {
    ((h.version_major << 4u8) | (h.version_minor & 0x0F)) as u8
}

/// Header bytes that the CRC-8 covers (after the magic, before the CRC).
pub open spec fn spec_header_payload(h: StreamHeader) -> Seq<u8> {
    seq![spec_version_byte(h)] + le16(spec_flags_bits(h.flags)) + (if h.flags.window_code == 3 {
        seq![spec_floor_log2(h.window_size)]
    } else {
        Seq::<u8>::empty()
    }) + (if h.flags.has_uncompressed_size {
        leb_enc_u64(
            match h.uncompressed_size {
                Some(v) => v,
                None => 0u64,
            },
        )
    } else {
        Seq::<u8>::empty()
    }) + (if h.flags.has_dictionary {
        le32(
            match h.dictionary_id {
                Some(v) => v,
                None => 0u32,
            },
        )
    } else {
        Seq::<u8>::empty()
    })
}

/// Serialized header: magic, payload, CRC-8 of the payload.
pub open spec fn spec_header_bytes(h: StreamHeader) -> Seq<u8> {
    spec_magic() + spec_header_payload(h) + seq![spec_crc8(spec_header_payload(h))]
}

/// A stream header takes at most 23 bytes: magic, version, flags, window exponent, a ULEB128
/// size of at most ten bytes, a dictionary id and the CRC-8.
pub proof fn lemma_header_bytes_len(h: StreamHeader)
    ensures
        spec_header_bytes(h).len() <= 23,
{
    match h.uncompressed_size {
        Some(v) => crate::varint::lemma_leb_read_u64_enc(v, Seq::empty()),
        None => crate::varint::lemma_leb_read_u64_enc(0, Seq::empty()),
    }
}

/// Outcome of parsing a stream header.
pub enum HeaderParse {
    Done(StreamHeader, nat),
    Eof,
    BadMagic([u8; 4]),
    BadVersion(u8, u8),
    BadWindow,
    TooLong,
    BadCrc(u8, u8),
}

/// What a failed stream-header read reports.
pub open spec fn header_error_is(p: HeaderParse, e: CodropError) -> bool {
    match p {
        HeaderParse::Done(_, _) => false,
        HeaderParse::Eof => e == CodropError::UnexpectedEof,
        HeaderParse::BadMagic(m) => e == CodropError::InvalidMagic(m),
        HeaderParse::BadVersion(major, minor) => e == (CodropError::UnsupportedVersion { major, minor }),
        HeaderParse::BadWindow => e is CorruptedHeader || e is InvalidWindowSize,
        HeaderParse::TooLong => e is CorruptedHeader,
        HeaderParse::BadCrc(expected, actual) => e == (CodropError::HeaderChecksumMismatch { expected, actual }),
    }
}

/// Parse of the optional size, dictionary and CRC fields that follow the window exponent at `p`.
pub open spec fn spec_read_header_tail(s: Seq<u8>, p: int, major: u8, minor: u8, flags: HeaderFlags, window: u32) -> HeaderParse {
    let (size, p2, bad) = if flags.has_uncompressed_size {
        match leb_read_u64(s.skip(p)) {
            LebRead::Value(v, n) => (Some(v), p + n, 0int),
            LebRead::Truncated => (None, p, 1int),
            LebRead::TooLong => (None, p, 2int),
        }
    } else {
        (None, p, 0int)
    };
    if bad == 1 {
        HeaderParse::Eof
    } else if bad == 2 {
        HeaderParse::TooLong
    } else if flags.has_dictionary && s.len() < p2 + 4 {
        HeaderParse::Eof
    } else {
        let dict = if flags.has_dictionary { Some(le32_val(s.skip(p2))) } else { None };
        let p3 = if flags.has_dictionary { p2 + 4 } else { p2 };
        if s.len() < p3 + 1 {
            HeaderParse::Eof
        } else {
            let expected = s[p3];
            let actual = spec_crc8(s.subrange(4, p3));
            if expected != actual {
                HeaderParse::BadCrc(expected, actual)
            } else {
                HeaderParse::Done(
                    StreamHeader {
                        version_major: major,
                        version_minor: minor,
                        flags,
                        window_size: window,
                        uncompressed_size: size,
                        dictionary_id: dict,
                    },
                    (p3 + 1) as nat,
                )
            }
        }
    }
}

/// Parse of a stream header at the front of `s`.
pub open spec fn spec_read_stream_header(s: Seq<u8>) -> HeaderParse {
    if s.len() < 4 {
        HeaderParse::Eof
    } else if s.take(4) != spec_magic() {
        HeaderParse::BadMagic(first4(s))
    } else if s.len() < 5 {
        HeaderParse::Eof
    } else if s[4] >> 4u8 != FORMAT_VERSION_MAJOR {
        HeaderParse::BadVersion(s[4] >> 4u8, s[4] & 0x0F)
    } else if s.len() < 7 {
        HeaderParse::Eof
    } else {
        let flags = spec_flags_from_bits(le16_val(s.skip(5)));
        if flags.window_code == 3 && s.len() < 8 {
            HeaderParse::Eof
        } else {
            let exp = if flags.window_code == 3 { Some(s[7]) } else { None };
            let p: int = if flags.window_code == 3 { 8 } else { 7 };
            match spec_window_size(flags.window_code, exp) {
                None => HeaderParse::BadWindow,
                Some(w) => spec_read_header_tail(s, p, s[4] >> 4u8, s[4] & 0x0F, flags, w),
            }
        }
    }
}

/// A header that serializes and reads back to itself.
pub open spec fn stream_header_canonical(h: StreamHeader) -> bool {
    &&& h.version_major == FORMAT_VERSION_MAJOR
    &&& h.version_minor < 16
    &&& h.flags.window_code < 4
    &&& (h.flags.window_code == 3 ==> exists|e: u8| 16 <= e <= 27 && h.window_size == 1u32 << e)
    &&& (h.flags.window_code != 3 ==> spec_window_size(h.flags.window_code, None) == Some(h.window_size))
    &&& h.flags.has_uncompressed_size == (h.uncompressed_size is Some)
    &&& h.flags.has_dictionary == (h.dictionary_id is Some)
}

fn floor_log2(x: u32) -> (r: u8)
    ensures
        r == spec_floor_log2(x),
    decreases x,
{
    if x < 2 {
        0
    } else {
        proof {
            lemma_halve_u32(x);
            lemma_floor_log2_bound(x >> 1);
        }
        let r = floor_log2(x >> 1);
        1 + r
    }
}

proof fn lemma_floor_log2_bound(x: u32)
    ensures
        spec_floor_log2(x) <= 31,
{
    lemma_halve_u32(x);
    lemma_floor_log2_below(x, 32);
}

proof fn lemma_floor_log2_below(x: u32, k: u64)
    requires
        1 <= k <= 32,
        (x as u64) < (1u64 << k),
    ensures
        spec_floor_log2(x) < k,
    decreases x,
{
    if x >= 2 {
        lemma_halve_u32(x);
        assert(k >= 2 && (((x >> 1) as u64) < (1u64 << ((k - 1) as u64)))) by (bit_vector)
            requires x >= 2, (x as u64) < (1u64 << k), 1 <= k <= 32;
        lemma_floor_log2_below(x >> 1, (k - 1) as u64);
    }
}

proof fn lemma_floor_log2_pow2(e: u8)
    requires
        e < 32,
    ensures
        spec_floor_log2(1u32 << e) == e,
    decreases e,
{
    if e > 0 {
        assert((1u32 << e) >= 2 && ((1u32 << e) >> 1) == 1u32 << ((e - 1) as u8)) by (bit_vector)
            requires 0 < e < 32;
        lemma_floor_log2_pow2((e - 1) as u8);
    } else {
        lemma_halve_u32(1);
    }
}


#[verifier::spinoff_prover]
#[verifier::rlimit(100)]
proof fn lemma_header_tail_roundtrip(h: StreamHeader, rest: Seq<u8>, p: int)
    requires
        stream_header_canonical(h),
        p == (if h.flags.window_code == 3 { 8int } else { 7int }),
    ensures
        spec_read_header_tail(spec_header_bytes(h) + rest, p, h.version_major, h.version_minor, h.flags, h.window_size)
            == HeaderParse::Done(h, spec_header_bytes(h).len()),
{
    let pl = spec_header_payload(h);
    let s = spec_header_bytes(h) + rest;
    let vb = spec_version_byte(h);
    let fb = spec_flags_bits(h.flags);
    let exb = if h.flags.window_code == 3 { seq![spec_floor_log2(h.window_size)] } else { Seq::<u8>::empty() };
    let szb = if h.flags.has_uncompressed_size { leb_enc_u64(h.uncompressed_size->0) } else { Seq::<u8>::empty() };
    let dib = if h.flags.has_dictionary { le32(h.dictionary_id->0) } else { Seq::<u8>::empty() };
    assert(pl =~= seq![vb] + le16(fb) + exb + szb + dib);
    let crc = spec_crc8(pl);
    assert(s =~= spec_magic() + seq![vb] + le16(fb) + exb + (szb + (dib + (seq![crc] + rest))));
    assert(s.skip(p) =~= szb + (dib + (seq![crc] + rest)));
    let p2: int = p + szb.len() as int;
    if h.flags.has_uncompressed_size {
        lemma_leb_read_u64_enc(h.uncompressed_size->0, dib + (seq![crc] + rest));
    }
    assert(s.skip(p2) =~= dib + (seq![crc] + rest));
    let p3: int = p2 + dib.len() as int;
    if h.flags.has_dictionary {
        lemma_le32_roundtrip(h.dictionary_id->0, seq![crc] + rest);
    }
    assert(s[p3] == crc);
    assert(s.subrange(4, p3) =~= pl);
    assert(spec_header_bytes(h).len() == p3 + 1);
}

/// A stream header occupies no more bytes than it was read from.
pub proof fn lemma_stream_header_fits(t: Seq<u8>)
    ensures
        spec_read_stream_header(t) matches HeaderParse::Done(_, n) ==> n <= t.len(),
{
    if t.len() >= 7 {
        let flags = spec_flags_from_bits(le16_val(t.skip(5)));
        let p: int = if flags.window_code == 3 { 8 } else { 7 };
        if flags.has_uncompressed_size && p <= t.len() {
            crate::varint::lemma_leb_term_bounds(t.skip(p));
        }
    }
}

/// A stream header reads the same from any bytes that start with those it occupies.
pub proof fn lemma_stream_header_local(t: Seq<u8>, s: Seq<u8>)
    requires
        spec_read_stream_header(t) matches HeaderParse::Done(_, n) && n <= s.len() && s.take(n as int) == t.take(n as int),
    ensures
        spec_read_stream_header(s) == spec_read_stream_header(t),
{
    lemma_stream_header_fits(t);
    let n = match spec_read_stream_header(t) {
        HeaderParse::Done(_, n) => n as int,
        _ => 0,
    };
    assert forall|i: int| 0 <= i < n implies s[i] == t[i] by {
        assert(s.take(n)[i] == t.take(n)[i]);
    }
    assert(s.take(4) =~= t.take(4));
    assert(s.skip(5)[0] == t.skip(5)[0] && s.skip(5)[1] == t.skip(5)[1]);
    let flags = spec_flags_from_bits(le16_val(t.skip(5)));
    let p: int = if flags.window_code == 3 { 8 } else { 7 };
    let p2: int = if flags.has_uncompressed_size {
        match leb_read_u64(t.skip(p)) {
            LebRead::Value(v, k) => {
                assert(s.skip(p).take(k as int) =~= t.skip(p).take(k as int)) by {
                    assert forall|i: int| 0 <= i < k implies s.skip(p)[i] == t.skip(p)[i] by {
                        assert(s[p + i] == t[p + i]);
                    }
                }
                crate::varint::lemma_leb_read_u64_local(t.skip(p), s.skip(p));
                p + k
            },
            _ => p,
        }
    } else {
        p
    };
    if flags.has_dictionary {
        assert(s.skip(p2)[0] == t.skip(p2)[0] && s.skip(p2)[1] == t.skip(p2)[1]);
        assert(s.skip(p2)[2] == t.skip(p2)[2] && s.skip(p2)[3] == t.skip(p2)[3]);
    }
    let p3 = if flags.has_dictionary { p2 + 4 } else { p2 };
    assert(s.subrange(4, p3) =~= t.subrange(4, p3));
}

/// Bytes that agree with a stream header's bytes up to its last one (the CRC) read to the
/// same header when the last byte agrees too, and to a CRC mismatch when it does not.
proof fn lemma_stream_header_crc_byte(t: Seq<u8>, s: Seq<u8>)
    requires
        spec_read_stream_header(t) matches HeaderParse::Done(_, n) && n <= s.len() && s.take(n - 1) == t.take(n - 1),
    ensures
        spec_read_stream_header(t) matches HeaderParse::Done(_, n) && (if s[n - 1] == t[n - 1] {
            spec_read_stream_header(s) == spec_read_stream_header(t)
        } else {
            spec_read_stream_header(s) == HeaderParse::BadCrc(s[n - 1], t[n - 1])
        }),
{
    lemma_stream_header_fits(t);
    let n = match spec_read_stream_header(t) {
        HeaderParse::Done(_, n) => n as int,
        _ => 0,
    };
    assert forall|i: int| 0 <= i < n - 1 implies s[i] == t[i] by {
        assert(s.take(n - 1)[i] == t.take(n - 1)[i]);
    }
    assert(s.take(4) =~= t.take(4));
    assert(s.skip(5)[0] == t.skip(5)[0] && s.skip(5)[1] == t.skip(5)[1]);
    let flags = spec_flags_from_bits(le16_val(t.skip(5)));
    let p: int = if flags.window_code == 3 { 8 } else { 7 };
    let p2: int = if flags.has_uncompressed_size {
        match leb_read_u64(t.skip(p)) {
            LebRead::Value(v, k) => {
                assert(s.skip(p).take(k as int) =~= t.skip(p).take(k as int)) by {
                    assert forall|i: int| 0 <= i < k implies s.skip(p)[i] == t.skip(p)[i] by {
                        assert(s[p + i] == t[p + i]);
                    }
                }
                crate::varint::lemma_leb_read_u64_local(t.skip(p), s.skip(p));
                p + k
            },
            _ => p,
        }
    } else {
        p
    };
    if flags.has_dictionary {
        assert(s.skip(p2)[0] == t.skip(p2)[0] && s.skip(p2)[1] == t.skip(p2)[1]);
        assert(s.skip(p2)[2] == t.skip(p2)[2] && s.skip(p2)[3] == t.skip(p2)[3]);
    }
    let p3 = if flags.has_dictionary { p2 + 4 } else { p2 };
    assert(s.subrange(4, p3) =~= t.subrange(4, p3));
}

/// A written stream header whose checksum byte is changed to any other value `v` is refused
/// with a header checksum mismatch naming `v` and the checksum of the unchanged fields,
/// whatever follows it.
pub proof fn law_header_checksum_tamper(h: StreamHeader, rest: Seq<u8>, v: u8)
    requires
        stream_header_canonical(h),
        v != spec_header_bytes(h).last(),
    ensures
        spec_read_stream_header(spec_header_bytes(h).update(spec_header_bytes(h).len() - 1, v) + rest)
            == HeaderParse::BadCrc(v, spec_header_bytes(h).last()),
{
    let b = spec_header_bytes(h);
    law_stream_header_roundtrip(h, rest);
    let t = b + rest;
    let s = b.update(b.len() - 1, v) + rest;
    lemma_stream_header_fits(t);
    assert(s.take(b.len() - 1) =~= t.take(b.len() - 1));
    lemma_stream_header_crc_byte(t, s);
}

/// No stream header reads from fewer bytes than it occupies.
pub proof fn lemma_stream_header_prefix(s: Seq<u8>, k: int)
    requires
        spec_read_stream_header(s) matches HeaderParse::Done(_, n) && 0 <= k < n,
    ensures
        !(spec_read_stream_header(s.take(k)) is Done),
{
    let t = s.take(k);
    lemma_stream_header_fits(s);
    if let HeaderParse::Done(_, n2) = spec_read_stream_header(t) {
        lemma_stream_header_fits(t);
        assert(s.take(n2 as int) =~= t.take(n2 as int));
        lemma_stream_header_local(t, s);
    }
}

/// Every stream header that reads has the window of its code: 64 KiB for code 0, 1 MiB for
/// code 1, 8 MiB for code 2, and for code 3 a power of two from 64 KiB to 128 MiB.
pub proof fn law_window_sizes(s: Seq<u8>)
    ensures
        spec_read_stream_header(s) matches HeaderParse::Done(h, _) ==> {
            &&& h.flags.window_code <= 3
            &&& h.flags.window_code == 0 ==> h.window_size == 65536
            &&& h.flags.window_code == 1 ==> h.window_size == 1048576
            &&& h.flags.window_code == 2 ==> h.window_size == 8388608
            &&& h.flags.window_code == 3 ==> exists|e: u32| 16 <= e <= 27 && h.window_size == 1u32 << e
        },
{
    if let HeaderParse::Done(h, _) = spec_read_stream_header(s) {
        if s.len() >= 7 {
            let flags = spec_flags_from_bits(le16_val(s.skip(5)));
            let exp = if flags.window_code == 3 { Some(s[7]) } else { None };
            let p: int = if flags.window_code == 3 { 8 } else { 7 };
            if flags.window_code == 3 {
                let e = s[7] as u32;
                assert(h.window_size == 1u32 << e);
            }
        }
    }
}

/// Reading back a written stream header gives the header, consuming exactly its bytes.
#[verifier::spinoff_prover]
#[verifier::rlimit(100)]
pub proof fn law_stream_header_roundtrip(h: StreamHeader, rest: Seq<u8>)
    requires
        stream_header_canonical(h),
    ensures
        spec_read_stream_header(spec_header_bytes(h) + rest) == HeaderParse::Done(h, spec_header_bytes(h).len()),
{
    let pl = spec_header_payload(h);
    let s = spec_header_bytes(h) + rest;
    let vb = spec_version_byte(h);
    let minor = h.version_minor;
    assert(vb >> 4u8 == 1u8 && vb & 0x0F == minor) by (bit_vector)
        requires vb == ((1u8 << 4u8) | (minor & 0x0F)) as u8, minor < 16;
    let fb = spec_flags_bits(h.flags);
    let exb = if h.flags.window_code == 3 { seq![spec_floor_log2(h.window_size)] } else { Seq::<u8>::empty() };
    let tail = pl.skip(3 + exb.len() as int) + seq![spec_crc8(pl)] + rest;
    assert(pl =~= seq![vb] + le16(fb) + exb + pl.skip(3 + exb.len() as int));
    assert(s =~= spec_magic() + seq![vb] + le16(fb) + (exb + tail));
    assert(s.take(4) =~= spec_magic());
    assert(s[4] == vb);
    assert(s.skip(5) =~= le16(fb) + (exb + tail));
    lemma_le16_roundtrip(fb, exb + tail);
    law_flags_roundtrip(h.flags);
    let p: int = if h.flags.window_code == 3 { 8 } else { 7 };
    if h.flags.window_code == 3 {
        let e = choose|e: u8| 16 <= e <= 27 && h.window_size == 1u32 << e;
        lemma_floor_log2_pow2(e);
        assert(s[7] == e);
    }
    let exp = if h.flags.window_code == 3 { Some(s[7]) } else { None };
    assert(spec_window_size(h.flags.window_code, exp) == Some(h.window_size));
    lemma_header_tail_roundtrip(h, rest, p);
}

impl StreamHeader {
    /// Window size for a window code and optional custom exponent.
    pub fn compute_window_size(window_code: u8, custom_exponent: Option<u8>) -> (r: Result<u32, CodropError>)
        ensures
            window_code == 0 ==> r == Ok::<u32, CodropError>(65536),
            window_code == 1 ==> r == Ok::<u32, CodropError>(1048576),
            window_code == 2 ==> r == Ok::<u32, CodropError>(8388608),
            window_code > 3 ==> r is Err,
            match spec_window_size(window_code, custom_exponent) {
                Some(w) => r == Ok::<u32, CodropError>(w),
                None => match (window_code, custom_exponent) {
                    (3u8, Some(e)) => r == Err::<u32, CodropError>(CodropError::InvalidWindowSize(1u32.wrapping_shl(e as u32))),
                    _ => r matches Err(CodropError::CorruptedHeader(_)),
                },
            },
    {
        if window_code == 0 {
            Ok(64 * 1024)
        } else if window_code == 1 {
            Ok(1024 * 1024)
        } else if window_code == 2 {
            Ok(8 * 1024 * 1024)
        } else if window_code == 3 {
            match custom_exponent {
                None => Err(CodropError::CorruptedHeader("Missing custom window exponent".to_string())),
                Some(exp) => {
                    if exp < 16 || exp > 27 {
                        Err(CodropError::InvalidWindowSize(1u32.wrapping_shl(exp as u32)))
                    } else {
                        Ok(1u32 << exp)
                    }
                },
            }
        } else {
            Err(CodropError::CorruptedHeader("Invalid window code".to_string()))
        }
    }

    /// Append the serialized header (magic, payload, CRC-8) to `out`; returns its length.
    pub fn write_to(&self, out: &mut Vec<u8>) -> (r: usize)
        requires
            self.flags.window_code == 3 ==> self.window_size > 0,
        ensures
            final(out)@ == old(out)@ + spec_header_bytes(*self),
            r == spec_header_bytes(*self).len(),
    {
        let mut buf: Vec<u8> = Vec::new();
        buf.push(0x43);
        buf.push(0x44);
        buf.push(0x50);
        buf.push(0x31);
        let version_byte = (self.version_major << 4u8) | (self.version_minor & 0x0F);
        buf.push(version_byte);
        let flags_u16 = self.flags.to_u16();
        write_u16_le(&mut buf, flags_u16);
        if self.flags.window_code == 3 {
            let exp = floor_log2(self.window_size);
            buf.push(exp);
        }
        if self.flags.has_uncompressed_size {
            let val = match self.uncompressed_size {
                Some(v) => v,
                None => 0,
            };
            write_leb_u64(&mut buf, val);
        }
        if self.flags.has_dictionary {
            let dict_id = match self.dictionary_id {
                Some(v) => v,
                None => 0,
            };
            write_u32_le(&mut buf, dict_id);
        }
        let payload = slice_subrange(buf.as_slice(), 4, buf.len());
        let crc = Crc8::compute(payload);
        proof {
            assert(buf@.subrange(0, 4) =~= spec_magic());
            assert(payload@ =~= spec_header_payload(*self));
        }
        buf.push(crc);
        let n = buf.len();
        let mut i: usize = 0;
        let ghost start = out@;
        while i < n
            invariant
                i <= n,
                n == buf@.len(),
                out@ == start + buf@.take(i as int),
            decreases n - i,
        {
            out.push(buf[i]);
            i = i + 1;
            assert(buf@.take(i as int) =~= buf@.take(i - 1).push(buf@[i - 1]));
        }
        assert(buf@.take(n as int) =~= buf@);
        assert(buf@ =~= spec_header_bytes(*self));
        n
    }

    /// Read the optional size and dictionary fields and the CRC-8 that follow the window field.
    fn read_tail(
        input: &[u8],
        pos: usize,
        p0: usize,
        major: u8,
        minor: u8,
        flags: HeaderFlags,
        window_size: u32,
    ) -> (r: Result<(Self, usize), CodropError>)
        requires
            pos + 7 <= p0 <= input@.len(),
        ensures
            r matches Ok((_, end)) ==> end <= input@.len(),
            match spec_read_header_tail(input@.skip(pos as int), p0 - pos, major, minor, flags, window_size) {
                HeaderParse::Done(h, n) => r == Ok::<(StreamHeader, usize), CodropError>((h, (pos + n) as usize)),
                HeaderParse::Eof => r == Err::<(StreamHeader, usize), CodropError>(CodropError::UnexpectedEof),
                HeaderParse::TooLong => r matches Err(CodropError::CorruptedHeader(_)),
                HeaderParse::BadCrc(expected, actual) => r == Err::<(StreamHeader, usize), CodropError>(
                    CodropError::HeaderChecksumMismatch { expected, actual },
                ),
                _ => false,
            },
    {
        let ghost s = input@.skip(pos as int);
        assert(input@.len() == input.len());
        let mut p = p0;
        let ghost pp: int = p - pos;
        let uncompressed_size = if flags.has_uncompressed_size {
            assert(s.skip(pp) =~= input@.skip(p as int));
            match read_leb_u64(input, p) {
                LebRead::Value(v, n) => {
                    p = p + n;
                    Some(v)
                },
                LebRead::Truncated => {
                    return Err(CodropError::UnexpectedEof);
                },
                LebRead::TooLong => {
                    return Err(CodropError::CorruptedHeader("ULEB128 overflow in uncompressed size".to_string()));
                },
            }
        } else {
            None
        };
        let dictionary_id = if flags.has_dictionary {
            if input.len() - p < 4 {
                return Err(CodropError::UnexpectedEof);
            }
            let d = read_u32_le(input, p);
            assert(s.skip(p - pos) =~= input@.skip(p as int));
            p = p + 4;
            Some(d)
        } else {
            None
        };
        if p >= input.len() {
            return Err(CodropError::UnexpectedEof);
        }
        let expected_crc = input[p];
        let covered = slice_subrange(input, pos + 4, p);
        assert(covered@ =~= s.subrange(4, p - pos));
        let actual_crc = Crc8::compute(covered);
        if expected_crc != actual_crc {
            return Err(CodropError::HeaderChecksumMismatch { expected: expected_crc, actual: actual_crc });
        }
        Ok((Self { version_major: major, version_minor: minor, flags, window_size, uncompressed_size, dictionary_id }, p + 1))
    }

    /// Parse a stream header at `input[*cursor..]`, verifying magic, version and CRC-8, and
    /// advance the cursor past it.
    pub fn read_from(input: &[u8], cursor: &mut usize) -> (r: Result<Self, CodropError>)
        requires
            *old(cursor) <= input@.len(),
        ensures
            *final(cursor) <= input@.len(),
            match spec_read_stream_header(input@.skip(*old(cursor) as int)) {
                HeaderParse::Done(h, n) => r == Ok::<StreamHeader, CodropError>(h) && *final(cursor) == *old(cursor) + n,
                HeaderParse::Eof => r == Err::<StreamHeader, CodropError>(CodropError::UnexpectedEof),
                HeaderParse::BadMagic(m) => r == Err::<StreamHeader, CodropError>(CodropError::InvalidMagic(m)),
                HeaderParse::BadVersion(major, minor) => r == Err::<StreamHeader, CodropError>(
                    CodropError::UnsupportedVersion { major, minor },
                ),
                HeaderParse::BadWindow => r matches Err(CodropError::CorruptedHeader(_)) || r matches Err(
                    CodropError::InvalidWindowSize(_),
                ),
                HeaderParse::TooLong => r matches Err(CodropError::CorruptedHeader(_)),
                HeaderParse::BadCrc(expected, actual) => r == Err::<StreamHeader, CodropError>(
                    CodropError::HeaderChecksumMismatch { expected, actual },
                ),
            },
    {
        let pos = *cursor;
        let ghost s = input@.skip(pos as int);
        let rest = slice_subrange(input, pos, input.len());
        assert(rest@ =~= s);
        match validate_magic(rest) {
            Ok(()) => {},
            Err(e) => {
                return Err(e);
            },
        }
        if input.len() - pos < 5 {
            return Err(CodropError::UnexpectedEof);
        }
        let vb = input[pos + 4];
        let major = vb >> 4u8;
        let minor = vb & 0x0F;
        if major != FORMAT_VERSION_MAJOR {
            return Err(CodropError::UnsupportedVersion { major, minor });
        }
        if input.len() - pos < 7 {
            return Err(CodropError::UnexpectedEof);
        }
        let flags_u16 = read_u16_le(input, pos + 5);
        assert(s.skip(5) =~= input@.skip(pos + 5));
        let flags = HeaderFlags::from_u16(flags_u16);
        let mut p = pos + 7;
        let custom_exponent = if flags.window_code == 3 {
            if input.len() - pos < 8 {
                return Err(CodropError::UnexpectedEof);
            }
            let e = input[pos + 7];
            p = pos + 8;
            Some(e)
        } else {
            None
        };
        let window_size = match Self::compute_window_size(flags.window_code, custom_exponent) {
            Ok(w) => w,
            Err(e) => {
                return Err(e);
            },
        };
        assert(s.len() == input@.len() - pos);
        let (h, end) = match Self::read_tail(input, pos, p, major, minor, flags, window_size) {
            Ok(v) => v,
            Err(e) => {
                return Err(e);
            },
        };
        *cursor = end;
        Ok(h)
    }

}

} // verus!
