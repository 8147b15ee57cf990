//! Unsigned LEB128 variable-length integers used by the container and RLE.
use vstd::prelude::*;

verus! {

/// Result of reading a ULEB128 value.
#[derive(Debug, Clone, Copy, PartialEq, Eq)]
pub enum LebRead<T> {
    /// The value and the number of bytes it occupied.
    Value(T, usize),
    /// The input ended inside the value.
    Truncated,
    /// The value runs past the maximum number of bytes.
    TooLong,
}

/// Index of the first byte of `s` with its high bit clear, or `s.len()` if none.
pub open spec fn leb_term(s: Seq<u8>) -> int
    decreases s.len(),
{
    if s.len() == 0 {
        0
    } else if s[0] & 0x80 == 0 {
        0
    } else {
        1 + leb_term(s.skip(1))
    }
}

pub proof fn lemma_leb_term_bounds(s: Seq<u8>)
    ensures
        0 <= leb_term(s) <= s.len(),
        forall|j: int| 0 <= j < leb_term(s) ==> #[trigger] s[j] & 0x80 != 0,
        leb_term(s) < s.len() ==> s[leb_term(s)] & 0x80 == 0,
    decreases s.len(),
{
    if s.len() > 0 && s[0] & 0x80 != 0 {
        lemma_leb_term_bounds(s.skip(1));
        assert forall|j: int| 0 <= j < leb_term(s) implies #[trigger] s[j] & 0x80 != 0 by {
            if j > 0 {
                assert(s[j] == s.skip(1)[j - 1]);
            }
        }
    }
}

proof fn lemma_leb_term_at(s: Seq<u8>, i: int)
    requires
        0 <= i < s.len(),
        forall|j: int| 0 <= j < i ==> #[trigger] s[j] & 0x80 != 0,
        s[i] & 0x80 == 0,
    ensures
        leb_term(s) == i,
    decreases i,
{
    if i > 0 {
        assert forall|j: int| 0 <= j < i - 1 implies #[trigger] s.skip(1)[j] & 0x80 != 0 by {
            assert(s.skip(1)[j] == s[j + 1]);
        }
        lemma_leb_term_at(s.skip(1), i - 1);
    }
}

proof fn lemma_leb_term_all_cont(s: Seq<u8>, i: int)
    requires
        0 <= i <= s.len(),
        forall|j: int| 0 <= j < i ==> #[trigger] s[j] & 0x80 != 0,
    ensures
        leb_term(s) >= i,
{
    lemma_leb_term_bounds(s);
    if leb_term(s) < i {
        assert(s[leb_term(s)] & 0x80 != 0);
    }
}

proof fn lemma_leb_term_prefix(e: Seq<u8>, rest: Seq<u8>)
    requires
        e.len() >= 1,
        leb_term(e) == e.len() - 1,
    ensures
        leb_term(e + rest) == e.len() - 1,
{
    lemma_leb_term_bounds(e);
    assert forall|j: int| 0 <= j < e.len() - 1 implies #[trigger] (e + rest)[j] & 0x80 != 0 by {
        assert((e + rest)[j] == e[j]);
    }
    assert((e + rest)[e.len() - 1] == e[e.len() - 1]);
    lemma_leb_term_at(e + rest, e.len() - 1);
}

/// Bit-level facts about the low 7-bit group of `v` and the rest of `v` placed at bit `k`,
/// as ULEB128 coding splits and reassembles them.
pub proof fn lemma_groups_u32(v: u32, k: u32)
    by (bit_vector)
    ensures
        v >= 128 ==> v >> 7 < v,
        v >> 7 != 0 ==> v >= 128,
        v >> 7 == 0 ==> v < 128,
        v < 128 ==> (v & 0x7f) as u8 == v as u8,
        v < 128 ==> (v as u8) & 0x80 == 0,
        v < 128 ==> (((v as u8) & 0x7f) as u32) == v,
        ((v << k) | 0) == v << k,
        v << 0u32 == v,
        v <= (0xFFFF_FFFFu32 >> 0u32),
        v >= 128 && v <= (0xFFFF_FFFFu32 >> k) ==> k + 7 < 32,
        k + 7 < 32 && v <= (0xFFFF_FFFFu32 >> k) ==> (v >> 7) <= (0xFFFF_FFFFu32 >> ((k + 7) as u32)),
        (((((v & 0x7f) | 0x80) as u8) & 0x7f) as u32) == (v & 0x7f),
        (((v & 0x7f) | 0x80) as u8) & 0x80 != 0,
        ((v & 0x7f) as u8) | 0x80 == ((v & 0x7f) | 0x80) as u8,
        k + 7 < 32 ==> ((v & 0x7f) << k) | ((v >> 7) << ((k + 7) as u32)) == v << k,
{
}

proof fn lemma_or_u32(x: u32, y: u32, z: u32)
    by (bit_vector)
    ensures
        x | 0 == 0 | x,
        x | (y | z) == (x | y) | z,
{
}

/// Bit-level facts about the low 7-bit group of `v` and the rest of `v` placed at bit `k`,
/// as ULEB128 coding splits and reassembles them.
pub proof fn lemma_groups_u64(v: u64, k: u64)
    by (bit_vector)
    ensures
        v >= 128 ==> v >> 7 < v,
        v >> 7 != 0 ==> v >= 128,
        v >> 7 == 0 ==> v < 128,
        v < 128 ==> (v & 0x7f) as u8 == v as u8,
        v < 128 ==> (v as u8) & 0x80 == 0,
        v < 128 ==> (((v as u8) & 0x7f) as u64) == v,
        ((v << k) | 0) == v << k,
        v << 0u64 == v,
        v <= (0xFFFF_FFFF_FFFF_FFFFu64 >> 0u64),
        v >= 128 && v <= (0xFFFF_FFFF_FFFF_FFFFu64 >> k) ==> k + 7 < 64,
        k + 7 < 64 && v <= (0xFFFF_FFFF_FFFF_FFFFu64 >> k) ==> (v >> 7) <= (0xFFFF_FFFF_FFFF_FFFFu64 >> ((k + 7) as u64)),
        (((((v & 0x7f) | 0x80) as u8) & 0x7f) as u64) == (v & 0x7f),
        (((v & 0x7f) | 0x80) as u8) & 0x80 != 0,
        ((v & 0x7f) as u8) | 0x80 == ((v & 0x7f) | 0x80) as u8,
        k + 7 < 64 ==> ((v & 0x7f) << k) | ((v >> 7) << ((k + 7) as u64)) == v << k,
{
}

proof fn lemma_or_u64(x: u64, y: u64, z: u64)
    by (bit_vector)
    ensures
        x | 0 == 0 | x,
        x | (y | z) == (x | y) | z,
{
}

/// ULEB128 bytes of `v` (7 bits per byte, low group first).
pub open spec fn leb_enc_u32(v: u32) -> Seq<u8>
    decreases v,
{
    if v < 128 {
        seq![v as u8]
    } else {
        proof {
            lemma_groups_u32(v, 0);
        }
        seq![((v & 0x7f) | 0x80) as u8] + leb_enc_u32(v >> 7)
    }
}

/// Value of the 7-bit groups of `s` placed from bit `k` upward, as the decoder accumulates them.
pub open spec fn leb_val_u32(s: Seq<u8>, k: u32) -> u32
    decreases s.len(),
{
    if s.len() == 0 {
        0
    } else {
        (((s[0] & 0x7f) as u32) << k) | leb_val_u32(s.skip(1), (k + 7) as u32)
    }
}

/// Outcome of reading a ULEB128 value of at most 5 bytes at the front of `s`.
pub open spec fn leb_read_u32(s: Seq<u8>) -> LebRead<u32> {
    let t = leb_term(s);
    if t < 5 && t < s.len() {
        LebRead::Value(leb_val_u32(s.take(t + 1), 0), (t + 1) as usize)
    } else if s.len() < 5 {
        LebRead::Truncated
    } else {
        LebRead::TooLong
    }
}

/// A value read at the front of `t` reads the same from any `s` that starts with its bytes.
pub proof fn lemma_leb_read_u32_local(t: Seq<u8>, s: Seq<u8>)
    requires
        leb_read_u32(t) matches LebRead::Value(_, n) && n <= s.len() && s.take(n as int) == t.take(n as int),
    ensures
        leb_read_u32(s) == leb_read_u32(t),
{
    lemma_leb_term_bounds(t);
    let k = leb_term(t);
    assert forall|j: int| 0 <= j < k implies #[trigger] s[j] & 0x80 != 0 by {
        assert(s.take(k + 1)[j] == t.take(k + 1)[j]);
    }
    assert(s.take(k + 1)[k] == t.take(k + 1)[k]);
    lemma_leb_term_at(s, k);
}

proof fn lemma_leb_val_u32_push(a: Seq<u8>, b: u8, k: u32)
    requires
        k + 7 * a.len() < 32,
    ensures
        leb_val_u32(a.push(b), k) == leb_val_u32(a, k) | (((b & 0x7f) as u32) << ((k + 7 * a.len()) as u32)),
    decreases a.len(),
{
    if a.len() == 0 {
        assert(a.push(b).skip(1) =~= Seq::<u8>::empty());
        assert(a.push(b)[0] == b);
        let x = ((b & 0x7f) as u32) << k;
        assert(leb_val_u32(a.push(b).skip(1), (k + 7) as u32) == 0);
        assert(leb_val_u32(a, k) == 0);
        assert((k + 7 * a.len()) as u32 == k);
        lemma_or_u32(x, 0, 0);
    } else {
        assert(a.push(b).skip(1) =~= a.skip(1).push(b));
        assert(a.push(b)[0] == a[0]);
        assert(((k + 7) as u32 + 7 * a.skip(1).len()) as u32 == (k + 7 * a.len()) as u32);
        lemma_leb_val_u32_push(a.skip(1), b, (k + 7) as u32);
        let x = ((a[0] & 0x7f) as u32) << k;
        let y = leb_val_u32(a.skip(1), (k + 7) as u32);
        let z = ((b & 0x7f) as u32) << ((k + 7 * a.len()) as u32);
        lemma_or_u32(x, y, z);
    }
}

proof fn lemma_leb_u32_roundtrip(v: u32, k: u32)
    requires
        k % 7 == 0,
        k < 32,
        v <= (0xFFFF_FFFFu32 >> k),
    ensures
        leb_val_u32(leb_enc_u32(v), k) == v << k,
        leb_term(leb_enc_u32(v)) == leb_enc_u32(v).len() - 1,
        leb_enc_u32(v).len() <= (32 - k + 6) / 7,
    decreases v,
{
    if v < 128 {
        assert(leb_enc_u32(v).skip(1) =~= Seq::<u8>::empty());
        assert(leb_enc_u32(v)[0] == v as u8);
        assert(leb_val_u32(leb_enc_u32(v).skip(1), (k + 7) as u32) == 0);
        lemma_groups_u32(v, k);
        assert(leb_term(leb_enc_u32(v).skip(1)) == 0);
    } else {
        lemma_groups_u32(v, k);
        lemma_leb_u32_roundtrip(v >> 7, (k + 7) as u32);
        let e = leb_enc_u32(v);
        let lo = ((v & 0x7f) | 0x80) as u8;
        assert(e =~= seq![lo] + leb_enc_u32(v >> 7));
        assert(e.skip(1) =~= leb_enc_u32(v >> 7));
        assert(((lo & 0x7f) as u32) == (v & 0x7f));
        assert(lo & 0x80 != 0);
        assert(((v & 0x7f) << k) | ((v >> 7) << ((k + 7) as u32)) == v << k);
        assert(e[0] == lo);
        assert(leb_term(e) == 1 + leb_term(e.skip(1)));
    }
}

/// The ULEB128 form of a `u32` takes one to five bytes.
pub proof fn lemma_leb_enc_u32_len(v: u32)
    ensures
        1 <= leb_enc_u32(v).len() <= 5,
{
    lemma_groups_u32(v, 0);
    lemma_leb_u32_roundtrip(v, 0);
}

/// Reading back the bytes of `leb_enc_u32(v)` (followed by anything) yields `v` and its length.
pub proof fn lemma_leb_read_u32_enc(v: u32, rest: Seq<u8>)
    ensures
        leb_read_u32(leb_enc_u32(v) + rest) == LebRead::Value(v, leb_enc_u32(v).len() as usize),
        1 <= leb_enc_u32(v).len() <= 10,
{
    lemma_groups_u32(v, 0);
    lemma_leb_u32_roundtrip(v, 0);
    let e = leb_enc_u32(v);
    lemma_leb_term_prefix(e, rest);
    assert((e + rest).take(e.len() as int) =~= e);
}

/// Append the ULEB128 bytes of `v`.
pub fn write_leb_u32(out: &mut Vec<u8>, v: u32)
    ensures
        final(out)@ == old(out)@ + leb_enc_u32(v),
    decreases v,
{
    let mut byte: u8 = (v & 0x7f) as u8;
    let hi = v >> 7;
    if hi != 0 {
        byte = byte | 0x80;
        proof {
            lemma_groups_u32(v, 0);
        }
        assert(byte == ((v & 0x7f) | 0x80) as u8);
        out.push(byte);
        write_leb_u32(out, hi);
        assert(old(out)@ + leb_enc_u32(v) =~= old(out)@.push(byte) + leb_enc_u32(hi));
    } else {
        proof {
            lemma_groups_u32(v, 0);
        }
        out.push(byte);
    }
}

/// Read a ULEB128 value of at most 5 bytes at `input[pos..]`.
pub fn read_leb_u32(input: &[u8], pos: usize) -> (r: LebRead<u32>)
    requires
        pos <= input@.len(),
    ensures
        r == leb_read_u32(input@.skip(pos as int)),
        r matches LebRead::Value(_, n) ==> 1 <= n <= input@.len() - pos,
{
    let ghost s = input@.skip(pos as int);
    let mut acc: u32 = 0;
    let mut shift: u32 = 0;
    let mut i: usize = 0;
    loop
        invariant
            s == input@.skip(pos as int),
            pos <= input@.len(),
            i < 5,
            shift == 7 * i,
            acc == leb_val_u32(s.take(i as int), 0),
            forall|j: int| 0 <= j < i ==> #[trigger] s[j] & 0x80 != 0,
            i <= s.len(),
            s.len() == input@.len() - pos,
        decreases 5 - i,
    {
        if i >= input.len() - pos {
            proof { lemma_leb_term_all_cont(s, i as int); }
            return LebRead::Truncated;
        }
        let b = input[pos + i];
        proof {
            assert(s.take(i as int).push(b) =~= s.take(i as int + 1));
            lemma_leb_val_u32_push(s.take(i as int), b, 0);
        }
        acc = acc | (((b & 0x7f) as u32) << shift);
        if (b & 0x80) == 0 {
            proof { lemma_leb_term_at(s, i as int); }
            return LebRead::Value(acc, i + 1);
        }
        shift = shift + 7;
        i = i + 1;
        if i >= 5 {
            proof { lemma_leb_term_all_cont(s, i as int); }
            return LebRead::TooLong;
        }
    }
}

/// ULEB128 bytes of `v` (7 bits per byte, low group first).
pub open spec fn leb_enc_u64(v: u64) -> Seq<u8>
    decreases v,
{
    if v < 128 {
        seq![v as u8]
    } else {
        proof {
            lemma_groups_u64(v, 0);
        }
        seq![((v & 0x7f) | 0x80) as u8] + leb_enc_u64(v >> 7)
    }
}

/// Value of the 7-bit groups of `s` placed from bit `k` upward, as the decoder accumulates them.
pub open spec fn leb_val_u64(s: Seq<u8>, k: u64) -> u64
    decreases s.len(),
{
    if s.len() == 0 {
        0
    } else {
        (((s[0] & 0x7f) as u64) << k) | leb_val_u64(s.skip(1), (k + 7) as u64)
    }
}

/// Outcome of reading a ULEB128 value of at most 10 bytes at the front of `s`.
pub open spec fn leb_read_u64(s: Seq<u8>) -> LebRead<u64> {
    let t = leb_term(s);
    if t < 10 && t < s.len() {
        LebRead::Value(leb_val_u64(s.take(t + 1), 0), (t + 1) as usize)
    } else if s.len() < 10 {
        LebRead::Truncated
    } else {
        LebRead::TooLong
    }
}

/// A value read at the front of `t` reads the same from any `s` that starts with its bytes.
pub proof fn lemma_leb_read_u64_local(t: Seq<u8>, s: Seq<u8>)
    requires
        leb_read_u64(t) matches LebRead::Value(_, n) && n <= s.len() && s.take(n as int) == t.take(n as int),
    ensures
        leb_read_u64(s) == leb_read_u64(t),
{
    lemma_leb_term_bounds(t);
    let k = leb_term(t);
    assert forall|j: int| 0 <= j < k implies #[trigger] s[j] & 0x80 != 0 by {
        assert(s.take(k + 1)[j] == t.take(k + 1)[j]);
    }
    assert(s.take(k + 1)[k] == t.take(k + 1)[k]);
    lemma_leb_term_at(s, k);
}

proof fn lemma_leb_val_u64_push(a: Seq<u8>, b: u8, k: u64)
    requires
        k + 7 * a.len() < 64,
    ensures
        leb_val_u64(a.push(b), k) == leb_val_u64(a, k) | (((b & 0x7f) as u64) << ((k + 7 * a.len()) as u64)),
    decreases a.len(),
{
    if a.len() == 0 {
        assert(a.push(b).skip(1) =~= Seq::<u8>::empty());
        assert(a.push(b)[0] == b);
        let x = ((b & 0x7f) as u64) << k;
        assert(leb_val_u64(a.push(b).skip(1), (k + 7) as u64) == 0);
        assert(leb_val_u64(a, k) == 0);
        assert((k + 7 * a.len()) as u64 == k);
        lemma_or_u64(x, 0, 0);
    } else {
        assert(a.push(b).skip(1) =~= a.skip(1).push(b));
        assert(a.push(b)[0] == a[0]);
        assert(((k + 7) as u64 + 7 * a.skip(1).len()) as u64 == (k + 7 * a.len()) as u64);
        lemma_leb_val_u64_push(a.skip(1), b, (k + 7) as u64);
        let x = ((a[0] & 0x7f) as u64) << k;
        let y = leb_val_u64(a.skip(1), (k + 7) as u64);
        let z = ((b & 0x7f) as u64) << ((k + 7 * a.len()) as u64);
        lemma_or_u64(x, y, z);
    }
}

proof fn lemma_leb_u64_roundtrip(v: u64, k: u64)
    requires
        k % 7 == 0,
        k < 64,
        v <= (0xFFFF_FFFF_FFFF_FFFFu64 >> k),
    ensures
        leb_val_u64(leb_enc_u64(v), k) == v << k,
        leb_term(leb_enc_u64(v)) == leb_enc_u64(v).len() - 1,
        leb_enc_u64(v).len() <= (64 - k + 6) / 7,
    decreases v,
{
    if v < 128 {
        assert(leb_enc_u64(v).skip(1) =~= Seq::<u8>::empty());
        assert(leb_enc_u64(v)[0] == v as u8);
        assert(leb_val_u64(leb_enc_u64(v).skip(1), (k + 7) as u64) == 0);
        lemma_groups_u64(v, k);
        assert(leb_term(leb_enc_u64(v).skip(1)) == 0);
    } else {
        lemma_groups_u64(v, k);
        lemma_leb_u64_roundtrip(v >> 7, (k + 7) as u64);
        let e = leb_enc_u64(v);
        let lo = ((v & 0x7f) | 0x80) as u8;
        assert(e =~= seq![lo] + leb_enc_u64(v >> 7));
        assert(e.skip(1) =~= leb_enc_u64(v >> 7));
        assert(((lo & 0x7f) as u64) == (v & 0x7f));
        assert(lo & 0x80 != 0);
        assert(((v & 0x7f) << k) | ((v >> 7) << ((k + 7) as u64)) == v << k);
        assert(e[0] == lo);
        assert(leb_term(e) == 1 + leb_term(e.skip(1)));
    }
}

/// Reading back the bytes of `leb_enc_u64(v)` (followed by anything) yields `v` and its length.
pub proof fn lemma_leb_read_u64_enc(v: u64, rest: Seq<u8>)
    ensures
        leb_read_u64(leb_enc_u64(v) + rest) == LebRead::Value(v, leb_enc_u64(v).len() as usize),
        1 <= leb_enc_u64(v).len() <= 10,
{
    lemma_groups_u64(v, 0);
    lemma_leb_u64_roundtrip(v, 0);
    let e = leb_enc_u64(v);
    lemma_leb_term_prefix(e, rest);
    assert((e + rest).take(e.len() as int) =~= e);
}

/// Append the ULEB128 bytes of `v`.
pub fn write_leb_u64(out: &mut Vec<u8>, v: u64)
    ensures
        final(out)@ == old(out)@ + leb_enc_u64(v),
    decreases v,
{
    let mut byte: u8 = (v & 0x7f) as u8;
    let hi = v >> 7;
    if hi != 0 {
        byte = byte | 0x80;
        proof {
            lemma_groups_u64(v, 0);
        }
        assert(byte == ((v & 0x7f) | 0x80) as u8);
        out.push(byte);
        write_leb_u64(out, hi);
        assert(old(out)@ + leb_enc_u64(v) =~= old(out)@.push(byte) + leb_enc_u64(hi));
    } else {
        proof {
            lemma_groups_u64(v, 0);
        }
        out.push(byte);
    }
}

/// Read a ULEB128 value of at most 10 bytes at `input[pos..]`.
pub fn read_leb_u64(input: &[u8], pos: usize) -> (r: LebRead<u64>)
    requires
        pos <= input@.len(),
    ensures
        r == leb_read_u64(input@.skip(pos as int)),
        r matches LebRead::Value(_, n) ==> 1 <= n <= input@.len() - pos,
{
    let ghost s = input@.skip(pos as int);
    let mut acc: u64 = 0;
    let mut shift: u64 = 0;
    let mut i: usize = 0;
    loop
        invariant
            s == input@.skip(pos as int),
            pos <= input@.len(),
            i < 10,
            shift == 7 * i,
            acc == leb_val_u64(s.take(i as int), 0),
            forall|j: int| 0 <= j < i ==> #[trigger] s[j] & 0x80 != 0,
            i <= s.len(),
            s.len() == input@.len() - pos,
        decreases 10 - i,
    {
        if i >= input.len() - pos {
            proof { lemma_leb_term_all_cont(s, i as int); }
            return LebRead::Truncated;
        }
        let b = input[pos + i];
        proof {
            assert(s.take(i as int).push(b) =~= s.take(i as int + 1));
            lemma_leb_val_u64_push(s.take(i as int), b, 0);
        }
        acc = acc | (((b & 0x7f) as u64) << shift);
        if (b & 0x80) == 0 {
            proof { lemma_leb_term_at(s, i as int); }
            return LebRead::Value(acc, i + 1);
        }
        shift = shift + 7;
        i = i + 1;
        if i >= 10 {
            proof { lemma_leb_term_all_cont(s, i as int); }
            return LebRead::TooLong;
        }
    }
}

/// Outcome of reading a ULEB128 value of at most 5 bytes, accumulated in 64 bits.
pub open spec fn leb_read5_u64(s: Seq<u8>) -> LebRead<u64> {
    let t = leb_term(s);
    if t < 5 && t < s.len() {
        LebRead::Value(leb_val_u64(s.take(t + 1), 0), (t + 1) as usize)
    } else if s.len() < 5 {
        LebRead::Truncated
    } else {
        LebRead::TooLong
    }
}

proof fn lemma_leb_enc_u64_short(v: u64, m: u64)
    requires
        1 <= m <= 9,
        v < (1u64 << ((7 * m) as u64)),
    ensures
        leb_enc_u64(v).len() <= m,
    decreases m,
{
    if v >= 128 {
        assert(m >= 2 && (v >> 7) < (1u64 << ((7 * (m - 1)) as u64))) by (bit_vector)
            requires v >= 128, v < (1u64 << ((7 * m) as u64)), 1 <= m <= 9;
        lemma_groups_u64(v, 0);
        lemma_leb_enc_u64_short(v >> 7, (m - 1) as u64);
    }
}

/// Reading back the bytes of `leb_enc_u64(v)` for `v < 2^35` with the 5-byte reader yields `v`.
pub proof fn lemma_leb_read5_u64_enc(v: u64, rest: Seq<u8>)
    requires
        v < 0x8_0000_0000u64,
    ensures
        leb_read5_u64(leb_enc_u64(v) + rest) == LebRead::Value(v, leb_enc_u64(v).len() as usize),
        1 <= leb_enc_u64(v).len() <= 5,
{
    lemma_leb_read_u64_enc(v, rest);
    assert(1u64 << ((7 * 5u64) as u64) == 0x8_0000_0000u64) by (bit_vector);
    lemma_leb_enc_u64_short(v, 5);
}

/// Read a ULEB128 value of at most 5 bytes (kept in 64 bits) at `input[pos..]`.
pub fn read_leb5_u64(input: &[u8], pos: usize) -> (r: LebRead<u64>)
    requires
        pos <= input@.len(),
    ensures
        r == leb_read5_u64(input@.skip(pos as int)),
        r matches LebRead::Value(_, n) ==> 1 <= n <= input@.len() - pos,
{
    let ghost s = input@.skip(pos as int);
    let mut acc: u64 = 0;
    let mut shift: u64 = 0;
    let mut i: usize = 0;
    loop
        invariant
            s == input@.skip(pos as int),
            pos <= input@.len(),
            i < 5,
            shift == 7 * i,
            acc == leb_val_u64(s.take(i as int), 0),
            forall|j: int| 0 <= j < i ==> #[trigger] s[j] & 0x80 != 0,
            i <= s.len(),
            s.len() == input@.len() - pos,
        decreases 5 - i,
    {
        if i >= input.len() - pos {
            proof { lemma_leb_term_all_cont(s, i as int); }
            return LebRead::Truncated;
        }
        let b = input[pos + i];
        proof {
            assert(s.take(i as int).push(b) =~= s.take(i as int + 1));
            lemma_leb_val_u64_push(s.take(i as int), b, 0);
        }
        acc = acc | (((b & 0x7f) as u64) << shift);
        if (b & 0x80) == 0 {
            proof { lemma_leb_term_at(s, i as int); }
            return LebRead::Value(acc, i + 1);
        }
        shift = shift + 7;
        i = i + 1;
        if i >= 5 {
            proof { lemma_leb_term_all_cont(s, i as int); }
            return LebRead::TooLong;
        }
    }
}

} // verus!
