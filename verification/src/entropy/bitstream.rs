//! Bit-granular writer and reader; bits are packed least-significant first.
//!
//! Both sides are modelled as sequences of bits: a byte contributes its bits from the lowest
//! to the highest, and a value of `count` bits contributes its `count` lowest bits, lowest
//! first.
use vstd::prelude::*;

use crate::error::CodropError;

verus! {

/// Single-bit facts about a `u64` that the bit reader and writer rely on: bit `i` of `x`,
/// bits above a bound `k`, and the low byte.
pub proof fn lemma_u64_bits(x: u64, i: u64, k: u64)
    by (bit_vector)
    ensures
        x & ((1u64 << 0u64) - 1) as u64 == 0,
        (x >> 0u64) & 1 == x & 1,
        x & 1 == 0 || x & 1 == 1,
        (x >> i) & 1 == 0 || (x >> i) & 1 == 1,
        0u64 >> i == 0,
        (0u64 >> i) & 1 == 0,
        1u64 << 0u64 == 1,
        i < 8 ==> (((x as u8) as u64) >> i) & 1 == (x >> i) & 1,
        x >> k == 0 && k <= i && i < 64 ==> (x >> i) & 1 == 0,
        x < 256 ==> x >> 8u64 == 0,
        i <= 14 ==> 1u64 << i <= 16384,
{
}

/// Bit `i` of `x`.
pub open spec fn bit_of(x: u64, i: int) -> bool {
    (x >> (i as u64)) & 1 == 1
}

/// The `n` lowest bits of `x`, lowest first.
pub open spec fn low_bits(x: u64, n: nat) -> Seq<bool> {
    Seq::new(n, |i: int| bit_of(x, i))
}

/// The eight bits of a byte, lowest first.
pub open spec fn byte_bits(b: u8) -> Seq<bool> {
    low_bits(b as u64, 8)
}

/// The bits of a byte string, byte after byte.
pub open spec fn bytes_to_bits(s: Seq<u8>) -> Seq<bool>
    decreases s.len(),
{
    if s.len() == 0 {
        Seq::empty()
    } else {
        bytes_to_bits(s.drop_last()) + byte_bits(s.last())
    }
}

/// The number whose binary digits, lowest first, are `s`.
pub open spec fn bits_value(s: Seq<bool>) -> nat
    decreases s.len(),
{
    if s.len() == 0 {
        0
    } else {
        (if s[0] { 1nat } else { 0nat }) + 2 * bits_value(s.drop_first())
    }
}

/// `2^n - 1` as a machine mask, for `n <= 32`.
pub open spec fn mask_of(n: nat) -> u64 {
    ((1u64 << (n as u64)) - 1) as u64
}

/// The first `n` bits of `s`, padded with zero bits past its end.
pub open spec fn padded_bits(s: Seq<bool>, n: nat) -> Seq<bool> {
    Seq::new(n, |i: int| i < s.len() && s[i])
}

pub proof fn lemma_bytes_to_bits_len(s: Seq<u8>)
    ensures
        bytes_to_bits(s).len() == 8 * s.len(),
    decreases s.len(),
{
    if s.len() > 0 {
        lemma_bytes_to_bits_len(s.drop_last());
    }
}

pub proof fn lemma_bytes_to_bits_push(s: Seq<u8>, b: u8)
    ensures
        bytes_to_bits(s.push(b)) == bytes_to_bits(s) + byte_bits(b),
{
    assert(s.push(b).drop_last() =~= s);
}

/// The value of the `n` low bits of `x` is `x` masked to `n` bits.
pub proof fn lemma_low_bits_value(x: u64, n: nat)
    requires
        n <= 32,
    ensures
        bits_value(low_bits(x, n)) == x & mask_of(n),
    decreases n,
{
    if n == 0 {
        lemma_u64_bits(x, 0, 0);
    } else {
        lemma_low_bits_value(x >> 1, (n - 1) as nat);
        assert(low_bits(x, n).drop_first() =~= low_bits(x >> 1, (n - 1) as nat)) by {
            assert forall|i: int| 0 <= i < n - 1 implies bit_of(x, i + 1) == bit_of(x >> 1, i) by {
                let iu = i as u64;
                assert((x >> (iu + 1)) & 1 == ((x >> 1) >> iu) & 1) by (bit_vector)
                    requires
                        iu < 32;
            }
        }
        let nu = n as u64;
        let nm = (n - 1) as u64;
        assert(x & ((1u64 << nu) - 1) as u64 == (x & 1) + 2 * ((x >> 1) & ((1u64 << nm) - 1) as u64))
            by (bit_vector)
            requires
                1 <= nu <= 32,
                nm + 1 == nu;
        assert(bit_of(x, 0) == ((x & 1) == 1)) by {
            lemma_u64_bits(x, 0, 0);
        }
        lemma_u64_bits(x, 0, 0);
    }
}

/// The bits of `x | (v << k)` when `x` has no bits at or above `k` and `v` has at most `c` bits.
proof fn lemma_merge_bits(x: u64, v: u64, k: nat, c: nat)
    requires
        k + c <= 64,
        c <= 32,
        k < 64,
        x >> (k as u64) == 0,
        c < 64 ==> v >> (c as u64) == 0,
    ensures
        low_bits(x | (v << (k as u64)), k + c) == low_bits(x, k) + low_bits(v, c),
        (x | (v << (k as u64))) >> ((k + c) as u64) == 0 || k + c == 64,
{
    let y = x | (v << (k as u64));
    let ku = k as u64;
    let cu = c as u64;
    assert forall|i: int| 0 <= i < k + c implies #[trigger] bit_of(y, i) == (low_bits(x, k) + low_bits(v, c))[i] by {
        let iu = i as u64;
        if i < k {
            assert((y >> iu) & 1 == (x >> iu) & 1) by (bit_vector)
                requires
                    y == x | (v << ku),
                    iu < ku,
                    ku < 64;
        } else {
            let du = (i - k) as u64;
            assert((y >> iu) & 1 == (v >> du) & 1) by (bit_vector)
                requires
                    y == x | (v << ku),
                    du + ku == iu,
                    ku <= iu,
                    iu < 64,
                    x >> ku == 0;
        }
    }
    assert(low_bits(y, k + c) =~= low_bits(x, k) + low_bits(v, c));
    if k + c < 64 {
        assert(y >> (ku + cu) == 0) by (bit_vector)
            requires
                y == x | (v << ku),
                x >> ku == 0,
                v >> cu == 0,
                ku + cu < 64;
    }
}

/// Splitting off the lowest byte of `x`.
proof fn lemma_split_byte(x: u64, n: nat)
    requires
        8 <= n <= 64,
    ensures
        low_bits(x, n) == byte_bits(x as u8) + low_bits(x >> 8, (n - 8) as nat),
{
    assert forall|i: int| 0 <= i < n implies #[trigger] bit_of(x, i) == (byte_bits(x as u8) + low_bits(x >> 8, (n - 8) as nat))[i] by {
        let iu = i as u64;
        if i < 8 {
            lemma_u64_bits(x, iu, 0);
        } else {
            let du = (i - 8) as u64;
            assert(((x >> 8) >> du) & 1 == (x >> iu) & 1) by (bit_vector)
                requires
                    du + 8 == iu,
                    8 <= iu < 64;
        }
    }
    assert(low_bits(x, n) =~= byte_bits(x as u8) + low_bits(x >> 8, (n - 8) as nat));
}

/// Dropping the `c` lowest bits of `x`.
proof fn lemma_shift_bits(x: u64, n: nat, c: nat)
    requires
        c <= n <= 64,
        c < 64,
    ensures
        low_bits(x >> (c as u64), (n - c) as nat) == low_bits(x, n).skip(c as int),
{
    assert forall|i: int| 0 <= i < n - c implies #[trigger] bit_of(x >> (c as u64), i) == low_bits(x, n).skip(c as int)[i] by {
        let iu = i as u64;
        let cu = c as u64;
        assert(((x >> cu) >> iu) & 1 == (x >> (iu + cu)) & 1) by (bit_vector)
            requires
                iu + cu < 64,
                cu < 64;
    }
    assert(low_bits(x >> (c as u64), (n - c) as nat) =~= low_bits(x, n).skip(c as int));
}

/// The mask of the `count` lowest bits.
fn low_mask(count: u8) -> (m: u64)
    requires
        count <= 32,
    ensures
        m == mask_of(count as nat),
        m <= 0xFFFF_FFFFu64,
{
    let cu = count as u64;
    assert(((1u64 << cu) - 1) as u64 <= 0xFFFF_FFFFu64 && 1u64 << cu >= 1) by (bit_vector)
        requires
            cu <= 32;
    (1u64 << count) - 1
}

/// Bitstream writer that packs bits into bytes, least significant bit first.
pub struct BitWriter {
    buffer: Vec<u8>,
    bit_buf: u64,
    bits_in_buf: u8,
}

impl BitWriter {
    /// Pending bits are fewer than eight and nothing is set above them.
    pub closed spec fn wf(&self) -> bool {
        &&& self.bits_in_buf < 8
        &&& self.bit_buf >> (self.bits_in_buf as u64) == 0
    }

    /// All bits written so far.
    pub closed spec fn view(&self) -> Seq<bool> {
        bytes_to_bits(self.buffer@) + low_bits(self.bit_buf, self.bits_in_buf as nat)
    }

    /// An empty writer.
    pub fn new() -> (r: Self)
        ensures
            r.wf(),
            r.view() == Seq::<bool>::empty(),
    {
        let r = BitWriter { buffer: Vec::new(), bit_buf: 0, bits_in_buf: 0 };
        proof { lemma_u64_bits(0, 0, 0); }
        assert(r.view() =~= Seq::<bool>::empty());
        r
    }

    /// An empty writer with room reserved for `capacity` bytes.
    pub fn with_capacity(capacity: usize) -> (r: Self)
        ensures
            r.wf(),
            r.view() == Seq::<bool>::empty(),
    {
        let r = BitWriter { buffer: Vec::with_capacity(capacity), bit_buf: 0, bits_in_buf: 0 };
        proof { lemma_u64_bits(0, 0, 0); }
        assert(r.view() =~= Seq::<bool>::empty());
        r
    }

    /// Append the `count` lowest bits of `value`, lowest first.
    pub fn write_bits(&mut self, value: u32, count: u8)
        requires
            old(self).wf(),
            count <= 32,
        ensures
            final(self).wf(),
            final(self).view() == old(self).view() + low_bits(value as u64, count as nat),
    {
        if count == 0 {
            assert(low_bits(value as u64, 0) =~= Seq::<bool>::empty());
            assert(self.view() =~= old(self).view() + low_bits(value as u64, count as nat));
            return;
        }
        let mask = low_mask(count);
        let v = (value as u64) & mask;
        let k = self.bits_in_buf;
        let ghost x = self.bit_buf;
        proof {
            let cu = count as u64;
            let vv = value as u64;
            assert(v >> cu == 0) by (bit_vector)
                requires
                    v == vv & mask,
                    1 <= cu <= 32,
                    vv <= 0xFFFF_FFFFu64,
                    mask == ((1u64 << cu) - 1) as u64;
            assert forall|i: int| 0 <= i < count implies #[trigger] bit_of(v, i) == bit_of(vv, i) by {
                let iu = i as u64;
                assert((v >> iu) & 1 == (vv >> iu) & 1) by (bit_vector)
                    requires
                        v == vv & mask,
                        iu < cu,
                        cu <= 32,
                        mask == ((1u64 << cu) - 1) as u64;
            }
            assert(low_bits(v, count as nat) =~= low_bits(vv, count as nat));
            lemma_merge_bits(x, v, k as nat, count as nat);
        }
        self.bit_buf = self.bit_buf | (v << k);
        self.bits_in_buf = self.bits_in_buf + count;
        assert(self.view() =~= old(self).view() + low_bits(value as u64, count as nat));
        while self.bits_in_buf >= 8
            invariant
                self.bits_in_buf <= 39,
                self.bit_buf >> (self.bits_in_buf as u64) == 0,
                self.view() == old(self).view() + low_bits(value as u64, count as nat),
            decreases self.bits_in_buf,
        {
            let ghost before = self.view();
            let ghost xb = self.bit_buf;
            let ghost nb = self.bits_in_buf as nat;
            proof {
                lemma_split_byte(xb, nb);
                lemma_bytes_to_bits_push(self.buffer@, xb as u8);
            }
            self.buffer.push(self.bit_buf as u8);
            self.bit_buf = self.bit_buf >> 8;
            self.bits_in_buf = self.bits_in_buf - 8;
            proof {
                let nu = nb as u64;
                let du = (nb - 8) as u64;
                assert((xb >> 8) >> du == 0) by (bit_vector)
                    requires
                        xb >> nu == 0,
                        du + 8 == nu,
                        8 <= nu <= 39;
                assert(self.view() =~= before);
            }
        }
    }

    /// Pad the pending bits with zeros up to a whole byte.
    pub fn flush_align(&mut self)
        requires
            old(self).wf(),
        ensures
            final(self).wf(),
            final(self).view() == old(self).view() + Seq::new(
                (if old(self).view().len() % 8 == 0 { 0 } else { 8 - old(self).view().len() % 8 }) as nat,
                |i: int| false,
            ),
            final(self).view().len() % 8 == 0,
    {
        proof {
            lemma_bytes_to_bits_len(self.buffer@);
        }
        if self.bits_in_buf > 0 {
            let ghost x = self.bit_buf;
            let ghost k = self.bits_in_buf as nat;
            proof {
                lemma_bytes_to_bits_push(self.buffer@, x as u8);
                assert forall|i: int| 0 <= i < 8 implies #[trigger] bit_of(x as u8 as u64, i)
                    == (low_bits(x, k) + Seq::new((8 - k) as nat, |j: int| false))[i] by {
                    let iu = i as u64;
                    let ku = k as u64;
                    lemma_u64_bits(x, iu, 0);
                    if i >= k {
                        lemma_u64_bits(x, iu, ku);
                    }
                }
                assert(byte_bits(x as u8) =~= low_bits(x, k) + Seq::new((8 - k) as nat, |j: int| false));
            }
            self.buffer.push(self.bit_buf as u8);
            self.bit_buf = 0;
            self.bits_in_buf = 0;
            proof {
                lemma_u64_bits(0, 0, 0);
                lemma_bytes_to_bits_len(old(self).buffer@);
                assert(self.view() =~= old(self).view() + Seq::new((8 - k) as nat, |j: int| false));
                lemma_bytes_to_bits_len(self.buffer@);
            }
        } else {
            assert(self.view() =~= old(self).view() + Seq::new(0, |i: int| false));
        }
    }

    /// Finish the stream, zero-padding the last byte, and return the bytes.
    pub fn into_bytes(self) -> (r: Vec<u8>)
        requires
            self.wf(),
        ensures
            bytes_to_bits(r@) == self.view() + Seq::new(
                (if self.view().len() % 8 == 0 { 0 } else { 8 - self.view().len() % 8 }) as nat,
                |i: int| false,
            ),
    {
        let mut w = self;
        w.flush_align();
        proof {
            lemma_bytes_to_bits_len(w.buffer@);
            assert(low_bits(w.bit_buf, 0) =~= Seq::<bool>::empty());
            assert(w.view() =~= bytes_to_bits(w.buffer@));
        }
        w.buffer
    }
}

/// Bitstream reader that extracts bits from bytes, least significant bit first.
pub struct BitReader<'a> {
    bytes: &'a [u8],
    cursor: usize,
    bit_buf: u64,
    bits_in_buf: u8,
}

impl<'a> BitReader<'a> {
    /// The bits of the whole input.
    pub closed spec fn bits(&self) -> Seq<bool> {
        bytes_to_bits(self.bytes@)
    }

    /// Number of bits consumed so far.
    pub closed spec fn position(&self) -> int {
        8 * self.cursor - self.bits_in_buf
    }

    /// Number of bits loaded ahead of the position.
    pub closed spec fn buffered(&self) -> nat {
        self.bits_in_buf as nat
    }

    /// The bits not consumed yet.
    pub open spec fn remaining(&self) -> Seq<bool> {
        self.bits().skip(self.position())
    }

    /// The loaded bits are the input bits from the position on.
    pub closed spec fn wf(&self) -> bool {
        &&& self.cursor <= self.bytes@.len()
        &&& self.bits_in_buf <= 64
        &&& self.bits_in_buf <= 8 * self.cursor
        &&& (self.bits_in_buf < 64 ==> self.bit_buf >> (self.bits_in_buf as u64) == 0)
        &&& low_bits(self.bit_buf, self.bits_in_buf as nat)
            == bytes_to_bits(self.bytes@).subrange(8 * self.cursor - self.bits_in_buf, 8 * self.cursor)
    }

    pub proof fn lemma_wf(&self)
        requires
            self.wf(),
        ensures
            0 <= self.position() <= self.bits().len(),
            self.buffered() <= self.bits().len() - self.position(),
    {
        lemma_bytes_to_bits_len(self.bytes@);
    }

    /// A reader at the start of `bytes`.
    pub fn new(bytes: &'a [u8]) -> (r: Self)
        ensures
            r.wf(),
            r.bits() == bytes_to_bits(bytes@),
            r.position() == 0,
    {
        let mut reader = BitReader { bytes, cursor: 0, bit_buf: 0, bits_in_buf: 0 };
        proof {
            lemma_u64_bits(0, 0, 0);
            assert(low_bits(0, 0) =~= bytes_to_bits(bytes@).subrange(0, 0));
        }
        reader.fill_buffer();
        reader
    }

    /// Load whole bytes while at least eight bits of room are left.
    fn fill_buffer(&mut self)
        requires
            old(self).wf(),
        ensures
            final(self).wf(),
            final(self).bits() == old(self).bits(),
            final(self).position() == old(self).position(),
            final(self).buffered() >= old(self).buffered(),
            final(self).buffered() > 56 || final(self).buffered() == final(self).bits().len() - final(self).position(),
    {
        proof {
            lemma_bytes_to_bits_len(self.bytes@);
        }
        while self.bits_in_buf <= 56 && self.cursor < self.bytes.len()
            invariant
                self.wf(),
                self.bytes == old(self).bytes,
                self.position() == old(self).position(),
                self.bits_in_buf >= old(self).bits_in_buf,
                bytes_to_bits(self.bytes@).len() == 8 * self.bytes@.len(),
            decreases self.bytes@.len() - self.cursor,
        {
            let ghost x = self.bit_buf;
            let ghost k = self.bits_in_buf as nat;
            let b = self.bytes[self.cursor];
            proof {
                lemma_u64_bits(b as u64, 0, 0);
                lemma_merge_bits(x, b as u64, k, 8);
                let s = self.bytes@;
                let c = self.cursor as int;
                assert(s.take(c + 1).drop_last() =~= s.take(c));
                lemma_bytes_to_bits_len(s.take(c));
                lemma_bytes_to_bits_prefix(s, c + 1);
                lemma_bytes_to_bits_prefix(s, c);
                let a = bytes_to_bits(s);
                lemma_bytes_to_bits_len(s);
                assert(s.take(c + 1).last() == s[c]);
                assert(bytes_to_bits(s.take(c + 1)) == bytes_to_bits(s.take(c)) + byte_bits(s[c]));
                assert(a.take(8 * c + 8) == bytes_to_bits(s.take(c)) + byte_bits(s[c]));
                assert(bytes_to_bits(s.take(c)).len() == 8 * c);
                assert forall|i: int| 0 <= i < 8 implies #[trigger] a.subrange(8 * c, 8 * c + 8)[i] == byte_bits(s[c])[i] by {
                    assert(a.take(8 * c + 8)[8 * c + i] == a[8 * c + i]);
                    assert((bytes_to_bits(s.take(c)) + byte_bits(s[c]))[8 * c + i] == byte_bits(s[c])[i]);
                }
                assert(a.subrange(8 * c, 8 * c + 8) =~= byte_bits(s[c]));
                assert(bytes_to_bits(s).subrange(8 * c - k, 8 * c + 8) =~= bytes_to_bits(s).subrange(8 * c - k, 8 * c)
                    + bytes_to_bits(s).subrange(8 * c, 8 * c + 8));
            }
            self.bit_buf = self.bit_buf | ((b as u64) << self.bits_in_buf);
            self.cursor = self.cursor + 1;
            self.bits_in_buf = self.bits_in_buf + 8;
        }
    }

    /// The next `count` bits as a number, zero-padded past the end, without consuming them.
    pub fn peek_bits(&mut self, count: u8) -> (r: u32)
        requires
            old(self).wf(),
            count <= 32,
        ensures
            final(self).wf(),
            final(self).bits() == old(self).bits(),
            final(self).position() == old(self).position(),
            r as nat == bits_value(padded_bits(old(self).remaining(), count as nat)),
            final(self).buffered() >= 57 || final(self).buffered() == final(self).bits().len() - final(self).position(),
    {
        self.fill_buffer();
        let mask = low_mask(count);
        let bb = self.bit_buf;
        assert(bb & mask <= 0xFFFF_FFFFu64) by (bit_vector)
            requires
                mask <= 0xFFFF_FFFFu64;
        let r = (bb & mask) as u32;
        proof {
            self.lemma_wf();
            let x = self.bit_buf;
            let n = count as nat;
            lemma_low_bits_value(x, n);
            assert(low_bits(x, n) =~= padded_bits(old(self).remaining(), n)) by {
                let k = self.bits_in_buf as nat;
                assert forall|i: int| 0 <= i < n implies #[trigger] bit_of(x, i) == padded_bits(old(self).remaining(), n)[i] by {
                    if i < k {
                        assert(low_bits(x, k)[i] == bit_of(x, i));
                    } else {
                        let iu = i as u64;
                        let ku = k as u64;
                        lemma_u64_bits(x, iu, ku);
                    }
                }
            }
        }
        r
    }

    /// Consume `min(count, buffered)` bits.
    pub fn drop_bits(&mut self, count: u8)
        requires
            old(self).wf(),
        ensures
            final(self).wf(),
            final(self).bits() == old(self).bits(),
            final(self).position() == old(self).position() + if (count as nat) < old(self).buffered() {
                count as nat
            } else {
                old(self).buffered()
            },
    {
        let c = if count < self.bits_in_buf { count } else { self.bits_in_buf };
        self.consume(c);
    }

    /// Consume `c` loaded bits.
    fn consume(&mut self, c: u8)
        requires
            old(self).wf(),
            c <= old(self).bits_in_buf,
        ensures
            final(self).wf(),
            final(self).bytes == old(self).bytes,
            final(self).cursor == old(self).cursor,
            final(self).bits_in_buf == old(self).bits_in_buf - c,
    {
        let ghost x = self.bit_buf;
        let ghost k = self.bits_in_buf as nat;
        proof {
            lemma_bytes_to_bits_len(self.bytes@);
        }
        if c == 64 {
            self.bit_buf = 0;
            self.bits_in_buf = 0;
            proof {
                assert(low_bits(0, 0) =~= bytes_to_bits(self.bytes@).subrange(8 * self.cursor, 8 * self.cursor));
                lemma_u64_bits(0, 0, 0);
            }
            return;
        }
        proof {
            lemma_shift_bits(x, k, c as nat);
            let ku = k as u64;
            let cu = c as u64;
            let du = (k - c) as u64;
            if k < 64 {
                assert((x >> cu) >> du == 0) by (bit_vector)
                    requires
                        x >> ku == 0,
                        du + cu == ku,
                        cu <= ku < 64;
            } else {
                assert(cu > 0 ==> (x >> cu) >> du == 0) by (bit_vector)
                    requires
                        du + cu == 64,
                        cu < 64;
            }
        }
        self.bit_buf = self.bit_buf >> c;
        self.bits_in_buf = self.bits_in_buf - c;
        proof {
            let lo = 8 * self.cursor - k;
            assert(bytes_to_bits(self.bytes@).subrange(lo + c, 8 * self.cursor as int)
                =~= bytes_to_bits(self.bytes@).subrange(lo, 8 * self.cursor as int).skip(c as int));
        }
    }

    /// Read the next `count` bits as a number; `UnexpectedEof` when fewer remain.
    pub fn read_bits(&mut self, count: u8) -> (r: Result<u32, CodropError>)
        requires
            old(self).wf(),
            count <= 32,
        ensures
            final(self).wf(),
            final(self).bits() == old(self).bits(),
            old(self).position() + count <= old(self).bits().len() ==> {
                &&& r matches Ok(v)
                &&& v as nat == bits_value(old(self).remaining().take(count as int))
                &&& final(self).position() == old(self).position() + count
            },
            old(self).position() + count > old(self).bits().len() ==> r == Err::<u32, CodropError>(
                CodropError::UnexpectedEof,
            ),
    {
        proof {
            self.lemma_wf();
        }
        if count == 0 {
            assert(old(self).remaining().take(0) =~= Seq::<bool>::empty());
            return Ok(0);
        }
        let ghost rem = old(self).remaining();
        let v = self.peek_bits(count);
        proof {
            self.lemma_wf();
        }
        if self.bits_in_buf < count {
            return Err(CodropError::UnexpectedEof);
        }
        proof {
            assert(padded_bits(rem, count as nat) =~= rem.take(count as int));
        }
        self.consume(count);
        Ok(v)
    }

    /// Whether every bit has been consumed.
    pub fn is_empty(&mut self) -> (r: bool)
        requires
            old(self).wf(),
        ensures
            final(self).wf(),
            final(self).bits() == old(self).bits(),
            final(self).position() == old(self).position(),
            r == (old(self).position() == old(self).bits().len()),
    {
        self.fill_buffer();
        proof {
            self.lemma_wf();
            lemma_bytes_to_bits_len(self.bytes@);
        }
        self.bits_in_buf == 0 && self.cursor >= self.bytes.len()
    }
}

/// The bits of a prefix of a byte string are the prefix of its bits.
pub proof fn lemma_bytes_to_bits_prefix(s: Seq<u8>, k: int)
    requires
        0 <= k <= s.len(),
    ensures
        bytes_to_bits(s.take(k)) == bytes_to_bits(s).take(8 * k),
    decreases s.len(),
{
    lemma_bytes_to_bits_len(s);
    lemma_bytes_to_bits_len(s.take(k));
    if k == s.len() {
        assert(s.take(k) =~= s);
        assert(bytes_to_bits(s).take(8 * k) =~= bytes_to_bits(s));
    } else {
        lemma_bytes_to_bits_prefix(s.drop_last(), k);
        assert(s.drop_last().take(k) =~= s.take(k));
        lemma_bytes_to_bits_len(s.drop_last());
        assert(bytes_to_bits(s).take(8 * k) =~= bytes_to_bits(s.drop_last()).take(8 * k));
    }
}

/// A byte is the value of its eight bits.
proof fn lemma_byte_bits_value(b: u8)
    ensures
        bits_value(byte_bits(b)) == b,
{
    lemma_low_bits_value(b as u64, 8);
    assert(crate::entropy::canonical::two_pow(8) == 256) by {
        reveal_with_fuel(crate::entropy::canonical::two_pow, 9);
    }
    crate::entropy::huffman::lemma_mask_small(b as u64, 8);
}

/// Byte strings with the same bits are equal.
pub proof fn lemma_bytes_to_bits_injective(a: Seq<u8>, b: Seq<u8>)
    requires
        bytes_to_bits(a) == bytes_to_bits(b),
    ensures
        a == b,
    decreases a.len(),
{
    lemma_bytes_to_bits_len(a);
    lemma_bytes_to_bits_len(b);
    if a.len() > 0 {
        let n = a.len() as int;
        lemma_bytes_to_bits_prefix(a, n - 1);
        lemma_bytes_to_bits_prefix(b, n - 1);
        assert(a.take(n - 1) =~= a.drop_last());
        assert(b.take(n - 1) =~= b.drop_last());
        lemma_bytes_to_bits_injective(a.drop_last(), b.drop_last());
        lemma_bytes_to_bits_len(a.drop_last());
        lemma_bytes_to_bits_len(b.drop_last());
        assert(byte_bits(a.last()) =~= bytes_to_bits(a).skip(8 * (n - 1)));
        assert(byte_bits(b.last()) =~= bytes_to_bits(b).skip(8 * (n - 1)));
        lemma_byte_bits_value(a.last());
        lemma_byte_bits_value(b.last());
        assert(a =~= a.drop_last().push(a.last()));
        assert(b =~= b.drop_last().push(b.last()));
    }
}

/// What a write of `count` bits of `value` reads back as: `value` masked to `count` bits.
pub proof fn law_bits_read_back(value: u32, count: nat)
    requires
        count <= 32,
    ensures
        bits_value(low_bits(value as u64, count)) == (value as u64) & mask_of(count),
{
    lemma_low_bits_value(value as u64, count);
}

/// Bits written after `prefix` (the `count` lowest bits of `value`, lowest first), with any
/// bits after them, read back at the position where they were written as the value written,
/// cut to its `count` bits.
pub proof fn law_written_bits_read_back(prefix: Seq<bool>, value: u32, count: nat, rest: Seq<bool>)
    requires
        count <= 32,
    ensures
        bits_value((prefix + low_bits(value as u64, count) + rest).skip(prefix.len() as int).take(count as int))
            == (value as u64) & mask_of(count),
{
    let all = prefix + low_bits(value as u64, count) + rest;
    assert(all.skip(prefix.len() as int).take(count as int) =~= low_bits(value as u64, count));
    law_bits_read_back(value, count);
}

} // verus!
