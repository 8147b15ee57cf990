//! Streaming 64-bit hash over the whole decoded stream.
use vstd::prelude::*;

verus! {

pub const PRIME1: u64 = 0x9E3779B185EBCA87;
pub const PRIME2: u64 = 0xC2B2AE3D27D4EB4F;
pub const PRIME3: u64 = 0x165667B19E3779F9;

/// Little-endian value of the first eight bytes of `s`.
pub open spec fn le_u64(s: Seq<u8>) -> u64 {
    (s[0] as u64) | ((s[1] as u64) << 8u64) | ((s[2] as u64) << 16u64) | ((s[3] as u64) << 24u64)
        | ((s[4] as u64) << 32u64) | ((s[5] as u64) << 40u64) | ((s[6] as u64) << 48u64)
        | ((s[7] as u64) << 56u64)
}

/// Rotate left by 31.
pub open spec fn rotl31(x: u64) -> u64 {
    (x << 31u64) | (x >> 33u64)
}

/// Rotate left by 11.
pub open spec fn rotl11(x: u64) -> u64 {
    (x << 11u64) | (x >> 53u64)
}

/// Mixing round for one full 8-byte word.
pub open spec fn word_round(st: u64, val: u64) -> u64 {
    rotl31(st.wrapping_add(val.wrapping_mul(PRIME2))).wrapping_mul(PRIME1)
}

/// Mixing round for one trailing byte.
pub open spec fn tail_round(st: u64, b: u8) -> u64 {
    rotl11(st.wrapping_add((b as u64).wrapping_mul(PRIME3))).wrapping_mul(PRIME1)
}

/// State after mixing every complete 8-byte word of `data`, front to back.
pub open spec fn absorb_words(st: u64, data: Seq<u8>) -> u64
    decreases data.len(),
{
    if data.len() < 8 {
        st
    } else {
        absorb_words(word_round(st, le_u64(data)), data.skip(8))
    }
}

/// Number of bytes of `data` that form complete words.
pub open spec fn full_len(data: Seq<u8>) -> int {
    data.len() - data.len() % 8
}

/// State after mixing the trailing bytes, front to back.
pub open spec fn absorb_tail(st: u64, t: Seq<u8>) -> u64
    decreases t.len(),
{
    if t.len() == 0 {
        st
    } else {
        absorb_tail(tail_round(st, t[0]), t.skip(1))
    }
}

/// Final avalanche over the mixed state and the total length.
pub open spec fn avalanche(st: u64, total: u64) -> u64 {
    let h0 = st ^ total.wrapping_mul(PRIME3);
    let h1 = h0 ^ (h0 >> 33u64);
    let h2 = h1.wrapping_mul(PRIME2);
    let h3 = h2 ^ (h2 >> 29u64);
    let h4 = h3.wrapping_mul(PRIME1);
    h4 ^ (h4 >> 32u64)
}

/// The stream hash of a whole byte sequence.
pub open spec fn spec_stream_hash(data: Seq<u8>) -> u64 {
    avalanche(
        absorb_tail(absorb_words(PRIME1, data), data.skip(full_len(data))),
        data.len() as u64,
    )
}

proof fn lemma_absorb_words_concat(st: u64, a: Seq<u8>, b: Seq<u8>)
    requires
        a.len() % 8 == 0,
    ensures
        absorb_words(st, a + b) == absorb_words(absorb_words(st, a), b),
    decreases a.len(),
{
    if a.len() == 0 {
        assert(a + b =~= b);
    } else {
        assert((a + b).skip(8) =~= a.skip(8) + b);
        assert(le_u64(a + b) == le_u64(a));
        lemma_absorb_words_concat(word_round(st, le_u64(a)), a.skip(8), b);
    }
}

proof fn lemma_absorb_one_word(st: u64, a: Seq<u8>, w: Seq<u8>)
    requires
        a.len() % 8 == 0,
        w.len() == 8,
    ensures
        absorb_words(st, a + w) == word_round(absorb_words(st, a), le_u64(w)),
{
    lemma_absorb_words_concat(st, a, w);
    let s1 = absorb_words(st, a);
    assert(w.skip(8).len() == 0);
    assert(absorb_words(word_round(s1, le_u64(w)), w.skip(8)) == word_round(s1, le_u64(w)));
}

/// Mixing a sequence whose length is not a multiple of 8 ignores the partial word.
proof fn lemma_absorb_words_full(st: u64, data: Seq<u8>)
    ensures
        absorb_words(st, data) == absorb_words(st, data.take(full_len(data))),
{
    let f = full_len(data);
    assert(data =~= data.take(f) + data.skip(f));
    lemma_absorb_words_concat(st, data.take(f), data.skip(f));
}

/// Incremental stream hasher.
pub struct StreamHash64 {
    state: u64,
    total_len: u64,
    buf: Vec<u8>,
    buf_len: usize,
    absorbed: Ghost<Seq<u8>>,
}

impl View for StreamHash64 {
    type V = Seq<u8>;

    /// Every byte fed to the hasher so far.
    closed spec fn view(&self) -> Seq<u8> {
        self.absorbed@
    }
}

fn read_le_u64(s: &[u8], off: usize) -> (r: u64)
    requires
        off + 8 <= s@.len(),
    ensures
        r == le_u64(s@.skip(off as int)),
{
    (s[off] as u64) | ((s[off + 1] as u64) << 8u64) | ((s[off + 2] as u64) << 16u64) | ((s[off + 3] as u64) << 24u64)
        | ((s[off + 4] as u64) << 32u64) | ((s[off + 5] as u64) << 40u64) | ((s[off + 6] as u64) << 48u64)
        | ((s[off + 7] as u64) << 56u64)
}

fn mix_word(st: u64, val: u64) -> (r: u64)
    ensures
        r == word_round(st, val),
{
    let a = st.wrapping_add(val.wrapping_mul(PRIME2));
    ((a << 31u64) | (a >> 33u64)).wrapping_mul(PRIME1)
}

impl StreamHash64 {
    /// Internal consistency between the registers and the absorbed bytes.
    pub closed spec fn wf(&self) -> bool {
        let d = self.absorbed@;
        &&& d.len() <= u64::MAX
        &&& self.total_len as int == d.len()
        &&& self.buf@.len() == 8
        &&& self.buf_len as int == d.len() % 8
        &&& forall|i: int| 0 <= i < self.buf_len ==> #[trigger] self.buf@[i] == d[full_len(d) + i]
        &&& self.state == absorb_words(PRIME1, d)
    }

    /// An empty hasher.
    pub fn new() -> (r: Self)
        ensures
            r.wf(),
            r@ == Seq::<u8>::empty(),
    {
        let mut buf: Vec<u8> = Vec::new();
        let mut k: usize = 0;
        while k < 8
            invariant
                k <= 8,
                buf@.len() == k,
            decreases 8 - k,
        {
            buf.push(0u8);
            k = k + 1;
        }
        StreamHash64 { state: PRIME1, total_len: 0, buf, buf_len: 0, absorbed: Ghost(Seq::empty()) }
    }

    /// Complete a partially filled word buffer from the front of `data`.
    fn fill_pending(&mut self, data: &[u8]) -> (p: usize)
        requires
            old(self).wf(),
            old(self).buf_len > 0,
            old(self)@.len() + data@.len() <= u64::MAX,
        ensures
            final(self).wf(),
            p <= data@.len(),
            final(self)@ == old(self)@ + data@.take(p as int),
            final(self).buf_len > 0 ==> p == data@.len(),
    {
        let ghost d0 = self.absorbed@;
        let ghost f0 = full_len(d0);
        let needed = 8 - self.buf_len;
        let to_copy = if data.len() < needed { data.len() } else { needed };
        let mut p: usize = 0;
        while p < to_copy
            invariant
                self.buf@.len() == 8,
                p <= to_copy,
                to_copy <= data@.len(),
                self.buf_len + to_copy <= 8,
                self.buf_len as int == d0.len() % 8,
                self.buf_len > 0,
                self.absorbed@ == d0,
                self.total_len as int == d0.len(),
                d0.len() + data@.len() <= u64::MAX,
                f0 == full_len(d0),
                self.state == absorb_words(PRIME1, d0),
                forall|i: int| 0 <= i < self.buf_len ==> #[trigger] self.buf@[i] == d0[f0 + i],
                forall|i: int| 0 <= i < p ==> #[trigger] self.buf@[self.buf_len + i] == data@[i],
            decreases to_copy - p,
        {
            self.buf.set(self.buf_len + p, data[p]);
            p = p + 1;
        }
        let ghost b0 = self.buf_len as int;
        self.buf_len = self.buf_len + to_copy;
        self.total_len = self.total_len + to_copy as u64;
        self.absorbed = Ghost(d0 + data@.take(p as int));
        let ghost d1 = d0 + data@.take(p as int);
        proof {
            assert(d1.len() == d0.len() + p);
            assert forall|i: int| 0 <= i < self.buf_len implies #[trigger] self.buf@[i] == d1[f0 + i] by {
                if i >= b0 {
                    assert(self.buf@[b0 + (i - b0)] == data@[i - b0]);
                }
            }
        }
        if self.buf_len == 8 {
            let val = read_le_u64(self.buf.as_slice(), 0);
            proof {
                let w = d1.skip(f0);
                assert(w.len() == 8);
                assert(self.buf@ =~= w);
                assert(self.buf@.skip(0) =~= self.buf@);
                assert(d1 =~= d0.take(f0) + w);
                lemma_absorb_words_full(PRIME1, d0);
                lemma_absorb_one_word(PRIME1, d0.take(f0), w);
            }
            self.state = mix_word(self.state, val);
            self.buf_len = 0;
        } else {
            proof {
                assert(full_len(d1) == f0);
                lemma_absorb_words_full(PRIME1, d0);
                lemma_absorb_words_full(PRIME1, d1);
                assert(d0.take(f0) =~= d1.take(f0));
            }
        }
        p
    }

    /// Keep the last `data.len() - p` (< 8) bytes in the word buffer.
    fn stash_tail(&mut self, data: &[u8], p: usize)
        requires
            old(self).wf(),
            old(self).buf_len == 0,
            p < data@.len(),
            data@.len() - p < 8,
            old(self)@.len() + data@.len() - p <= u64::MAX,
        ensures
            final(self).wf(),
            final(self)@ == old(self)@ + data@.skip(p as int),
    {
        let ghost a = self.absorbed@;
        let rest = data.len() - p;
        let mut k: usize = 0;
        while k < rest
            invariant
                self.buf@.len() == 8,
                k <= rest,
                p + rest == data@.len(),
                rest < 8,
                self.absorbed@ == a,
                self.wf(),
                self.buf_len == 0,
                a.len() + rest <= u64::MAX,
                forall|i: int| 0 <= i < k ==> #[trigger] self.buf@[i] == data@[p + i],
            decreases rest - k,
        {
            assert(p + k < data@.len());
            assert(data@.len() == data.len());
            let idx: usize = p + k;
            self.buf.set(k, data[idx]);
            k = k + 1;
        }
        proof {
            let d = a + data@.skip(p as int);
            assert(a.len() % 8 == 0);
            assert(full_len(d) == a.len());
            assert(d.take(a.len() as int) =~= a);
            lemma_absorb_words_full(PRIME1, d);
            lemma_absorb_words_full(PRIME1, a);
            assert(a.take(a.len() as int) =~= a);
            assert forall|i: int| 0 <= i < rest implies #[trigger] self.buf@[i] == d[full_len(d) + i] by {
                assert(self.buf@[i] == data@[p + i]);
            }
        }
        self.buf_len = rest;
        self.total_len = self.total_len + rest as u64;
        self.absorbed = Ghost(a + data@.skip(p as int));
    }

    /// Feed more bytes.
    pub fn update(&mut self, data: &[u8])
        requires
            old(self).wf(),
            old(self)@.len() + data@.len() <= u64::MAX,
        ensures
            final(self).wf(),
            final(self)@ == old(self)@ + data@,
    {
        let ghost d0 = self.absorbed@;
        let mut p: usize = 0;
        if self.buf_len > 0 {
            p = self.fill_pending(data);
        }
        // Whole words straight from `data`.
        while data.len() - p >= 8 && self.buf_len == 0
            invariant
                self.wf(),
                p <= data@.len(),
                self@ == d0 + data@.take(p as int),
                self.buf_len > 0 ==> p == data@.len(),
                d0.len() + data@.len() <= u64::MAX,
            decreases data@.len() - p,
        {
            let val = read_le_u64(data, p);
            proof {
                let a = self.absorbed@;
                let w = data@.skip(p as int).take(8);
                assert(le_u64(w) == le_u64(data@.skip(p as int)));
                assert(d0 + data@.take(p as int + 8) =~= a + w);
                lemma_absorb_one_word(PRIME1, a, w);
                assert(full_len(a + w) == a.len() + 8);
            }
            self.state = mix_word(self.state, val);
            self.total_len = self.total_len + 8;
            p = p + 8;
            self.absorbed = Ghost(d0 + data@.take(p as int));
        }
        // Keep the trailing bytes.
        if p < data.len() {
            self.stash_tail(data, p);
            assert(d0 + data@.take(p as int) + data@.skip(p as int) =~= d0 + data@);
        }
        assert(data@.take(data@.len() as int) =~= data@);
    }

    /// The hash of everything fed so far (the hasher stays usable).
    pub fn finalize(&self) -> (r: u64)
        requires
            self.wf(),
        ensures
            r == spec_stream_hash(self@),
    {
        let ghost d = self.absorbed@;
        let ghost t = d.skip(full_len(d));
        let mut st = self.state;
        let mut i: usize = 0;
        assert(t.skip(0) =~= t);
        while i < self.buf_len
            invariant
                self.wf(),
                i <= self.buf_len,
                t == d.skip(full_len(d)),
                d == self.absorbed@,
                t.len() == self.buf_len,
                absorb_tail(st, t.skip(i as int)) == absorb_tail(absorb_words(PRIME1, d), t),
            decreases self.buf_len - i,
        {
            proof {
                assert(t.skip(i as int)[0] == self.buf@[i as int]);
                assert(t.skip(i as int).skip(1) =~= t.skip(i as int + 1));
            }
            let a = st.wrapping_add((self.buf[i] as u64).wrapping_mul(PRIME3));
            st = ((a << 11u64) | (a >> 53u64)).wrapping_mul(PRIME1);
            i = i + 1;
        }
        let mut h = st ^ self.total_len.wrapping_mul(PRIME3);
        h = h ^ (h >> 33u64);
        h = h.wrapping_mul(PRIME2);
        h = h ^ (h >> 29u64);
        h = h.wrapping_mul(PRIME1);
        h = h ^ (h >> 32u64);
        h
    }

    /// Hash of `data` in one call.
    pub fn compute(data: &[u8]) -> (r: u64)
        requires
            data@.len() <= u64::MAX,
        ensures
            r == spec_stream_hash(data@),
    {
        let mut hasher = Self::new();
        hasher.update(data);
        assert(Seq::<u8>::empty() + data@ =~= data@);
        hasher.finalize()
    }
}

/// Hashing data fed in two pieces gives the one-shot hash of their concatenation.
pub proof fn law_stream_hash_incremental(h: StreamHash64, a: Seq<u8>, b: Seq<u8>)
    requires
        h.wf(),
        h@ == a + b,
    ensures
        spec_stream_hash(h@) == spec_stream_hash(a + b),
{
}

} // verus!
