//! CRC-8 with polynomial 0x07 (x^8 + x^2 + x + 1), used for the stream header.
use vstd::prelude::*;

verus! {

/// One shift of the (non-reflected) CRC-8 register.
pub open spec fn crc8_shift(c: u8) -> u8 {
    if c & 0x80 != 0 { ((c << 1u8) ^ 0x07u8) as u8 } else { (c << 1u8) as u8 }
}

/// `k` shifts of the CRC-8 register.
pub open spec fn crc8_shifts(c: u8, k: nat) -> u8
    decreases k,
{
    if k == 0 { c } else { crc8_shift(crc8_shifts(c, (k - 1) as nat)) }
}

/// The register after absorbing `data`, starting from `state`.
pub open spec fn crc8_absorb(state: u8, data: Seq<u8>) -> u8
    decreases data.len(),
{
    if data.len() == 0 {
        state
    } else {
        crc8_shifts(crc8_absorb(state, data.drop_last()) ^ data.last(), 8)
    }
}

/// CRC-8 of a whole byte sequence.
pub open spec fn spec_crc8(data: Seq<u8>) -> u8 {
    crc8_absorb(0u8, data)
}

/// Absorbing two pieces one after the other is absorbing their concatenation.
pub proof fn lemma_crc8_absorb_concat(state: u8, a: Seq<u8>, b: Seq<u8>)
    ensures
        crc8_absorb(crc8_absorb(state, a), b) == crc8_absorb(state, a + b),
    decreases b.len(),
{
    if b.len() == 0 {
        assert(a + b =~= a);
    } else {
        lemma_crc8_absorb_concat(state, a, b.drop_last());
        assert((a + b).drop_last() =~= a + b.drop_last());
        assert((a + b).last() == b.last());
    }
}

/// Incremental CRC-8 state.
pub struct Crc8 {
    state: u8,
}

impl View for Crc8 {
    type V = u8;

    closed spec fn view(&self) -> u8 {
        self.state
    }
}

fn crc8_step(state: u8, b: u8) -> (r: u8)
    ensures
        r == crc8_shifts(state ^ b, 8),
{
    let mut c: u8 = state ^ b;
    let mut j: u32 = 0;
    while j < 8
        invariant
            j <= 8,
            c == crc8_shifts(state ^ b, j as nat),
        decreases 8 - j,
    {
        if (c & 0x80) != 0 {
            c = (c << 1u8) ^ 0x07;
        } else {
            c = c << 1u8;
        }
        j = j + 1;
    }
    c
}

impl Crc8 {
    /// A fresh register (zero).
    pub fn new() -> (r: Self)
        ensures
            r@ == 0u8,
    {
        Crc8 { state: 0 }
    }

    /// Absorb `data` into the register.
    pub fn update(&mut self, data: &[u8])
        ensures
            final(self)@ == crc8_absorb(old(self)@, data@),
    {
        let mut i: usize = 0;
        while i < data.len()
            invariant
                i <= data@.len(),
                self@ == crc8_absorb(old(self)@, data@.take(i as int)),
            decreases data@.len() - i,
        {
            assert(data@.take(i as int + 1).drop_last() =~= data@.take(i as int));
            self.state = crc8_step(self.state, data[i]);
            i = i + 1;
        }
        assert(data@.take(i as int) =~= data@);
    }

    /// The final CRC value.
    pub fn finalize(self) -> (r: u8)
        ensures
            r == self@,
    {
        self.state
    }

    /// CRC-8 of `data` in one call.
    pub fn compute(data: &[u8]) -> (r: u8)
        ensures
            r == spec_crc8(data@),
    {
        let mut crc = Self::new();
        crc.update(data);
        crc.finalize()
    }
}

impl Default for Crc8 {
    fn default() -> (r: Self)
        ensures
            r@ == 0u8,
    {
        Self::new()
    }
}

/// Feeding the data in two updates gives the one-shot CRC-8 of their concatenation.
pub proof fn law_crc8_incremental(a: Seq<u8>, b: Seq<u8>)
    ensures
        crc8_absorb(crc8_absorb(0u8, a), b) == spec_crc8(a + b),
{
    lemma_crc8_absorb_concat(0u8, a, b);
}

} // verus!
