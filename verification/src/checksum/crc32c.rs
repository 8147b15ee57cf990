//! CRC-32C (Castagnoli), reflected polynomial 0x82F63B78.
use vstd::prelude::*;

verus! {

/// Reflected CRC-32C polynomial.
pub const CRC32C_POLY: u32 = 0x82F63B78;

/// One shift of the reflected CRC register.
pub open spec fn crc32c_shift(c: u32) -> u32 {
    if c & 1 != 0 { (c >> 1) ^ CRC32C_POLY } else { c >> 1 }
}

/// `k` shifts of the CRC register.
pub open spec fn crc32c_shifts(c: u32, k: nat) -> u32
    decreases k,
{
    if k == 0 { c } else { crc32c_shift(crc32c_shifts(c, (k - 1) as nat)) }
}

/// The register after absorbing one byte.
pub open spec fn crc32c_byte(state: u32, b: u8) -> u32 {
    crc32c_shifts(state ^ (b as u32), 8)
}

/// The register after absorbing `data`, starting from `state`.
pub open spec fn crc32c_absorb(state: u32, data: Seq<u8>) -> u32
    decreases data.len(),
{
    if data.len() == 0 {
        state
    } else {
        crc32c_byte(crc32c_absorb(state, data.drop_last()), data.last())
    }
}

/// CRC-32C of a whole byte sequence.
pub open spec fn spec_crc32c(data: Seq<u8>) -> u32 {
    crc32c_absorb(0xFFFF_FFFFu32, data) ^ 0xFFFF_FFFFu32
}

/// Absorbing two pieces one after the other is absorbing their concatenation.
pub proof fn lemma_crc32c_absorb_concat(state: u32, a: Seq<u8>, b: Seq<u8>)
    ensures
        crc32c_absorb(crc32c_absorb(state, a), b) == crc32c_absorb(state, a + b),
    decreases b.len(),
{
    if b.len() == 0 {
        assert(a + b =~= a);
    } else {
        lemma_crc32c_absorb_concat(state, a, b.drop_last());
        assert((a + b).drop_last() =~= a + b.drop_last());
        assert((a + b).last() == b.last());
    }
}

/// Incremental CRC-32C state.
pub struct Crc32c {
    state: u32,
}

impl View for Crc32c {
    type V = u32;

    /// The raw register value.
    closed spec fn view(&self) -> u32 {
        self.state
    }
}

fn crc32c_step(state: u32, b: u8) -> (r: u32)
    ensures
        r == crc32c_byte(state, b),
{
    let mut c: u32 = state ^ (b as u32);
    let mut j: u32 = 0;
    while j < 8
        invariant
            j <= 8,
            c == crc32c_shifts(state ^ (b as u32), j as nat),
        decreases 8 - j,
    {
        if (c & 1) != 0 {
            c = (c >> 1) ^ CRC32C_POLY;
        } else {
            c = c >> 1;
        }
        j = j + 1;
    }
    c
}

impl Crc32c {
    /// A fresh register (all ones).
    pub fn new() -> (r: Self)
        ensures
            r@ == 0xFFFF_FFFFu32,
    {
        Crc32c { state: 0xFFFF_FFFF }
    }

    /// Absorb `data` into the register.
    pub fn update(&mut self, data: &[u8])
        ensures
            final(self)@ == crc32c_absorb(old(self)@, data@),
    {
        let mut i: usize = 0;
        while i < data.len()
            invariant
                i <= data@.len(),
                self@ == crc32c_absorb(old(self)@, data@.take(i as int)),
            decreases data@.len() - i,
        {
            assert(data@.take(i as int + 1).drop_last() =~= data@.take(i as int));
            self.state = crc32c_step(self.state, data[i]);
            i = i + 1;
        }
        assert(data@.take(i as int) =~= data@);
    }

    /// The final CRC value (register inverted).
    pub fn finalize(self) -> (r: u32)
        ensures
            r == self@ ^ 0xFFFF_FFFFu32,
    {
        self.state ^ 0xFFFF_FFFF
    }

    /// CRC-32C of `data` in one call.
    pub fn compute(data: &[u8]) -> (r: u32)
        ensures
            r == spec_crc32c(data@),
    {
        let mut crc = Self::new();
        crc.update(data);
        crc.finalize()
    }
}

/// Feeding the data in two updates gives the one-shot CRC-32C of their concatenation.
pub proof fn law_crc32c_incremental(a: Seq<u8>, b: Seq<u8>)
    ensures
        crc32c_absorb(crc32c_absorb(0xFFFF_FFFFu32, a), b) ^ 0xFFFF_FFFFu32 == spec_crc32c(a + b),
{
    lemma_crc32c_absorb_concat(0xFFFF_FFFFu32, a, b);
}

} // verus!
