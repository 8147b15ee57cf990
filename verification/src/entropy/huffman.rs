//! Canonical Huffman coding: code lengths from frequencies, canonical codes, and a decoder.
//!
//! Codes are canonical: within one length they are consecutive in symbol order, and each
//! length starts where the previous one ended, doubled. The encoder emits each code most
//! significant bit first, which on an LSB-first bitstream means writing the bit-reversed code.
use vstd::prelude::*;

use crate::entropy::bitstream::{bit_of, bits_value, lemma_u64_bits, low_bits, padded_bits, BitReader};
use crate::entropy::canonical::{
    canonical_slot, canonical_slot_from, code_rank, codes_before, kraft_sum, kraft_term,
    canonical_code, code_count, first_code, lemma_canonical_code_fits, lemma_codes_fit,
    lemma_len_count_bound, lemma_msb_of_reversed, lemma_two_pow_15, lemma_two_pow_add,
    lemma_two_pow_pos, len_count, msb_value, two_pow, valid_code_lengths, MAX_CODE_LEN, canonical_fits16,
    first_code16, lemma_first_code16, lemma_rank_bound,
};
use crate::error::CodropError;

verus! {

/// Maximum allowable code length in Codrop canonical Huffman trees (15 bits).
pub const MAX_HUFFMAN_BITS: usize = 15;

/// Bit `p` of `r | (1 << p)` is set and the others are those of `r`.
proof fn lemma_set_bit(r: u64, p: u64, j: u64)
    requires
        p < 64,
        j < 64,
    ensures
        ((r | (1u64 << p)) >> j) & 1 == if j == p { 1u64 } else { (r >> j) & 1 },
{
    assert(((r | (1u64 << p)) >> j) & 1 == if j == p { 1u64 } else { (r >> j) & 1 }) by (bit_vector)
        requires
            p < 64,
            j < 64;
}

/// Reverses the lowest `len` bits of `code`, for LSB-first emission of a code read MSB first.
pub fn reverse_bits(code: u16, len: u8) -> (r: u16)
    requires
        len <= 16,
    ensures
        low_bits(r as u64, len as nat) == low_bits(code as u64, len as nat).reverse(),
        (r as u64) >> (len as u64) == 0,
{
    let c = code as u64;
    let mut r: u64 = 0;
    let mut i: u8 = 0;
    proof { lemma_u64_bits(0, len as u64, 0); }
    assert forall|j: int| 0 <= j < len implies #[trigger] bit_of(0u64, j) == (j >= len - 0 && bit_of(c, len - 1 - j)) by {
        let ju = j as u64;
        lemma_u64_bits(0, ju, 0);
    }
    while i < len
        invariant
            i <= len,
            len <= 16,
            c == code as u64,
            r >> (len as u64) == 0,
            forall|j: int| 0 <= j < len ==> #[trigger] bit_of(r, j) == (j >= len - i && bit_of(c, len - 1 - j)),
        decreases len - i,
    {
        let p: u8 = len - 1 - i;
        let bit = (c >> (i as u64)) & 1;
        if bit == 1 {
            proof {
                let pu = p as u64;
                let lu = len as u64;
                assert forall|j: int| 0 <= j < len implies #[trigger] bit_of(r | (1u64 << pu), j)
                    == (j >= len - (i + 1) && bit_of(c, len - 1 - j)) by {
                    lemma_set_bit(r, pu, j as u64);
                    if j == p as int {
                        assert(len - 1 - j == i as int);
                        assert(bit_of(c, i as int));
                    } else {
                        assert(bit_of(r | (1u64 << pu), j) == bit_of(r, j));
                    }
                }
                assert((r | (1u64 << pu)) >> lu == 0) by (bit_vector)
                    requires
                        r >> lu == 0,
                        pu < lu,
                        lu <= 16;
            }
            r = r | (1u64 << (p as u64));
        } else {
            proof {
                assert forall|j: int| 0 <= j < len implies #[trigger] bit_of(r, j)
                    == (j >= len - (i + 1) && bit_of(c, len - 1 - j)) by {
                    if j == p as int {
                        assert(bit != 1);
                        let iu = i as u64;
                        lemma_u64_bits(c, iu, 0);
                    }
                }
            }
        }
        i = i + 1;
    }
    proof {
        let lu = len as u64;
        assert(r < 0x10000u64) by (bit_vector)
            requires
                r >> lu == 0,
                lu <= 16;
        assert(low_bits(r, len as nat) =~= low_bits(c, len as nat).reverse());
    }
    assert((r as u16) as u64 == r);
    r as u16
}

/// Per-length code counts of `lengths` (index 0 unused).
fn count_lengths(lengths: &[u8]) -> (r: Vec<usize>)
    requires
        forall|i: int| 0 <= i < lengths@.len() ==> #[trigger] lengths@[i] <= MAX_CODE_LEN,
    ensures
        r@.len() == 16,
        r@[0] == 0,
        forall|l: int| 1 <= l <= 15 ==> #[trigger] r@[l] == code_count(lengths@, l),
{
    let mut bl: Vec<usize> = Vec::new();
    let mut k: usize = 0;
    while k < 16
        invariant
            k <= 16,
            bl@.len() == k,
            forall|j: int| 0 <= j < k ==> #[trigger] bl@[j] == 0,
        decreases 16 - k,
    {
        bl.push(0);
        k = k + 1;
    }
    let mut s: usize = 0;
    while s < lengths.len()
        invariant
            s <= lengths@.len(),
            bl@.len() == 16,
            bl@[0] == 0,
            forall|i: int| 0 <= i < lengths@.len() ==> #[trigger] lengths@[i] <= MAX_CODE_LEN,
            forall|l: int| 1 <= l <= 15 ==> #[trigger] bl@[l] == len_count(lengths@, s as int, l),
        decreases lengths@.len() - s,
    {
        let l = lengths[s] as usize;
        proof {
            lemma_len_count_bound(lengths@, s as int, l as int);
        }
        if l > 0 {
            let c = bl[l];
            bl.set(l, c + 1);
        }
        s = s + 1;
    }
    bl
}

/// The `l` lowest bits of `x` are its remainder by `2^l`.
proof fn lemma_mask_mod(x: u64, l: nat)
    requires
        l <= 15,
        x < 0x10000,
    ensures
        x & crate::entropy::bitstream::mask_of(l) == x % (two_pow(l) as u64),
        two_pow(l) >= 1,
{
    lemma_two_pow_shift(l);
    lemma_two_pow_pos(l);
    let lu = l as u64;
    assert(x & ((1u64 << lu) - 1) as u64 == x % (1u64 << lu)) by (bit_vector)
        requires
            lu <= 15,
            x < 0x10000;
}

/// Builds canonical Huffman codes from code lengths of at most 15 bits; each code is returned
/// bit-reversed, ready to be written LSB first. Codes are counted up in 16-bit arithmetic from
/// the first code of each length; for a prefix code (lengths meeting the Kraft inequality)
/// they are the canonical codes.
pub fn build_canonical_codes(lengths: &[u8]) -> (r: Vec<u16>)
    requires
        forall|i: int| 0 <= i < lengths@.len() ==> #[trigger] lengths@[i] <= MAX_CODE_LEN,
        canonical_fits16(lengths@),
    ensures
        r@.len() == lengths@.len(),
        forall|s: int| 0 <= s < lengths@.len() && lengths@[s] == 0 ==> #[trigger] r@[s] == 0,
        forall|s: int| 0 <= s < lengths@.len() && lengths@[s] > 0 ==>
            msb_value(low_bits(#[trigger] r@[s] as u64, lengths@[s] as nat), lengths@[s] as int)
                == (first_code16(lengths@, lengths@[s] as int) + code_rank(lengths@, s)) % two_pow(lengths@[s] as nat),
        valid_code_lengths(lengths@) ==> forall|s: int| 0 <= s < lengths@.len() && lengths@[s] > 0 ==>
            msb_value(low_bits(#[trigger] r@[s] as u64, lengths@[s] as nat), lengths@[s] as int)
                == canonical_code(lengths@, s),
        forall|s: int| 0 <= s < lengths@.len() ==> #[trigger] r@[s] < two_pow(lengths@[s] as nat),
{
    let bl = count_lengths(lengths);
    let mut next: Vec<usize> = Vec::new();
    next.push(0);
    let mut code: usize = 0;
    let mut len: usize = 1;
    while len <= 15
        invariant
            1 <= len <= 16,
            canonical_fits16(lengths@),
            bl@.len() == 16,
            bl@[0] == 0,
            forall|l: int| 1 <= l <= 15 ==> #[trigger] bl@[l] == code_count(lengths@, l),
            next@.len() == len,
            forall|l: int| 1 <= l < len ==> #[trigger] next@[l] == first_code16(lengths@, l),
            len <= 15 ==> code == first_code16(lengths@, len as int),
        decreases 16 - len,
    {
        next.push(code);
        if len < 15 {
            assert(first_code16(lengths@, len as int) + code_count(lengths@, len as int) <= 65535);
            code = ((code + bl[len]) * 2) % 65536;
        }
        len = len + 1;
    }
    let mut codes: Vec<u16> = Vec::new();
    let mut s: usize = 0;
    while s < lengths.len()
        invariant
            s <= lengths@.len(),
            forall|i: int| 0 <= i < lengths@.len() ==> #[trigger] lengths@[i] <= MAX_CODE_LEN,
            canonical_fits16(lengths@),
            next@.len() == 16,
            forall|l: int| 1 <= l <= 15 ==> #[trigger] next@[l] == first_code16(lengths@, l) + len_count(lengths@, s as int, l),
            codes@.len() == s,
            forall|t: int| 0 <= t < s && lengths@[t] == 0 ==> #[trigger] codes@[t] == 0,
            forall|t: int| 0 <= t < s && lengths@[t] > 0 ==>
                msb_value(low_bits(#[trigger] codes@[t] as u64, lengths@[t] as nat), lengths@[t] as int)
                    == (first_code16(lengths@, lengths@[t] as int) + code_rank(lengths@, t)) % two_pow(lengths@[t] as nat),
            forall|t: int| 0 <= t < s ==> #[trigger] codes@[t] < two_pow(lengths@[t] as nat),
        decreases lengths@.len() - s,
    {
        let l = lengths[s];
        if l > 0 {
            assert(l <= MAX_CODE_LEN);
            let canon = next[l as usize];
            proof {
                lemma_rank_bound(lengths@, s as int);
                assert(first_code16(lengths@, l as int) + code_count(lengths@, l as int) <= 65535);
            }
            let rev = reverse_bits(canon as u16, l);
            proof {
                crate::entropy::bitstream::lemma_low_bits_value(canon as u64, l as nat);
                lemma_msb_of_reversed(low_bits(canon as u64, l as nat));
                lemma_mask_mod(canon as u64, l as nat);
                lemma_two_pow_shift(l as nat);
                let ru = rev as u64;
                let lu = l as u64;
                assert(ru < (1u64 << lu)) by (bit_vector)
                    requires
                        ru >> lu == 0,
                        lu <= 15;
            }
            codes.push(rev);
            next.set(l as usize, canon + 1);
        } else {
            proof { lemma_two_pow_pos(0); }
            codes.push(0);
        }
        s = s + 1;
    }
    proof {
        if valid_code_lengths(lengths@) {
            assert forall|t: int| 0 <= t < lengths@.len() && lengths@[t] > 0 implies msb_value(
                low_bits(#[trigger] codes@[t] as u64, lengths@[t] as nat),
                lengths@[t] as int,
            ) == canonical_code(lengths@, t) by {
                lemma_first_code16(lengths@, lengths@[t] as int);
                lemma_canonical_code_fits(lengths@, t);
                vstd::arithmetic::div_mod::lemma_small_mod(canonical_code(lengths@, t), two_pow(lengths@[t] as nat));
            }
        }
    }
    codes
}

/// A number below `2^l` is unchanged by the `l`-bit mask.
pub proof fn lemma_mask_small(x: u64, l: nat)
    requires
        l <= 32,
        x < two_pow(l),
    ensures
        x & crate::entropy::bitstream::mask_of(l) == x,
{
    lemma_two_pow_shift(l);
    let lu = l as u64;
    assert(x & ((1u64 << lu) - 1) as u64 == x) by (bit_vector)
        requires
            x < (1u64 << lu),
            lu <= 32;
}

/// `2^l` as a shift.
pub proof fn lemma_two_pow_shift(l: nat)
    requires
        l <= 32,
    ensures
        two_pow(l) == (1u64 << (l as u64)),
    decreases l,
{
    if l == 0 {
        lemma_u64_bits(0, 0, 0);
    } else {
        lemma_two_pow_shift((l - 1) as nat);
        let lu = l as u64;
        let pu = (l - 1) as u64;
        assert(1u64 << lu == 2 * (1u64 << pu)) by (bit_vector)
            requires
                1 <= lu <= 32,
                pu + 1 == lu;
    }
}

/// Bits of the number `bits_value(s)` are the entries of `s`.
pub proof fn lemma_bits_value_bit(s: Seq<bool>, i: int)
    requires
        s.len() <= 32,
        0 <= i < s.len(),
    ensures
        bits_value(s) < 0x1_0000_0000,
        bit_of(bits_value(s) as u64, i) == s[i],
    decreases s.len(),
{
    lemma_bits_value_lt(s);
    lemma_two_pow_le32(s.len());
    let w = bits_value(s.drop_first());
    lemma_bits_value_lt(s.drop_first());
    lemma_two_pow_le32(s.drop_first().len());
    let d: u64 = if s[0] { 1 } else { 0 };
    let wu = w as u64;
    let v = bits_value(s) as u64;
    assert(v == d + 2 * wu);
    let iu = i as u64;
    if i == 0 {
        assert((v >> 0u64) & 1 == d) by (bit_vector)
            requires
                v == d + 2 * wu,
                d <= 1,
                wu < 0x1_0000_0000;
    } else {
        lemma_bits_value_bit(s.drop_first(), i - 1);
        let ju = (i - 1) as u64;
        assert((v >> iu) & 1 == (wu >> ju) & 1) by (bit_vector)
            requires
                v == d + 2 * wu,
                d <= 1,
                wu < 0x1_0000_0000,
                1 <= iu < 32,
                ju + 1 == iu;
    }
}

proof fn lemma_bits_value_lt(s: Seq<bool>)
    ensures
        bits_value(s) < two_pow(s.len()),
    decreases s.len(),
{
    if s.len() > 0 {
        lemma_bits_value_lt(s.drop_first());
    }
}

proof fn lemma_two_pow_le32(n: nat)
    requires
        n <= 32,
    ensures
        two_pow(n) <= 0x1_0000_0000,
    decreases 32 - n,
{
    if n < 32 {
        lemma_two_pow_le32(n + 1);
        lemma_two_pow_pos(n);
    } else {
        reveal_with_fuel(two_pow, 33);
    }
}

/// Table-free canonical Huffman decoder: code counts per length and the symbols listed by
/// length, then by symbol index.
#[derive(Debug)]
pub struct HuffmanDecoderTable {
    lengths: Vec<u8>,
    counts: Vec<usize>,
    symbols: Vec<u16>,
}

/// `x` is the symbol of rank `k` among those of code length `l`.
pub open spec fn is_ranked_symbol(lengths: Seq<u8>, x: int, l: int, k: int) -> bool {
    &&& 0 <= x < lengths.len()
    &&& lengths[x] == l
    &&& code_rank(lengths, x) == k
}

proof fn lemma_codes_before_mono(lengths: Seq<u8>, a: int, b: int)
    requires
        a <= b,
    ensures
        codes_before(lengths, a) <= codes_before(lengths, b),
    decreases b - a,
{
    if a < b {
        lemma_codes_before_mono(lengths, a, b - 1);
    }
}

impl HuffmanDecoderTable {
    /// The code lengths the table decodes.
    pub closed spec fn code_lengths(&self) -> Seq<u8> {
        self.lengths@
    }

    /// The counts and symbol list agree with the code lengths, which form a prefix code.
    pub closed spec fn wf(&self) -> bool {
        let lengths = self.lengths@;
        &&& valid_code_lengths(lengths)
        &&& forall|i: int| 65536 <= i < lengths.len() ==> #[trigger] lengths[i] == 0
        &&& self.counts@.len() == 16
        &&& forall|l: int| 1 <= l <= 15 ==> #[trigger] self.counts@[l] == code_count(lengths, l)
        &&& self.symbols@.len() == codes_before(lengths, 16)
        &&& forall|l: int, k: int| 1 <= l <= 15 && 0 <= k < code_count(lengths, l) ==>
            is_ranked_symbol(lengths, #[trigger] self.symbols@[codes_before(lengths, l) + k] as int, l, k)
    }

    /// Build a decoder for the code lengths `lengths`; they must form a prefix code with no
    /// length above 15. Symbols are handed out as `u16`, so codes go to the first 65536
    /// symbols only; any lengths after those are zero.
    pub fn build(lengths: &[u8]) -> (r: Result<Self, CodropError>)
        requires
            forall|i: int| 65536 <= i < lengths@.len() ==> #[trigger] lengths@[i] == 0,
        ensures
            r is Ok <==> valid_code_lengths(lengths@),
            r matches Ok(t) ==> t.wf() && t.code_lengths() == lengths@,
            r matches Err(e) ==> e is CorruptedEntropyStream,
            (exists|j: int| 0 <= j < lengths@.len() && #[trigger] lengths@[j] > MAX_CODE_LEN) ==> (r matches Err(
                CodropError::CorruptedEntropyStream(m),
            ) && m@ == "Huffman code length exceeds 15 bits"@),
            (forall|j: int| 0 <= j < lengths@.len() ==> #[trigger] lengths@[j] <= MAX_CODE_LEN) && kraft_sum(
                lengths@,
                lengths@.len() as int,
            ) > two_pow(15) ==> (r matches Err(CodropError::CorruptedEntropyStream(m)) && m@
                == "Oversubscribed Huffman tree"@),
    {
        let n = lengths.len();
        let mut kraft: u64 = 0;
        let mut i: usize = 0;
        while i < n
            invariant
                i <= n,
                n == lengths@.len(),
                forall|j: int| 65536 <= j < n ==> #[trigger] lengths@[j] == 0,
                forall|j: int| 0 <= j < i ==> #[trigger] lengths@[j] <= MAX_CODE_LEN,
                kraft == kraft_sum(lengths@, i as int),
                kraft <= (if i <= 65536 { i as int } else { 65536int }) * 16384,
            decreases n - i,
        {
            let l = lengths[i];
            if l > 15 {
                return Err(CodropError::CorruptedEntropyStream("Huffman code length exceeds 15 bits".to_string()));
            }
            if l > 0 {
                proof {
                    crate::entropy::huffman::lemma_two_pow_shift((15 - l) as nat);
                    lemma_two_pow_le32((15 - l) as nat);
                    let e = (15 - l) as u64;
                    lemma_u64_bits(0, e, 0);
                }
                kraft = kraft + (1u64 << (15 - l) as u64);
            }
            i = i + 1;
        }
        proof {
            lemma_two_pow_15();
        }
        if kraft > 32768 {
            return Err(CodropError::CorruptedEntropyStream("Oversubscribed Huffman tree".to_string()));
        }
        let counts = count_lengths(lengths);
        let mut symbols: Vec<u16> = Vec::new();
        let mut l: usize = 1;
        while l <= 15
            invariant
                1 <= l <= 16,
                n == lengths@.len(),
                forall|j: int| 65536 <= j < n ==> #[trigger] lengths@[j] == 0,
                valid_code_lengths(lengths@),
                symbols@.len() == codes_before(lengths@, l as int),
                forall|l2: int, k: int| 1 <= l2 < l && 0 <= k < code_count(lengths@, l2) ==>
                    is_ranked_symbol(lengths@, #[trigger] symbols@[codes_before(lengths@, l2) + k] as int, l2, k),
            decreases 16 - l,
        {
            let mut s: usize = 0;
            while s < n
                invariant
                    1 <= l <= 15,
                    s <= n,
                    n == lengths@.len(),
                    forall|j: int| 65536 <= j < n ==> #[trigger] lengths@[j] == 0,
                    symbols@.len() == codes_before(lengths@, l as int) + len_count(lengths@, s as int, l as int),
                    forall|l2: int, k: int| 1 <= l2 < l && 0 <= k < code_count(lengths@, l2) ==>
                        is_ranked_symbol(lengths@, #[trigger] symbols@[codes_before(lengths@, l2) + k] as int, l2, k),
                    forall|k: int| 0 <= k < len_count(lengths@, s as int, l as int) ==>
                        is_ranked_symbol(lengths@, #[trigger] symbols@[codes_before(lengths@, l as int) + k] as int, l as int, k),
                decreases n - s,
            {
                if lengths[s] as usize == l {
                    let ghost before = symbols@;
                    symbols.push(s as u16);
                    proof {
                        let b = codes_before(lengths@, l as int);
                        assert forall|l2: int, k: int| 1 <= l2 < l && 0 <= k < code_count(lengths@, l2) implies
                            is_ranked_symbol(lengths@, #[trigger] symbols@[codes_before(lengths@, l2) + k] as int, l2, k) by {
                            lemma_codes_before_mono(lengths@, l2 + 1, l as int);
                            assert(codes_before(lengths@, l2) + k < before.len());
                            assert(symbols@[codes_before(lengths@, l2) + k] == before[codes_before(lengths@, l2) + k]);
                        }
                        assert forall|k: int| 0 <= k < len_count(lengths@, s + 1, l as int) implies
                            is_ranked_symbol(lengths@, #[trigger] symbols@[codes_before(lengths@, l as int) + k] as int, l as int, k) by {
                            if k < len_count(lengths@, s as int, l as int) {
                                assert(symbols@[b + k] == before[b + k]);
                            } else {
                                assert(symbols@[b + k] == s as u16);
                            }
                        }
                    }
                }
                s = s + 1;
            }
            l = l + 1;
        }
        Ok(HuffmanDecoderTable { lengths: crate::buf::copy_bytes(lengths), counts, symbols })
    }

    /// Decode the next symbol: the code the next bits start with (missing bits past the end
    /// read as zero). The bits of the code are consumed.
    pub fn decode_symbol(&self, reader: &mut BitReader) -> (r: Result<u16, CodropError>)
        requires
            self.wf(),
            old(reader).wf(),
        ensures
            final(reader).wf(),
            final(reader).bits() == old(reader).bits(),
            match canonical_slot(self.code_lengths(), padded_bits(old(reader).remaining(), 15)) {
                None => r matches Err(e) && e is CorruptedEntropyStream && final(reader).position() == old(reader).position(),
                Some((l, k)) => r matches Ok(sym) && is_ranked_symbol(self.code_lengths(), sym as int, l, k)
                    && final(reader).position() == old(reader).position() + if l < old(reader).remaining().len() {
                        l
                    } else {
                        old(reader).remaining().len() as int
                    },
            },
    {
        let ghost lengths = self.lengths@;
        let ghost b = padded_bits(old(reader).remaining(), 15);
        proof {
            old(reader).lemma_wf();
        }
        let v = reader.peek_bits(15);
        let mut code: usize = 0;
        let mut first: usize = 0;
        let mut index: usize = 0;
        let mut l: usize = 1;
        let total = self.symbols.len();
        proof {
            lemma_codes_fit(lengths, 1);
        }
        while l <= 15
            invariant
                1 <= l <= 16,
                self.wf(),
                lengths == self.lengths@,
                reader.wf(),
                reader.bits() == old(reader).bits(),
                reader.position() == old(reader).position(),
                reader.buffered() >= 57 || reader.buffered() == reader.bits().len() - reader.position(),
                v as nat == bits_value(b),
                b == padded_bits(old(reader).remaining(), 15),
                b.len() == 15,
                code == msb_value(b, l - 1),
                code < two_pow((l - 1) as nat),
                l <= 15 ==> first == first_code(lengths, l as int),
                index == codes_before(lengths, l as int),
                total == codes_before(lengths, 16),
                canonical_slot(lengths, b) == canonical_slot_from(lengths, b, l as int),
            decreases 16 - l,
        {
            proof {
                lemma_codes_before_mono(lengths, l + 1, 16);
                assert(codes_before(lengths, l + 1) == codes_before(lengths, l as int) + code_count(lengths, l as int));
                lemma_bits_value_bit(b, l - 1);
                lemma_codes_fit(lengths, l as int);
                lemma_two_pow_15();
                lemma_two_pow_add(l as nat, (15 - l) as nat);
                lemma_two_pow_pos((15 - l) as nat);
                assert(two_pow(l as nat) <= 32768) by (nonlinear_arith)
                    requires
                        two_pow(15) == two_pow(l as nat) * two_pow((15 - l) as nat),
                        two_pow(15) == 32768,
                        two_pow((15 - l) as nat) >= 1;
            }
            let bit = ((v as u64) >> ((l - 1) as u64)) & 1;
            proof {
                let lu = (l - 1) as u64;
                let vu = v as u64;
                lemma_u64_bits(vu, lu, 0);
            }
            code = code * 2 + bit as usize;
            assert(bit == 1 <==> b[l - 1]);
            assert(code == msb_value(b, l as int));
            let count = self.counts[l];
            if code >= first && code - first < count {
                proof {
                    lemma_codes_before_mono(lengths, l + 1, 16);
                    assert(codes_before(lengths, l + 1) == codes_before(lengths, l as int) + code_count(lengths, l as int));
                    assert(is_ranked_symbol(lengths, self.symbols@[codes_before(lengths, l as int) + (code - first)] as int,
                        l as int, (code - first) as int));
                    reader.lemma_wf();
                    assert(canonical_slot_from(lengths, b, l as int) == Some((l as int, (code - first) as int)));
                }
                let sym = self.symbols[index + (code - first)];
                reader.drop_bits(l as u8);
                return Ok(sym);
            }
            index = index + count;
            first = (first + count) * 2;
            l = l + 1;
        }
        Err(CodropError::CorruptedEntropyStream("Invalid Huffman code encountered".to_string()))
    }
}

/// Number of nonzero entries among the first `n` of `f`.
pub open spec fn nonzero_count(f: Seq<u32>, n: int) -> nat
    decreases n,
{
    if n <= 0 { 0 } else { nonzero_count(f, n - 1) + if f[n - 1] > 0 { 1nat } else { 0nat } }
}

/// Total room left below the maximum code length, over the first `n` nonzero lengths.
pub open spec fn length_slack(lengths: Seq<u8>, n: int) -> nat
    decreases n,
{
    if n <= 0 {
        0
    } else {
        length_slack(lengths, n - 1) + if 1 <= lengths[n - 1] <= 15 { (15 - lengths[n - 1]) as nat } else { 0nat }
    }
}

/// Index of the live node with the smallest `(frequency, index)`.
fn min_live_node(freq: &Vec<u32>, live: &Vec<bool>) -> (r: usize)
    requires
        freq@.len() == live@.len(),
        exists|i: int| 0 <= i < live@.len() && live@[i],
    ensures
        r < live@.len(),
        live@[r as int],
        forall|i: int| 0 <= i < live@.len() && live@[i] ==> freq@[r as int] < freq@[i] || (freq@[r as int] == freq@[i] && r <= i),
{
    let mut best: usize = 0;
    let mut found = false;
    let mut i: usize = 0;
    while i < live.len()
        invariant
            i <= live@.len(),
            freq@.len() == live@.len(),
            found ==> best < i && live@[best as int],
            !found ==> forall|j: int| 0 <= j < i ==> !live@[j],
            found ==> forall|j: int| 0 <= j < i && live@[j] ==> freq@[best as int] < freq@[j] || (freq@[best as int] == freq@[j] && best <= j),
        decreases live@.len() - i,
    {
        if live[i] && (!found || freq[i] < freq[best]) {
            best = i;
            found = true;
        }
        i = i + 1;
    }
    best
}

/// The symbols below `s` whose count in `f` is nonzero, in increasing order.
pub open spec fn counted_symbols(f: Seq<u32>, s: int) -> Seq<usize>
    decreases s,
{
    if s <= 0 {
        Seq::empty()
    } else if f[s - 1] > 0 {
        counted_symbols(f, s - 1).push((s - 1) as usize)
    } else {
        counted_symbols(f, s - 1)
    }
}

/// Node `i` is the live node of least weight, the earliest on ties.
pub open spec fn is_lightest(w: Seq<u32>, live: Seq<bool>, i: int) -> bool {
    &&& 0 <= i < live.len()
    &&& live[i]
    &&& forall|j: int| 0 <= j < live.len() && live[j] ==> w[i] < w[j] || (w[i] == w[j] && i <= j)
}

/// The live node of least weight, the earliest on ties.
pub open spec fn lightest(w: Seq<u32>, live: Seq<bool>) -> int {
    choose|i: int| is_lightest(w, live, i)
}

proof fn lemma_lightest(w: Seq<u32>, live: Seq<bool>, i: int)
    requires
        is_lightest(w, live, i),
    ensures
        lightest(w, live) == i,
{
    let k = lightest(w, live);
    assert(is_lightest(w, live, k));
    assert(w[i] < w[k] || (w[i] == w[k] && i <= k));
    assert(w[k] < w[i] || (w[k] == w[i] && k <= i));
}

/// One merge of Huffman's construction on the forest with weights `w`, roots `live` and
/// parents `parent`: the two lightest roots become the children of a new root weighing their
/// sum (at most `u32::MAX`).
pub open spec fn merge_step(w: Seq<u32>, live: Seq<bool>, parent: Seq<usize>) -> (Seq<u32>, Seq<bool>, Seq<usize>) {
    let a = lightest(w, live);
    let live1 = live.update(a, false);
    let b = lightest(w, live1);
    let id = live.len();
    let sum = if w[a] + w[b] > u32::MAX { u32::MAX } else { (w[a] + w[b]) as u32 };
    (
        w.push(sum),
        live1.update(b, false).push(true),
        parent.push(usize::MAX).update(a, id as usize).update(b, id as usize),
    )
}

/// The forest after `k` merges.
pub open spec fn merge_n(w: Seq<u32>, live: Seq<bool>, parent: Seq<usize>, k: nat) -> (Seq<u32>, Seq<bool>, Seq<usize>)
    decreases k,
{
    if k == 0 {
        (w, live, parent)
    } else {
        let p = merge_n(w, live, parent, (k - 1) as nat);
        merge_step(p.0, p.1, p.2)
    }
}

/// The number of parent links from node `x` up to its root.
pub open spec fn node_depth(parent: Seq<usize>, x: int) -> nat
    decreases parent.len() - x,
{
    if 0 <= x < parent.len() && parent[x] != usize::MAX && x < parent[x] < parent.len() {
        1 + node_depth(parent, parent[x] as int)
    } else {
        0
    }
}

/// A leaf's depth as a code length: at least 1, at most 255.
pub open spec fn depth_len(d: nat) -> u8 {
    if d < 1 {
        1
    } else if d > 255 {
        255
    } else {
        d as u8
    }
}

/// `n` lengths in which the first `j` leaves (leaf `i` being symbol `syms[i]`) have their
/// depth in the forest with parents `parent`, and the other symbols 0.
pub open spec fn assign_depths(n: nat, syms: Seq<usize>, parent: Seq<usize>, j: int) -> Seq<u8>
    decreases j,
{
    if j <= 0 {
        Seq::new(n, |t: int| 0u8)
    } else {
        assign_depths(n, syms, parent, j - 1).update(syms[j - 1] as int, depth_len(node_depth(parent, j - 1)))
    }
}

/// The code lengths built for the counts `f`, of which the first `max_symbols` are coded:
/// nothing when no symbol is counted, one bit for a lone symbol, else the leaf depths of
/// Huffman's construction (leaves in symbol order, merging the two lightest roots, the
/// earliest on ties) bounded to 15 bits by `spec_limit`.
pub open spec fn spec_code_lengths(f: Seq<u32>, max_symbols: int) -> Seq<u8> {
    let n = f.len();
    let m = if max_symbols < n { max_symbols } else { n as int };
    let syms = counted_symbols(f, m);
    let k = syms.len();
    if k == 0 {
        Seq::new(n, |t: int| 0u8)
    } else if k == 1 {
        Seq::new(n, |t: int| 0u8).update(syms[0] as int, 1u8)
    } else {
        let fin = merge_n(
            Seq::new(k, |j: int| f[syms[j] as int]),
            Seq::new(k, |j: int| true),
            Seq::new(k, |j: int| usize::MAX),
            (k - 1) as nat,
        );
        spec_limit(assign_depths(n, syms, fin.2, k as int), m)
    }
}

/// Computes code lengths from symbol frequencies (for the first `max_symbols` symbols), by
/// Huffman's construction with ties broken towards the smaller frequency, then the older node,
/// and then bounded to 15 bits while keeping a prefix code.
pub fn build_code_lengths(frequencies: &[u32], max_symbols: usize) -> (r: Vec<u8>)
    ensures
        r@ == spec_code_lengths(frequencies@, max_symbols as int),
        r@.len() == frequencies@.len(),
        forall|s: int| 0 <= s < frequencies@.len() && (s >= max_symbols || frequencies@[s] == 0) ==> #[trigger] r@[s] == 0,
        forall|s: int| 0 <= s < frequencies@.len() && s < max_symbols && frequencies@[s] > 0 ==> 1 <= #[trigger] r@[s] <= 15,
        nonzero_count(frequencies@, if max_symbols < frequencies@.len() { max_symbols as int } else {
            frequencies@.len() as int
        }) <= 32768 ==> valid_code_lengths(r@),
        frequencies@.len() <= 32768 ==> valid_code_lengths(r@),
        ({
            let m = if max_symbols < frequencies@.len() { max_symbols as int } else { frequencies@.len() as int };
            nonzero_count(frequencies@, m) == 1 ==> forall|s: int| 0 <= s < m && frequencies@[s] > 0 ==> #[trigger] r@[s] == 1
        }),
{
    let n = frequencies.len();
    let m = if max_symbols < n { max_symbols } else { n };
    let mut lengths: Vec<u8> = Vec::new();
    let mut k: usize = 0;
    while k < n
        invariant
            k <= n,
            n == frequencies@.len(),
            lengths@.len() == k,
            forall|j: int| 0 <= j < k ==> #[trigger] lengths@[j] == 0,
        decreases n - k,
    {
        lengths.push(0);
        k = k + 1;
    }
    // Leaves, in symbol order.
    let mut freq: Vec<u32> = Vec::new();
    let mut live: Vec<bool> = Vec::new();
    let mut parent: Vec<usize> = Vec::new();
    let mut leaf_symbol: Vec<usize> = Vec::new();
    let mut s: usize = 0;
    while s < m
        invariant
            s <= m,
            m <= n,
            n == frequencies@.len(),
            freq@.len() == live@.len(),
            parent@.len() == live@.len(),
            leaf_symbol@.len() == live@.len(),
            live@.len() == nonzero_count(frequencies@, s as int),
            live@.len() <= s,
            forall|j: int| 0 <= j < live@.len() ==> #[trigger] live@[j],
            forall|j: int| 0 <= j < live@.len() ==> #[trigger] parent@[j] == usize::MAX,
            forall|j: int| 0 <= j < live@.len() ==> (#[trigger] leaf_symbol@[j]) < s && frequencies@[leaf_symbol@[j] as int] > 0,
            forall|j1: int, j2: int| 0 <= j1 < j2 < live@.len() ==> #[trigger] leaf_symbol@[j1] < #[trigger] leaf_symbol@[j2],
            forall|t: int| 0 <= t < s && frequencies@[t] > 0 ==> #[trigger] leaf_symbol@.contains(t as usize),
            leaf_symbol@ == counted_symbols(frequencies@, s as int),
            forall|j: int| 0 <= j < live@.len() ==> #[trigger] freq@[j] == frequencies@[leaf_symbol@[j] as int],
        decreases m - s,
    {
        if frequencies[s] > 0 {
            let ghost old_ls = leaf_symbol@;
            freq.push(frequencies[s]);
            live.push(true);
            parent.push(usize::MAX);
            leaf_symbol.push(s);
            proof {
                assert forall|t: int| 0 <= t < s + 1 && frequencies@[t] > 0 implies #[trigger] leaf_symbol@.contains(t as usize) by {
                    if t == s as int {
                        assert(leaf_symbol@[old_ls.len() as int] == t);
                    } else {
                        assert(old_ls.contains(t as usize));
                        let j = choose|j: int| 0 <= j < old_ls.len() && old_ls[j] == t;
                        assert(leaf_symbol@[j] == t);
                    }
                }
            }
        }
        s = s + 1;
    }
    let leaves = live.len();
    let ghost syms = leaf_symbol@;
    assert(lengths@ =~= Seq::new(n as nat, |t: int| 0u8));
    if leaves == 0 {
        proof {
            assert forall|t: int| 0 <= t < m && frequencies@[t] > 0 implies false by {
                assert(leaf_symbol@.contains(t as usize));
            }
            lemma_kraft_all_max(lengths@, n as int);
            crate::entropy::canonical::lemma_two_pow_15();
            assert forall|t: int| 0 <= t < lengths@.len() implies (#[trigger] lengths@[t] > 0 <==> (t < max_symbols
                && frequencies@[t] > 0)) by {
                if t < max_symbols && frequencies@[t] > 0 {
                    assert(leaf_symbol@.contains(t as usize));
                }
            }
            lemma_used_count_matches(lengths@, frequencies@, max_symbols as int, n as int);
            lemma_nonzero_count_le(frequencies@, m as int);
        }
        return lengths;
    }
    proof {
        lemma_live_count_all(live@, live@.len() as int);
        assert(live@[0]);
    }
    if leaves == 1 {
        let sym = leaf_symbol[0];
        lengths.set(sym, 1);
        proof {
            assert forall|t: int| 0 <= t < m && frequencies@[t] > 0 implies lengths@[t] == 1 by {
                assert(leaf_symbol@.contains(t as usize));
                let j = choose|j: int| 0 <= j < leaf_symbol@.len() && leaf_symbol@[j] == t;
                assert(j == 0);
            }
            assert forall|t: int| 0 <= t < n && t != sym as int implies #[trigger] lengths@[t] == 0 by {}
            crate::entropy::canonical::lemma_two_pow_15();
            lemma_kraft_single(lengths@, sym as int, lengths@.len() as int);
            assert(two_pow(15) == 2 * two_pow(14));
        }
        return lengths;
    }
    // Huffman merging.
    let mut alive: usize = leaves;
    while alive > 1
        invariant
            1 <= alive <= leaves,
            leaves <= m,
            syms == leaf_symbol@,
            syms == counted_symbols(frequencies@, m as int),
            leaves == syms.len(),
            (freq@, live@, parent@) == merge_n(
                Seq::new(leaves as nat, |j: int| frequencies@[syms[j] as int]),
                Seq::new(leaves as nat, |j: int| true),
                Seq::new(leaves as nat, |j: int| usize::MAX),
                (leaves - alive) as nat,
            ),
            freq@.len() == live@.len(),
            parent@.len() == live@.len(),
            leaf_symbol@.len() >= leaves,
            live@.len() == leaves + (leaves - alive),
            live@.len() <= 2 * m,
            m <= n,
            n == frequencies@.len(),
            lengths@.len() == n,
            forall|t: int| 0 <= t < n ==> #[trigger] lengths@[t] == 0,
            leaf_symbol@.len() == leaves,
            forall|t: int| 0 <= t < m && frequencies@[t] > 0 ==> #[trigger] leaf_symbol@.contains(t as usize),
            forall|i: int| 0 <= i < leaves ==> (#[trigger] leaf_symbol@[i]) < m && frequencies@[leaf_symbol@[i] as int] > 0,
            forall|i1: int, i2: int| 0 <= i1 < i2 < leaves ==> #[trigger] leaf_symbol@[i1] < #[trigger] leaf_symbol@[i2],
            forall|j: int| 0 <= j < live@.len() ==> #[trigger] parent@[j] == usize::MAX || (j < parent@[j] < live@.len()),
            exists|i: int| 0 <= i < live@.len() && live@[i],
            live_count(live@, live@.len() as int) == alive,
        decreases alive,
    {
        let ghost w0 = freq@;
        let ghost l0 = live@;
        let ghost p0 = parent@;
        let a = min_live_node(&freq, &live);
        proof {
            lemma_live_count_clear(live@, a as int);
            lemma_lightest(w0, l0, a as int);
        }
        live.set(a, false);
        proof {
            lemma_live_exists(live@, live@.len() as int);
        }
        let ghost l1 = live@;
        let b = min_live_node(&freq, &live);
        proof {
            lemma_live_count_clear(live@, b as int);
            lemma_lightest(w0, l1, b as int);
        }
        live.set(b, false);
        let id = live.len();
        let f = freq[a].saturating_add(freq[b]);
        freq.push(f);
        let ghost before = live@;
        live.push(true);
        proof {
            lemma_live_count_prefix(before, live@, before.len() as int);
            assert(live@[id as int]);
        }
        parent.push(usize::MAX);
        parent.set(a, id);
        parent.set(b, id);
        proof {
            assert((freq@, live@, parent@) == merge_step(w0, l0, p0));
        }
        alive = alive - 1;
    }
    // Depth of each leaf: the number of links up to the root.
    let nodes = live.len();
    let ghost fin = merge_n(
        Seq::new(leaves as nat, |j: int| frequencies@[syms[j] as int]),
        Seq::new(leaves as nat, |j: int| true),
        Seq::new(leaves as nat, |j: int| usize::MAX),
        (leaves - 1) as nat,
    );
    assert(parent@ == fin.2);
    let mut j: usize = 0;
    assert(lengths@ =~= assign_depths(n as nat, syms, parent@, 0));
    while j < leaves
        invariant
            j <= leaves,
            syms == leaf_symbol@,
            parent@ == fin.2,
            lengths@ == assign_depths(n as nat, syms, parent@, j as int),
            leaves <= nodes,
            nodes == live@.len(),
            parent@.len() == nodes,
            leaf_symbol@.len() == leaves,
            lengths@.len() == n,
            m <= n,
            n == frequencies@.len(),
            forall|t: int| 0 <= t < m && frequencies@[t] > 0 ==> #[trigger] leaf_symbol@.contains(t as usize),
            forall|i: int| 0 <= i < nodes ==> #[trigger] parent@[i] == usize::MAX || (i < parent@[i] < nodes),
            forall|i: int| 0 <= i < leaves ==> (#[trigger] leaf_symbol@[i]) < m && frequencies@[leaf_symbol@[i] as int] > 0,
            forall|i1: int, i2: int| 0 <= i1 < i2 < leaves ==> #[trigger] leaf_symbol@[i1] < #[trigger] leaf_symbol@[i2],
            forall|t: int| 0 <= t < n && !(exists|i: int| 0 <= i < j && leaf_symbol@[i] == t) ==> #[trigger] lengths@[t] == 0,
            forall|i: int| 0 <= i < j ==> 1 <= #[trigger] lengths@[leaf_symbol@[i] as int],
        decreases leaves - j,
    {
        let mut d: usize = 0;
        let mut x = j;
        while parent[x] != usize::MAX
            invariant
                x < nodes,
                d <= x,
                nodes == parent@.len(),
                forall|i: int| 0 <= i < nodes ==> #[trigger] parent@[i] == usize::MAX || (i < parent@[i] < nodes),
                d + node_depth(parent@, x as int) == node_depth(parent@, j as int),
            decreases nodes - x,
        {
            x = parent[x];
            d = d + 1;
        }
        let len: u8 = if d < 1 { 1 } else if d > 255 { 255 } else { d as u8 };
        let sym = leaf_symbol[j];
        lengths.set(sym, len);
        proof {
            assert forall|t: int| 0 <= t < n && !(exists|i: int| 0 <= i < j + 1 && leaf_symbol@[i] == t) implies #[trigger] lengths@[t] == 0 by {
                assert(leaf_symbol@[j as int] != t);
            }
            assert forall|i: int| 0 <= i < j + 1 implies 1 <= #[trigger] lengths@[leaf_symbol@[i] as int] by {
                if i < j {
                    assert(leaf_symbol@[i] != sym);
                }
            }
        }
        j = j + 1;
    }
    proof {
        assert forall|t: int| 0 <= t < n && (t >= m || frequencies@[t] == 0) implies #[trigger] lengths@[t] == 0 by {
            if exists|i: int| 0 <= i < leaves && leaf_symbol@[i] == t {
                let i = choose|i: int| 0 <= i < leaves && leaf_symbol@[i] == t;
                assert(leaf_symbol@[i] < m && frequencies@[leaf_symbol@[i] as int] > 0);
            }
        }
        assert forall|t: int| 0 <= t < m && frequencies@[t] > 0 implies 1 <= #[trigger] lengths@[t] by {
            assert(leaf_symbol@.contains(t as usize));
            let i = choose|i: int| 0 <= i < leaf_symbol@.len() && leaf_symbol@[i] == t as usize;
            assert(1 <= lengths@[leaf_symbol@[i] as int]);
        }
    }
    limit_code_lengths(&mut lengths, m);
    proof {
        crate::entropy::canonical::lemma_two_pow_15();
        assert forall|s: int| 0 <= s < lengths@.len() implies (#[trigger] lengths@[s] > 0 <==> (s < max_symbols
            && frequencies@[s] > 0)) by {
            if s < max_symbols && frequencies@[s] > 0 {
                assert(1 <= lengths@[s]);
            }
        }
        lemma_used_count_matches(lengths@, frequencies@, max_symbols as int, n as int);
        lemma_nonzero_count_le(frequencies@, m as int);
    }
    lengths
}

proof fn lemma_live_count_all(live: Seq<bool>, n: int)
    requires
        0 <= n <= live.len(),
        forall|j: int| 0 <= j < live.len() ==> #[trigger] live[j],
    ensures
        live_count(live, n) == n,
    decreases n,
{
    if n > 0 {
        lemma_live_count_all(live, n - 1);
    }
}

/// Number of live nodes among the first `n`.
pub open spec fn live_count(live: Seq<bool>, n: int) -> nat
    decreases n,
{
    if n <= 0 { 0 } else { live_count(live, n - 1) + if live[n - 1] { 1nat } else { 0nat } }
}

proof fn lemma_live_count_clear(live: Seq<bool>, a: int)
    requires
        0 <= a < live.len(),
        live[a],
    ensures
        live_count(live.update(a, false), live.len() as int) + 1 == live_count(live, live.len() as int),
{
    lemma_live_count_update(live, a, live.len() as int);
}

proof fn lemma_live_count_update(live: Seq<bool>, a: int, n: int)
    requires
        0 <= a < live.len(),
        live[a],
        0 <= n <= live.len(),
    ensures
        live_count(live.update(a, false), n) + (if a < n { 1nat } else { 0nat }) == live_count(live, n),
    decreases n,
{
    if n > 0 {
        lemma_live_count_update(live, a, n - 1);
    }
}

proof fn lemma_live_exists(live: Seq<bool>, n: int)
    requires
        0 <= n <= live.len(),
        live_count(live, n) > 0,
    ensures
        exists|i: int| 0 <= i < n && live[i],
    decreases n,
{
    if !live[n - 1] {
        lemma_live_exists(live, n - 1);
        let i = choose|i: int| 0 <= i < n - 1 && live[i];
        assert(live[i]);
    } else {
        assert(live[n - 1]);
    }
}

proof fn lemma_live_count_prefix(a: Seq<bool>, b: Seq<bool>, n: int)
    requires
        0 <= n <= a.len(),
        n <= b.len(),
        forall|i: int| 0 <= i < n ==> a[i] == b[i],
    ensures
        live_count(a, n) == live_count(b, n),
    decreases n,
{
    if n > 0 {
        lemma_live_count_prefix(a, b, n - 1);
    }
}

proof fn lemma_kraft_single(lengths: Seq<u8>, sym: int, n: int)
    requires
        0 <= sym < lengths.len(),
        0 <= n <= lengths.len(),
        lengths[sym] == 1,
        forall|t: int| 0 <= t < lengths.len() && t != sym ==> #[trigger] lengths[t] == 0,
    ensures
        kraft_sum(lengths, n) == if sym < n { two_pow(14) } else { 0 },
    decreases n,
{
    if n > 0 {
        lemma_kraft_single(lengths, sym, n - 1);
    }
}

/// Whether the scaled Kraft sum of the first `m` lengths exceeds `2^15`.
fn kraft_exceeds(lengths: &Vec<u8>, m: usize) -> (r: bool)
    requires
        m <= lengths@.len(),
        forall|s: int| 0 <= s < m ==> #[trigger] lengths@[s] <= MAX_CODE_LEN,
    ensures
        r == (kraft_sum(lengths@, m as int) > 32768),
{
    let mut sum: u64 = 0;
    let mut s: usize = 0;
    while s < m
        invariant
            s <= m,
            m <= lengths@.len(),
            forall|t: int| 0 <= t < m ==> #[trigger] lengths@[t] <= MAX_CODE_LEN,
            sum == kraft_sum(lengths@, s as int),
            sum <= 32768,
        decreases m - s,
    {
        let l = lengths[s];
        if l > 0 {
            proof {
                lemma_two_pow_shift((15 - l) as nat);
                let e = (15 - l) as u64;
                lemma_u64_bits(0, e, 0);
            }
            sum = sum + (1u64 << (15 - l) as u64);
        }
        s = s + 1;
        if sum > 32768 {
            proof {
                lemma_kraft_mono(lengths@, s as int, m as int);
            }
            return true;
        }
    }
    false
}

proof fn lemma_kraft_mono(lengths: Seq<u8>, a: int, b: int)
    requires
        0 <= a <= b,
    ensures
        kraft_sum(lengths, a) <= kraft_sum(lengths, b),
    decreases b - a,
{
    if a < b {
        lemma_kraft_mono(lengths, a, b - 1);
    }
}

proof fn lemma_kraft_zero_tail(lengths: Seq<u8>, m: int, n: int)
    requires
        0 <= m <= n <= lengths.len(),
        forall|s: int| m <= s < lengths.len() ==> #[trigger] lengths[s] == 0,
    ensures
        kraft_sum(lengths, n) == kraft_sum(lengths, m),
    decreases n - m,
{
    if n > m {
        lemma_kraft_zero_tail(lengths, m, n - 1);
    }
}

/// Number of nonzero lengths among the first `n`.
pub open spec fn used_count(lengths: Seq<u8>, n: int) -> nat
    decreases n,
{
    if n <= 0 { 0 } else { used_count(lengths, n - 1) + if lengths[n - 1] > 0 { 1nat } else { 0nat } }
}

/// At most `n` of the first `n` frequencies are nonzero.
proof fn lemma_nonzero_count_le(f: Seq<u32>, n: int)
    requires
        0 <= n,
    ensures
        nonzero_count(f, n) <= n,
    decreases n,
{
    if n > 0 {
        lemma_nonzero_count_le(f, n - 1);
    }
}

/// Lengths that are nonzero exactly for the symbols below `m` with a nonzero frequency are as
/// many as those symbols.
proof fn lemma_used_count_matches(r: Seq<u8>, f: Seq<u32>, m: int, n: int)
    requires
        0 <= n <= r.len(),
        r.len() == f.len(),
        0 <= m,
        forall|s: int| 0 <= s < r.len() ==> (#[trigger] r[s] > 0 <==> (s < m && f[s] > 0)),
    ensures
        used_count(r, n) == nonzero_count(f, if m < n { m } else { n }),
    decreases n,
{
    if n > 0 {
        lemma_used_count_matches(r, f, m, n - 1);
        assert(r[n - 1] > 0 <==> (n - 1 < m && f[n - 1] > 0));
    }
}

proof fn lemma_kraft_all_max(lengths: Seq<u8>, n: int)
    requires
        0 <= n <= lengths.len(),
        forall|s: int| 0 <= s < n ==> #[trigger] lengths[s] == 0 || lengths[s] == 15,
    ensures
        kraft_sum(lengths, n) <= used_count(lengths, n),
    decreases n,
{
    if n > 0 {
        lemma_kraft_all_max(lengths, n - 1);
        assert(two_pow(0) == 1);
    }
}

/// Growing a code below 15 bits by one bit uses up one unit of slack.
pub proof fn lemma_slack_step(lengths: Seq<u8>, b: int, n: int)
    requires
        0 <= b < n <= lengths.len(),
        1 <= lengths[b] < 15,
    ensures
        length_slack(lengths.update(b, (lengths[b] + 1) as u8), n) + 1 == length_slack(lengths, n),
    decreases n,
{
    if n - 1 > b {
        lemma_slack_step(lengths, b, n - 1);
    } else {
        lemma_slack_prefix(lengths, lengths.update(b, (lengths[b] + 1) as u8), b);
    }
}

proof fn lemma_slack_prefix(a: Seq<u8>, b: Seq<u8>, n: int)
    requires
        0 <= n <= a.len(),
        n <= b.len(),
        forall|i: int| 0 <= i < n ==> a[i] == b[i],
    ensures
        length_slack(a, n) == length_slack(b, n),
    decreases n,
{
    if n > 0 {
        lemma_slack_prefix(a, b, n - 1);
    }
}

/// The first `m` lengths of `l`, each cut down to 15.
pub open spec fn clamp_lengths(l: Seq<u8>, m: int) -> Seq<u8> {
    Seq::new(l.len(), |s: int| if s < m && l[s] > 15 { 15u8 } else { l[s] })
}

/// The longest length below 15 among the first `t` of `l`, the first on ties, with its index:
/// `(0, 0)` when there is none.
pub open spec fn longest_below_max(l: Seq<u8>, t: int) -> (int, u8)
    decreases t,
{
    if t <= 0 {
        (0, 0u8)
    } else {
        let p = longest_below_max(l, t - 1);
        let x = l[t - 1];
        if x > 0 && x < 15 && x > p.1 {
            (t - 1, x)
        } else {
            p
        }
    }
}

/// Where the longest length below 15 is and what it is.
pub proof fn lemma_longest_below_max(l: Seq<u8>, t: int)
    requires
        0 <= t <= l.len(),
    ensures
        longest_below_max(l, t).1 != 0 ==> 0 <= longest_below_max(l, t).0 < t && l[longest_below_max(l, t).0]
            == longest_below_max(l, t).1 && 1 <= longest_below_max(l, t).1 < 15,
        longest_below_max(l, t).1 == 0 ==> forall|u: int| 0 <= u < t ==> #[trigger] l[u] == 0 || l[u] >= 15,
    decreases t,
{
    if t > 0 {
        lemma_longest_below_max(l, t - 1);
    }
}

/// While the Kraft sum of the first `m` lengths exceeds `2^15`, the longest code below 15 bits
/// (the first on ties) grows by one bit; it stops when no code can grow.
pub open spec fn rebalance(l: Seq<u8>, m: int) -> Seq<u8>
    decreases length_slack(l, m),
{
    if m < 0 || m > l.len() || kraft_sum(l, m) <= 32768 {
        l
    } else {
        let b = longest_below_max(l, m);
        if b.1 == 0 {
            l
        } else {
            proof {
                lemma_longest_below_max(l, m);
                lemma_slack_step(l, b.0, m);
            }
            rebalance(l.update(b.0, (b.1 + 1) as u8), m)
        }
    }
}

/// The lengths `l` bounded to 15 bits for the first `m` symbols and rebalanced into a prefix
/// code where possible.
pub open spec fn spec_limit(l: Seq<u8>, m: int) -> Seq<u8> {
    rebalance(clamp_lengths(l, m), m)
}

/// Bounds the first `m` code lengths to 15 bits, then lengthens the longest codes below 15
/// bits, one step at a time, until the Kraft sum is at most one (or every code is 15 long).
fn limit_code_lengths(lengths: &mut Vec<u8>, m: usize)
    requires
        m <= old(lengths)@.len(),
        forall|s: int| m <= s < old(lengths)@.len() ==> #[trigger] old(lengths)@[s] == 0,
    ensures
        final(lengths)@.len() == old(lengths)@.len(),
        forall|s: int| 0 <= s < old(lengths)@.len() && old(lengths)@[s] == 0 ==> #[trigger] final(lengths)@[s] == 0,
        forall|s: int| 0 <= s < old(lengths)@.len() && old(lengths)@[s] >= 1 ==> 1 <= #[trigger] final(lengths)@[s] <= 15,
        forall|s: int| 0 <= s < final(lengths)@.len() ==> #[trigger] final(lengths)@[s] <= MAX_CODE_LEN,
        kraft_sum(final(lengths)@, final(lengths)@.len() as int) <= 32768 || kraft_sum(final(lengths)@,
            final(lengths)@.len() as int) <= used_count(final(lengths)@, final(lengths)@.len() as int),
        final(lengths)@ == spec_limit(old(lengths)@, m as int),
{
    let n = lengths.len();
    let mut s: usize = 0;
    while s < m
        invariant
            s <= m,
            m <= n,
            n == lengths@.len(),
            forall|t: int| 0 <= t < n && old(lengths)@[t] == 0 ==> #[trigger] lengths@[t] == 0,
            forall|t: int| 0 <= t < n && old(lengths)@[t] >= 1 ==> 1 <= #[trigger] lengths@[t],
            forall|t: int| 0 <= t < s ==> #[trigger] lengths@[t] <= MAX_CODE_LEN,
            forall|t: int| m <= t < n ==> #[trigger] lengths@[t] == 0,
            old(lengths)@.len() == n,
            forall|t: int| m <= t < n ==> #[trigger] old(lengths)@[t] == 0,
            forall|t: int| s <= t < n ==> #[trigger] lengths@[t] == old(lengths)@[t],
            forall|t: int| 0 <= t < s ==> #[trigger] lengths@[t] == clamp_lengths(old(lengths)@, m as int)[t],
        decreases m - s,
    {
        if lengths[s] > 15 {
            lengths.set(s, 15);
        }
        s = s + 1;
    }
    assert(lengths@ =~= clamp_lengths(old(lengths)@, m as int));
    let ghost target = spec_limit(old(lengths)@, m as int);
    let mut done = false;
    while !done
        invariant
            m <= n,
            n == lengths@.len(),
            old(lengths)@.len() == n,
            forall|t: int| 0 <= t < n && old(lengths)@[t] == 0 ==> #[trigger] lengths@[t] == 0,
            forall|t: int| 0 <= t < n && old(lengths)@[t] >= 1 ==> 1 <= #[trigger] lengths@[t],
            forall|t: int| 0 <= t < n ==> #[trigger] lengths@[t] <= MAX_CODE_LEN,
            forall|t: int| m <= t < n ==> #[trigger] lengths@[t] == 0,
            done ==> kraft_sum(lengths@, m as int) <= 32768 || forall|t: int| 0 <= t < m ==> #[trigger] lengths@[t] == 0 || lengths@[t] == 15,
            !done ==> rebalance(lengths@, m as int) == target,
            done ==> lengths@ == target,
        decreases length_slack(lengths@, m as int) + if done { 0nat } else { 1nat },
    {
        if !kraft_exceeds(lengths, m) {
            done = true;
        } else {
            let mut best: usize = 0;
            let mut best_len: u8 = 0;
            let mut t: usize = 0;
            while t < m
                invariant
                    t <= m,
                    m <= n,
                    n == lengths@.len(),
                    best_len == 0 ==> forall|u: int| 0 <= u < t ==> #[trigger] lengths@[u] == 0 || lengths@[u] >= 15,
                    best_len > 0 ==> best < t && lengths@[best as int] == best_len && 1 <= best_len < 15,
                    (best as int, best_len) == longest_below_max(lengths@, t as int),
                decreases m - t,
            {
                let l = lengths[t];
                if l > 0 && l < 15 && l > best_len {
                    best_len = l;
                    best = t;
                }
                t = t + 1;
            }
            if best_len == 0 {
                done = true;
            } else {
                proof {
                    lemma_slack_step(lengths@, best as int, m as int);
                }
                lengths.set(best, best_len + 1);
            }
        }
    }
    proof {
        lemma_kraft_zero_tail(lengths@, m as int, n as int);
        if !(kraft_sum(lengths@, m as int) <= 32768) {
            lemma_kraft_all_max(lengths@, n as int);
        }
    }
}

} // verus!
