//! The arithmetic of canonical prefix codes: code counts per length, first codes, ranks, and
//! the Kraft sum, with the facts that tie them together.
use vstd::prelude::*;

use crate::entropy::bitstream::{bits_value, low_bits};

verus! {

/// Longest code length.
pub const MAX_CODE_LEN: u8 = 15;

/// `2^e`.
pub open spec fn two_pow(e: nat) -> nat
    decreases e,
{
    if e == 0 { 1 } else { 2 * two_pow((e - 1) as nat) }
}

/// Number of the first `n` symbols whose code length is `l`.
pub open spec fn len_count(lengths: Seq<u8>, n: int, l: int) -> nat
    decreases n,
{
    if n <= 0 {
        0
    } else {
        len_count(lengths, n - 1, l) + if lengths[n - 1] == l { 1nat } else { 0nat }
    }
}

/// Number of symbols with code length `l`.
pub open spec fn code_count(lengths: Seq<u8>, l: int) -> nat {
    len_count(lengths, lengths.len() as int, l)
}

/// The first canonical code of length `l`.
pub open spec fn first_code(lengths: Seq<u8>, l: int) -> nat
    decreases l,
{
    if l <= 1 {
        0
    } else {
        2 * (first_code(lengths, l - 1) + code_count(lengths, l - 1))
    }
}

/// Position of symbol `s` among the symbols of its own code length.
pub open spec fn code_rank(lengths: Seq<u8>, s: int) -> nat {
    len_count(lengths, s, lengths[s] as int)
}

/// The canonical code of symbol `s` (read most significant bit first).
pub open spec fn canonical_code(lengths: Seq<u8>, s: int) -> nat {
    first_code(lengths, lengths[s] as int) + code_rank(lengths, s)
}

/// The first code of length `l` as 16-bit arithmetic computes it: each step adds the count of
/// the next shorter length and doubles, keeping the low 16 bits.
pub open spec fn first_code16(lengths: Seq<u8>, l: int) -> nat
    decreases l,
{
    if l <= 1 {
        0
    } else {
        ((first_code16(lengths, l - 1) + code_count(lengths, l - 1)) * 2) % 65536
    }
}

/// For every length from 1 to 15, the first code and the number of codes of that length stay
/// within 16 bits, so counting codes up from the first one never overflows.
pub open spec fn canonical_fits16(lengths: Seq<u8>) -> bool {
    forall|l: int| 1 <= l <= 15 ==> #[trigger] first_code16(lengths, l) + code_count(lengths, l) <= 65535
}

/// Number of symbols with a code length below `l` (and at least one).
pub open spec fn codes_before(lengths: Seq<u8>, l: int) -> nat
    decreases l,
{
    if l <= 1 { 0 } else { codes_before(lengths, l - 1) + code_count(lengths, l - 1) }
}

/// Kraft weight of one code length, scaled by `2^15`.
pub open spec fn kraft_term(l: u8) -> nat {
    if 1 <= l <= MAX_CODE_LEN { two_pow((MAX_CODE_LEN - l) as nat) } else { 0 }
}

/// Scaled Kraft sum of the first `n` code lengths.
pub open spec fn kraft_sum(lengths: Seq<u8>, n: int) -> nat
    decreases n,
{
    if n <= 0 { 0 } else { kraft_sum(lengths, n - 1) + kraft_term(lengths[n - 1]) }
}

/// Scaled Kraft weight of the codes of length `1..=m` among the first `n` symbols.
pub open spec fn kraft_by_len(lengths: Seq<u8>, n: int, m: int) -> nat
    decreases m,
{
    if m <= 0 {
        0
    } else {
        kraft_by_len(lengths, n, m - 1) + len_count(lengths, n, m) * two_pow((MAX_CODE_LEN - m) as nat)
    }
}

/// Code lengths of a prefix code: all at most 15, Kraft sum at most one.
pub open spec fn valid_code_lengths(lengths: Seq<u8>) -> bool {
    &&& forall|i: int| 0 <= i < lengths.len() ==> #[trigger] lengths[i] <= MAX_CODE_LEN
    &&& kraft_sum(lengths, lengths.len() as int) <= two_pow(15)
}

/// The value of the first `l` bits of `b`, first bit most significant.
pub open spec fn msb_value(b: Seq<bool>, l: int) -> nat
    decreases l,
{
    if l <= 0 {
        0
    } else {
        2 * msb_value(b, l - 1) + if b[l - 1] { 1nat } else { 0nat }
    }
}

/// Canonical decoding of the bits `b` from length `l` on: the first length whose prefix of
/// `b` is a code of that length, with the rank of the code within its length.
pub open spec fn canonical_slot_from(lengths: Seq<u8>, b: Seq<bool>, l: int) -> Option<(int, int)>
    decreases 16 - l,
{
    if l > MAX_CODE_LEN || l < 1 {
        None
    } else {
        let c = msb_value(b, l);
        if first_code(lengths, l) <= c < first_code(lengths, l) + code_count(lengths, l) {
            Some((l, c - first_code(lengths, l)))
        } else {
            canonical_slot_from(lengths, b, l + 1)
        }
    }
}

/// Canonical decoding of the bits `b`: `(length, rank)` of the code they start with.
pub open spec fn canonical_slot(lengths: Seq<u8>, b: Seq<bool>) -> Option<(int, int)> {
    canonical_slot_from(lengths, b, 1)
}

pub proof fn lemma_two_pow_pos(e: nat)
    ensures
        two_pow(e) >= 1,
    decreases e,
{
    if e > 0 {
        lemma_two_pow_pos((e - 1) as nat);
    }
}

pub proof fn lemma_two_pow_add(a: nat, b: nat)
    ensures
        two_pow(a + b) == two_pow(a) * two_pow(b),
    decreases a,
{
    if a > 0 {
        let a1 = (a - 1) as nat;
        lemma_two_pow_add(a1, b);
        assert(two_pow(a + b) == 2 * two_pow(a1 + b));
        let x = two_pow(a1);
        let y = two_pow(b);
        assert(two_pow(a) == 2 * x);
        assert(2 * (x * y) == (2 * x) * y) by (nonlinear_arith);
    } else {
        assert(two_pow(0) == 1);
        assert(a + b == b);
        let y = two_pow(b);
        assert(1 * y == y) by (nonlinear_arith);
    }
}

/// `2^e` grows with `e`.
pub proof fn lemma_two_pow_mono(a: nat, b: nat)
    requires
        a <= b,
    ensures
        two_pow(a) <= two_pow(b),
{
    lemma_two_pow_add(a, (b - a) as nat);
    lemma_two_pow_pos((b - a) as nat);
    assert(two_pow(a) * two_pow((b - a) as nat) >= two_pow(a)) by (nonlinear_arith)
        requires
            two_pow((b - a) as nat) >= 1;
}

pub proof fn lemma_two_pow_15()
    ensures
        two_pow(15) == 32768,
{
    reveal_with_fuel(two_pow, 16);
}

pub proof fn lemma_len_count_bound(lengths: Seq<u8>, n: int, l: int)
    ensures
        len_count(lengths, n, l) <= if n < 0 { 0 } else { n },
    decreases n,
{
    if n > 0 {
        lemma_len_count_bound(lengths, n - 1, l);
    }
}

/// Adding one symbol adds its weight to the per-length Kraft sum.
proof fn lemma_kraft_by_len_step(lengths: Seq<u8>, n: int, m: int)
    requires
        0 <= n < lengths.len(),
        m <= 15,
    ensures
        kraft_by_len(lengths, n + 1, m) == kraft_by_len(lengths, n, m) + if 1 <= lengths[n] <= m {
            two_pow((MAX_CODE_LEN - lengths[n]) as nat)
        } else {
            0
        },
    decreases m,
{
    if m > 0 {
        lemma_kraft_by_len_step(lengths, n, m - 1);
        let w = two_pow((MAX_CODE_LEN - m) as nat);
        let c = len_count(lengths, n, m);
        if lengths[n] == m {
            assert((c + 1) * w == c * w + w) by (nonlinear_arith);
        }
    }
}

/// The Kraft sum per symbol equals the Kraft sum per length.
pub proof fn lemma_kraft_regroup(lengths: Seq<u8>, n: int)
    requires
        0 <= n <= lengths.len(),
        forall|i: int| 0 <= i < n ==> #[trigger] lengths[i] <= MAX_CODE_LEN,
    ensures
        kraft_sum(lengths, n) == kraft_by_len(lengths, n, 15),
    decreases n,
{
    if n == 0 {
        lemma_kraft_by_len_zero(lengths, 15);
    } else {
        lemma_kraft_regroup(lengths, n - 1);
        lemma_kraft_by_len_step(lengths, n - 1, 15);
    }
}

proof fn lemma_kraft_by_len_zero(lengths: Seq<u8>, m: int)
    ensures
        kraft_by_len(lengths, 0, m) == 0,
    decreases m,
{
    if m > 0 {
        lemma_kraft_by_len_zero(lengths, m - 1);
        assert(len_count(lengths, 0, m) == 0);
        let w = two_pow((MAX_CODE_LEN - m) as nat);
        assert(0 * w == 0) by (nonlinear_arith);
    }
}

/// The first code of length `l`, scaled to 15 bits, is the weight of the shorter codes.
pub proof fn lemma_first_code_weight(lengths: Seq<u8>, l: int)
    requires
        1 <= l <= 15,
    ensures
        first_code(lengths, l) * two_pow((15 - l) as nat) == kraft_by_len(lengths, lengths.len() as int, l - 1),
    decreases l,
{
    let n = lengths.len() as int;
    let w = two_pow((15 - l) as nat);
    if l > 1 {
        lemma_first_code_weight(lengths, l - 1);
        let f = first_code(lengths, l - 1);
        let c = code_count(lengths, l - 1);
        let w2 = two_pow((15 - (l - 1)) as nat);
        assert(w2 == 2 * w);
        assert(first_code(lengths, l) == 2 * (f + c));
        assert(kraft_by_len(lengths, n, l - 1) == kraft_by_len(lengths, n, l - 2) + c * w2);
        assert(f * w2 == kraft_by_len(lengths, n, l - 2));
        assert(2 * (f + c) * w == f * w2 + c * w2) by (nonlinear_arith)
            requires
                w2 == 2 * w;
    } else {
        assert(first_code(lengths, l) == 0);
        assert(0 * w == 0) by (nonlinear_arith);
    }
}

proof fn lemma_kraft_by_len_mono(lengths: Seq<u8>, n: int, a: int, b: int)
    requires
        0 <= a <= b,
    ensures
        kraft_by_len(lengths, n, a) <= kraft_by_len(lengths, n, b),
    decreases b - a,
{
    if a < b {
        lemma_kraft_by_len_mono(lengths, n, a, b - 1);
    }
}

/// In a prefix code, the codes of each length fit in that many bits.
pub proof fn lemma_codes_fit(lengths: Seq<u8>, l: int)
    requires
        valid_code_lengths(lengths),
        1 <= l <= 15,
    ensures
        first_code(lengths, l) + code_count(lengths, l) <= two_pow(l as nat),
{
    let n = lengths.len() as int;
    lemma_kraft_regroup(lengths, n);
    lemma_first_code_weight(lengths, l);
    lemma_kraft_by_len_mono(lengths, n, l, 15);
    let w = two_pow((15 - l) as nat);
    lemma_two_pow_add(l as nat, (15 - l) as nat);
    lemma_two_pow_pos((15 - l) as nat);
    let a = first_code(lengths, l) + code_count(lengths, l);
    assert(a * w == kraft_by_len(lengths, n, l)) by (nonlinear_arith)
        requires
            first_code(lengths, l) * w == kraft_by_len(lengths, n, l - 1),
            kraft_by_len(lengths, n, l) == kraft_by_len(lengths, n, l - 1) + code_count(lengths, l) * w,
            a == first_code(lengths, l) + code_count(lengths, l);
    assert(a <= two_pow(l as nat)) by (nonlinear_arith)
        requires
            a * w <= two_pow(l as nat) * w,
            w >= 1;
}

/// A longer first code starts above every code of a shorter length.
proof fn lemma_first_code_dominates(lengths: Seq<u8>, lo: int, hi: int)
    requires
        1 <= lo < hi,
    ensures
        first_code(lengths, hi) >= two_pow((hi - lo) as nat) * (first_code(lengths, lo) + code_count(lengths, lo)),
    decreases hi - lo,
{
    let f = first_code(lengths, lo);
    let c = code_count(lengths, lo);
    let p2 = two_pow((hi - lo) as nat);
    let fh = first_code(lengths, hi - 1);
    let ch = code_count(lengths, hi - 1);
    assert(first_code(lengths, hi) == 2 * (fh + ch));
    if hi - 1 > lo {
        lemma_first_code_dominates(lengths, lo, hi - 1);
        let p = two_pow((hi - 1 - lo) as nat);
        assert(p2 == 2 * p);
        assert(2 * (fh + ch) >= p2 * (f + c)) by (nonlinear_arith)
            requires
                fh >= p * (f + c),
                p2 == 2 * p,
                ch >= 0;
    } else {
        assert(p2 == 2) by {
            reveal_with_fuel(two_pow, 2);
        }
    }
}

/// The value of a prefix of bits is the value of a longer prefix with its last digits dropped.
proof fn lemma_msb_prefix(b: Seq<bool>, lo: int, hi: int)
    requires
        0 <= lo <= hi,
    ensures
        msb_value(b, lo) as int == (msb_value(b, hi) as int) / (two_pow((hi - lo) as nat) as int),
    decreases hi - lo,
{
    lemma_two_pow_pos((hi - lo) as nat);
    if hi > lo {
        lemma_msb_prefix(b, lo, hi - 1);
        let p = two_pow((hi - 1 - lo) as nat) as int;
        let v = msb_value(b, hi - 1) as int;
        let d: int = if b[hi - 1] { 1 } else { 0 };
        lemma_two_pow_pos((hi - 1 - lo) as nat);
        assert(two_pow((hi - lo) as nat) as int == 2 * p);
        assert(msb_value(b, hi) as int == 2 * v + d);
        assert((2 * v + d) / (2 * p) == v / p) by (nonlinear_arith)
            requires
                p >= 1,
                0 <= d <= 1,
                v >= 0;
    } else {
        let x = msb_value(b, hi) as int;
        assert(two_pow(0) == 1);
        assert(x / 1 == x) by (nonlinear_arith);
    }
}

/// Reading the `l` low bits of `x` in reverse order, first bit most significant, gives the
/// value of those bits.
pub proof fn lemma_msb_of_reversed(s: Seq<bool>)
    ensures
        msb_value(s.reverse(), s.len() as int) == bits_value(s),
    decreases s.len(),
{
    if s.len() > 0 {
        let t = s.drop_first();
        lemma_msb_of_reversed(t);
        let r = s.reverse();
        assert(r.take(s.len() - 1) =~= t.reverse());
        lemma_msb_take(r, s.len() - 1);
        assert(r[s.len() - 1] == s[0]);
    }
}

proof fn lemma_msb_take(b: Seq<bool>, l: int)
    requires
        0 <= l <= b.len(),
    ensures
        msb_value(b.take(l), l) == msb_value(b, l),
    decreases l,
{
    if l > 0 {
        lemma_msb_take(b, l - 1);
        assert(b.take(l).take(l - 1) =~= b.take(l - 1));
        lemma_msb_take_eq(b.take(l), b, l - 1);
    }
}

proof fn lemma_msb_take_eq(a: Seq<bool>, b: Seq<bool>, l: int)
    requires
        0 <= l,
        l <= a.len(),
        l <= b.len(),
        forall|i: int| 0 <= i < l ==> a[i] == b[i],
    ensures
        msb_value(a, l) == msb_value(b, l),
    decreases l,
{
    if l > 0 {
        lemma_msb_take_eq(a, b, l - 1);
    }
}

/// A code of length `l` is not mistaken for a code of a shorter length.
proof fn lemma_slot_skips_shorter(lengths: Seq<u8>, b: Seq<bool>, s: int, j: int)
    requires
        valid_code_lengths(lengths),
        0 <= s < lengths.len(),
        1 <= j < lengths[s] as int,
        msb_value(b, lengths[s] as int) == canonical_code(lengths, s),
    ensures
        !(first_code(lengths, j) <= msb_value(b, j) < first_code(lengths, j) + code_count(lengths, j)),
{
    let l = lengths[s] as int;
    lemma_first_code_dominates(lengths, j, l);
    lemma_rank_nonneg(lengths, s);
    lemma_msb_prefix(b, j, l);
    let p = two_pow((l - j) as nat) as int;
    lemma_two_pow_pos((l - j) as nat);
    let lower = first_code(lengths, j) + code_count(lengths, j);
    let c = canonical_code(lengths, s) as int;
    assert(c >= first_code(lengths, l));
    assert(c / p >= lower) by (nonlinear_arith)
        requires
            c >= p * lower,
            p >= 1,
            lower >= 0;
}

proof fn lemma_rank_nonneg(lengths: Seq<u8>, s: int)
    ensures
        canonical_code(lengths, s) >= first_code(lengths, lengths[s] as int),
{
}

pub proof fn lemma_rank_bound(lengths: Seq<u8>, s: int)
    requires
        0 <= s < lengths.len(),
    ensures
        code_rank(lengths, s) < code_count(lengths, lengths[s] as int),
{
    lemma_len_count_mono(lengths, s + 1, lengths.len() as int, lengths[s] as int);
}

pub proof fn lemma_len_count_mono(lengths: Seq<u8>, a: int, b: int, l: int)
    requires
        0 <= a <= b,
    ensures
        len_count(lengths, a, l) <= len_count(lengths, b, l),
    decreases b - a,
{
    if a < b {
        lemma_len_count_mono(lengths, a, b - 1, l);
    }
}

/// Decoding the canonical code of a symbol gives back its length and rank.
proof fn lemma_msb_value_prefix(a: Seq<bool>, rest: Seq<bool>, l: int)
    requires
        l <= a.len(),
    ensures
        msb_value(a + rest, l) == msb_value(a, l),
    decreases l,
{
    if l > 0 {
        lemma_msb_value_prefix(a, rest, l - 1);
        assert((a + rest)[l - 1] == a[l - 1]);
    }
}

/// The code of symbol `s` as it is written (the `lengths[s]` lowest bits of the bit-reversed
/// code, lowest first, as `build_canonical_codes` gives it), followed by any bits, decodes to
/// the slot of `s`: its length and its rank among the codes of that length.
pub proof fn law_written_code_decodes(lengths: Seq<u8>, s: int, code: u16, rest: Seq<bool>)
    requires
        valid_code_lengths(lengths),
        0 <= s < lengths.len(),
        lengths[s] >= 1,
        msb_value(low_bits(code as u64, lengths[s] as nat), lengths[s] as int) == canonical_code(lengths, s),
    ensures
        canonical_slot(lengths, low_bits(code as u64, lengths[s] as nat) + rest) == Some(
            (lengths[s] as int, code_rank(lengths, s) as int),
        ),
{
    let a = low_bits(code as u64, lengths[s] as nat);
    lemma_msb_value_prefix(a, rest, lengths[s] as int);
    law_canonical_decode(lengths, a + rest, s);
}

pub proof fn law_canonical_decode(lengths: Seq<u8>, b: Seq<bool>, s: int)
    requires
        valid_code_lengths(lengths),
        0 <= s < lengths.len(),
        lengths[s] >= 1,
        msb_value(b, lengths[s] as int) == canonical_code(lengths, s),
    ensures
        canonical_slot(lengths, b) == Some((lengths[s] as int, code_rank(lengths, s) as int)),
{
    lemma_rank_bound(lengths, s);
    lemma_slot_from(lengths, b, s, 1);
}

proof fn lemma_slot_from(lengths: Seq<u8>, b: Seq<bool>, s: int, j: int)
    requires
        valid_code_lengths(lengths),
        0 <= s < lengths.len(),
        1 <= j <= lengths[s] as int,
        msb_value(b, lengths[s] as int) == canonical_code(lengths, s),
        code_rank(lengths, s) < code_count(lengths, lengths[s] as int),
    ensures
        canonical_slot_from(lengths, b, j) == Some((lengths[s] as int, code_rank(lengths, s) as int)),
    decreases lengths[s] as int - j,
{
    assert(lengths[s] <= MAX_CODE_LEN);
    if j < lengths[s] as int {
        lemma_slot_skips_shorter(lengths, b, s, j);
        lemma_slot_from(lengths, b, s, j + 1);
    }
}

/// The canonical code of a symbol of a valid code fits in its length.
/// For a prefix code, the 16-bit first codes are the first codes.
pub proof fn lemma_first_code16(lengths: Seq<u8>, l: int)
    requires
        valid_code_lengths(lengths),
        1 <= l <= 15,
    ensures
        first_code16(lengths, l) == first_code(lengths, l),
    decreases l,
{
    if l > 1 {
        lemma_first_code16(lengths, l - 1);
        lemma_codes_fit(lengths, l - 1);
        lemma_two_pow_mono((l - 1) as nat, 14);
        reveal_with_fuel(two_pow, 15);
        let x = first_code(lengths, l - 1) + code_count(lengths, l - 1);
        assert(x * 2 < 65536);
        vstd::arithmetic::div_mod::lemma_small_mod((x * 2) as nat, 65536);
    }
}

/// A prefix code's lengths keep the 16-bit code arithmetic in range.
pub proof fn lemma_valid_fits16(lengths: Seq<u8>)
    requires
        valid_code_lengths(lengths),
    ensures
        canonical_fits16(lengths),
{
    assert forall|l: int| 1 <= l <= 15 implies #[trigger] first_code16(lengths, l) + code_count(lengths, l) <= 65535 by {
        lemma_first_code16(lengths, l);
        lemma_codes_fit(lengths, l);
        lemma_two_pow_mono(l as nat, 15);
        lemma_two_pow_15();
    }
}

pub proof fn lemma_canonical_code_fits(lengths: Seq<u8>, s: int)
    requires
        valid_code_lengths(lengths),
        0 <= s < lengths.len(),
        lengths[s] >= 1,
    ensures
        canonical_code(lengths, s) < two_pow(lengths[s] as nat),
{
    lemma_rank_bound(lengths, s);
    lemma_codes_fit(lengths, lengths[s] as int);
}

/// A number written with `n` binary digits is below `2^n`.
pub proof fn lemma_bits_value_lt_pow(s: Seq<bool>)
    ensures
        bits_value(s) < two_pow(s.len()),
    decreases s.len(),
{
    if s.len() > 0 {
        lemma_bits_value_lt_pow(s.drop_first());
    }
}

} // verus!
