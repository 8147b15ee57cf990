//! Table-based asymmetric numeral system (tANS) coding over a 1024-state table.
//!
//! Normalized frequencies sum to the table size; symbols are spread over the states by a
//! step coprime with the table size; each state carries the symbol it decodes to, how many
//! bits to read, and the base of the next state.
use vstd::prelude::*;

use crate::entropy::bitstream::{bits_value, BitReader};
use crate::entropy::canonical::{lemma_two_pow_add, lemma_two_pow_pos, two_pow};
use crate::error::CodropError;

verus! {

pub const ANS_TABLE_LOG: usize = 10;
pub const ANS_TABLE_SIZE: usize = 1024;
pub const ANS_STEP: usize = 643;

/// Sum of the first `n` entries.
pub open spec fn seq_sum(f: Seq<u16>, n: int) -> nat
    decreases n,
{
    if n <= 0 { 0 } else { seq_sum(f, n - 1) + f[n - 1] as nat }
}

/// Sum of the first `n` raw counts.
pub open spec fn count_sum(raw: Seq<u32>, n: int) -> nat
    decreases n,
{
    if n <= 0 { 0 } else { count_sum(raw, n - 1) + raw[n - 1] as nat }
}

/// Number of nonzero raw counts among the first `n`.
pub open spec fn nonzero_counts(raw: Seq<u32>, n: int) -> nat
    decreases n,
{
    if n <= 0 { 0 } else { nonzero_counts(raw, n - 1) + if raw[n - 1] > 0 { 1nat } else { 0nat } }
}

/// Index of the first nonzero raw count among the first `n`, or `n`.
pub open spec fn first_nonzero(raw: Seq<u32>, n: int) -> int
    decreases n,
{
    if n <= 0 {
        0
    } else if nonzero_counts(raw, n - 1) > 0 {
        first_nonzero(raw, n - 1)
    } else if raw[n - 1] > 0 {
        n - 1
    } else {
        n
    }
}

/// Proportional share of symbol `s`, rounded to nearest and at least one; zero for an absent
/// symbol.
pub open spec fn initial_share(raw: Seq<u32>, s: int, ts: int, total: int) -> int {
    if raw[s] == 0 {
        0
    } else {
        let a = (raw[s] * ts + total / 2) / total;
        if a < 1 { 1 } else { a }
    }
}

/// The first proportional allocation over `ms` symbols, of which the first `m` have counts.
pub open spec fn initial_norm(raw: Seq<u32>, m: int, ms: int, ts: int, total: int) -> Seq<u16> {
    Seq::new(ms as nat, |s: int| if s < m { initial_share(raw, s, ts, total) as u16 } else { 0u16 })
}

/// The first index among the first `n` holding the largest value above one.
pub open spec fn largest_above_one(norm: Seq<u16>, n: int) -> Option<int>
    decreases n,
{
    if n <= 0 {
        None
    } else {
        let b = largest_above_one(norm, n - 1);
        if norm[n - 1] > 1 && (b is None || norm[n - 1] > norm[b->0]) { Some(n - 1) } else { b }
    }
}

/// Remove `excess` units, one at a time from the largest value above one.
pub open spec fn trim_excess(norm: Seq<u16>, excess: nat) -> Seq<u16>
    decreases excess,
{
    if excess == 0 {
        norm
    } else {
        match largest_above_one(norm, norm.len() as int) {
            None => norm,
            Some(s) => trim_excess(norm.update(s, (norm[s] - 1) as u16), (excess - 1) as nat),
        }
    }
}

/// How far symbol `s` falls short of its exact share, scaled by `total`.
pub open spec fn shortfall(raw: Seq<u32>, norm: Seq<u16>, s: int, ts: int, total: int) -> int {
    raw[s] * ts - norm[s] * total
}

/// The first symbol among the first `n` with a count and the largest shortfall.
pub open spec fn largest_shortfall(raw: Seq<u32>, norm: Seq<u16>, n: int, ts: int, total: int) -> Option<int>
    decreases n,
{
    if n <= 0 {
        None
    } else {
        let b = largest_shortfall(raw, norm, n - 1, ts, total);
        if raw[n - 1] > 0 && (b is None || shortfall(raw, norm, n - 1, ts, total) > shortfall(
            raw,
            norm,
            b->0,
            ts,
            total,
        )) {
            Some(n - 1)
        } else {
            b
        }
    }
}

/// Add `deficit` units, one at a time to the symbol with the largest shortfall.
pub open spec fn fill_deficit(raw: Seq<u32>, m: int, norm: Seq<u16>, deficit: nat, ts: int, total: int) -> Seq<u16>
    decreases deficit,
{
    if deficit == 0 {
        norm
    } else {
        match largest_shortfall(raw, norm, m, ts, total) {
            None => norm,
            Some(s) => fill_deficit(raw, m, norm.update(s, (norm[s] + 1) as u16), (deficit - 1) as nat, ts, total),
        }
    }
}

/// Normalized frequencies of `raw` over `ms` symbols for a table of `ts` states.
pub open spec fn spec_normalize(raw: Seq<u32>, ms: int, ts: int) -> Seq<u16> {
    let m = if ms < raw.len() { ms } else { raw.len() as int };
    let total = count_sum(raw, m) as int;
    let zeros = Seq::new(ms as nat, |s: int| 0u16);
    if total == 0 {
        zeros
    } else if nonzero_counts(raw, m) == 1 {
        zeros.update(first_nonzero(raw, m), ts as u16)
    } else {
        let n0 = initial_norm(raw, m, ms, ts, total);
        let s0 = seq_sum(n0, ms);
        if s0 > ts {
            trim_excess(n0, (s0 - ts) as nat)
        } else {
            fill_deficit(raw, m, n0, (ts - s0) as nat, ts, total)
        }
    }
}

proof fn lemma_seq_sum_update(f: Seq<u16>, i: int, v: u16, n: int)
    requires
        0 <= i < f.len(),
        0 <= n <= f.len(),
    ensures
        seq_sum(f.update(i, v), n) + (if i < n { f[i] as int } else { 0 }) == seq_sum(f, n) + (if i < n {
            v as int
        } else {
            0
        }),
    decreases n,
{
    if n > 0 {
        lemma_seq_sum_update(f, i, v, n - 1);
    }
}

proof fn lemma_count_sum_bound(raw: Seq<u32>, n: int)
    requires
        0 <= n <= raw.len(),
    ensures
        count_sum(raw, n) <= n * 0xFFFF_FFFF,
        nonzero_counts(raw, n) <= n,
    decreases n,
{
    if n > 0 {
        lemma_count_sum_bound(raw, n - 1);
    }
}

proof fn lemma_count_positive(raw: Seq<u32>, n: int, s: int)
    requires
        0 <= s < n <= raw.len(),
    ensures
        raw[s] as nat <= count_sum(raw, n),
        raw[s] > 0 ==> nonzero_counts(raw, n) >= 1,
    decreases n,
{
    if n - 1 > s {
        lemma_count_positive(raw, n - 1, s);
    }
}

proof fn lemma_first_nonzero(raw: Seq<u32>, n: int)
    requires
        0 <= n <= raw.len(),
        nonzero_counts(raw, n) == 1,
    ensures
        0 <= first_nonzero(raw, n) < n,
        raw[first_nonzero(raw, n)] > 0,
        forall|t: int| 0 <= t < n && t != first_nonzero(raw, n) ==> raw[t] == 0,
    decreases n,
{
    if nonzero_counts(raw, n - 1) > 0 {
        lemma_first_nonzero(raw, n - 1);
    } else {
        lemma_no_nonzero(raw, n - 1);
    }
}

proof fn lemma_no_nonzero(raw: Seq<u32>, n: int)
    requires
        0 <= n <= raw.len(),
        nonzero_counts(raw, n) == 0,
    ensures
        forall|t: int| 0 <= t < n ==> raw[t] == 0,
    decreases n,
{
    if n > 0 {
        lemma_no_nonzero(raw, n - 1);
    }
}

proof fn lemma_all_zero_counts(raw: Seq<u32>, n: int)
    requires
        0 <= n <= raw.len(),
        forall|t: int| 0 <= t < n ==> raw[t] == 0,
    ensures
        nonzero_counts(raw, n) == 0,
        count_sum(raw, n) == 0,
    decreases n,
{
    if n > 0 {
        lemma_all_zero_counts(raw, n - 1);
    }
}

proof fn lemma_nonzero_none(raw: Seq<u32>, n: int)
    requires
        0 <= n <= raw.len(),
        nonzero_counts(raw, n) == 0,
    ensures
        forall|t: int| 0 <= t < n ==> raw[t] == 0,
        count_sum(raw, n) == 0,
    decreases n,
{
    if n > 0 {
        lemma_nonzero_none(raw, n - 1);
    }
}

proof fn lemma_largest_shortfall_none(raw: Seq<u32>, norm: Seq<u16>, n: int, ts: int, total: int)
    requires
        0 <= n <= raw.len(),
        largest_shortfall(raw, norm, n, ts, total) is None,
    ensures
        forall|t: int| 0 <= t < n ==> raw[t] == 0,
    decreases n,
{
    if n > 0 {
        lemma_largest_shortfall_none(raw, norm, n - 1, ts, total);
    }
}

proof fn lemma_largest_above_one_none(norm: Seq<u16>, n: int)
    requires
        0 <= n <= norm.len(),
        largest_above_one(norm, n) is None,
    ensures
        forall|t: int| 0 <= t < n ==> norm[t] <= 1,
    decreases n,
{
    if n > 0 {
        lemma_largest_above_one_none(norm, n - 1);
    }
}

proof fn lemma_sum_of_ones(raw: Seq<u32>, norm: Seq<u16>, m: int, n: int)
    requires
        0 <= n <= norm.len(),
        m <= raw.len(),
        0 <= m,
        forall|t: int| 0 <= t < norm.len() ==> norm[t] <= 1,
        forall|t: int| 0 <= t < norm.len() ==> (#[trigger] norm[t] > 0 <==> (t < m && raw[t] > 0)),
        m <= norm.len(),
    ensures
        seq_sum(norm, n) == nonzero_counts(raw, if n < m { n } else { m }),
    decreases n,
{
    if n > 0 {
        lemma_sum_of_ones(raw, norm, m, n - 1);
    }
}

pub proof fn lemma_entry_le_sum(f: Seq<u16>, i: int, n: int)
    requires
        0 <= i < n <= f.len(),
    ensures
        f[i] <= seq_sum(f, n),
    decreases n,
{
    if n - 1 > i {
        lemma_entry_le_sum(f, i, n - 1);
    }
}

/// Normalizes raw frequency counts to sum exactly to `table_size`.
///
/// Every symbol with a count receives at least one state, symbols without a count receive
/// none, and the frequencies sum to `table_size` whenever there are at most `table_size`
/// symbols with a count. The 32-bit counts of the first `max_symbols` symbols are summed in 64
/// bits, as are their shares of at most `0xFFFF` each; at most 2^32 - 1 symbols keep both sums
/// in range.
pub fn normalize_frequencies(raw_counts: &[u32], max_symbols: usize, table_size: usize) -> (r: Vec<u16>)
    requires
        max_symbols <= 0xFFFF_FFFF,
        table_size <= 0xFFFF,
    ensures
        r@ == spec_normalize(raw_counts@, max_symbols as int, table_size as int),
        r@.len() == max_symbols,
        table_size >= 1 ==> forall|s: int| 0 <= s < max_symbols ==> (#[trigger] r@[s] > 0 <==> (s < raw_counts@.len()
            && raw_counts@[s] > 0)),
        ({
            let m = if max_symbols < raw_counts@.len() { max_symbols as int } else { raw_counts@.len() as int };
            1 <= nonzero_counts(raw_counts@, m) <= table_size ==> seq_sum(r@, max_symbols as int) == table_size
        }),
{
    let n = raw_counts.len();
    let m = if max_symbols < n { max_symbols } else { n };
    let ghost raw = raw_counts@;
    let ghost spec = spec_normalize(raw, max_symbols as int, table_size as int);
    let ghost ts = table_size as int;
    let mut norm: Vec<u16> = Vec::new();
    let mut k: usize = 0;
    while k < max_symbols
        invariant
            k <= max_symbols,
            norm@.len() == k,
            forall|j: int| 0 <= j < k ==> #[trigger] norm@[j] == 0,
        decreases max_symbols - k,
    {
        norm.push(0);
        k = k + 1;
    }
    assert(norm@ =~= Seq::new(max_symbols as nat, |s: int| 0u16));
    let mut total: u64 = 0;
    let mut nonzero: usize = 0;
    let mut i: usize = 0;
    while i < m
        invariant
            i <= m,
            m <= n,
            n == raw.len(),
            raw == raw_counts@,
            m <= 0xFFFF_FFFF,
            total == count_sum(raw, i as int),
            nonzero == nonzero_counts(raw, i as int),
        decreases m - i,
    {
        proof {
            lemma_count_sum_bound(raw, i as int);
        }
        total = total + raw_counts[i] as u64;
        if raw_counts[i] > 0 {
            nonzero = nonzero + 1;
        }
        i = i + 1;
    }
    proof {
        lemma_count_sum_bound(raw, m as int);
    }
    if total == 0 {
        proof {
            assert forall|s: int| 0 <= s < m implies raw[s] == 0 by {
                lemma_count_positive(raw, m as int, s);
            }
            lemma_all_zero_counts(raw, m as int);
        }
        return norm;
    }
    if nonzero == 1 {
        proof {
            lemma_first_nonzero(raw, m as int);
        }
        let mut s: usize = 0;
        while s < m
            invariant
                s <= m,
                m <= n,
                n == raw.len(),
                raw == raw_counts@,
                table_size <= 0xFFFF,
            ts == table_size as int,
            spec == spec_normalize(raw, max_symbols as int, ts),
                ts == table_size as int,
                spec == spec_normalize(raw, max_symbols as int, ts),
                nonzero_counts(raw, m as int) == 1,
                count_sum(raw, m as int) > 0,
                m as int == (if max_symbols < raw.len() { max_symbols as int } else { raw.len() as int }),
                0 <= first_nonzero(raw, m as int) < m,
                raw[first_nonzero(raw, m as int)] > 0,
                forall|t: int| 0 <= t < m && t != first_nonzero(raw, m as int) ==> raw[t] == 0,
                norm@ == Seq::new(max_symbols as nat, |t: int| 0u16),
                max_symbols >= m,
                s <= first_nonzero(raw, m as int),
            decreases m - s,
        {
            if raw_counts[s] > 0 {
                assert(s as int == first_nonzero(raw, m as int));
                norm.set(s, table_size as u16);
                proof {
                    assert(count_sum(raw, m as int) != 0);
                    assert(spec == Seq::new(max_symbols as nat, |t: int| 0u16).update(s as int, table_size as u16));
                    assert forall|t: int| 0 <= t < max_symbols implies (#[trigger] norm@[t] > 0 <==> (t < raw_counts@.len()
                        && raw_counts@[t] > 0)) || table_size == 0 by {
                        if t == s as int {
                            assert(norm@[t] == table_size as u16);
                        } else if t < m {
                            assert(raw[t] == 0);
                            assert(norm@[t] == 0);
                        } else {
                            assert(norm@[t] == 0);
                        }
                    }
                    lemma_seq_sum_zero_update(max_symbols as int, s as int, table_size as u16);
                }
                return norm;
            }
            s = s + 1;
        }
        return norm;
    }
    // Proportional allocation.
    let mut sum: u64 = 0;
    let mut s: usize = 0;
    let ghost total_i = total as int;
    while s < m
        invariant
            s <= m,
            m <= n,
            m <= max_symbols,
            n == raw.len(),
            raw == raw_counts@,
            total as int == total_i,
            total_i == count_sum(raw, m as int),
            total_i >= 1,
            total_i <= 0xFFFF_FFFF * 0xFFFF_FFFF,
            table_size <= 0xFFFF,
            ts == table_size as int,
            spec == spec_normalize(raw, max_symbols as int, ts),
            max_symbols <= 0xFFFF_FFFF,
            norm@.len() == max_symbols,
            forall|t: int| 0 <= t < s ==> #[trigger] norm@[t] == initial_share(raw, t, ts, total_i) as u16,
            forall|t: int| 0 <= t < s ==> 0 <= #[trigger] initial_share(raw, t, ts, total_i) <= 0xFFFF,
            forall|t: int| 0 <= t < s ==> (#[trigger] initial_share(raw, t, ts, total_i) > 0 <==> raw[t] > 0),
            forall|t: int| s <= t < max_symbols ==> #[trigger] norm@[t] == 0,
            sum == seq_sum(norm@, s as int),
            sum <= s * 0xFFFF,
        decreases m - s,
    {
        let c = raw_counts[s];
        if c > 0 {
            proof {
                lemma_count_positive(raw, m as int, s as int);
                assert((c as int) * (table_size as int) <= 0xFFFF_FFFF * 0xFFFF) by (nonlinear_arith)
                    requires
                        c <= 0xFFFF_FFFF,
                        table_size <= 0xFFFF;
                assert(((c as int) * (table_size as int) + total_i / 2) / total_i <= 0xFFFF) by (nonlinear_arith)
                    requires
                        c as int <= total_i,
                        total_i >= 1,
                        table_size <= 0xFFFF;
            }
            let a = ((c as u64) * (table_size as u64) + total / 2) / total;
            let allocated: u64 = if a < 1 { 1 } else { a };
            assert(initial_share(raw, s as int, ts, total_i) == allocated as int);
            let ghost before = norm@;
            norm.set(s, allocated as u16);
            proof {
                lemma_seq_sum_update(before, s as int, allocated as u16, s + 1);
                lemma_seq_sum_prefix(before, norm@, s as int);
            }
            sum = sum + allocated;
        } else {
            assert(initial_share(raw, s as int, ts, total_i) == 0);
            assert(norm@[s as int] == 0);
        }
        s = s + 1;
    }
    proof {
        assert(norm@ =~= initial_norm(raw, m as int, max_symbols as int, ts, total_i));
        lemma_seq_sum_zero_tail(norm@, m as int, max_symbols as int);
    }
    let ghost n0 = norm@;
    proof {
        if nonzero_counts(raw, m as int) == 0 {
            lemma_nonzero_none(raw, m as int);
        }
        assert(nonzero_counts(raw, m as int) >= 2);
        assert(seq_sum(n0, max_symbols as int) == sum);
        assert forall|t: int| 0 <= t < max_symbols implies (#[trigger] n0[t] > 0 <==> (t < m && raw[t] > 0)) by {
            if t < m {
                assert(n0[t] == initial_share(raw, t, ts, total_i) as u16);
            }
        }
    }
    if sum > table_size as u64 {
        assert(spec == trim_excess(n0, (sum - ts) as nat));
        let mut excess: u64 = sum - table_size as u64;
        while excess > 0
            invariant
                norm@.len() == max_symbols,
                m <= max_symbols,
                m <= n,
                n == raw.len(),
                table_size <= 0xFFFF,
            ts == table_size as int,
            spec == spec_normalize(raw, max_symbols as int, ts),
                ts == table_size as int,
                spec == spec_normalize(raw, max_symbols as int, ts),
                excess as int == seq_sum(norm@, max_symbols as int) - ts,
                trim_excess(norm@, excess as nat) == spec,
                forall|t: int| 0 <= t < max_symbols ==> (#[trigger] norm@[t] > 0 <==> (t < m && raw[t] > 0)),
            ensures
                norm@ == spec,
                seq_sum(norm@, max_symbols as int) == ts || nonzero_counts(raw, m as int) > ts,
                forall|t: int| 0 <= t < max_symbols ==> (#[trigger] norm@[t] > 0 <==> (t < m && raw[t] > 0)),
            decreases excess,
        {
            let mut best: usize = 0;
            let mut best_val: u16 = 1;
            let mut found = false;
            let mut t: usize = 0;
            while t < norm.len()
                invariant
                    t <= norm@.len(),
                    largest_above_one(norm@, t as int) == if found { Some(best as int) } else { None },
                    found ==> best < t && best_val == norm@[best as int] && best_val > 1,
                    !found ==> best_val == 1,
                decreases norm@.len() - t,
            {
                if norm[t] > best_val {
                    best_val = norm[t];
                    best = t;
                    found = true;
                }
                t = t + 1;
            }
            if !found {
                proof {
                    assert(trim_excess(norm@, excess as nat) == norm@);
                    lemma_largest_above_one_none(norm@, norm@.len() as int);
                    lemma_sum_of_ones(raw, norm@, m as int, max_symbols as int);
                }
                break;
            }
            let ghost before = norm@;
            let v = norm[best];
            norm.set(best, v - 1);
            proof {
                lemma_seq_sum_update(before, best as int, (v - 1) as u16, max_symbols as int);
            }
            excess = excess - 1;
        }
    } else if sum < table_size as u64 {
        assert(spec == fill_deficit(raw, m as int, n0, (ts - sum) as nat, ts, total_i));
        let mut deficit: u64 = table_size as u64 - sum;
        while deficit > 0
            invariant
                norm@.len() == max_symbols,
                m <= max_symbols,
                m <= n,
                n == raw.len(),
                raw == raw_counts@,
                table_size <= 0xFFFF,
            ts == table_size as int,
            spec == spec_normalize(raw, max_symbols as int, ts),
                ts == table_size as int,
                spec == spec_normalize(raw, max_symbols as int, ts),
                total as int == total_i,
                total_i <= 0xFFFF_FFFF * 0xFFFF_FFFF,
                nonzero_counts(raw, m as int) >= 2,
                deficit as int == ts - seq_sum(norm@, max_symbols as int),
                fill_deficit(raw, m as int, norm@, deficit as nat, ts, total_i) == spec,
                forall|t: int| 0 <= t < max_symbols ==> (#[trigger] norm@[t] > 0 <==> (t < m && raw[t] > 0)),
            ensures
                norm@ == spec,
                seq_sum(norm@, max_symbols as int) == ts,
                forall|t: int| 0 <= t < max_symbols ==> (#[trigger] norm@[t] > 0 <==> (t < m && raw[t] > 0)),
            decreases deficit,
        {
            let mut best: usize = 0;
            let mut best_score: i128 = 0;
            let mut found = false;
            let mut t: usize = 0;
            while t < m
                invariant
                    t <= m,
                    m <= max_symbols,
                    m <= n,
                    n == raw.len(),
                    raw == raw_counts@,
                    table_size <= 0xFFFF,
                    ts == table_size as int,
            ts == table_size as int,
            spec == spec_normalize(raw, max_symbols as int, ts),
                ts == table_size as int,
                spec == spec_normalize(raw, max_symbols as int, ts),
                    total as int == total_i,
                    total_i <= 0xFFFF_FFFF * 0xFFFF_FFFF,
                    norm@.len() == max_symbols,
                    largest_shortfall(raw, norm@, t as int, ts, total_i) == if found { Some(best as int) } else { None },
                    found ==> best < t && best_score == shortfall(raw, norm@, best as int, ts, total_i),
                    found ==> raw[best as int] > 0,
                decreases m - t,
            {
                let c = raw_counts[t];
                if c > 0 {
                    let nv = norm[t];
                    proof {
                        assert((c as int) * (table_size as int) <= 0xFFFF_FFFF * 0xFFFF) by (nonlinear_arith)
                            requires
                                c <= 0xFFFF_FFFF,
                                table_size <= 0xFFFF;
                        assert((nv as int) * total_i <= 0xFFFF * (0xFFFF_FFFF * 0xFFFF_FFFF)) by (nonlinear_arith)
                            requires
                                nv <= 0xFFFF,
                                0 <= total_i <= 0xFFFF_FFFF * 0xFFFF_FFFF;
                    }
                    let score = (c as i128) * (table_size as i128) - (nv as i128) * (total as i128);
                    assert(score == shortfall(raw, norm@, t as int, ts, total_i));
                    if !found || score > best_score {
                        best_score = score;
                        best = t;
                        found = true;
                    }
                }
                t = t + 1;
            }
            if !found {
                proof {
                    lemma_largest_shortfall_none(raw, norm@, m as int, ts, total_i);
                    lemma_all_zero_counts(raw, m as int);
                }
                break;
            }
            let ghost before = norm@;
            let v = norm[best];
            proof {
                lemma_entry_le_sum(norm@, best as int, max_symbols as int);
            }
            assert(v < 0xFFFF);
            norm.set(best, v + 1);
            proof {
                lemma_seq_sum_update(before, best as int, (v + 1) as u16, max_symbols as int);
            }
            deficit = deficit - 1;
        }
    } else {
        assert(spec == fill_deficit(raw, m as int, n0, 0, ts, total_i));
    }
    norm
}

proof fn lemma_seq_sum_prefix(a: Seq<u16>, b: Seq<u16>, n: int)
    requires
        0 <= n <= a.len(),
        n <= b.len(),
        forall|i: int| 0 <= i < n ==> a[i] == b[i],
    ensures
        seq_sum(a, n) == seq_sum(b, n),
    decreases n,
{
    if n > 0 {
        lemma_seq_sum_prefix(a, b, n - 1);
    }
}

proof fn lemma_seq_sum_zero_tail(f: Seq<u16>, m: int, n: int)
    requires
        0 <= m <= n <= f.len(),
        forall|i: int| m <= i < f.len() ==> #[trigger] f[i] == 0,
    ensures
        seq_sum(f, n) == seq_sum(f, m),
    decreases n - m,
{
    if n > m {
        lemma_seq_sum_zero_tail(f, m, n - 1);
    }
}

proof fn lemma_seq_sum_zero_update(ms: int, s: int, v: u16)
    requires
        0 <= s < ms,
    ensures
        seq_sum(Seq::new(ms as nat, |t: int| 0u16).update(s, v), ms) == v,
{
    let z = Seq::new(ms as nat, |t: int| 0u16);
    lemma_seq_sum_update(z, s, v, ms);
    lemma_seq_sum_zeros(z, ms);
}

proof fn lemma_seq_sum_zeros(z: Seq<u16>, n: int)
    requires
        0 <= n <= z.len(),
        forall|i: int| 0 <= i < z.len() ==> #[trigger] z[i] == 0,
    ensures
        seq_sum(z, n) == 0,
    decreases n,
{
    if n > 0 {
        lemma_seq_sum_zeros(z, n - 1);
    }
}

/// Position of the `k`-th placed symbol in the spread table.
pub open spec fn spread_pos(k: int) -> int {
    (k * 643) % 1024
}

/// Placement order of position `p` (the inverse of `spread_pos`, as 43 * 643 = 1 mod 1024).
pub open spec fn spread_order(p: int) -> int {
    (p * 43) % 1024
}

/// Index of the symbol whose block of placements holds placement `k`, searching from `s`.
pub open spec fn symbol_at_from(f: Seq<u16>, k: int, s: int) -> int
    decreases f.len() - s,
{
    if s < 0 || s >= f.len() {
        f.len() as int
    } else if k < seq_sum(f, s + 1) {
        s
    } else {
        symbol_at_from(f, k, s + 1)
    }
}

/// The symbol of placement `k`: symbols are placed in index order, `f[s]` times each.
pub open spec fn symbol_at(f: Seq<u16>, k: int) -> int {
    symbol_at_from(f, k, 0)
}

/// The spread table of `f` over 1024 states; unfilled states hold `u16::MAX`.
pub open spec fn spec_spread(f: Seq<u16>) -> Seq<u16> {
    Seq::new(
        1024,
        |p: int|
            if spread_order(p) < seq_sum(f, f.len() as int) {
                symbol_at(f, spread_order(p)) as u16
            } else {
                u16::MAX
            },
    )
}

proof fn lemma_mod_inverse(x: int, a: int, b: int)
    requires
        0 <= x < 1024,
        a * b == 27 * 1024 + 1,
        a >= 0,
        b >= 0,
    ensures
        0 <= (x * a) % 1024 < 1024,
        (((x * a) % 1024) * b) % 1024 == x,
{
    vstd::arithmetic::div_mod::lemma_mod_pos_bound(x * a, 1024);
    vstd::arithmetic::div_mod::lemma_mul_mod_noop_left(x * a, b, 1024);
    assert((x * a) * b == 1024 * (27 * x) + x) by (nonlinear_arith)
        requires
            a * b == 27 * 1024 + 1;
    vstd::arithmetic::div_mod::lemma_mod_multiples_vanish(27 * x, x, 1024);
    vstd::arithmetic::div_mod::lemma_small_mod(x as nat, 1024);
}

proof fn lemma_spread_inverse(k: int)
    requires
        0 <= k < 1024,
    ensures
        0 <= spread_pos(k) < 1024,
        spread_order(spread_pos(k)) == k,
        0 <= spread_order(k) < 1024,
        spread_pos(spread_order(k)) == k,
{
    lemma_mod_inverse(k, 643, 43);
    lemma_mod_inverse(k, 43, 643);
}

proof fn lemma_seq_sum_mono(f: Seq<u16>, a: int, b: int)
    requires
        0 <= a <= b <= f.len(),
    ensures
        seq_sum(f, a) <= seq_sum(f, b),
    decreases b - a,
{
    if a < b {
        lemma_seq_sum_mono(f, a, b - 1);
    }
}

proof fn lemma_symbol_at(f: Seq<u16>, k: int, s: int, from: int)
    requires
        0 <= from <= s < f.len(),
        seq_sum(f, s) <= k < seq_sum(f, s + 1),
    ensures
        symbol_at_from(f, k, from) == s,
    decreases s - from,
{
    if from < s {
        lemma_seq_sum_mono(f, from + 1, s);
        lemma_symbol_at(f, k, s, from + 1);
    }
}

/// Position of the `k`-th placement in a spread table of `t` states.
pub open spec fn spread_pos_in(k: int, t: int) -> int {
    (k * 643) % t
}

/// Placement order of state `p` in a spread table of `t` states, `t` a divisor of 65536 (the
/// inverse of `spread_pos_in`, as 56363 * 643 = 1 mod 65536).
pub open spec fn spread_order_in(p: int, t: int) -> int {
    (p * 56363) % t
}

/// The spread table of `f` over `t` states; unfilled states hold `u16::MAX`.
pub open spec fn spec_spread_in(f: Seq<u16>, t: int) -> Seq<u16> {
    Seq::new(
        t as nat,
        |p: int|
            if spread_order_in(p, t) < seq_sum(f, f.len() as int) {
                symbol_at(f, spread_order_in(p, t)) as u16
            } else {
                u16::MAX
            },
    )
}

/// The spread table of `t` states after `k` placements, at state `p`.
pub open spec fn spread_partial_in(f: Seq<u16>, k: int, p: int, t: int) -> u16 {
    if spread_order_in(p, t) < k { symbol_at(f, spread_order_in(p, t)) as u16 } else { u16::MAX }
}

proof fn lemma_mod_inverse_in(x: int, a: int, b: int, c: int, t: int)
    requires
        0 <= x < t,
        t > 0,
        65536int % t == 0,
        a * b == c * 65536 + 1,
        a >= 0,
        b >= 0,
        c >= 0,
    ensures
        0 <= (x * a) % t < t,
        (((x * a) % t) * b) % t == x,
{
    let q = 65536int / t;
    vstd::arithmetic::div_mod::lemma_fundamental_div_mod(65536, t);
    assert(65536 == t * q);
    vstd::arithmetic::div_mod::lemma_mod_pos_bound(x * a, t);
    vstd::arithmetic::div_mod::lemma_mul_mod_noop_left(x * a, b, t);
    assert((x * a) * b == t * (x * c * q) + x) by (nonlinear_arith)
        requires
            a * b == c * 65536 + 1,
            65536 == t * q;
    vstd::arithmetic::div_mod::lemma_mod_multiples_vanish(x * c * q, x, t);
    vstd::arithmetic::div_mod::lemma_small_mod(x as nat, t as nat);
}

proof fn lemma_spread_inverse_in(k: int, t: int)
    requires
        0 <= k < t,
        65536int % t == 0,
    ensures
        0 <= spread_pos_in(k, t) < t,
        spread_order_in(spread_pos_in(k, t), t) == k,
        0 <= spread_order_in(k, t) < t,
        spread_pos_in(spread_order_in(k, t), t) == k,
{
    lemma_mod_inverse_in(k, 643, 56363, 553, t);
    lemma_mod_inverse_in(k, 56363, 643, 553, t);
}

proof fn lemma_spread_step_in(k: int, t: int)
    requires
        0 <= k,
        t > 0,
    ensures
        (spread_pos_in(k, t) + 643) % t == spread_pos_in(k + 1, t),
{
    vstd::arithmetic::div_mod::lemma_add_mod_noop(k * 643, 643, t);
    vstd::arithmetic::div_mod::lemma_add_mod_noop_right((k * 643) % t, 643, t);
    assert((k + 1) * 643 == k * 643 + 643) by (nonlinear_arith);
}

proof fn lemma_spread_place_in(f: Seq<u16>, before: Seq<u16>, after: Seq<u16>, k: int, s: int, t: int)
    requires
        0 <= k < t,
        65536int % t == 0,
        before.len() == t,
        forall|p: int| 0 <= p < t ==> #[trigger] before[p] == spread_partial_in(f, k, p, t),
        symbol_at(f, k) == s,
        after == before.update(spread_pos_in(k, t), s as u16),
    ensures
        forall|p: int| 0 <= p < t ==> #[trigger] after[p] == spread_partial_in(f, k + 1, p, t),
{
    lemma_spread_inverse_in(k, t);
    assert forall|p: int| 0 <= p < t implies #[trigger] after[p] == spread_partial_in(f, k + 1, p, t) by {
        lemma_spread_inverse_in(p, t);
        if p != spread_pos_in(k, t) {
            assert(spread_order_in(p, t) != k);
            assert(after[p] == before[p]);
        }
    }
}

/// The spread table over 1024 states is the one `spec_spread` describes.
proof fn lemma_spread_in_1024(f: Seq<u16>)
    ensures
        spec_spread_in(f, 1024) == spec_spread(f),
{
    assert forall|p: int| 0 <= p < 1024 implies #[trigger] spread_order_in(p, 1024) == spread_order(p) by {
        assert(p * 56363 == 1024 * (55 * p) + p * 43) by (nonlinear_arith);
        vstd::arithmetic::div_mod::lemma_mod_multiples_vanish(55 * p, p * 43, 1024);
    }
    assert(spec_spread_in(f, 1024) =~= spec_spread(f));
}

/// Spreads the symbols of `norm_freq` over the `table_size` table states: the `k`-th
/// placement goes to state `k * 643 mod table_size`, placements going through the symbols in
/// index order. The table size is a power of two up to 65536 (a divisor of 65536), and 643 is
/// odd, so every placement lands on a state of its own.
pub fn spread_symbols(norm_freq: &[u16], table_size: usize) -> (r: Vec<u16>)
    requires
        0 < table_size <= 65536,
        65536int % (table_size as int) == 0,
        norm_freq@.len() <= 0xFFFF,
        seq_sum(norm_freq@, norm_freq@.len() as int) <= table_size,
    ensures
        r@ == spec_spread_in(norm_freq@, table_size as int),
        table_size == ANS_TABLE_SIZE ==> r@ == spec_spread(norm_freq@),
{
    let ghost f = norm_freq@;
    let ghost total = seq_sum(f, f.len() as int);
    let ghost t = table_size as int;
    let mut table: Vec<u16> = Vec::new();
    let mut q: usize = 0;
    while q < table_size
        invariant
            q <= table_size,
            table@.len() == q,
            forall|p: int| 0 <= p < q ==> #[trigger] table@[p] == u16::MAX,
        decreases table_size - q,
    {
        table.push(u16::MAX);
        q = q + 1;
    }
    assert forall|p: int| 0 <= p < t implies #[trigger] table@[p] == spread_partial_in(f, 0, p, t) by {
        lemma_spread_inverse_in(p, t);
    }
    let mut pos: usize = 0;
    let mut k: usize = 0;
    let mut s: usize = 0;
    while s < norm_freq.len()
        invariant
            s <= f.len(),
            f == norm_freq@,
            t == table_size,
            0 < t <= 65536,
            65536int % t == 0,
            pos < t,
            f.len() <= 0xFFFF,
            total == seq_sum(f, f.len() as int),
            total <= t,
            table@.len() == t,
            k == seq_sum(f, s as int),
            k <= total,
            pos == spread_pos_in(k as int, t),
            forall|p: int| 0 <= p < t ==> #[trigger] table@[p] == spread_partial_in(f, k as int, p, t),
        decreases f.len() - s,
    {
        let c = norm_freq[s];
        let mut i: u16 = 0;
        proof {
            lemma_seq_sum_mono(f, s + 1, f.len() as int);
        }
        while i < c
            invariant
                i <= c,
                c == f[s as int],
                s < f.len(),
                t == table_size,
                0 < t <= 65536,
                65536int % t == 0,
                pos < t,
                f.len() <= 0xFFFF,
                total <= t,
                seq_sum(f, s + 1) <= total,
                table@.len() == t,
                k == seq_sum(f, s as int) + i,
                pos == spread_pos_in(k as int, t),
                forall|p: int| 0 <= p < t ==> #[trigger] table@[p] == spread_partial_in(f, k as int, p, t),
            decreases c - i,
        {
            proof {
                lemma_spread_inverse_in(k as int, t);
                lemma_symbol_at(f, k as int, s as int, 0);
            }
            let ghost before = table@;
            table.set(pos, s as u16);
            proof {
                lemma_spread_place_in(f, before, table@, k as int, s as int, t);
                lemma_spread_step_in(k as int, t);
            }
            pos = (pos + ANS_STEP) % table_size;
            k = k + 1;
            i = i + 1;
        }
        s = s + 1;
    }
    proof {
        assert(table@ =~= spec_spread_in(f, t));
        if table_size == ANS_TABLE_SIZE {
            lemma_spread_in_1024(f);
        }
    }
    table
}

/// Number of states before `i` that hold `v`.
pub open spec fn occ_before(sp: Seq<u16>, i: int, v: u16) -> nat
    decreases i,
{
    if i <= 0 { 0 } else { occ_before(sp, i - 1, v) + if sp[i - 1] == v { 1nat } else { 0nat } }
}

proof fn lemma_occ_set(sp: Seq<u16>, i: int, v: u16)
    requires
        0 <= i <= sp.len(),
    ensures
        Set::new(|p: int| 0 <= p < i && sp[p] == v).finite(),
        Set::new(|p: int| 0 <= p < i && sp[p] == v).len() == occ_before(sp, i, v),
    decreases i,
{
    let st = Set::new(|p: int| 0 <= p < i && sp[p] == v);
    if i == 0 {
        assert(st =~= Set::<int>::empty());
    } else {
        lemma_occ_set(sp, i - 1, v);
        let prev = Set::new(|p: int| 0 <= p < i - 1 && sp[p] == v);
        if sp[i - 1] == v {
            assert(st =~= prev.insert(i - 1));
        } else {
            assert(st =~= prev);
        }
    }
}

proof fn lemma_occ_mono(sp: Seq<u16>, a: int, b: int, v: u16)
    requires
        0 <= a <= b <= sp.len(),
    ensures
        occ_before(sp, a, v) <= occ_before(sp, b, v),
    decreases b - a,
{
    if a < b {
        lemma_occ_mono(sp, a, b - 1, v);
    }
}

/// The symbol of a placement within the total lies in the table and its block holds the
/// placement.
proof fn lemma_symbol_at_block(f: Seq<u16>, k: int, from: int)
    requires
        0 <= from < f.len(),
        seq_sum(f, from) <= k < seq_sum(f, f.len() as int),
    ensures
        from <= symbol_at_from(f, k, from) < f.len(),
        seq_sum(f, symbol_at_from(f, k, from)) <= k < seq_sum(f, symbol_at_from(f, k, from) + 1),
    decreases f.len() - from,
{
    if k >= seq_sum(f, from + 1) {
        if from + 1 == f.len() {
            assert(false);
        }
        lemma_symbol_at_block(f, k, from + 1);
    }
}

/// In a spread of frequencies summing to the table size, symbol `s` occupies `f[s]` states.
proof fn lemma_spread_counts(f: Seq<u16>, s: int)
    requires
        seq_sum(f, f.len() as int) == 1024,
        0 <= s < f.len(),
        f.len() <= 0xFFFF,
    ensures
        occ_before(spec_spread(f), 1024, s as u16) == f[s],
{
    let sp = spec_spread(f);
    let lo = seq_sum(f, s) as int;
    let hi = seq_sum(f, s + 1) as int;
    lemma_seq_sum_mono(f, s + 1, f.len() as int);
    let ps = Set::new(|p: int| 0 <= p < 1024 && sp[p] == s as u16);
    let ks = vstd::set_lib::set_int_range(lo, hi);
    assert forall|p: int| 0 <= p < 1024 implies (sp[p] == s as u16 <==> lo <= #[trigger] spread_order(p) < hi) by {
        lemma_spread_inverse(p);
        lemma_symbol_at_block(f, spread_order(p), 0);
        let r = symbol_at(f, spread_order(p));
        if lo <= spread_order(p) < hi {
            lemma_symbol_at(f, spread_order(p), s, 0);
        }
        if r != s {
            if r < s {
                lemma_seq_sum_mono(f, r + 1, s);
            } else {
                lemma_seq_sum_mono(f, s + 1, r);
            }
        }
    }
    assert(ps.map(|p: int| spread_order(p)) =~= ks) by {
        assert forall|k: int| #[trigger] ks.contains(k) implies ps.map(|p: int| spread_order(p)).contains(k) by {
            lemma_spread_inverse(k);
            assert(ps.contains(spread_pos(k)));
        }
    }
    assert(vstd::relations::injective_on(|p: int| spread_order(p), ps)) by {
        assert forall|p1: int, p2: int| ps.contains(p1) && ps.contains(p2) && spread_order(p1) == spread_order(p2) implies p1 == p2 by {
            lemma_spread_inverse(p1);
            lemma_spread_inverse(p2);
        }
    }
    lemma_occ_set(sp, 1024, s as u16);
    assert(ps =~= Set::new(|p: int| 0 <= p < 1024 && sp[p] == s as u16));
    vstd::set_lib::lemma_map_size(ps, ks, |p: int| spread_order(p));
    vstd::set_lib::lemma_int_range(lo, hi);
}

/// `floor(log2(x))`, with 0 for 0 and 1.
pub open spec fn floor_log2(x: nat) -> nat
    decreases x,
{
    if x < 2 { 0 } else { 1 + floor_log2(x / 2) }
}

proof fn lemma_floor_log2(x: nat)
    requires
        x >= 1,
    ensures
        two_pow(floor_log2(x)) <= x < two_pow(floor_log2(x) + 1),
    decreases x,
{
    if x >= 2 {
        let h = x / 2;
        lemma_floor_log2(h);
        let e = floor_log2(h);
        assert(floor_log2(x) == e + 1);
        assert(two_pow(e + 1) == 2 * two_pow(e));
        assert(two_pow(e + 2) == 2 * two_pow(e + 1));
        assert(2 * h <= x < 2 * h + 2);
    } else {
        assert(two_pow(1) == 2) by {
            reveal_with_fuel(two_pow, 2);
        }
    }
}

proof fn lemma_floor_log2_unique(x: nat, e: nat)
    requires
        two_pow(e) <= x < two_pow(e + 1),
    ensures
        floor_log2(x) == e,
    decreases e,
{
    lemma_two_pow_pos(e);
    if e == 0 {
        assert(two_pow(1) == 2);
    } else {
        let e1 = (e - 1) as nat;
        assert(two_pow(e) == 2 * two_pow(e1));
        assert(two_pow(e + 1) == 2 * two_pow(e));
        lemma_floor_log2_unique(x / 2, e1);
    }
}

/// `floor(log2(x))` for `x >= 1`.
fn floor_log2_exec(x: u32) -> (r: u32)
    requires
        x >= 1,
    ensures
        r == floor_log2(x as nat),
{
    let mut y = x;
    let mut r: u32 = 0;
    proof {
        lemma_floor_log2_lt(x as nat);
    }
    while y > 1
        invariant
            y >= 1,
            r + floor_log2(y as nat) == floor_log2(x as nat),
            floor_log2(x as nat) < x,
        decreases y,
    {
        y = y / 2;
        r = r + 1;
    }
    r
}

proof fn lemma_floor_log2_lt(x: nat)
    requires
        x >= 1,
    ensures
        floor_log2(x) < x,
    decreases x,
{
    if x >= 2 {
        lemma_floor_log2_lt(x / 2);
    }
}

proof fn lemma_two_pow_mono(a: nat, b: nat)
    requires
        a <= b,
    ensures
        two_pow(a) <= two_pow(b),
    decreases b - a,
{
    if a < b {
        lemma_two_pow_mono(a, (b - 1) as nat);
        lemma_two_pow_pos((b - 1) as nat);
    }
}

/// Decoding table entry for one state.
#[derive(Debug, Clone, Copy, PartialEq, Eq, Default)]
pub struct AnsDecodeEntry {
    pub symbol: u16,
    pub num_bits: u8,
    pub new_state_base: u16,
}

/// The decoding entry of state `1024 + p` for frequencies `f`: its symbol `s`, being the
/// `j`-th state of `s` in state order, reads `10 - floor(log2(f[s] + j))` bits on top of the
/// base `(f[s] + j) * 2^bits - 1024`.
pub open spec fn spec_decode_entry(f: Seq<u16>, p: int) -> AnsDecodeEntry {
    let sp = spec_spread(f);
    let s = sp[p];
    let x = (f[s as int] + occ_before(sp, p, s)) as nat;
    let nb = (10 - floor_log2(x)) as nat;
    AnsDecodeEntry { symbol: s, num_bits: nb as u8, new_state_base: (x * two_pow(nb) - 1024) as u16 }
}

/// A decoding entry can be applied to any state: it reads at most 10 bits and lands within
/// the 1024 states.
pub open spec fn entry_ok(e: AnsDecodeEntry) -> bool {
    &&& e.num_bits <= 10
    &&& e.new_state_base + two_pow(e.num_bits as nat) <= 1024
}

/// ANS decoding table with O(1) state lookup.
#[derive(Debug, Clone)]
pub struct AnsDecodeTable {
    pub entries: Vec<AnsDecodeEntry>,
}

impl AnsDecodeTable {
    /// The table has an applicable entry for each of the 1024 states.
    pub open spec fn wf(&self) -> bool {
        &&& self.entries@.len() == 1024
        &&& forall|p: int| 0 <= p < 1024 ==> entry_ok(#[trigger] self.entries@[p])
    }

    /// Builds the decoding table from normalized frequencies, which must sum to 1024.
    pub fn build(norm_freq: &[u16]) -> (r: Result<Self, CodropError>)
        requires
            norm_freq@.len() <= 0xFFFF,
        ensures
            r is Ok <==> seq_sum(norm_freq@, norm_freq@.len() as int) == 1024,
            r matches Ok(t) ==> t.wf() && t.entries@ == Seq::new(1024, |p: int| spec_decode_entry(norm_freq@, p)),
            r matches Err(e) ==> e is CorruptedEntropyStream,
    {
        let ghost f = norm_freq@;
        let n = norm_freq.len();
        let mut total: usize = 0;
        let mut i: usize = 0;
        while i < n
            invariant
                i <= n,
                n == f.len(),
                f == norm_freq@,
                n <= 0xFFFF,
                total == seq_sum(f, i as int),
                total <= i * 0xFFFF,
            decreases n - i,
        {
            total = total + norm_freq[i] as usize;
            i = i + 1;
        }
        if total != ANS_TABLE_SIZE {
            return Err(CodropError::CorruptedEntropyStream("ANS normalized frequency sum mismatch".to_string()));
        }
        let spread = spread_symbols(norm_freq, ANS_TABLE_SIZE);
        let ghost sp = spec_spread(f);
        let mut occ: Vec<u16> = Vec::new();
        let mut q: usize = 0;
        while q < n
            invariant
                q <= n,
                occ@.len() == q,
                forall|v: int| 0 <= v < q ==> #[trigger] occ@[v] == 0,
            decreases n - q,
        {
            occ.push(0);
            q = q + 1;
        }
        let mut entries: Vec<AnsDecodeEntry> = Vec::new();
        let mut p: usize = 0;
        while p < ANS_TABLE_SIZE
            invariant
                p <= 1024,
                n == f.len(),
                f == norm_freq@,
                n <= 0xFFFF,
                seq_sum(f, n as int) == 1024,
                spread@ == sp,
                sp == spec_spread(f),
                occ@.len() == n,
                forall|v: int| 0 <= v < n ==> #[trigger] occ@[v] == occ_before(sp, p as int, v as u16),
                entries@.len() == p,
                forall|t: int| 0 <= t < p ==> #[trigger] entries@[t] == spec_decode_entry(f, t),
                forall|t: int| 0 <= t < p ==> entry_ok(#[trigger] entries@[t]),
            decreases 1024 - p,
        {
            let s = spread[p];
            proof {
                lemma_spread_inverse(p as int);
                lemma_symbol_at_block(f, spread_order(p as int), 0);
                lemma_spread_counts(f, s as int);
                lemma_occ_mono(sp, p + 1, 1024, s);
                lemma_floor_log2((f[s as int] + occ_before(sp, p as int, s)) as nat);
            }
            proof {
                assert(symbol_at(f, spread_order(p as int)) < n);
                assert((s as int) < n);
                lemma_entry_le_sum(f, s as int, n as int);
                assert(occ_before(sp, p + 1, s) == occ_before(sp, p as int, s) + 1);
                assert(occ@[s as int] == occ_before(sp, p as int, s));
            }
            let n_s = norm_freq[s as usize];
            let j = occ[s as usize];
            let x = (n_s as u32) + (j as u32);
            let k = floor_log2_exec(x);
            proof {
                assert(x < 2048);
                assert(two_pow(11) == 2048) by {
                    reveal_with_fuel(two_pow, 12);
                }
                if k > 10 {
                    crate::entropy::canonical::lemma_two_pow_add(11, (k - 11) as nat);
                    lemma_two_pow_pos((k - 11) as nat);
                    assert(two_pow(11) * two_pow((k - 11) as nat) >= two_pow(11)) by (nonlinear_arith)
                        requires
                            two_pow((k - 11) as nat) >= 1;
                }
            }
            let nb = 10 - k;
            proof {
                lemma_two_pow_add(k as nat, nb as nat);
                lemma_two_pow_pos(nb as nat);
                crate::entropy::huffman::lemma_two_pow_shift(nb as nat);
                assert(two_pow(10) == 1024) by {
                    reveal_with_fuel(two_pow, 11);
                }
                let w = two_pow(nb as nat);
                let lo = two_pow(k as nat);
                assert(lo * w == 1024);
                assert(x as int * w >= 1024) by (nonlinear_arith)
                    requires
                        x as int >= lo,
                        lo * w == 1024,
                        w >= 1;
                assert(x as int * w + w <= 2048) by (nonlinear_arith)
                    requires
                        x as int + 1 <= 2 * lo,
                        lo * w == 1024,
                        w >= 1;
            }
            let w: u32 = (1u64 << (nb as u64)) as u32;
            let base = x * w - 1024;
            let entry = AnsDecodeEntry { symbol: s, num_bits: nb as u8, new_state_base: base as u16 };
            entries.push(entry);
            occ.set(s as usize, j + 1);
            proof {
                assert forall|v: int| 0 <= v < n implies #[trigger] occ@[v] == occ_before(sp, p + 1, v as u16) by {
                    if v != s as int {
                        assert((v as u16) != s);
                    }
                }
            }
            p = p + 1;
        }
        assert(entries@ =~= Seq::new(1024, |p: int| spec_decode_entry(f, p)));
        Ok(AnsDecodeTable { entries })
    }

    /// Decodes one symbol: looks up the entry of `state`, reads its bits and moves to the
    /// next state. States outside `1024..2048` are refused.
    pub fn decode_symbol(&self, state: &mut u16, reader: &mut BitReader) -> (r: Result<u16, CodropError>)
        requires
            self.wf(),
            old(reader).wf(),
        ensures
            final(reader).wf(),
            final(reader).bits() == old(reader).bits(),
            !(1024 <= *old(state) < 2048) ==> (r matches Err(e) && e is CorruptedEntropyStream
                && *final(state) == *old(state) && final(reader).position() == old(reader).position()),
            r is Ok ==> 1024 <= *final(state) < 2048,
            1024 <= *old(state) < 2048 ==> ({
                let e = self.entries@[*old(state) - 1024];
                if old(reader).position() + e.num_bits <= old(reader).bits().len() {
                    &&& r == Ok::<u16, CodropError>(e.symbol)
                    &&& *final(state) == 1024 + e.new_state_base + bits_value(old(reader).remaining().take(e.num_bits as int))
                    &&& final(reader).position() == old(reader).position() + e.num_bits
                } else {
                    &&& r == Err::<u16, CodropError>(CodropError::UnexpectedEof)
                    &&& *final(state) == *old(state)
                }
            }),
    {
        proof {
            old(reader).lemma_wf();
        }
        if *state < 1024 || *state >= 2048 {
            return Err(CodropError::CorruptedEntropyStream("ANS state out of bounds".to_string()));
        }
        let idx = (*state - 1024) as usize;
        let entry = self.entries[idx];
        let ghost rem = old(reader).remaining();
        let bits: u32 = if entry.num_bits > 0 {
            match reader.read_bits(entry.num_bits) {
                Ok(v) => {
                    proof {
                        assert(old(reader).position() + entry.num_bits <= old(reader).bits().len());
                        assert(rem.take(entry.num_bits as int).len() == entry.num_bits);
                        crate::entropy::canonical::lemma_bits_value_lt_pow(rem.take(entry.num_bits as int));
                    }
                    v
                },
                Err(e) => return Err(e),
            }
        } else {
            proof {
                old(reader).lemma_wf();
                assert(old(reader).remaining().take(0) =~= Seq::<bool>::empty());
            }
            0
        };
        assert(entry_ok(entry));
        assert(bits < two_pow(entry.num_bits as nat));
        *state = 1024 + entry.new_state_base + bits as u16;
        Ok(entry.symbol)
    }
}

/// The states (`1024 + position`) among the first `n` positions that hold `v`, in order.
pub open spec fn states_of(sp: Seq<u16>, v: u16, n: int) -> Seq<u16>
    decreases n,
{
    if n <= 0 {
        Seq::empty()
    } else {
        states_of(sp, v, n - 1) + if sp[n - 1] == v { seq![(1024 + n - 1) as u16] } else { Seq::empty() }
    }
}

proof fn lemma_states_of(sp: Seq<u16>, v: u16, n: int)
    requires
        0 <= n <= sp.len(),
        n <= 1024,
    ensures
        states_of(sp, v, n).len() == occ_before(sp, n, v),
        forall|j: int| 0 <= j < states_of(sp, v, n).len() ==> {
            let y = #[trigger] states_of(sp, v, n)[j] as int;
            &&& 1024 <= y < 1024 + n
            &&& sp[y - 1024] == v
            &&& occ_before(sp, y - 1024, v) == j
        },
    decreases n,
{
    if n > 0 {
        lemma_states_of(sp, v, n - 1);
        let prev = states_of(sp, v, n - 1);
        let cur = states_of(sp, v, n);
        assert forall|j: int| 0 <= j < cur.len() implies {
            let y = #[trigger] cur[j] as int;
            &&& 1024 <= y < 1024 + n
            &&& sp[y - 1024] == v
            &&& occ_before(sp, y - 1024, v) == j
        } by {
            if j < prev.len() {
                assert(cur[j] == prev[j]);
            } else {
                assert(cur[j] == (1024 + n - 1) as u16);
            }
        }
    }
}

/// Encoding parameters for a single symbol.
#[derive(Debug, Clone, PartialEq, Eq, Default)]
pub struct AnsSymbolEncoder {
    pub norm_freq: u16,
    pub k: u8,
    pub threshold: u16,
    pub next_states: Vec<u16>,
}

/// The encoder of symbol `s` for frequencies `f`, as values: frequency, `floor(log2)` of it,
/// the state from which the longer bit count is used, and the states of `s` in order.
pub open spec fn spec_encoder_fields(f: Seq<u16>, s: int) -> (u16, u8, u16, Seq<u16>) {
    if f[s] == 0 {
        (0, 0, 0, Seq::empty())
    } else {
        let k = floor_log2(f[s] as nat);
        let t = f[s] * two_pow((10 - k) as nat);
        (f[s], k as u8, (if t < 2048 { t } else { 2048 }) as u16, states_of(spec_spread(f), s as u16, 1024))
    }
}

/// `e` holds the encoder fields `v`.
pub open spec fn encoder_is(e: AnsSymbolEncoder, v: (u16, u8, u16, Seq<u16>)) -> bool {
    e.norm_freq == v.0 && e.k == v.1 && e.threshold == v.2 && e.next_states@ == v.3
}

/// One encoding step of a symbol with encoder fields `e` from state `x`: the bit count, the
/// bits emitted and the next state.
pub open spec fn spec_encode_step(e: (u16, u8, u16, Seq<u16>), x: int) -> (u8, u32, u16) {
    let nb = if x >= e.2 { 10 - e.1 } else { 9 - e.1 };
    let w = two_pow(nb as nat) as int;
    (nb as u8, (x % w) as u32, e.3[x / w - e.0])
}

/// ANS encoding table.
#[derive(Debug, Clone)]
pub struct AnsEncodeTable {
    pub symbols: Vec<AnsSymbolEncoder>,
}

impl AnsEncodeTable {
    /// The table holds the encoders of the frequencies `f`.
    pub open spec fn encodes(&self, f: Seq<u16>) -> bool {
        &&& seq_sum(f, f.len() as int) == 1024
        &&& f.len() <= 0xFFFF
        &&& self.symbols@.len() == f.len()
        &&& forall|s: int| 0 <= s < f.len() ==> encoder_is(#[trigger] self.symbols@[s], spec_encoder_fields(f, s))
    }

    /// Builds the encoding table from normalized frequencies, which must sum to 1024.
    pub fn build(norm_freq: &[u16]) -> (r: Result<Self, CodropError>)
        requires
            norm_freq@.len() <= 0xFFFF,
        ensures
            r is Ok <==> seq_sum(norm_freq@, norm_freq@.len() as int) == 1024,
            r matches Ok(t) ==> t.encodes(norm_freq@),
            r matches Err(e) ==> e is CorruptedEntropyStream,
    {
        let ghost f = norm_freq@;
        let n = norm_freq.len();
        let mut total: usize = 0;
        let mut i: usize = 0;
        while i < n
            invariant
                i <= n,
                n == f.len(),
                f == norm_freq@,
                n <= 0xFFFF,
                total == seq_sum(f, i as int),
                total <= i * 0xFFFF,
            decreases n - i,
        {
            total = total + norm_freq[i] as usize;
            i = i + 1;
        }
        if total != ANS_TABLE_SIZE {
            return Err(CodropError::CorruptedEntropyStream("ANS frequency sum mismatch".to_string()));
        }
        let spread = spread_symbols(norm_freq, ANS_TABLE_SIZE);
        let ghost sp = spec_spread(f);
        let mut symbols: Vec<AnsSymbolEncoder> = Vec::new();
        let mut s: usize = 0;
        while s < n
            invariant
                s <= n,
                n == f.len(),
                f == norm_freq@,
                n <= 0xFFFF,
                seq_sum(f, n as int) == 1024,
                spread@ == sp,
                sp == spec_spread(f),
                symbols@.len() == s,
                forall|t: int| 0 <= t < s ==> encoder_is(#[trigger] symbols@[t], spec_encoder_fields(f, t)),
            decreases n - s,
        {
            let freq = norm_freq[s];
            if freq == 0 {
                symbols.push(AnsSymbolEncoder { norm_freq: 0, k: 0, threshold: 0, next_states: Vec::new() });
            } else {
                proof {
                    lemma_entry_le_sum(f, s as int, n as int);
                    lemma_floor_log2(freq as nat);
                }
                let k = floor_log2_exec(freq as u32);
                proof {
                    if k > 10 {
                        assert(two_pow(11) == 2048) by {
                            reveal_with_fuel(two_pow, 12);
                        }
                        lemma_two_pow_add(11, (k - 11) as nat);
                        lemma_two_pow_pos((k - 11) as nat);
                        assert(two_pow(11) * two_pow((k - 11) as nat) >= two_pow(11)) by (nonlinear_arith)
                            requires
                                two_pow((k - 11) as nat) >= 1;
                    }
                    lemma_two_pow_add(k as nat, (10 - k) as nat);
                    lemma_two_pow_pos((10 - k) as nat);
                    crate::entropy::huffman::lemma_two_pow_shift((10 - k) as nat);
                    assert(two_pow(10) == 1024) by {
                        reveal_with_fuel(two_pow, 11);
                    }
                    let w = two_pow((10 - k) as nat);
                    assert((freq as int) * w <= 2048) by (nonlinear_arith)
                        requires
                            (freq as int) < 2 * two_pow(k as nat),
                            two_pow(k as nat) * w == 1024,
                            w >= 1;
                }
                let w: u32 = (1u64 << ((10 - k) as u64)) as u32;
                let t = (freq as u32) * w;
                let threshold: u16 = if t < 2048 { t as u16 } else { 2048 };
                let mut next: Vec<u16> = Vec::new();
                let mut p: usize = 0;
                while p < ANS_TABLE_SIZE
                    invariant
                        p <= 1024,
                        spread@ == sp,
                        sp.len() == 1024,
                        next@ == states_of(sp, s as u16, p as int),
                    decreases 1024 - p,
                {
                    if spread[p] == s as u16 {
                        next.push((1024 + p) as u16);
                    }
                    p = p + 1;
                }
                symbols.push(AnsSymbolEncoder { norm_freq: freq, k: k as u8, threshold, next_states: next });
            }
            s = s + 1;
        }
        Ok(AnsEncodeTable { symbols })
    }

    /// Encodes symbol `s` from `state`: returns the number of bits to emit and their value, and
    /// moves `state` to the state that decodes back to `s` and to the old state.
    pub fn encode_symbol(&self, s: usize, state: &mut u16) -> (r: (u8, u32))
        requires
            exists|f: Seq<u16>| self.encodes(f) && 0 <= s < f.len() && f[s as int] > 0,
            1024 <= *old(state) < 2048,
        ensures
            ({
                let step = spec_encode_step(encoder_fields(self.symbols@[s as int]), *old(state) as int);
                r == (step.0, step.1) && *final(state) == step.2
            }),
            1024 <= *final(state) < 2048,
    {
        let ghost f = choose|f: Seq<u16>| self.encodes(f) && 0 <= s < f.len() && f[s as int] > 0;
        let enc = &self.symbols[s];
        let ghost fields = spec_encoder_fields(f, s as int);
        assert(encoder_is(self.symbols@[s as int], fields));
        assert(encoder_fields(self.symbols@[s as int]) == fields);
        let ghost n_s = f[s as int] as int;
        let ghost kk = floor_log2(n_s as nat);
        proof {
            lemma_entry_le_sum(f, s as int, f.len() as int);
            lemma_floor_log2(n_s as nat);
            lemma_spread_counts(f, s as int);
            lemma_states_of(spec_spread(f), s as u16, 1024);
            if kk > 10 {
                assert(two_pow(11) == 2048) by {
                    reveal_with_fuel(two_pow, 12);
                }
                lemma_two_pow_add(11, (kk - 11) as nat);
                lemma_two_pow_pos((kk - 11) as nat);
                assert(two_pow(11) * two_pow((kk - 11) as nat) >= two_pow(11)) by (nonlinear_arith)
                    requires
                        two_pow((kk - 11) as nat) >= 1;
            }
            lemma_encode_index(n_s, kk, *old(state) as int);
        }
        let cur = *state;
        let nb: u8 = if cur >= enc.threshold { 10 - enc.k } else { 9 - enc.k };
        proof {
            crate::entropy::huffman::lemma_two_pow_shift(nb as nat);
            lemma_two_pow_pos(nb as nat);
            lemma_two_pow_mono(nb as nat, 10);
            assert(two_pow(10) == 1024) by {
                reveal_with_fuel(two_pow, 11);
            }
        }
        let w: u32 = (1u64 << (nb as u64)) as u32;
        assert(w as int == two_pow(nb as nat));
        let bits = (cur as u32) % w;
        let sub_x = (cur as u32) / w;
        let j = (sub_x - enc.norm_freq as u32) as usize;
        let next = enc.next_states[j];
        *state = next;
        (nb, bits)
    }
}

/// The encoder fields held by `e`.
pub open spec fn encoder_fields(e: AnsSymbolEncoder) -> (u16, u8, u16, Seq<u16>) {
    (e.norm_freq, e.k, e.threshold, e.next_states@)
}

/// The slot a state is encoded from lies within the symbol's states.
proof fn lemma_encode_index(n_s: int, k: nat, x: int)
    requires
        1 <= n_s <= 1024,
        two_pow(k) <= n_s < two_pow(k + 1),
        k <= 10,
        1024 <= x < 2048,
    ensures
        ({
            let t0 = n_s * two_pow((10 - k) as nat);
            let t = if t0 < 2048 { t0 } else { 2048 };
            let nb = if x >= t { 10 - k } else { 9 - k };
            &&& 0 <= nb <= 10
            &&& n_s <= x / (two_pow(nb as nat) as int) < 2 * n_s
            &&& x / (two_pow(nb as nat) as int) >= two_pow((10 - nb) as nat)
            &&& x / (two_pow(nb as nat) as int) < two_pow((11 - nb) as nat)
        }),
{
    let w10 = two_pow((10 - k) as nat);
    lemma_two_pow_add(k, (10 - k) as nat);
    assert(k + (10 - k) as nat == 10);
    lemma_two_pow_pos((10 - k) as nat);
    lemma_two_pow_pos(k);
    assert(two_pow(10) == 1024 && two_pow(11) == 2048) by {
        reveal_with_fuel(two_pow, 12);
    }
    assert(two_pow(k + 1) == 2 * two_pow(k));
    let t0 = n_s * w10;
    assert(t0 < 2048) by (nonlinear_arith)
        requires
            t0 == n_s * w10,
            n_s < 2 * two_pow(k),
            two_pow(k) * w10 == 1024,
            w10 >= 1;
    if x >= t0 {
        // nb = 10 - k
        let w = w10 as int;
        assert(x / w >= n_s) by (nonlinear_arith)
            requires
                x >= n_s * w,
                w >= 1;
        assert(x / w < 2 * two_pow(k)) by (nonlinear_arith)
            requires
                x < 2048,
                two_pow(k) * w == 1024,
                w >= 1;
        assert(x / w >= two_pow(k)) by (nonlinear_arith)
            requires
                x >= 1024,
                two_pow(k) * w == 1024,
                w >= 1;
        assert(two_pow((11 - (10 - k)) as nat) == 2 * two_pow(k)) by {
            assert((11 - (10 - k)) as nat == k + 1);
        }
    } else {
        // nb = 9 - k, and k < 10 here
        assert(k < 10) by {
            if k == 10 {
                assert(w10 == 1);
            }
        }
        let w = two_pow((9 - k) as nat) as int;
        lemma_two_pow_pos((9 - k) as nat);
        assert(w10 == 2 * w) by {
            assert((10 - k) as nat == (9 - k) as nat + 1);
        }
        assert(x / w >= 2 * two_pow(k)) by (nonlinear_arith)
            requires
                x >= 1024,
                two_pow(k) * (2 * w) == 1024,
                w >= 1;
        assert(x / w < 2 * n_s) by (nonlinear_arith)
            requires
                x < n_s * (2 * w),
                w >= 1;
        assert(x / w < 4 * two_pow(k)) by (nonlinear_arith)
            requires
                x < 2048,
                two_pow(k) * (2 * w) == 1024,
                w >= 1;
        assert(two_pow((10 - (9 - k)) as nat) == 2 * two_pow(k)) by {
            assert((10 - (9 - k)) as nat == k + 1);
        }
        assert(two_pow((11 - (9 - k)) as nat) == 4 * two_pow(k)) by {
            assert((11 - (9 - k)) as nat == k + 2);
            assert(two_pow(k + 2) == 2 * two_pow(k + 1));
        }
    }
}

/// One ANS encoding step is undone by one decoding step: from the state the encoder moved
/// to, the decoder finds the encoded symbol, reads back exactly the emitted bits and returns
/// to the state the encoder started from.
pub proof fn law_ans_step_roundtrip(f: Seq<u16>, s: int, x: int)
    requires
        seq_sum(f, f.len() as int) == 1024,
        f.len() <= 0xFFFF,
        0 <= s < f.len(),
        f[s] > 0,
        1024 <= x < 2048,
    ensures
        ({
            let (nb, bits, y) = spec_encode_step(spec_encoder_fields(f, s), x);
            let e = spec_decode_entry(f, y - 1024);
            &&& 1024 <= y < 2048
            &&& e.symbol == s
            &&& e.num_bits == nb
            &&& nb <= 10
            &&& bits < two_pow(nb as nat)
            &&& 1024 + e.new_state_base + bits == x
        }),
{
    let sp = spec_spread(f);
    let n_s = f[s] as int;
    let k = floor_log2(n_s as nat);
    lemma_entry_le_sum(f, s, f.len() as int);
    lemma_floor_log2(n_s as nat);
    if k > 10 {
        assert(two_pow(11) == 2048) by {
            reveal_with_fuel(two_pow, 12);
        }
        lemma_two_pow_add(11, (k - 11) as nat);
        lemma_two_pow_pos((k - 11) as nat);
        assert(two_pow(11) * two_pow((k - 11) as nat) >= two_pow(11)) by (nonlinear_arith)
            requires
                two_pow((k - 11) as nat) >= 1;
    }
    lemma_encode_index(n_s, k, x);
    lemma_spread_counts(f, s);
    lemma_states_of(sp, s as u16, 1024);
    let fields = spec_encoder_fields(f, s);
    let (nb, bits, y) = spec_encode_step(fields, x);
    let w = two_pow(nb as nat) as int;
    lemma_two_pow_pos(nb as nat);
    let j = x / w - n_s;
    let p = y - 1024;
    assert(0 <= j < n_s);
    assert(sp[p] == s as u16);
    assert(occ_before(sp, p, s as u16) == j);
    let sub_x = (n_s + j) as nat;
    assert(sub_x == x / w);
    lemma_floor_log2_unique(sub_x, (10 - nb) as nat);
    assert(two_pow((10 - (10 - nb)) as nat) == w) by {
        assert((10 - (10 - nb)) as nat == nb as nat);
    }
    lemma_two_pow_add((10 - nb) as nat, nb as nat);
    assert((10 - nb) as nat + nb as nat == 10);
    assert(two_pow(10) == 1024) by {
        reveal_with_fuel(two_pow, 11);
    }
    assert(x == (x / w) * w + x % w) by (nonlinear_arith)
        requires
            w >= 1;
    assert(x % w < w) by (nonlinear_arith)
        requires
            w >= 1;
    assert((x / w) * w >= 1024) by (nonlinear_arith)
        requires
            x / w >= two_pow((10 - nb) as nat),
            two_pow((10 - nb) as nat) * w == 1024,
            w >= 1;
    lemma_two_pow_add((10 - nb) as nat, nb as nat);
}

/// A recorded bit chunk emitted during reverse ANS encoding.
#[derive(Debug, Clone, Copy, PartialEq, Eq)]
pub struct AnsBitChunk {
    pub bits: u8,
    pub val: u32,
}

} // verus!
