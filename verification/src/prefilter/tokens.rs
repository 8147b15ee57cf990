//! Occurrence tables of candidate tokens, and selection of the most profitable ones.
//!
//! A scan of the input yields a sequence of token occurrences. The table counts them; the
//! selection keeps the tokens that clear a frequency and savings bar, best first: larger
//! estimated savings first, and on equal savings the lexicographically smaller token first.
use vstd::prelude::*;

use crate::buf::append_range;

verus! {

/// Number of occurrences of `t` in `occ`.
pub open spec fn occurrences(occ: Seq<Seq<u8>>, t: Seq<u8>) -> nat
    decreases occ.len(),
{
    if occ.len() == 0 {
        0
    } else {
        occurrences(occ.drop_last(), t) + if occ.last() == t { 1nat } else { 0nat }
    }
}

/// Estimated bytes saved by replacing `freq` occurrences of a token of length `len` by
/// two-byte references and storing it once in a table.
pub open spec fn savings(freq: int, len: int) -> int {
    freq * (len - 2) - (1 + len)
}

/// Lexicographic order on byte strings (a proper prefix comes first).
pub open spec fn lex_lt(a: Seq<u8>, b: Seq<u8>) -> bool
    decreases a.len(),
{
    if a.len() == 0 {
        b.len() > 0
    } else if b.len() == 0 {
        false
    } else if a[0] != b[0] {
        a[0] < b[0]
    } else {
        lex_lt(a.drop_first(), b.drop_first())
    }
}

/// Estimated savings of token `t` given the occurrences `occ`.
pub open spec fn token_savings(occ: Seq<Seq<u8>>, t: Seq<u8>) -> int {
    savings(occurrences(occ, t) as int, t.len() as int)
}

/// `a` ranks before `b`: larger savings, or equal savings and lexicographically smaller.
pub open spec fn ranks_before(occ: Seq<Seq<u8>>, a: Seq<u8>, b: Seq<u8>) -> bool {
    ||| token_savings(occ, a) > token_savings(occ, b)
    ||| (token_savings(occ, a) == token_savings(occ, b) && lex_lt(a, b))
}

/// `t` occurs at least `min_freq` times, is at least four bytes long, and saves more than
/// `min_savings` bytes.
pub open spec fn qualifies(occ: Seq<Seq<u8>>, t: Seq<u8>, min_freq: nat, min_savings: int) -> bool {
    &&& occurrences(occ, t) >= min_freq
    &&& t.len() >= 4
    &&& token_savings(occ, t) > min_savings
}

/// `r` lists the best `limit` qualifying tokens (all of them when there are fewer), best first.
pub open spec fn is_top_selection(
    occ: Seq<Seq<u8>>,
    r: Seq<Seq<u8>>,
    min_freq: nat,
    min_savings: int,
    limit: nat,
) -> bool {
    &&& r.len() <= limit
    &&& forall|i: int| 0 <= i < r.len() ==> qualifies(occ, #[trigger] r[i], min_freq, min_savings)
    &&& forall|i: int, j: int| 0 <= i < j < r.len() ==> ranks_before(occ, #[trigger] r[i], #[trigger] r[j])
    &&& forall|t: Seq<u8>|
        qualifies(occ, t, min_freq, min_savings) && !r.contains(t) ==> {
            &&& r.len() == limit
            &&& forall|i: int| 0 <= i < r.len() ==> ranks_before(occ, #[trigger] r[i], t)
        }
}

/// `toks`/`cnts` tabulate `occ`: distinct tokens, each with its number of occurrences, and
/// every token that occurs is listed.
pub open spec fn tabulates(occ: Seq<Seq<u8>>, toks: Seq<Seq<u8>>, cnts: Seq<usize>) -> bool {
    &&& toks.len() == cnts.len()
    &&& forall|i: int, j: int| 0 <= i < j < toks.len() ==> toks[i] != toks[j]
    &&& forall|i: int| 0 <= i < toks.len() ==> #[trigger] cnts[i] == occurrences(occ, toks[i])
    &&& forall|t: Seq<u8>| occurrences(occ, t) > 0 ==> toks.contains(t)
}

pub proof fn lemma_occurrences_bound(occ: Seq<Seq<u8>>, t: Seq<u8>)
    ensures
        occurrences(occ, t) <= occ.len(),
    decreases occ.len(),
{
    if occ.len() > 0 {
        lemma_occurrences_bound(occ.drop_last(), t);
    }
}

proof fn lemma_occurrences_push(occ: Seq<Seq<u8>>, t: Seq<u8>, x: Seq<u8>)
    ensures
        occurrences(occ.push(t), x) == occurrences(occ, x) + if t == x { 1nat } else { 0nat },
{
    assert(occ.push(t).drop_last() =~= occ);
}

/// Lexicographic order is total on distinct strings.
pub proof fn lemma_lex_total(a: Seq<u8>, b: Seq<u8>)
    requires
        a != b,
    ensures
        lex_lt(a, b) || lex_lt(b, a),
    decreases a.len(),
{
    if a.len() > 0 && b.len() > 0 && a[0] == b[0] {
        if a.drop_first() == b.drop_first() {
            assert(a =~= seq![a[0]] + a.drop_first());
            assert(b =~= seq![b[0]] + b.drop_first());
        }
        lemma_lex_total(a.drop_first(), b.drop_first());
    } else if a.len() == 0 && b.len() == 0 {
        assert(a =~= b);
    }
}

/// Lexicographic order is asymmetric.
pub proof fn lemma_lex_asym(a: Seq<u8>, b: Seq<u8>)
    ensures
        !(lex_lt(a, b) && lex_lt(b, a)),
    decreases a.len(),
{
    if a.len() > 0 && b.len() > 0 && a[0] == b[0] {
        lemma_lex_asym(a.drop_first(), b.drop_first());
    }
}

/// Whether `src[start..end]` equals `t`.
fn range_equals(src: &[u8], start: usize, end: usize, t: &[u8]) -> (r: bool)
    requires
        start <= end <= src@.len(),
    ensures
        r == (src@.subrange(start as int, end as int) == t@),
{
    if end - start != t.len() {
        return false;
    }
    let mut k: usize = 0;
    while k < t.len()
        invariant
            k <= t@.len(),
            start + t@.len() == end,
            end <= src@.len(),
            forall|x: int| 0 <= x < k ==> src@[start + x] == t@[x],
        decreases t@.len() - k,
    {
        if src[start + k] != t[k] {
            assert(src@.subrange(start as int, end as int)[k as int] != t@[k as int]);
            return false;
        }
        k = k + 1;
    }
    assert(src@.subrange(start as int, end as int) =~= t@);
    true
}

/// Count one more occurrence of `src[start..end]` in the table.
pub fn record_occurrence(
    toks: &mut Vec<Vec<u8>>,
    cnts: &mut Vec<usize>,
    src: &[u8],
    start: usize,
    end: usize,
    Ghost(occ): Ghost<Seq<Seq<u8>>>,
)
    requires
        start <= end <= src@.len(),
        occ.len() < usize::MAX,
        tabulates(occ, old(toks).deep_view(), old(cnts)@),
    ensures
        tabulates(occ.push(src@.subrange(start as int, end as int)), final(toks).deep_view(), final(cnts)@),
        forall|x: Seq<u8>| #[trigger] final(toks).deep_view().contains(x)
            ==> old(toks).deep_view().contains(x) || x == src@.subrange(start as int, end as int),
{
    let ghost t = src@.subrange(start as int, end as int);
    let ghost occ2 = occ.push(t);
    let ghost tv = toks.deep_view();
    let mut i: usize = 0;
    while i < toks.len()
        invariant
            i <= toks@.len(),
            toks.deep_view() == tv,
            tv == old(toks).deep_view(),
            cnts@ == old(cnts)@,
            tabulates(occ, tv, cnts@),
            occ.len() < usize::MAX,
            t == src@.subrange(start as int, end as int),
            occ2 == occ.push(t),
            start <= end <= src@.len(),
            forall|j: int| 0 <= j < i ==> tv[j] != t,
        decreases toks@.len() - i,
    {
        assert(tv[i as int] == toks@[i as int]@);
        if range_equals(src, start, end, toks[i].as_slice()) {
            proof {
                lemma_occurrences_bound(occ, t);
            }
            let c = cnts[i];
            cnts.set(i, c + 1);
            proof {
                assert forall|x: Seq<u8>| occurrences(occ2, x) > 0 implies toks.deep_view().contains(x) by {
                    lemma_occurrences_push(occ, t, x);
                    if x == t {
                        assert(tv[i as int] == x);
                    }
                }
                assert forall|j: int| 0 <= j < tv.len() implies #[trigger] cnts@[j] == occurrences(occ2, tv[j]) by {
                    lemma_occurrences_push(occ, t, tv[j]);
                }
            }
            assert(toks.deep_view() == tv);
            return;
        }
        i = i + 1;
    }
    let mut v: Vec<u8> = Vec::new();
    append_range(&mut v, src, start, end);
    assert(v@ =~= t);
    assert(v.deep_view() =~= t);
    toks.push(v);
    cnts.push(1);
    proof {
        let tv2 = toks.deep_view();
        assert(tv2 =~= tv.push(t));
        lemma_occurrences_push(occ, t, t);
        assert(!tv.contains(t));
        assert(occurrences(occ, t) == 0);
        assert forall|x: Seq<u8>| occurrences(occ2, x) > 0 implies tv2.contains(x) by {
            lemma_occurrences_push(occ, t, x);
            if x == t {
                assert(tv2[tv.len() as int] == x);
            } else {
                assert(occurrences(occ, x) > 0);
                assert(tv.contains(x));
                let k = choose|k: int| 0 <= k < tv.len() && tv[k] == x;
                assert(tv2[k] == x);
            }
        }
        assert forall|j: int| 0 <= j < tv2.len() implies #[trigger] cnts@[j] == occurrences(occ2, tv2[j]) by {
            lemma_occurrences_push(occ, t, tv2[j]);
        }
        assert forall|x: Seq<u8>| #[trigger] tv2.contains(x) implies tv.contains(x) || x == t by {
            let k = choose|k: int| 0 <= k < tv2.len() && tv2[k] == x;
            if k < tv.len() {
                assert(tv[k] == x);
            }
        }
    }
}

/// Whether `a` is lexicographically smaller than `b`.
fn lex_less(a: &[u8], b: &[u8]) -> (r: bool)
    ensures
        r == lex_lt(a@, b@),
{
    let mut k: usize = 0;
    assert(a@.skip(0) =~= a@);
    assert(b@.skip(0) =~= b@);
    while k < a.len() && k < b.len()
        invariant
            k <= a@.len(),
            k <= b@.len(),
            lex_lt(a@, b@) == lex_lt(a@.skip(k as int), b@.skip(k as int)),
        decreases a@.len() - k,
    {
        let ghost sa = a@.skip(k as int);
        let ghost sb = b@.skip(k as int);
        if a[k] != b[k] {
            assert(sa[0] == a@[k as int] && sb[0] == b@[k as int]);
            return a[k] < b[k];
        }
        assert(sa.drop_first() =~= a@.skip(k + 1));
        assert(sb.drop_first() =~= b@.skip(k + 1));
        k = k + 1;
    }
    k == a.len() && k < b.len()
}

/// Estimated savings, as computed on machine integers.
fn savings_of(freq: usize, len: usize) -> (r: i128)
    requires
        len <= 255,
    ensures
        r == savings(freq as int, len as int),
{
    let f = freq as i128;
    let l = len as i128 - 2;
    assert(-2 * 0x1_0000_0000_0000_0000 <= f * l <= 0x1_0000_0000_0000_0000 * 253) by (nonlinear_arith)
        requires
            0 <= f <= 0x1_0000_0000_0000_0000,
            -2 <= l <= 253;
    f * l - (1 + len as i128)
}

/// The best `limit` tokens of the table `toks`/`cnts` that occur at least `min_freq` times and
/// save more than `min_savings` bytes, best first.
pub fn select_top_tokens(
    toks: &Vec<Vec<u8>>,
    cnts: &Vec<usize>,
    min_freq: usize,
    min_savings: i128,
    limit: usize,
    Ghost(occ): Ghost<Seq<Seq<u8>>>,
) -> (r: Vec<Vec<u8>>)
    requires
        min_freq >= 1,
        tabulates(occ, toks.deep_view(), cnts@),
        forall|i: int| 0 <= i < toks@.len() ==> (#[trigger] toks@[i])@.len() <= 255,
    ensures
        is_top_selection(occ, r.deep_view(), min_freq as nat, min_savings as int, limit as nat),
{
    let ghost tv = toks.deep_view();
    let n = toks.len();
    let mut taken: Vec<bool> = Vec::new();
    let mut k: usize = 0;
    while k < n
        invariant
            k <= n,
            n == toks@.len(),
            taken@.len() == k,
            forall|j: int| 0 <= j < k ==> !(#[trigger] taken@[j]),
        decreases n - k,
    {
        taken.push(false);
        k = k + 1;
    }
    let mut out: Vec<Vec<u8>> = Vec::new();
    while out.len() < limit
        invariant
            min_freq >= 1,
            n == toks@.len(),
            tv == toks.deep_view(),
            tabulates(occ, tv, cnts@),
            forall|i: int| 0 <= i < toks@.len() ==> (#[trigger] toks@[i])@.len() <= 255,
            taken@.len() == n,
            out@.len() <= limit,
            forall|j: int| 0 <= j < n ==> (#[trigger] taken@[j] <==> out.deep_view().contains(tv[j])),
            forall|i: int| 0 <= i < out@.len() ==> qualifies(occ, #[trigger] out.deep_view()[i], min_freq as nat, min_savings as int),
            forall|i: int, j: int| 0 <= i < j < out@.len() ==> ranks_before(occ, #[trigger] out.deep_view()[i], #[trigger] out.deep_view()[j]),
            forall|t: Seq<u8>| qualifies(occ, t, min_freq as nat, min_savings as int) && !out.deep_view().contains(t)
                ==> forall|i: int| 0 <= i < out@.len() ==> ranks_before(occ, #[trigger] out.deep_view()[i], t),
        ensures
            out@.len() == limit || forall|t: Seq<u8>| qualifies(occ, t, min_freq as nat, min_savings as int) ==> out.deep_view().contains(t),
        decreases limit - out@.len(),
    {
        let mut found = false;
        let mut best: usize = 0;
        let mut best_sav: i128 = 0;
        let mut j: usize = 0;
        while j < n
            invariant
                j <= n,
                n == toks@.len(),
                tv == toks.deep_view(),
                tabulates(occ, tv, cnts@),
                forall|i: int| 0 <= i < toks@.len() ==> (#[trigger] toks@[i])@.len() <= 255,
                taken@.len() == n,
                found ==> best < j,
                found ==> !taken@[best as int],
                found ==> qualifies(occ, tv[best as int], min_freq as nat, min_savings as int),
                found ==> best_sav == token_savings(occ, tv[best as int]),
                forall|x: int| 0 <= x < j && !(#[trigger] taken@[x]) && qualifies(occ, tv[x], min_freq as nat, min_savings as int)
                    ==> found && (x == best || ranks_before(occ, tv[best as int], tv[x])),
            decreases n - j,
        {
            assert(tv[j as int] == toks@[j as int]@);
            if !taken[j] && cnts[j] >= min_freq && toks[j].len() >= 4 {
                let s = savings_of(cnts[j], toks[j].len());
                if s > min_savings {
                    let better = if !found {
                        true
                    } else if s > best_sav {
                        true
                    } else if s == best_sav {
                        assert(tv[best as int] == toks@[best as int]@);
                        lex_less(toks[j].as_slice(), toks[best].as_slice())
                    } else {
                        false
                    };
                    proof {
                        if found && better {
                            assert forall|x: int| 0 <= x < j && !(#[trigger] taken@[x]) && qualifies(occ, tv[x], min_freq as nat, min_savings as int)
                                implies (x == j || ranks_before(occ, tv[j as int], tv[x])) by {
                                if x != best as int {
                                    lemma_lex_asym(tv[best as int], tv[x]);
                                    if token_savings(occ, tv[best as int]) == token_savings(occ, tv[x]) && token_savings(occ, tv[j as int]) == token_savings(occ, tv[best as int]) {
                                        lemma_lex_trans(tv[j as int], tv[best as int], tv[x]);
                                    }
                                } else {
                                }
                            }
                        }
                        if found && !better {
                            if best_sav == s {
                                lemma_lex_total(tv[best as int], tv[j as int]);
                            }
                        }
                    }
                    if better {
                        found = true;
                        best = j;
                        best_sav = s;
                    }
                }
            }
            j = j + 1;
        }
        if !found {
            proof {
                assert forall|t: Seq<u8>| qualifies(occ, t, min_freq as nat, min_savings as int) implies out.deep_view().contains(t) by {
                    assert(tv.contains(t));
                    let x = choose|x: int| 0 <= x < tv.len() && tv[x] == t;
                    assert(taken@[x]);
                }
            }
            break;
        }
        let ghost ov = out.deep_view();
        let ghost b = tv[best as int];
        let mut copy: Vec<u8> = Vec::new();
        assert(b == toks@[best as int]@);
        append_range(&mut copy, toks[best].as_slice(), 0, toks[best].len());
        assert(copy@ =~= b);
        assert(copy.deep_view() =~= b);
        out.push(copy);
        taken.set(best, true);
        proof {
            let ov2 = out.deep_view();
            assert(ov2 =~= ov.push(b));
            assert(!ov.contains(b));
            assert forall|j2: int| 0 <= j2 < n implies (#[trigger] taken@[j2] <==> ov2.contains(tv[j2])) by {
                if j2 == best as int {
                    assert(ov2[ov.len() as int] == b);
                } else {
                    assert(tv[j2] != b);
                    if ov2.contains(tv[j2]) {
                        let q = choose|q: int| 0 <= q < ov2.len() && ov2[q] == tv[j2];
                        assert(q < ov.len());
                        assert(ov.contains(tv[j2]));
                    }
                    if ov.contains(tv[j2]) {
                        let q = choose|q: int| 0 <= q < ov.len() && ov[q] == tv[j2];
                        assert(ov2[q] == tv[j2]);
                    }
                }
            }
            assert forall|t: Seq<u8>| qualifies(occ, t, min_freq as nat, min_savings as int) && !ov2.contains(t)
                implies forall|i: int| 0 <= i < ov2.len() ==> ranks_before(occ, #[trigger] ov2[i], t) by {
                if ov.contains(t) {
                    let q = choose|q: int| 0 <= q < ov.len() && ov[q] == t;
                    assert(ov2[q] == t);
                }
                assert(tv.contains(t));
                let x = choose|x: int| 0 <= x < tv.len() && tv[x] == t;
                assert(ov2[ov.len() as int] == b);
                assert(x != best as int);
                assert(!taken@[x]);
                assert forall|i: int| 0 <= i < ov2.len() implies ranks_before(occ, #[trigger] ov2[i], t) by {
                    if i < ov.len() {
                        assert(ov2[i] == ov[i]);
                    }
                }
            }
            assert forall|i: int, j2: int| 0 <= i < j2 < ov2.len() implies ranks_before(occ, #[trigger] ov2[i], #[trigger] ov2[j2]) by {
                assert(ov2[i] == ov[i]);
                if j2 < ov.len() {
                    assert(ov2[j2] == ov[j2]);
                }
            }
            assert forall|i: int| 0 <= i < ov2.len() implies qualifies(occ, #[trigger] ov2[i], min_freq as nat, min_savings as int) by {
                if i < ov.len() {
                    assert(ov2[i] == ov[i]);
                }
            }
        }
    }
    out
}

/// Lexicographic order is transitive.
pub proof fn lemma_lex_trans(a: Seq<u8>, b: Seq<u8>, c: Seq<u8>)
    requires
        lex_lt(a, b),
        lex_lt(b, c),
    ensures
        lex_lt(a, c),
    decreases a.len(),
{
    if a.len() > 0 && b.len() > 0 && c.len() > 0 && a[0] == b[0] && b[0] == c[0] {
        lemma_lex_trans(a.drop_first(), b.drop_first(), c.drop_first());
    }
}

proof fn lemma_ranks_asym(occ: Seq<Seq<u8>>, a: Seq<u8>, b: Seq<u8>)
    ensures
        !(ranks_before(occ, a, b) && ranks_before(occ, b, a)),
{
    lemma_lex_asym(a, b);
}

/// There is at most one top selection for given occurrences, bars and limit.
pub proof fn lemma_top_selection_unique(
    occ: Seq<Seq<u8>>,
    r1: Seq<Seq<u8>>,
    r2: Seq<Seq<u8>>,
    min_freq: nat,
    min_savings: int,
    limit: nat,
)
    requires
        is_top_selection(occ, r1, min_freq, min_savings, limit),
        is_top_selection(occ, r2, min_freq, min_savings, limit),
    ensures
        r1 == r2,
    decreases r1.len() + r2.len(),
{
    lemma_top_selection_prefix(occ, r1, r2, min_freq, min_savings, limit, 0);
}

proof fn lemma_top_selection_prefix(
    occ: Seq<Seq<u8>>,
    r1: Seq<Seq<u8>>,
    r2: Seq<Seq<u8>>,
    min_freq: nat,
    min_savings: int,
    limit: nat,
    i: int,
)
    requires
        is_top_selection(occ, r1, min_freq, min_savings, limit),
        is_top_selection(occ, r2, min_freq, min_savings, limit),
        0 <= i <= r1.len(),
        i <= r2.len(),
        forall|j: int| 0 <= j < i ==> r1[j] == r2[j],
    ensures
        r1 == r2,
    decreases r1.len() + r2.len() - 2 * i,
{
    if i == r1.len() && i == r2.len() {
        assert(r1 =~= r2);
    } else if i == r1.len() {
        let b = r2[i];
        if r1.contains(b) {
            let j = choose|j: int| 0 <= j < r1.len() && r1[j] == b;
            assert(r2[j] == b);
            assert(ranks_before(occ, r2[j], r2[i]));
            lemma_ranks_asym(occ, b, b);
        }
        assert(qualifies(occ, r2[i], min_freq, min_savings));
    } else if i == r2.len() {
        let a = r1[i];
        if r2.contains(a) {
            let j = choose|j: int| 0 <= j < r2.len() && r2[j] == a;
            assert(r1[j] == a);
            assert(ranks_before(occ, r1[j], r1[i]));
            lemma_ranks_asym(occ, a, a);
        }
        assert(qualifies(occ, r1[i], min_freq, min_savings));
    } else {
        let a = r1[i];
        let b = r2[i];
        if a != b {
            // a ranks before b in r1's order, and b before a in r2's.
            assert(qualifies(occ, a, min_freq, min_savings));
            assert(qualifies(occ, b, min_freq, min_savings));
            if r1.contains(b) {
                let j = choose|j: int| 0 <= j < r1.len() && r1[j] == b;
                if j < i {
                    assert(r2[j] == b);
                    assert(ranks_before(occ, r2[j], r2[i]));
                    lemma_ranks_asym(occ, b, b);
                }
                assert(j != i);
                assert(ranks_before(occ, r1[i], r1[j]));
            }
            assert(ranks_before(occ, a, b));
            if r2.contains(a) {
                let j = choose|j: int| 0 <= j < r2.len() && r2[j] == a;
                if j < i {
                    assert(r1[j] == a);
                    assert(ranks_before(occ, r1[j], r1[i]));
                    lemma_ranks_asym(occ, a, a);
                }
                assert(j != i);
                assert(ranks_before(occ, r2[i], r2[j]));
            }
            assert(ranks_before(occ, b, a));
            lemma_ranks_asym(occ, a, b);
        }
        lemma_top_selection_prefix(occ, r1, r2, min_freq, min_savings, limit, i + 1);
    }
}

} // verus!
