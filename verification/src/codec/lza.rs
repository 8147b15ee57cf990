//! LZA: LZ77 matching with table-based ANS coding.
//!
//! A block is the descriptor of the normalized symbol frequencies, then a bit stream: the
//! decoder's initial ANS state in sixteen bits, then the ANS-coded symbols with the extra
//! bits of lengths and distances. Symbols 0 to 255 are literals, 256 ends the block, 257 to
//! 285 are length codes and 286 to 317 are distance codes.
use vstd::prelude::*;

use crate::codec::lzf::{copy_match, lemma_copy_match_len};
use crate::codec::lzh::{
    decode_distance, decode_length, dist_base, dist_code, dist_extra, encode_distance, encode_length, expand,
    expand_step, lemma_dist_code, lemma_field, lemma_fit_at, lemma_fit_prefix, lemma_length_code, length_base,
    length_code, length_extra, read_field, spec_tokenize, bump, symbol_fits, symbols_fit, tokenize_lz, LzSymbol, MAX_DISTANCE,
    MAX_MATCH, MIN_MATCH,
};
use crate::codec::{step_error_is, step_fail, step_result_is, DecodeStep};
use crate::entropy::ans::{
    encoder_fields, law_ans_step_roundtrip, nonzero_counts, normalize_frequencies, seq_sum, spec_decode_entry,
    spec_encode_step, spec_encoder_fields, spec_normalize, AnsBitChunk, AnsDecodeTable, AnsEncodeTable,
};
use crate::entropy::bitstream::{bits_value, bytes_to_bits, low_bits, BitReader, BitWriter};
use crate::entropy::canonical::two_pow;
use crate::error::CodropError;

verus! {

/// Literals, end of block, length codes and distance codes.
pub const ANS_ALPHABET_SIZE: usize = 318;
/// End-of-block symbol.
pub const EOB_SYMBOL: usize = 256;

/// Index of the last nonzero entry among the first `n`, or 0.
pub open spec fn last_nonzero(f: Seq<u16>, n: int) -> int
    decreases n,
{
    if n <= 0 {
        0
    } else if f[n - 1] > 0 {
        n - 1
    } else {
        last_nonzero(f, n - 1)
    }
}

/// Length of the run of zeros at `i`, at least `r`, capped at 255 and at `end`.
pub open spec fn zero_run_from(f: Seq<u16>, i: int, end: int, r: int) -> int
    decreases 255 - r,
{
    if r < 255 && i + r < end && f[i + r] == 0 {
        zero_run_from(f, i, end, r + 1)
    } else {
        r
    }
}

/// The descriptor bytes of the entries `i..end`: a zero run as `0, run`, a value below 128
/// as one byte, a larger one as its low seven bits with the high bit set, then the rest.
pub open spec fn rle_from(f: Seq<u16>, i: int, end: int) -> Seq<u8>
    decreases end - i,
{
    if i >= end {
        Seq::empty()
    } else if f[i] == 0 {
        let run = zero_run_from(f, i, end, 1);
        if run <= 0 || i + run > end {
            Seq::empty()
        } else {
            seq![0u8, run as u8] + rle_from(f, i + run, end)
        }
    } else if f[i] < 128 {
        seq![f[i] as u8] + rle_from(f, i + 1, end)
    } else {
        seq![(128 + f[i] % 128) as u8, ((f[i] / 128) % 256) as u8] + rle_from(f, i + 1, end)
    }
}

/// The descriptor of the frequencies `f`: the last nonzero index in two bytes, little-endian,
/// then the entries up to it.
pub open spec fn spec_descriptors(f: Seq<u16>) -> Seq<u8> {
    let m = last_nonzero(f, f.len() as int);
    seq![(m % 256) as u8, ((m / 256) % 256) as u8] + rle_from(f, 0, m + 1)
}

proof fn lemma_zero_run(f: Seq<u16>, i: int, end: int, r: int)
    requires
        1 <= r <= 255,
        i + r <= end,
        forall|j: int| i <= j < i + r ==> f[j] == 0,
    ensures
        r <= zero_run_from(f, i, end, r) <= 255,
        i + zero_run_from(f, i, end, r) <= end,
        forall|j: int| i <= j < i + zero_run_from(f, i, end, r) ==> f[j] == 0,
    decreases 255 - r,
{
    if r < 255 && i + r < end && f[i + r] == 0 {
        lemma_zero_run(f, i, end, r + 1);
    }
}

/// Appends the descriptor of the normalized frequencies `norm_freq` to `out`.
pub fn serialize_ans_descriptors(norm_freq: &[u16], out: &mut Vec<u8>)
    requires
        norm_freq@.len() >= 1,
    ensures
        final(out)@ == old(out)@ + spec_descriptors(norm_freq@),
{
    let ghost f = norm_freq@;
    let n = norm_freq.len();
    let mut max_symbol: usize = 0;
    let mut s: usize = 0;
    while s < n
        invariant
            s <= n,
            n == f.len(),
            norm_freq@ == f,
            max_symbol == last_nonzero(f, s as int),
            max_symbol < n,
        decreases n - s,
    {
        if norm_freq[s] > 0 {
            max_symbol = s;
        }
        s = s + 1;
    }
    out.push((max_symbol % 256) as u8);
    out.push(((max_symbol / 256) % 256) as u8);
    let ghost head = out@;
    assert(head == old(out)@ + seq![(max_symbol % 256) as u8, ((max_symbol / 256) % 256) as u8]);
    let end = max_symbol + 1;
    let mut i: usize = 0;
    while i < end
        invariant
            i <= end,
            end <= n,
            n == f.len(),
            norm_freq@ == f,
            out@ + rle_from(f, i as int, end as int) == head + rle_from(f, 0, end as int),
        decreases end - i,
    {
        let val = norm_freq[i];
        let ghost before = out@;
        if val == 0 {
            let mut run: usize = 1;
            while i + run < end && norm_freq[i + run] == 0 && run < 255
                invariant
                    1 <= run <= 255,
                    i + run <= end,
                    end <= n,
                    n == f.len(),
                    norm_freq@ == f,
                    zero_run_from(f, i as int, end as int, 1) == zero_run_from(f, i as int, end as int, run as int),
                decreases 255 - run,
            {
                run = run + 1;
            }
            assert(zero_run_from(f, i as int, end as int, run as int) == run as int);
            out.push(0);
            out.push(run as u8);
            assert(out@ =~= before + seq![0u8, run as u8]);
            i = i + run;
        } else if val < 128 {
            out.push(val as u8);
            assert(out@ =~= before + seq![val as u8]);
            i = i + 1;
        } else {
            out.push((128 + val % 128) as u8);
            out.push(((val / 128) % 256) as u8);
            assert(out@ =~= before + seq![(128 + val % 128) as u8, ((val / 128) % 256) as u8]);
            i = i + 1;
        }
    }
    assert(out@ =~= head + rle_from(f, 0, end as int));
}

/// Parsing of descriptor entries from byte `c`, with `decoded` of `total` entries done.
pub open spec fn desc_from(input: Seq<u8>, c: int, decoded: int, total: int, acc: Seq<u16>) -> DecodeStep<Seq<u16>>
    decreases input.len() - c,
{
    if decoded >= total {
        DecodeStep::Done(acc, c)
    } else if c < 0 || c >= input.len() {
        DecodeStep::Eof
    } else if input[c] == 0 {
        if c + 1 >= input.len() {
            DecodeStep::Eof
        } else if input[c + 1] == 0 || decoded + input[c + 1] > total {
            DecodeStep::Corrupt
        } else {
            desc_from(input, c + 2, decoded + input[c + 1], total, acc)
        }
    } else if input[c] < 128 {
        desc_from(input, c + 1, decoded + 1, total, acc.update(decoded, input[c] as u16))
    } else if c + 1 >= input.len() {
        DecodeStep::Eof
    } else if (input[c] - 128) + 128 * input[c + 1] > 1024 {
        DecodeStep::Corrupt
    } else {
        desc_from(input, c + 2, decoded + 1, total, acc.update(decoded, ((input[c] - 128) + 128 * input[c + 1]) as u16))
    }
}

/// Parsing of a descriptor at byte `c`: the frequencies, 318 of them, and the position after.
pub open spec fn spec_deserialize(input: Seq<u8>, c: int) -> DecodeStep<Seq<u16>> {
    if c < 0 || c + 2 > input.len() {
        DecodeStep::Eof
    } else if input[c] + 256 * input[c + 1] >= 318 {
        DecodeStep::Corrupt
    } else {
        match desc_from(input, c + 2, 0, input[c] + 256 * input[c + 1] + 1, Seq::new(318, |i: int| 0u16)) {
            DecodeStep::Done(f, c2) => if seq_sum(f, 318) != 1024 {
                DecodeStep::Corrupt
            } else {
                DecodeStep::Done(f, c2)
            },
            p => p,
        }
    }
}

/// Parses the descriptor at `*cursor` and moves the cursor past it.
pub fn deserialize_ans_descriptors(input: &[u8], cursor: &mut usize) -> (r: Result<Vec<u16>, CodropError>)
    ensures
        match spec_deserialize(input@, *old(cursor) as int) {
            DecodeStep::Done(f, c) => r matches Ok(v) && v@ == f && *final(cursor) == c,
            p => r matches Err(e) && step_error_is(p, e),
        },        r matches Ok(v) ==> v@.len() == ANS_ALPHABET_SIZE && seq_sum(v@, ANS_ALPHABET_SIZE as int) == 1024
            && *final(cursor) <= input@.len(),
{
    let ghost src = input@;
    let ghost c0 = *cursor as int;
    let n = input.len();
    if n < 2 || *cursor > n - 2 {
        return Err(CodropError::UnexpectedEof);
    }
    let max_symbol = (input[*cursor] as usize) + 256 * (input[*cursor + 1] as usize);
    *cursor = *cursor + 2;
    if max_symbol >= ANS_ALPHABET_SIZE {
        return Err(CodropError::CorruptedEntropyStream("Invalid max_symbol in LZA table descriptor".to_string()));
    }
    let total = max_symbol + 1;
    let mut norm_freq: Vec<u16> = Vec::new();
    let mut q: usize = 0;
    while q < ANS_ALPHABET_SIZE
        invariant
            q <= ANS_ALPHABET_SIZE,
            norm_freq@.len() == q,
            forall|j: int| 0 <= j < q ==> #[trigger] norm_freq@[j] == 0,
        decreases ANS_ALPHABET_SIZE - q,
    {
        norm_freq.push(0);
        q = q + 1;
    }
    assert(norm_freq@ =~= Seq::new(318, |i: int| 0u16));
    let ghost target = desc_from(src, *cursor as int, 0, total as int, norm_freq@);
    let mut decoded: usize = 0;
    while decoded < total
        invariant
            n == src.len(),
            src == input@,
            decoded <= total,
            total <= ANS_ALPHABET_SIZE,
            norm_freq@.len() == ANS_ALPHABET_SIZE,
            desc_from(src, *cursor as int, decoded as int, total as int, norm_freq@) == target,
            c0 + 2 <= n,
            c0 == *old(cursor),
            *cursor <= n,
            total == src[c0] + 256 * src[c0 + 1] + 1,
            total <= 318,
            target == desc_from(src, c0 + 2, 0, total as int, Seq::new(318, |i: int| 0u16)),
            spec_deserialize(src, c0) == match target {
                DecodeStep::Done(f, c2) => if seq_sum(f, 318) != 1024 {
                    DecodeStep::Corrupt
                } else {
                    DecodeStep::Done(f, c2)
                },
                p => p,
            },
        decreases n - *cursor,
    {
        if *cursor >= n {
            return Err(CodropError::UnexpectedEof);
        }
        let b = input[*cursor];
        *cursor = *cursor + 1;
        if b == 0 {
            if *cursor >= n {
                return Err(CodropError::UnexpectedEof);
            }
            let run = input[*cursor] as usize;
            *cursor = *cursor + 1;
            if run == 0 || run > total - decoded {
                return Err(CodropError::CorruptedEntropyStream("Invalid RLE zero run in LZA table descriptor".to_string()));
            }
            decoded = decoded + run;
        } else if b < 128 {
            norm_freq.set(decoded, b as u16);
            decoded = decoded + 1;
        } else {
            if *cursor >= n {
                return Err(CodropError::UnexpectedEof);
            }
            let high = input[*cursor] as u16;
            *cursor = *cursor + 1;
            let val = ((b - 128) as u16) + 128 * high;
            if val > 1024 {
                return Err(CodropError::CorruptedEntropyStream("Normalized frequency exceeds ANS table size".to_string()));
            }
            norm_freq.set(decoded, val);
            decoded = decoded + 1;
        }
    }
    let mut sum: usize = 0;
    let mut k: usize = 0;
    while k < ANS_ALPHABET_SIZE
        invariant
            k <= ANS_ALPHABET_SIZE,
            norm_freq@.len() == ANS_ALPHABET_SIZE,
            sum == seq_sum(norm_freq@, k as int),
            sum <= 65535 * k,
        decreases ANS_ALPHABET_SIZE - k,
    {
        sum = sum + norm_freq[k] as usize;
        k = k + 1;
    }
    if sum != 1024 {
        return Err(CodropError::CorruptedEntropyStream("Normalized frequency sum mismatch".to_string()));
    }
    Ok(norm_freq)
}

proof fn lemma_last_nonzero(f: Seq<u16>, n: int)
    requires
        1 <= n <= f.len(),
    ensures
        0 <= last_nonzero(f, n) < n,
        forall|j: int| last_nonzero(f, n) < j < n ==> f[j] == 0,
    decreases n,
{
    if n > 1 && f[n - 1] == 0 {
        lemma_last_nonzero(f, n - 1);
    } else if n == 1 {
        assert(last_nonzero(f, 0) == 0);
    }
}

/// Reading back the descriptor bytes of the entries `i..end`.
proof fn lemma_rle_read(f: Seq<u16>, i: int, end: int, input: Seq<u8>, c: int, acc: Seq<u16>)
    requires
        f.len() == 318,
        acc.len() == 318,
        0 <= i <= end <= 318,
        forall|j: int| 0 <= j < end ==> f[j] <= 1024,
        forall|j: int| 0 <= j < i ==> acc[j] == f[j],
        forall|j: int| i <= j < 318 ==> acc[j] == 0,
        0 <= c,
        c + rle_from(f, i, end).len() <= input.len(),
        input.subrange(c, c + rle_from(f, i, end).len()) == rle_from(f, i, end),
    ensures
        desc_from(input, c, i, end, acc) == DecodeStep::Done(
            Seq::new(318, |j: int| if j < end { f[j] } else { 0u16 }),
            c + rle_from(f, i, end).len(),
        ),
    decreases end - i,
{
    let r = rle_from(f, i, end);
    let target = Seq::new(318, |j: int| if j < end { f[j] } else { 0u16 });
    if i >= end {
        assert(acc =~= target);
    } else if f[i] == 0 {
        lemma_zero_run(f, i, end, 1);
        let run = zero_run_from(f, i, end, 1);
        let tail = rle_from(f, i + run, end);
        assert(r == seq![0u8, run as u8] + tail);
        assert(input[c] == r[0]);
        assert(input[c + 1] == r[1]);
        assert(input.subrange(c + 2, c + 2 + tail.len()) =~= r.subrange(2, r.len() as int));
        assert(r.subrange(2, r.len() as int) =~= tail);
        lemma_rle_read(f, i + run, end, input, c + 2, acc);
    } else if f[i] < 128 {
        let tail = rle_from(f, i + 1, end);
        assert(r == seq![f[i] as u8] + tail);
        assert(input[c] == r[0]);
        assert(input.subrange(c + 1, c + 1 + tail.len()) =~= r.subrange(1, r.len() as int));
        assert(r.subrange(1, r.len() as int) =~= tail);
        lemma_rle_read(f, i + 1, end, input, c + 1, acc.update(i, f[i]));
    } else {
        let tail = rle_from(f, i + 1, end);
        assert(r == seq![(128 + f[i] % 128) as u8, ((f[i] / 128) % 256) as u8] + tail);
        assert(input[c] == r[0]);
        assert(input[c + 1] == r[1]);
        assert((input[c] - 128) + 128 * input[c + 1] == f[i]);
        assert(input.subrange(c + 2, c + 2 + tail.len()) =~= r.subrange(2, r.len() as int));
        assert(r.subrange(2, r.len() as int) =~= tail);
        lemma_rle_read(f, i + 1, end, input, c + 2, acc.update(i, f[i]));
    }
}

/// A descriptor parses back to the frequencies it was written from, whatever follows it.
pub proof fn law_descriptors_roundtrip(f: Seq<u16>, rest: Seq<u8>)
    requires
        f.len() == ANS_ALPHABET_SIZE,
        forall|i: int| 0 <= i < f.len() ==> #[trigger] f[i] <= 1024,
        seq_sum(f, f.len() as int) == 1024,
    ensures
        spec_deserialize(spec_descriptors(f) + rest, 0) == DecodeStep::Done(f, spec_descriptors(f).len() as int),
{
    let m = last_nonzero(f, 318);
    lemma_last_nonzero(f, 318);
    let d = spec_descriptors(f);
    let input = d + rest;
    let r = rle_from(f, 0, m + 1);
    assert(input[0] == (m % 256) as u8);
    assert(input[1] == ((m / 256) % 256) as u8);
    assert(input[0] + 256 * input[1] == m);
    assert(input.subrange(2, 2 + r.len() as int) =~= r);
    let zeros = Seq::new(318, |i: int| 0u16);
    lemma_rle_read(f, 0, m + 1, input, 2, zeros);
    assert(Seq::new(318, |j: int| if j < m + 1 { f[j] } else { 0u16 }) =~= f);
}

/// The frequencies `f` padded with zeros to the full alphabet.
pub open spec fn padded_freqs(f: Seq<u16>) -> Seq<u16> {
    Seq::new(ANS_ALPHABET_SIZE as nat, |j: int| if j < f.len() { f[j] } else { 0u16 })
}

proof fn lemma_agree_last_nonzero(f: Seq<u16>, g: Seq<u16>, n: int)
    requires
        0 <= n <= f.len(),
        n <= g.len(),
        forall|j: int| 0 <= j < n ==> f[j] == g[j],
    ensures
        last_nonzero(f, n) == last_nonzero(g, n),
    decreases n,
{
    if n > 0 {
        lemma_agree_last_nonzero(f, g, n - 1);
    }
}

proof fn lemma_padded_last_nonzero(f: Seq<u16>, n: int)
    requires
        f.len() <= n <= ANS_ALPHABET_SIZE,
    ensures
        last_nonzero(padded_freqs(f), n) == last_nonzero(f, f.len() as int),
    decreases n,
{
    let g = padded_freqs(f);
    if n > f.len() {
        assert(g[n - 1] == 0);
        lemma_padded_last_nonzero(f, n - 1);
    } else {
        lemma_agree_last_nonzero(f, g, n);
    }
}

proof fn lemma_agree_zero_run(f: Seq<u16>, g: Seq<u16>, i: int, end: int, r: int)
    requires
        0 <= i,
        0 <= r,
        end <= f.len(),
        end <= g.len(),
        forall|j: int| i <= j < end ==> f[j] == g[j],
    ensures
        zero_run_from(f, i, end, r) == zero_run_from(g, i, end, r),
    decreases 255 - r,
{
    if r < 255 && i + r < end {
        assert(f[i + r] == g[i + r]);
        if f[i + r] == 0 {
            lemma_agree_zero_run(f, g, i, end, r + 1);
        }
    }
}

proof fn lemma_agree_rle(f: Seq<u16>, g: Seq<u16>, i: int, end: int)
    requires
        0 <= i,
        end <= f.len(),
        end <= g.len(),
        forall|j: int| 0 <= j < end ==> f[j] == g[j],
    ensures
        rle_from(f, i, end) == rle_from(g, i, end),
    decreases end - i,
{
    if i < end {
        if f[i] == 0 {
            lemma_agree_zero_run(f, g, i, end, 1);
            let run = zero_run_from(f, i, end, 1);
            if run > 0 && i + run <= end {
                lemma_agree_rle(f, g, i + run, end);
            }
        } else {
            lemma_agree_rle(f, g, i + 1, end);
        }
    }
}

proof fn lemma_padded_seq_sum(f: Seq<u16>, n: int)
    requires
        0 <= n <= ANS_ALPHABET_SIZE,
        f.len() <= ANS_ALPHABET_SIZE,
    ensures
        seq_sum(padded_freqs(f), n) == seq_sum(f, if n < f.len() { n } else { f.len() as int }),
    decreases n,
{
    if n > 0 {
        lemma_padded_seq_sum(f, n - 1);
    }
}

/// A descriptor of up to 318 frequencies summing to 1024 parses back to them, padded with
/// zeros to 318 entries, whatever follows it.
pub proof fn law_short_descriptors_roundtrip(f: Seq<u16>, rest: Seq<u8>)
    requires
        1 <= f.len() <= ANS_ALPHABET_SIZE,
        forall|i: int| 0 <= i < f.len() ==> #[trigger] f[i] <= 1024,
        seq_sum(f, f.len() as int) == 1024,
    ensures
        spec_deserialize(spec_descriptors(f) + rest, 0) == DecodeStep::Done(padded_freqs(f), spec_descriptors(f).len() as int),
{
    let g = padded_freqs(f);
    lemma_padded_last_nonzero(f, 318);
    lemma_last_nonzero(f, f.len() as int);
    let m = last_nonzero(f, f.len() as int);
    lemma_agree_rle(f, g, 0, m + 1);
    assert(spec_descriptors(f) == spec_descriptors(g));
    lemma_padded_seq_sum(f, 318);
    assert forall|i: int| 0 <= i < g.len() implies #[trigger] g[i] <= 1024 by {}
    law_descriptors_roundtrip(g, rest);
}

/// The parse outcome `p` with its end position moved `k` bytes on.
pub open spec fn step_shift<T>(p: DecodeStep<T>, k: int) -> DecodeStep<T> {
    match p {
        DecodeStep::Done(v, c) => DecodeStep::Done(v, c + k),
        q => q,
    }
}

proof fn lemma_desc_from_shift(pre: Seq<u8>, x: Seq<u8>, c: int, decoded: int, total: int, acc: Seq<u16>)
    requires
        0 <= c,
    ensures
        desc_from(pre + x, c + pre.len(), decoded, total, acc) == step_shift(desc_from(x, c, decoded, total, acc), pre.len() as int),
    decreases x.len() - c,
{
    let s = pre + x;
    let k = pre.len() as int;
    if decoded < total && c < x.len() {
        assert(s[c + k] == x[c]);
        if c + 1 < x.len() {
            assert(s[c + 1 + k] == x[c + 1]);
        }
        if x[c] == 0 {
            if c + 1 < x.len() && !(x[c + 1] == 0 || decoded + x[c + 1] > total) {
                lemma_desc_from_shift(pre, x, c + 2, decoded + x[c + 1], total, acc);
            }
        } else if x[c] < 128 {
            lemma_desc_from_shift(pre, x, c + 1, decoded + 1, total, acc.update(decoded, x[c] as u16));
        } else if c + 1 < x.len() && !((x[c] - 128) + 128 * x[c + 1] > 1024) {
            lemma_desc_from_shift(pre, x, c + 2, decoded + 1, total, acc.update(decoded, ((x[c] - 128) + 128 * x[c + 1]) as u16));
        }
    }
}

/// Parsing a descriptor after `pre` gives what parsing it at the start gives, with its end
/// position moved past `pre`.
pub proof fn lemma_deserialize_shift(pre: Seq<u8>, x: Seq<u8>)
    ensures
        spec_deserialize(pre + x, pre.len() as int) == step_shift(spec_deserialize(x, 0), pre.len() as int),
{
    let s = pre + x;
    let k = pre.len() as int;
    if x.len() >= 2 {
        assert(s[k] == x[0] && s[k + 1] == x[1]);
        lemma_desc_from_shift(pre, x, 2, 0, x[0] + 256 * x[1] + 1, Seq::new(318, |i: int| 0u16));
    }
}

/// A descriptor of up to 318 frequencies summing to 1024, written after any bytes `pre` and
/// followed by any bytes, parses back at its start to the frequencies padded with zeros to 318
/// entries, ending right after it.
pub proof fn law_descriptors_roundtrip_at(f: Seq<u16>, pre: Seq<u8>, rest: Seq<u8>)
    requires
        1 <= f.len() <= ANS_ALPHABET_SIZE,
        forall|i: int| 0 <= i < f.len() ==> #[trigger] f[i] <= 1024,
        seq_sum(f, f.len() as int) == 1024,
    ensures
        spec_deserialize(pre + spec_descriptors(f) + rest, pre.len() as int) == DecodeStep::Done(
            padded_freqs(f),
            (pre.len() + spec_descriptors(f).len()) as int,
        ),
{
    law_short_descriptors_roundtrip(f, rest);
    lemma_deserialize_shift(pre, spec_descriptors(f) + rest);
    assert(pre + spec_descriptors(f) + rest =~= pre + (spec_descriptors(f) + rest));
}

/// One ANS decoding step from state `x` at bit `pos`: the symbol, the next state and the
/// position after the bits read, if they are there.
pub open spec fn ans_next(f: Seq<u16>, x: int, bits: Seq<bool>, pos: int) -> Option<(int, int, int)> {
    let e = spec_decode_entry(f, x - 1024);
    if pos + e.num_bits <= bits.len() {
        Some(
            (
                e.symbol as int,
                1024 + e.new_state_base + bits_value(bits.skip(pos).take(e.num_bits as int)),
                pos + e.num_bits,
            ),
        )
    } else {
        None
    }
}

/// Decoding of the ANS-coded symbols from state `x` at bit `pos`, with `out` decoded so far.
pub open spec fn lza_body(f: Seq<u16>, bits: Seq<bool>, x: int, pos: int, out: Seq<u8>, expected: int) -> DecodeStep<
    Seq<u8>,
>
    decreases expected - out.len(),
{
    if !(1024 <= x < 2048) {
        DecodeStep::Corrupt
    } else {
        match ans_next(f, x, bits, pos) {
            None => DecodeStep::Eof,
            Some((sym, x1, p1)) => {
                if sym < 256 {
                    if out.len() >= expected {
                        DecodeStep::BadLength(1, 0)
                    } else {
                        lza_body(f, bits, x1, p1, out.push(sym as u8), expected)
                    }
                } else if sym == 256 {
                    if out.len() != expected { DecodeStep::Eof } else { DecodeStep::Done(out, p1) }
                } else if sym <= 285 {
                    match read_field(bits, p1, length_extra(sym - 257)) {
                        None => DecodeStep::Eof,
                        Some(ev) => {
                            let ml = length_base(sym - 257) + ev;
                            let p2 = p1 + length_extra(sym - 257);
                            let remaining = if expected > out.len() { expected - out.len() } else { 0 };
                            if ml > remaining {
                                DecodeStep::BadLength(ml, remaining)
                            } else if !(1024 <= x1 < 2048) {
                                DecodeStep::Corrupt
                            } else {
                                match ans_next(f, x1, bits, p2) {
                                    None => DecodeStep::Eof,
                                    Some((ds, x2, p3)) => {
                                        if !(286 <= ds <= 317) || ds - 286 >= 30 {
                                            DecodeStep::Corrupt
                                        } else {
                                            match read_field(bits, p3, dist_extra(ds - 286)) {
                                                None => DecodeStep::Eof,
                                                Some(dv) => {
                                                    let d = dist_base(ds - 286) + dv;
                                                    let p4 = p3 + dist_extra(ds - 286);
                                                    if d == 0 || d > out.len() {
                                                        DecodeStep::BadOffset(d, out.len() as int)
                                                    } else if ml <= 0 {
                                                        DecodeStep::Corrupt
                                                    } else {
                                                        proof {
                                                            lemma_copy_match_len(out, d, ml as nat);
                                                        }
                                                        lza_body(f, bits, x2, p4, copy_match(out, d, ml as nat), expected)
                                                    }
                                                },
                                            }
                                        }
                                    },
                                }
                            }
                        },
                    }
                } else {
                    DecodeStep::Corrupt
                }
            },
        }
    }
}

/// Decoding of a whole LZA block that must produce `expected` bytes.
pub open spec fn spec_lza_decode(compressed: Seq<u8>, expected: int) -> DecodeStep<Seq<u8>> {
    if expected == 0 {
        DecodeStep::Done(Seq::empty(), 0)
    } else if compressed.len() == 0 {
        DecodeStep::Eof
    } else {
        match spec_deserialize(compressed, 0) {
            DecodeStep::Done(f, c) => {
                let bits = bytes_to_bits(compressed.skip(c));
                match read_field(bits, 0, 16) {
                    None => DecodeStep::Eof,
                    Some(x0) => if x0 < 1024 || x0 >= 2048 {
                        DecodeStep::Corrupt
                    } else {
                        lza_body(f, bits, x0, 16, Seq::empty(), expected)
                    },
                }
            },
            p => step_fail(p),
        }
    }
}

/// LZA codec: LZ77 with table-based ANS coding.
pub struct LzaCodec;

impl LzaCodec {
    /// Decode an LZA block that must produce `expected_len` bytes.
    pub fn decode(compressed: &[u8], expected_len: usize) -> (r: Result<Vec<u8>, CodropError>)
        ensures
            step_result_is(spec_lza_decode(compressed@, expected_len as int), r),
    {
        if expected_len == 0 {
            return Ok(Vec::new());
        }
        if compressed.len() == 0 {
            return Err(CodropError::UnexpectedEof);
        }
        let mut cursor: usize = 0;
        let norm_freq = match deserialize_ans_descriptors(compressed, &mut cursor) {
            Ok(f) => f,
            Err(e) => {
                return Err(e);
            },
        };
        let ghost f = norm_freq@;
        let table = match AnsDecodeTable::build(&norm_freq) {
            Ok(t) => t,
            Err(e) => {
                return Err(e);
            },
        };
        let rest = vstd::slice::slice_subrange(compressed, cursor, compressed.len());
        let ghost bits = bytes_to_bits(compressed@.skip(cursor as int));
        assert(rest@ =~= compressed@.skip(cursor as int));
        let mut reader = BitReader::new(rest);
        let first = match reader.read_bits(16) {
            Ok(v) => v,
            Err(e) => {
                return Err(e);
            },
        };
        proof {
            crate::entropy::canonical::lemma_bits_value_lt_pow(bits.skip(0).take(16));
            assert(crate::entropy::canonical::two_pow(16) == 65536) by {
                reveal_with_fuel(crate::entropy::canonical::two_pow, 17);
            }
        }
        let mut state = first as u16;
        if state < 1024 || state >= 2048 {
            return Err(CodropError::CorruptedEntropyStream("Invalid initial ANS state".to_string()));
        }
        let ghost target = lza_body(f, bits, state as int, 16, Seq::empty(), expected_len as int);
        let mut out: Vec<u8> = Vec::new();
        loop
            invariant
                reader.wf(),
                reader.bits() == bits,
                table.wf(),
                table.entries@ == Seq::new(1024, |p: int| spec_decode_entry(f, p)),
                1024 <= state < 2048,
                out@.len() <= expected_len,
                target == spec_lza_decode(compressed@, expected_len as int),
                target == lza_body(f, bits, state as int, reader.position(), out@, expected_len as int),
            decreases expected_len - out@.len(),
        {
            let sym = match table.decode_symbol(&mut state, &mut reader) {
                Ok(s) => s as usize,
                Err(e) => {
                    return Err(e);
                },
            };
            if sym < 256 {
                if out.len() >= expected_len {
                    return Err(CodropError::InvalidMatchLength { length: 1, remaining: 0 });
                }
                out.push(sym as u8);
            } else if sym == EOB_SYMBOL {
                if out.len() != expected_len {
                    return Err(CodropError::UnexpectedEof);
                }
                return Ok(out);
            } else if sym <= 285 {
                let match_len = match decode_length(sym, &mut reader) {
                    Ok(l) => l,
                    Err(e) => {
                        return Err(e);
                    },
                };
                let remaining = expected_len - out.len();
                if match_len > remaining {
                    return Err(CodropError::InvalidMatchLength { length: match_len, remaining });
                }
                let dist_sym = match table.decode_symbol(&mut state, &mut reader) {
                    Ok(s) => s as usize,
                    Err(e) => {
                        return Err(e);
                    },
                };
                if dist_sym < 286 || dist_sym > 317 {
                    return Err(CodropError::CorruptedEntropyStream("Invalid distance symbol in LZA stream".to_string()));
                }
                let distance = match decode_distance(dist_sym - 286, &mut reader) {
                    Ok(d) => d,
                    Err(e) => {
                        return Err(e);
                    },
                };
                if distance == 0 || distance > out.len() {
                    return Err(CodropError::InvalidOffset { offset: distance, max_valid: out.len() });
                }
                if match_len == 0 {
                    return Err(CodropError::CorruptedEntropyStream("Empty match".to_string()));
                }
                let start = out.len() - distance;
                let ghost out2 = out@;
                let mut k: usize = 0;
                while k < match_len
                    invariant
                        k <= match_len,
                        start + distance == out2.len(),
                        distance >= 1,
                        out@ == copy_match(out2, distance as int, k as nat),
                        out@.len() == out2.len() + k,
                        out2.len() + match_len <= expected_len,
                    decreases match_len - k,
                {
                    let b = out[start + k];
                    out.push(b);
                    k = k + 1;
                }
            } else {
                return Err(CodropError::CorruptedEntropyStream("Unexpected symbol in LZA stream".to_string()));
            }
        }
    }
}

/// One ANS encoding step of symbol `s` from state `x`: bit count, bits and the next state.
pub open spec fn enc_step(f: Seq<u16>, s: int, x: int) -> (u8, u32, u16) {
    spec_encode_step(spec_encoder_fields(f, s), x)
}

/// The bits of a chunk of `nb` bits of value `v`.
pub open spec fn chunk_bits(nb: u8, v: u32) -> Seq<bool> {
    low_bits(v as u64, nb as nat)
}

/// Encoding of the symbol `t` when the state after it is `x`: the state that decodes it, and
/// its bits in stream order.
pub open spec fn token_chunks(f: Seq<u16>, t: LzSymbol, x: int) -> (int, Seq<bool>) {
    match t {
        LzSymbol::Literal(b) => {
            let st = enc_step(f, b as int, x);
            (st.2 as int, chunk_bits(st.0, st.1))
        },
        LzSymbol::Match { length, distance } => {
            let lc = length_code(length as int);
            let dc = dist_code(distance as int);
            let d = enc_step(f, 286 + dc, x);
            let l = enc_step(f, 257 + lc, d.2 as int);
            (
                l.2 as int,
                chunk_bits(l.0, l.1) + low_bits((length - length_base(lc)) as u64, length_extra(lc) as nat) + chunk_bits(
                    d.0,
                    d.1,
                ) + low_bits((distance - dist_base(dc)) as u64, dist_extra(dc) as nat),
            )
        },
    }
}

/// Encoding of the symbols `ts[k..]` followed by the end of block: the state that decodes
/// them, and their bits in stream order.
pub open spec fn suffix_enc(f: Seq<u16>, ts: Seq<LzSymbol>, k: int) -> (int, Seq<bool>)
    decreases ts.len() - k,
{
    if k >= ts.len() {
        let st = enc_step(f, 256, 1024);
        (st.2 as int, chunk_bits(st.0, st.1))
    } else {
        let r = suffix_enc(f, ts, k + 1);
        let t = token_chunks(f, ts[k], r.0);
        (t.0, t.1 + r.1)
    }
}

/// The bits of the chunks `cs`, last chunk first.
pub open spec fn rev_chunks_bits(cs: Seq<AnsBitChunk>) -> Seq<bool>
    decreases cs.len(),
{
    if cs.len() == 0 {
        Seq::empty()
    } else {
        chunk_bits(cs.last().bits, cs.last().val) + rev_chunks_bits(cs.drop_last())
    }
}

/// The symbols coding `t`, all of whose frequencies must be positive.
pub open spec fn coded_by(f: Seq<u16>, t: LzSymbol) -> bool {
    match t {
        LzSymbol::Literal(b) => f[b as int] > 0,
        LzSymbol::Match { length, distance } => f[257 + length_code(length as int)] > 0 && f[286 + dist_code(
            distance as int,
        )] > 0,
    }
}

proof fn lemma_nonzero_counts(raw: Seq<u32>, n: int, i: int)
    requires
        0 <= i < n <= raw.len(),
        raw[i] > 0,
    ensures
        1 <= nonzero_counts(raw, n) <= n,
    decreases n,
{
    if n - 1 > i {
        lemma_nonzero_counts(raw, n - 1, i);
    } else {
        lemma_nonzero_counts_le(raw, n - 1);
    }
}

proof fn lemma_nonzero_counts_le(raw: Seq<u32>, n: int)
    requires
        0 <= n,
    ensures
        nonzero_counts(raw, n) <= n,
    decreases n,
{
    if n > 0 {
        lemma_nonzero_counts_le(raw, n - 1);
    }
}

/// One decoding step undoes one encoding step of a symbol of positive frequency.
proof fn lemma_ans_symbol(f: Seq<u16>, s: int, x: int, bits: Seq<bool>, p: int)
    requires
        seq_sum(f, f.len() as int) == 1024,
        f.len() == ANS_ALPHABET_SIZE,
        0 <= s < f.len(),
        f[s] > 0,
        1024 <= x < 2048,
        0 <= p,
        p + enc_step(f, s, x).0 <= bits.len(),
        bits.subrange(p, p + enc_step(f, s, x).0) == chunk_bits(enc_step(f, s, x).0, enc_step(f, s, x).1),
    ensures
        1024 <= enc_step(f, s, x).2 < 2048,
        ans_next(f, enc_step(f, s, x).2 as int, bits, p) == Some((s, x, p + enc_step(f, s, x).0)),
{
    law_ans_step_roundtrip(f, s, x);
    let (nb, v, y) = enc_step(f, s, x);
    lemma_field(bits, p, v, nb as nat);
}

/// Decoding the bits of one encoded symbol appends what the symbol stands for and moves to
/// the state after it.
#[verifier::spinoff_prover]
proof fn lemma_lza_token(f: Seq<u16>, t: LzSymbol, x: int, bits: Seq<bool>, p: int, out: Seq<u8>, n: int)
    requires
        seq_sum(f, f.len() as int) == 1024,
        f.len() == ANS_ALPHABET_SIZE,
        coded_by(f, t),
        symbol_fits(t, out.len() as int),
        1024 <= x < 2048,
        0 <= p,
        p + token_chunks(f, t, x).1.len() <= bits.len(),
        bits.subrange(p, p + token_chunks(f, t, x).1.len()) == token_chunks(f, t, x).1,
        expand_step(out, t).len() <= n,
    ensures
        1024 <= token_chunks(f, t, x).0 < 2048,
        lza_body(f, bits, token_chunks(f, t, x).0, p, out, n) == lza_body(
            f,
            bits,
            x,
            p + token_chunks(f, t, x).1.len(),
            expand_step(out, t),
            n,
        ),
{
    let tb = token_chunks(f, t, x).1;
    match t {
        LzSymbol::Literal(b) => {
            lemma_ans_symbol(f, b as int, x, bits, p);
        },
        LzSymbol::Match { length, distance } => {
            let lc = length_code(length as int);
            let dc = dist_code(distance as int);
            lemma_length_code(length as int);
            lemma_dist_code(distance as int);
            let d = enc_step(f, 286 + dc, x);
            let l = enc_step(f, 257 + lc, d.2 as int);
            law_ans_step_roundtrip(f, 286 + dc, x);
            let c1 = chunk_bits(l.0, l.1);
            let le = length_extra(lc) as nat;
            let lv = (length - length_base(lc)) as u32;
            let c2 = chunk_bits(d.0, d.1);
            let de = dist_extra(dc) as nat;
            let dv = (distance - dist_base(dc)) as u32;
            assert(tb =~= c1 + low_bits(lv as u64, le) + c2 + low_bits(dv as u64, de));
            let a = c1.len() as int;
            let b = le as int;
            let c = c2.len() as int;
            let p1 = p + a;
            assert(bits.subrange(p, p + l.0) =~= tb.subrange(0, c1.len() as int));
            assert(tb.subrange(0, c1.len() as int) =~= c1);
            lemma_ans_symbol(f, 257 + lc, d.2 as int, bits, p);
            assert(bits.subrange(p1, p1 + le) =~= tb.subrange(a, a + b));
            assert(tb.subrange(a, a + b) =~= low_bits(lv as u64, le));
            lemma_field(bits, p1, lv, le);
            let p2 = p1 + le;
            assert(bits.subrange(p2, p2 + d.0) =~= tb.subrange(a + b, a + b + c));
            assert(tb.subrange(a + b, a + b + c) =~= c2);
            lemma_ans_symbol(f, 286 + dc, x, bits, p2);
            let p3 = p2 + c;
            assert(bits.subrange(p3, p3 + de) =~= tb.subrange(a + b + c, tb.len() as int));
            assert(tb.subrange(a + b + c, tb.len() as int) =~= low_bits(dv as u64, de));
            lemma_field(bits, p3, dv, de);
            lemma_copy_match_len(out, distance as int, length as nat);
        },
    }
}

/// Decoding the encoded symbols `ts[k..]` and the end of block completes the bytes that `ts`
/// stand for.
proof fn lemma_lza_tokens(f: Seq<u16>, ts: Seq<LzSymbol>, k: int, bits: Seq<bool>, p: int)
    requires
        seq_sum(f, f.len() as int) == 1024,
        f.len() == ANS_ALPHABET_SIZE,
        f[256] > 0,
        forall|j: int| 0 <= j < ts.len() ==> coded_by(f, #[trigger] ts[j]),
        symbols_fit(ts),
        0 <= k <= ts.len(),
        0 <= p,
        p + suffix_enc(f, ts, k).1.len() <= bits.len(),
        bits.subrange(p, p + suffix_enc(f, ts, k).1.len()) == suffix_enc(f, ts, k).1,
    ensures
        1024 <= suffix_enc(f, ts, k).0 < 2048,
        lza_body(f, bits, suffix_enc(f, ts, k).0, p, expand(ts.take(k)), expand(ts).len() as int) matches DecodeStep::Done(
            d,
            _,
        ) && d == expand(ts),
    decreases ts.len() - k,
{
    let n = expand(ts).len() as int;
    if k == ts.len() {
        assert(ts.take(k) =~= ts);
        lemma_ans_symbol(f, 256, 1024, bits, p);
    } else {
        let r = suffix_enc(f, ts, k + 1);
        let tc = token_chunks(f, ts[k], r.0);
        let all = suffix_enc(f, ts, k).1;
        assert(all == tc.1 + r.1);
        assert(bits.subrange(p, p + tc.1.len()) =~= all.subrange(0, tc.1.len() as int));
        assert(all.subrange(0, tc.1.len() as int) =~= tc.1);
        let q = p + tc.1.len();
        assert(bits.subrange(q, q + r.1.len()) =~= all.subrange(tc.1.len() as int, all.len() as int));
        assert(all.subrange(tc.1.len() as int, all.len() as int) =~= r.1);
        lemma_lza_tokens(f, ts, k + 1, bits, q);
        lemma_fit_at(ts, k);
        lemma_fit_prefix(ts, k + 1);
        let next = ts.take(k + 1);
        assert(next.drop_last() =~= ts.take(k));
        assert(expand(next) == expand_step(expand(ts.take(k)), ts[k]));
        lemma_lza_token(f, ts[k], r.0, bits, p, expand(ts.take(k)), n);
    }
}

/// The symbol counts of `ts`: a literal counts its byte, a match its length code and its
/// distance code.
pub open spec fn lza_tally(ts: Seq<LzSymbol>) -> Seq<u32>
    decreases ts.len(),
{
    if ts.len() == 0 {
        Seq::new(ANS_ALPHABET_SIZE as nat, |i: int| 0u32)
    } else {
        let f = lza_tally(ts.drop_last());
        match ts.last() {
            LzSymbol::Literal(b) => bump(f, b as int),
            LzSymbol::Match { length, distance } => bump(
                bump(f, 257 + length_code(length as int)),
                286 + dist_code(distance as int),
            ),
        }
    }
}

/// The normalized frequencies with which `data` is coded: the symbol counts of its LZ
/// symbols, with one end-of-block symbol, scaled to 1024.
pub open spec fn lza_freqs(data: Seq<u8>) -> Seq<u16> {
    spec_normalize(lza_tally(spec_tokenize(data)).update(EOB_SYMBOL as int, 1u32), ANS_ALPHABET_SIZE as int, 1024)
}

/// `r` is the LZA coding of `data`: nothing for no data; else the descriptor of the
/// frequencies, then the bytes (zero-padded, least significant bit first) of the initial
/// decoder state in 16 bits and the ANS coding of the LZ symbols followed by the end of block.
pub open spec fn lza_encoded(data: Seq<u8>, r: Seq<u8>) -> bool {
    if data.len() == 0 {
        r.len() == 0
    } else {
        let f = lza_freqs(data);
        let e = suffix_enc(f, spec_tokenize(data), 0);
        let d = spec_descriptors(f);
        let v = low_bits(e.0 as u64, 16) + e.1;
        &&& d.len() <= r.len()
        &&& r.take(d.len() as int) == d
        &&& bytes_to_bits(r.skip(d.len() as int)) == v + Seq::new(
            (if v.len() % 8 == 0 { 0 } else { 8 - v.len() % 8 }) as nat,
            |i: int| false,
        )
    }
}

/// Two LZA codings of the same data have the same length.
pub proof fn lemma_lza_encoded_len(data: Seq<u8>, q1: Seq<u8>, q2: Seq<u8>)
    requires
        lza_encoded(data, q1),
        lza_encoded(data, q2),
    ensures
        q1.len() == q2.len(),
{
    if data.len() > 0 {
        let f = lza_freqs(data);
        let d = spec_descriptors(f);
        crate::entropy::bitstream::lemma_bytes_to_bits_len(q1.skip(d.len() as int));
        crate::entropy::bitstream::lemma_bytes_to_bits_len(q2.skip(d.len() as int));
    }
}

/// Two LZA codings of the same data are equal.
pub proof fn lemma_lza_encoded_unique(data: Seq<u8>, q1: Seq<u8>, q2: Seq<u8>)
    requires
        lza_encoded(data, q1),
        lza_encoded(data, q2),
    ensures
        q1 == q2,
{
    if data.len() == 0 {
        assert(q1 =~= q2);
    } else {
        let dl = spec_descriptors(lza_freqs(data)).len() as int;
        crate::entropy::bitstream::lemma_bytes_to_bits_injective(q1.skip(dl), q2.skip(dl));
        assert(q1 =~= q1.take(dl) + q1.skip(dl));
        assert(q2 =~= q2.take(dl) + q2.skip(dl));
    }
}

/// The LZA coding of `data` (the one sequence that `lza_encoded` admits).
pub open spec fn spec_lza_bytes(data: Seq<u8>) -> Seq<u8> {
    choose|q: Seq<u8>| lza_encoded(data, q)
}

/// The ANS chunk of one symbol, encoded from `state`.
fn encode_chunk(table: &AnsEncodeTable, f: Ghost<Seq<u16>>, s: usize, state: &mut u16) -> (r: AnsBitChunk)
    requires
        table.encodes(f@),
        f@.len() == ANS_ALPHABET_SIZE,
        s < ANS_ALPHABET_SIZE,
        f@[s as int] > 0,
        1024 <= *old(state) < 2048,
    ensures
        r.bits == enc_step(f@, s as int, *old(state) as int).0,
        r.val == enc_step(f@, s as int, *old(state) as int).1,
        *final(state) == enc_step(f@, s as int, *old(state) as int).2,
        1024 <= *final(state) < 2048,
        r.bits <= 10,
{
    proof {
        assert(crate::entropy::ans::encoder_is(table.symbols@[s as int], spec_encoder_fields(f@, s as int)));
        assert(encoder_fields(table.symbols@[s as int]) == spec_encoder_fields(f@, s as int));
        law_ans_step_roundtrip(f@, s as int, *old(state) as int);
    }
    let (nb, val) = table.encode_symbol(s, state);
    AnsBitChunk { bits: nb, val }
}

impl LzaCodec {
    /// Encode `data` as an LZA block; it decodes back to `data`.
    #[verifier::spinoff_prover]
    #[verifier::rlimit(60)]
    pub fn encode(data: &[u8]) -> (r: Vec<u8>)
        ensures
            lza_encoded(data@, r@),
            r@ == spec_lza_bytes(data@),
            spec_lza_decode(r@, data@.len() as int) matches DecodeStep::Done(d, _) && d == data@,
    {
        if data.len() == 0 {
            proof {
                assert(lza_encoded(data@, Seq::<u8>::empty()));
                lemma_lza_encoded_unique(data@, Seq::<u8>::empty(), spec_lza_bytes(data@));
            }
            return Vec::new();
        }
        let symbols = tokenize_lz(data);
        let ghost ts = symbols@;
        let mut freq: Vec<u32> = Vec::new();
        let mut q: usize = 0;
        while q < ANS_ALPHABET_SIZE
            invariant
                q <= ANS_ALPHABET_SIZE,
                freq@.len() == q,
                forall|j: int| 0 <= j < q ==> #[trigger] freq@[j] == 0u32,
            decreases ANS_ALPHABET_SIZE - q,
        {
            freq.push(0);
            q = q + 1;
        }
        assert(freq@ =~= lza_tally(ts.take(0)));
        let mut k: usize = 0;
        while k < symbols.len()
            invariant
                k <= symbols@.len(),
                ts == symbols@,
                symbols_fit(ts),
                freq@.len() == ANS_ALPHABET_SIZE,
                freq@ == lza_tally(ts.take(k as int)),
                forall|j: int| 0 <= j < k ==> match #[trigger] ts[j] {
                    LzSymbol::Literal(b) => freq@[b as int] > 0,
                    LzSymbol::Match { length, distance } => freq@[257 + length_code(length as int)] > 0 && freq@[286
                        + dist_code(distance as int)] > 0 && 0 <= length_code(length as int) < 29 && 0 <= dist_code(
                        distance as int,
                    ) < 30,
                },
            decreases symbols@.len() - k,
        {
            proof {
                lemma_fit_at(ts, k as int);
                assert(ts.take(k as int + 1).drop_last() =~= ts.take(k as int));
                assert(ts.take(k as int + 1).last() == ts[k as int]);
            }
            let ghost f0 = freq@;
            match symbols[k] {
                LzSymbol::Literal(b) => {
                    let s = b as usize;
                    if freq[s] < 0xFFFF_FFFF {
                        freq.set(s, freq[s] + 1);
                    }
                    assert(freq@ == bump(f0, b as int));
                },
                LzSymbol::Match { length, distance } => {
                    let (ls, _, _) = encode_length(length);
                    if freq[ls] < 0xFFFF_FFFF {
                        freq.set(ls, freq[ls] + 1);
                    }
                    let ghost f1 = freq@;
                    assert(f1 == bump(f0, 257 + length_code(length as int)));
                    let (dc, _, _) = encode_distance(distance);
                    if freq[286 + dc] < 0xFFFF_FFFF {
                        freq.set(286 + dc, freq[286 + dc] + 1);
                    }
                    assert(freq@ == bump(f1, 286 + dist_code(distance as int)));
                },
            }
            k = k + 1;
        }
        proof {
            assert(ts.take(ts.len() as int) =~= ts);
        }
        freq.set(EOB_SYMBOL, 1);
        proof {
            lemma_nonzero_counts(freq@, 318, 256);
        }
        let norm_freq = normalize_frequencies(&freq, ANS_ALPHABET_SIZE, 1024);
        let ghost f = norm_freq@;
        assert(f == lza_freqs(data@));
        let enc_table = match AnsEncodeTable::build(&norm_freq) {
            Ok(t) => t,
            Err(_) => {
                proof {
                    assert(seq_sum(f, f.len() as int) == 1024);
                    assert(false);
                }
                return Vec::new();
            },
        };
        proof {
            assert forall|j: int| 0 <= j < ts.len() implies coded_by(f, #[trigger] ts[j]) by {
                match ts[j] {
                    LzSymbol::Literal(b) => {
                        assert(f[b as int] > 0 <==> freq@[b as int] > 0);
                    },
                    LzSymbol::Match { length, distance } => {
                        let a = 257 + length_code(length as int);
                        let c = 286 + dist_code(distance as int);
                        assert(f[a] > 0 <==> freq@[a] > 0);
                        assert(f[c] > 0 <==> freq@[c] > 0);
                    },
                }
            }
            assert(f[256] > 0 <==> freq@[256] > 0);
        }
        let mut state: u16 = 1024;
        let mut chunks: Vec<AnsBitChunk> = Vec::new();
        let eob = encode_chunk(&enc_table, Ghost(f), EOB_SYMBOL, &mut state);
        chunks.push(eob);
        proof {
            assert(chunks@.drop_last() =~= Seq::<AnsBitChunk>::empty());
            assert(chunks@.last() == eob);
            assert(rev_chunks_bits(chunks@.drop_last()) == Seq::<bool>::empty());
            assert(rev_chunks_bits(chunks@) =~= chunk_bits(eob.bits, eob.val));
        }
        let mut k: usize = symbols.len();
        while k > 0
            invariant
                k <= symbols@.len(),
                ts == symbols@,
                symbols_fit(ts),
                enc_table.encodes(f),
                f.len() == ANS_ALPHABET_SIZE,
                forall|j: int| 0 <= j < ts.len() ==> coded_by(f, #[trigger] ts[j]),
                1024 <= state < 2048,
                state == suffix_enc(f, ts, k as int).0,
                rev_chunks_bits(chunks@) == suffix_enc(f, ts, k as int).1,
                forall|i: int| 0 <= i < chunks@.len() ==> #[trigger] chunks@[i].bits <= 32,
            decreases k,
        {
            k = k - 1;
            proof {
                lemma_fit_at(ts, k as int);
            }
            let ghost before = chunks@;
            let ghost x = state as int;
            match symbols[k] {
                LzSymbol::Literal(b) => {
                    let c = encode_chunk(&enc_table, Ghost(f), b as usize, &mut state);
                    chunks.push(c);
                    proof {
                        assert(chunks@.drop_last() =~= before);
                    }
                },
                LzSymbol::Match { length, distance } => {
                    let (dc, de, dv) = encode_distance(distance);
                    let (ls, le, lv) = encode_length(length);
                    proof {
                        lemma_length_code(length as int);
                        lemma_dist_code(distance as int);
                    }
                    if de > 0 {
                        chunks.push(AnsBitChunk { bits: de, val: dv });
                    } else {
                        assert(low_bits(dv as u64, 0) =~= Seq::<bool>::empty());
                    }
                    let ghost b1 = chunks@;
                    let c2 = encode_chunk(&enc_table, Ghost(f), 286 + dc, &mut state);
                    chunks.push(c2);
                    let ghost b2 = chunks@;
                    if le > 0 {
                        chunks.push(AnsBitChunk { bits: le, val: lv });
                    } else {
                        assert(low_bits(lv as u64, 0) =~= Seq::<bool>::empty());
                    }
                    let ghost b3 = chunks@;
                    let c1 = encode_chunk(&enc_table, Ghost(f), ls, &mut state);
                    chunks.push(c1);
                    proof {
                        assert(chunks@.drop_last() =~= b3);
                        assert(b2.drop_last() =~= b1);
                        if le > 0 {
                            assert(b3.drop_last() =~= b2);
                        }
                        if de > 0 {
                            assert(b1.drop_last() =~= before);
                        }
                        let tc = token_chunks(f, symbols@[k as int], x);
                        let lb = low_bits(lv as u64, le as nat);
                        let db = low_bits(dv as u64, de as nat);
                        assert(rev_chunks_bits(chunks@) == chunk_bits(c1.bits, c1.val) + rev_chunks_bits(b3));
                        assert(rev_chunks_bits(b3) =~= lb + rev_chunks_bits(b2));
                        assert(rev_chunks_bits(b2) == chunk_bits(c2.bits, c2.val) + rev_chunks_bits(b1));
                        assert(rev_chunks_bits(b1) =~= db + rev_chunks_bits(before));
                        assert(tc.1 =~= chunk_bits(c1.bits, c1.val) + lb + chunk_bits(c2.bits, c2.val) + db);
                        assert(rev_chunks_bits(chunks@) =~= tc.1 + rev_chunks_bits(before));
                    }
                },
            }
        }
        let initial_state = state;
        let mut payload: Vec<u8> = Vec::new();
        serialize_ans_descriptors(&norm_freq, &mut payload);
        let ghost desc = payload@;
        assert(desc =~= spec_descriptors(f));
        let mut w = BitWriter::new();
        w.write_bits(initial_state as u32, 16);
        let ghost head = w.view();
        assert(head =~= low_bits(initial_state as u64, 16));
        let mut i: usize = chunks.len();
        assert(chunks@.take(i as int) =~= chunks@);
        while i > 0
            invariant
                i <= chunks@.len(),
                w.wf(),
                w.view() + rev_chunks_bits(chunks@.take(i as int)) == head + rev_chunks_bits(chunks@),
                forall|j: int| 0 <= j < chunks@.len() ==> #[trigger] chunks@[j].bits <= 32,
            decreases i,
        {
            let ghost v0 = w.view();
            i = i - 1;
            let c = chunks[i];
            w.write_bits(c.val, c.bits);
            proof {
                assert(chunks@.take(i + 1).drop_last() =~= chunks@.take(i as int));
                assert(chunks@.take(i + 1).last() == c);
                assert(w.view() + rev_chunks_bits(chunks@.take(i as int)) =~= v0 + rev_chunks_bits(chunks@.take(i + 1)));
            }
        }
        let ghost v = w.view();
        let bytes = w.into_bytes();
        crate::buf::append_slice(&mut payload, &bytes);
        proof {
            assert(chunks@.take(0) =~= Seq::<AnsBitChunk>::empty());
            assert(v == head + suffix_enc(f, ts, 0).1);
            assert forall|j: int| 0 <= j < f.len() implies #[trigger] f[j] <= 1024 by {
                crate::entropy::ans::lemma_entry_le_sum(f, j, f.len() as int);
            }
            law_descriptors_roundtrip(f, bytes@);
            assert(payload@.skip(desc.len() as int) =~= bytes@);
            let bits = bytes_to_bits(bytes@);
            let all = suffix_enc(f, ts, 0).1;
            assert(bits.subrange(0, 16) =~= low_bits(initial_state as u64, 16));
            assert(two_pow(16) == 65536) by {
                reveal_with_fuel(two_pow, 17);
            }
            lemma_field(bits, 0, initial_state as u32, 16);
            assert(bits.subrange(16, 16 + all.len() as int) =~= all);
            assert(ts.take(0) =~= Seq::<LzSymbol>::empty());
            lemma_lza_tokens(f, ts, 0, bits, 16);
            assert(payload@.take(desc.len() as int) =~= desc);
            assert(lza_encoded(data@, payload@));
            lemma_lza_encoded_unique(data@, payload@, spec_lza_bytes(data@));
        }
        payload
    }
}

} // verus!
