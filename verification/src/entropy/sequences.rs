//! Laws over sequences: bits written one after another read back in turn, and canonical
//! Huffman codes written one after another decode in turn.
use vstd::prelude::*;

use crate::entropy::bitstream::{bits_value, law_written_bits_read_back, low_bits, mask_of};
use crate::entropy::canonical::{
    canonical_code, canonical_slot, code_rank, law_written_code_decodes, msb_value, valid_code_lengths,
};

verus! {

/// The bits of the writes `ws` made one after another: for each `(value, count)`, the `count`
/// lowest bits of `value`, lowest first.
pub open spec fn written_bits(ws: Seq<(u32, u8)>) -> Seq<bool>
    decreases ws.len(),
{
    if ws.len() == 0 {
        Seq::empty()
    } else {
        written_bits(ws.drop_last()) + low_bits(ws.last().0 as u64, ws.last().1 as nat)
    }
}

proof fn lemma_written_bits_prefix(ws: Seq<(u32, u8)>, j: int)
    requires
        0 <= j <= ws.len(),
    ensures
        written_bits(ws.take(j)).len() <= written_bits(ws).len(),
        written_bits(ws).take(written_bits(ws.take(j)).len() as int) == written_bits(ws.take(j)),
    decreases ws.len(),
{
    if j == ws.len() {
        assert(ws.take(j) =~= ws);
        assert(written_bits(ws).take(written_bits(ws).len() as int) =~= written_bits(ws));
    } else {
        let d = ws.drop_last();
        assert(ws.take(j) =~= d.take(j));
        lemma_written_bits_prefix(d, j);
        let a = written_bits(d.take(j));
        assert(written_bits(ws).take(a.len() as int) =~= written_bits(d).take(a.len() as int));
    }
}

/// After a sequence of writes, the bits of write `i`, read at the position where the writes
/// before it end (the sum of their counts), are its value cut to its count.
pub proof fn law_write_sequence_read_back(ws: Seq<(u32, u8)>, i: int)
    requires
        0 <= i < ws.len(),
        forall|j: int| 0 <= j < ws.len() ==> #[trigger] ws[j].1 <= 32,
    ensures
        bits_value(written_bits(ws).skip(written_bits(ws.take(i)).len() as int).take(ws[i].1 as int))
            == (ws[i].0 as u64) & mask_of(ws[i].1 as nat),
{
    let p = written_bits(ws.take(i));
    let lb = low_bits(ws[i].0 as u64, ws[i].1 as nat);
    let q = written_bits(ws.take(i + 1));
    assert(ws.take(i + 1).drop_last() =~= ws.take(i));
    assert(q == p + lb);
    lemma_written_bits_prefix(ws, i + 1);
    let all = written_bits(ws);
    let rest = all.skip(q.len() as int);
    assert(all =~= p + lb + rest) by {
        assert(all.take(q.len() as int) == q);
        assert(all =~= all.take(q.len() as int) + rest);
    }
    law_written_bits_read_back(p, ws[i].0, ws[i].1 as nat, rest);
}

/// The bits of the codes of the symbols `syms` written one after another: for each symbol
/// `s`, the `lengths[s]` lowest bits of `codes[s]`, lowest first.
pub open spec fn written_codes(lengths: Seq<u8>, codes: Seq<u16>, syms: Seq<int>) -> Seq<bool>
    decreases syms.len(),
{
    if syms.len() == 0 {
        Seq::empty()
    } else {
        written_codes(lengths, codes, syms.drop_last()) + low_bits(
            codes[syms.last()] as u64,
            lengths[syms.last()] as nat,
        )
    }
}

proof fn lemma_written_codes_prefix(lengths: Seq<u8>, codes: Seq<u16>, syms: Seq<int>, j: int)
    requires
        0 <= j <= syms.len(),
    ensures
        written_codes(lengths, codes, syms.take(j)).len() <= written_codes(lengths, codes, syms).len(),
        written_codes(lengths, codes, syms).take(written_codes(lengths, codes, syms.take(j)).len() as int)
            == written_codes(lengths, codes, syms.take(j)),
    decreases syms.len(),
{
    let all = written_codes(lengths, codes, syms);
    if j == syms.len() {
        assert(syms.take(j) =~= syms);
        assert(all.take(all.len() as int) =~= all);
    } else {
        let d = syms.drop_last();
        assert(syms.take(j) =~= d.take(j));
        lemma_written_codes_prefix(lengths, codes, d, j);
        let a = written_codes(lengths, codes, d.take(j));
        assert(all.take(a.len() as int) =~= written_codes(lengths, codes, d).take(a.len() as int));
    }
}

/// Canonical codes (as `build_canonical_codes` gives them) of a sequence of symbols, written
/// one after another and followed by any bits, decode in turn: at the position where the
/// codes before it end, the code of symbol `i` decodes to that symbol's slot.
pub proof fn law_code_sequence_decodes(lengths: Seq<u8>, codes: Seq<u16>, syms: Seq<int>, tail: Seq<bool>, i: int)
    requires
        valid_code_lengths(lengths),
        codes.len() == lengths.len(),
        forall|s: int| 0 <= s < lengths.len() && lengths[s] > 0 ==> msb_value(
            low_bits(#[trigger] codes[s] as u64, lengths[s] as nat),
            lengths[s] as int,
        ) == canonical_code(lengths, s),
        forall|k: int| 0 <= k < syms.len() ==> 0 <= #[trigger] syms[k] < lengths.len() && lengths[syms[k]] >= 1,
        0 <= i < syms.len(),
    ensures
        canonical_slot(
            lengths,
            (written_codes(lengths, codes, syms) + tail).skip(written_codes(lengths, codes, syms.take(i)).len() as int),
        ) == Some((lengths[syms[i]] as int, code_rank(lengths, syms[i]) as int)),
{
    let s = syms[i];
    let p = written_codes(lengths, codes, syms.take(i));
    let lb = low_bits(codes[s] as u64, lengths[s] as nat);
    let q = written_codes(lengths, codes, syms.take(i + 1));
    assert(syms.take(i + 1).drop_last() =~= syms.take(i));
    assert(q == p + lb);
    lemma_written_codes_prefix(lengths, codes, syms, i + 1);
    let all = written_codes(lengths, codes, syms);
    let rest = all.skip(q.len() as int) + tail;
    assert((all + tail).skip(p.len() as int) =~= lb + rest) by {
        assert(all.take(q.len() as int) == q);
        assert(all =~= all.take(q.len() as int) + all.skip(q.len() as int));
    }
    law_written_code_decodes(lengths, s, codes[s], rest);
}

} // verus!
