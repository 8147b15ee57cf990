//! A stream cut short anywhere fails to decode: every block header, payload and the trailing
//! stream hash is read in full before anything past it is trusted.
use vstd::prelude::*;

use crate::format::block::{
    block_header_canonical, law_block_header_roundtrip, lemma_block_header_local, lemma_block_header_prefix,
    spec_block_header_bytes, spec_end_of_stream, spec_read_block_header, BlockHeader, BlockType, Parse,
};
use crate::format::header::{
    law_stream_header_roundtrip, lemma_stream_header_local, lemma_stream_header_prefix, spec_header_bytes,
    spec_read_stream_header, stream_header_canonical, HeaderParse, StreamHeader,
};
use crate::streaming::block::{choose_from, level_candidates, spec_choose_payload};
use crate::streaming::decoder::{spec_block_step, spec_blocks, spec_decode_stream, BlockStep, DecoderOptions};
use crate::streaming::encoder::{
    full_blocks, options_header, spec_block_bytes, spec_stream_bytes, whole_len, CompressionLevel, EncoderOptions,
};

verus! {

proof fn lemma_choose_from_bounds(
    block: Seq<u8>,
    level: CompressionLevel,
    cands: Seq<BlockType>,
    i: int,
    best: (BlockType, Seq<u8>),
)
    requires
        0 <= i,
    ensures
        choose_from(block, level, cands, i, best).1.len() <= best.1.len(),
        choose_from(block, level, cands, i, best).0 == best.0 || cands.contains(
            choose_from(block, level, cands, i, best).0,
        ),
    decreases cands.len() - i,
{
    if i < cands.len() {
        let next = choose_from(block, level, cands, i + 1, best);
        lemma_choose_from_bounds(block, level, cands, i + 1, best);
        match crate::streaming::block::spec_candidate(block, cands[i], level) {
            Some(p) => if p.len() < best.1.len() {
                lemma_choose_from_bounds(block, level, cands, i + 1, (cands[i], p));
                let r = choose_from(block, level, cands, i + 1, (cands[i], p));
                if r.0 == cands[i] {
                    assert(cands.contains(cands[i]));
                }
            },
            None => {},
        }
    }
}

/// The payload chosen for a block is no longer than the block, and its type carries data.
proof fn lemma_chosen_payload(block: Seq<u8>, level: CompressionLevel)
    ensures
        spec_choose_payload(block, level).1.len() <= block.len(),
        spec_choose_payload(block, level).0 != BlockType::EndOfStream,
{
    let cands = level_candidates(level);
    lemma_choose_from_bounds(block, level, cands, 0, (BlockType::Raw, block));
    let t = spec_choose_payload(block, level).0;
    if cands.contains(t) {
        let j = choose|j: int| 0 <= j < cands.len() && cands[j] == t;
        assert(cands[j] != BlockType::EndOfStream);
    }
}

/// The header of the block bytes `spec_block_bytes(o, block, last)`.
pub open spec fn block_bytes_header(o: EncoderOptions, block: Seq<u8>, is_last: bool) -> BlockHeader {
    let c = spec_choose_payload(block, o.level);
    BlockHeader {
        block_type: c.0,
        has_checksum: o.include_block_checksum,
        is_last,
        compressed_size: c.1.len() as u32,
        uncompressed_size: block.len() as u32,
        checksum: if o.include_block_checksum {
            Some(crate::checksum::crc32c::spec_crc32c(block))
        } else {
            None
        },
    }
}

proof fn lemma_block_bytes_shape(o: EncoderOptions, block: Seq<u8>, is_last: bool)
    requires
        block.len() <= 0xFFFF_FFFF,
    ensures
        ({
            let h = block_bytes_header(o, block, is_last);
            let c = spec_choose_payload(block, o.level);
            &&& block_header_canonical(h)
            &&& h.block_type != BlockType::EndOfStream
            &&& h.compressed_size == c.1.len()
            &&& spec_block_bytes(o, block, is_last) == spec_block_header_bytes(h) + c.1
        }),
{
    lemma_chosen_payload(block, o.level);
}

/// Decoding a data block from bytes cut anywhere: the step fails, or it ends exactly after the
/// block, which then lies wholly before the cut.
proof fn lemma_unit_step(
    h: BlockHeader,
    payload: Seq<u8>,
    pre: Seq<u8>,
    rest: Seq<u8>,
    cut: int,
    done: Seq<u8>,
    hdr: StreamHeader,
    opts: DecoderOptions,
)
    requires
        block_header_canonical(h),
        h.block_type != BlockType::EndOfStream,
        h.compressed_size == payload.len(),
        pre.len() <= cut <= (pre + spec_block_header_bytes(h) + payload + rest).len(),
    ensures
        ({
            let t = (pre + spec_block_header_bytes(h) + payload + rest).take(cut);
            let q = pre.len() + spec_block_header_bytes(h).len() + payload.len();
            match spec_block_step(t, pre.len() as int, done, hdr, opts) {
                BlockStep::Block(_, p) => p == q && q <= cut,
                BlockStep::End => false,
                BlockStep::Fail => true,
            }
        }),
{
    reveal(spec_block_step);
    let hb = spec_block_header_bytes(h);
    let b = hb + payload + rest;
    let full = pre + hb + payload + rest;
    let t = full.take(cut);
    let pos = pre.len() as int;
    let k = cut - pos;
    assert(t.skip(pos) =~= b.take(k));
    law_block_header_roundtrip(h, payload + rest);
    assert(hb + (payload + rest) =~= b);
    if k < hb.len() {
        lemma_block_header_prefix(b, k);
    } else {
        assert(t.skip(pos).take(hb.len() as int) =~= b.take(hb.len() as int));
        lemma_block_header_local(b, t.skip(pos));
    }
}

/// Bytes cut inside the whole blocks of `d` (or inside what follows them, when that fails to
/// decode from any start) fail to decode from the first block.
proof fn lemma_full_blocks_cut(
    o: EncoderOptions,
    d: Seq<u8>,
    pre: Seq<u8>,
    after: Seq<u8>,
    cut: int,
    done: Seq<u8>,
    hdr: StreamHeader,
    opts: DecoderOptions,
)
    requires
        0 < o.block_size <= 0xFFFF_FFFF,
        pre.len() <= cut < (pre + full_blocks(o, d) + after).len(),
        forall|done2: Seq<u8>| cut >= pre.len() + full_blocks(o, d).len() ==> #[trigger] spec_blocks(
            (pre + full_blocks(o, d) + after).take(cut),
            (pre.len() + full_blocks(o, d).len()) as int,
            done2,
            hdr,
            opts,
        ) is None,
    ensures
        spec_blocks((pre + full_blocks(o, d) + after).take(cut), pre.len() as int, done, hdr, opts) is None,
    decreases d.len(),
{
    let bs = o.block_size as int;
    let f = full_blocks(o, d);
    let t = (pre + f + after).take(cut);
    if d.len() < bs {
        assert(f.len() == 0);
        assert(spec_blocks(t, (pre.len() + f.len()) as int, done, hdr, opts) is None);
    } else {
        let blk = d.take(bs);
        let f2 = full_blocks(o, d.skip(bs));
        lemma_block_bytes_shape(o, blk, false);
        let h = block_bytes_header(o, blk, false);
        let payload = spec_choose_payload(blk, o.level).1;
        let bb = spec_block_bytes(o, blk, false);
        assert(f == bb + f2);
        let pre2 = pre + bb;
        assert(pre + f + after =~= pre + spec_block_header_bytes(h) + payload + (f2 + after));
        assert(pre + f + after =~= pre2 + f2 + after);
        lemma_unit_step(h, payload, pre, f2 + after, cut, done, hdr, opts);
        crate::format::block::lemma_block_header_bytes_len(h);
        match spec_block_step(t, pre.len() as int, done, hdr, opts) {
            BlockStep::Block(x, p) => {
                assert(p == pre2.len());
                assert(pre2.len() + f2.len() == pre.len() + f.len());
                if cut < (pre2 + f2 + after).len() {
                    lemma_full_blocks_cut(o, d.skip(bs), pre2, after, cut, done + x, hdr, opts);
                }
            },
            _ => {},
        }
    }
}

/// Bytes cut inside the end-of-stream block or the stream hash fail to decode there, when the
/// hash is present exactly when the header says so and the decoder checks it.
proof fn lemma_end_cut(pre: Seq<u8>, z: Seq<u8>, cut: int, done: Seq<u8>, hdr: StreamHeader, opts: DecoderOptions)
    requires
        z.len() == 0 || z.len() == 8,
        z.len() == 8 ==> hdr.flags.has_stream_checksum && opts.verify_stream_checksum,
        pre.len() <= cut < (pre + spec_block_header_bytes(spec_end_of_stream()) + z).len(),
    ensures
        spec_block_step(
            (pre + spec_block_header_bytes(spec_end_of_stream()) + z).take(cut),
            pre.len() as int,
            done,
            hdr,
            opts,
        ) is Fail,
{
    reveal(spec_block_step);
    let e = spec_block_header_bytes(spec_end_of_stream());
    let full = pre + e + z;
    let t = full.take(cut);
    let pos = pre.len() as int;
    law_block_header_roundtrip(spec_end_of_stream(), z);
    crate::format::block::lemma_block_header_bytes_len(spec_end_of_stream());
    if cut == pos {
        assert(t.skip(pos).len() == 0);
    } else {
        assert(e.len() == 1);
        assert(t.skip(pos).take(1) =~= (e + z).take(1));
        lemma_block_header_local(e + z, t.skip(pos));
    }
}

proof fn lemma_whole_len_bound(d: Seq<u8>, bs: int)
    requires
        bs > 0,
    ensures
        0 <= whole_len(d, bs) <= d.len(),
        d.len() - whole_len(d, bs) < bs,
    decreases d.len(),
{
    if d.len() >= bs {
        lemma_whole_len_bound(d.skip(bs), bs);
    }
}

/// The bytes of the last block holding `tail`, if any.
pub open spec fn last_block_bytes(o: EncoderOptions, tail: Seq<u8>) -> Seq<u8> {
    if tail.len() > 0 {
        spec_block_bytes(o, tail, true)
    } else {
        Seq::empty()
    }
}

/// Bytes cut inside the last block, the end-of-stream block or the stream hash fail to decode
/// from the last block, whatever was decoded before.
proof fn lemma_tail_cut(
    o: EncoderOptions,
    tail: Seq<u8>,
    pre: Seq<u8>,
    z: Seq<u8>,
    cut: int,
    done: Seq<u8>,
    opts: DecoderOptions,
)
    requires
        tail.len() <= 0xFFFF_FFFF,
        z.len() == (if o.include_stream_checksum { 8int } else { 0int }),
        o.include_stream_checksum ==> opts.verify_stream_checksum,
        pre.len() <= cut < (pre + last_block_bytes(o, tail) + spec_block_header_bytes(spec_end_of_stream()) + z).len(),
    ensures
        spec_blocks(
            (pre + last_block_bytes(o, tail) + spec_block_header_bytes(spec_end_of_stream()) + z).take(cut),
            pre.len() as int,
            done,
            options_header(o),
            opts,
        ) is None,
{
    let hdr = options_header(o);
    let e = spec_block_header_bytes(spec_end_of_stream());
    let lb = last_block_bytes(o, tail);
    let t = (pre + lb + e + z).take(cut);
    if tail.len() > 0 {
        lemma_block_bytes_shape(o, tail, true);
        let h = block_bytes_header(o, tail, true);
        let payload = spec_choose_payload(tail, o.level).1;
        assert(pre + lb + e + z =~= pre + spec_block_header_bytes(h) + payload + (e + z));
        lemma_unit_step(h, payload, pre, e + z, cut, done, hdr, opts);
        match spec_block_step(t, pre.len() as int, done, hdr, opts) {
            BlockStep::Block(x, q) => {
                let pre2 = pre + lb;
                assert(q == pre2.len());
                assert(pre + lb + e + z =~= pre2 + e + z);
                crate::format::block::lemma_block_header_bytes_len(h);
                lemma_end_cut(pre2, z, cut, done + x, hdr, opts);
                assert(t == (pre2 + e + z).take(cut));
                assert(spec_blocks(t, q, done + x, hdr, opts) is None);
                assert(spec_blocks(t, pre.len() as int, done, hdr, opts) == spec_blocks(t, q, done + x, hdr, opts));
            },
            _ => {
                assert(spec_blocks(t, pre.len() as int, done, hdr, opts) is None);
            },
        }
    } else {
        assert(pre + lb + e + z =~= pre + e + z);
        lemma_end_cut(pre, z, cut, done, hdr, opts);
        assert(t == (pre + e + z).take(cut));
        assert(spec_blocks(t, pre.len() as int, done, hdr, opts) is None);
    }
}

/// Any strict prefix of a stream that the encoder writes with the settings `o` fails to
/// decode, whenever the decoder checks the stream hash that `o` writes.
pub proof fn law_truncated_stream_fails(o: EncoderOptions, data: Seq<u8>, cut: int, opts: DecoderOptions)
    requires
        0 < o.block_size <= 0xFFFF_FFFF,
        o.include_stream_checksum ==> opts.verify_stream_checksum,
        0 <= cut < spec_stream_bytes(o, data).len(),
    ensures
        spec_decode_stream(spec_stream_bytes(o, data).take(cut), opts) is None,
{
    let hdr = options_header(o);
    let hb = spec_header_bytes(hdr);
    let w = whole_len(data, o.block_size as int);
    let tail = data.skip(w);
    let f = full_blocks(o, data.take(w));
    let e = spec_block_header_bytes(spec_end_of_stream());
    let z: Seq<u8> = if o.include_stream_checksum {
        crate::le_bytes::le64(crate::checksum::xxh3::spec_stream_hash(data))
    } else {
        Seq::empty()
    };
    let full = spec_stream_bytes(o, data);
    let after = last_block_bytes(o, tail) + e + z;
    assert(full =~= hb + f + after);
    let t = full.take(cut);
    assert(stream_header_canonical(hdr));
    law_stream_header_roundtrip(hdr, f + after);
    assert(hb + (f + after) =~= full);
    if cut < hb.len() {
        lemma_stream_header_prefix(full, cut);
    } else {
        assert(t.take(hb.len() as int) =~= full.take(hb.len() as int));
        lemma_stream_header_local(full, t);
        lemma_whole_len_bound(data, o.block_size as int);
        assert forall|done2: Seq<u8>| cut >= hb.len() + f.len() implies #[trigger] spec_blocks(
            (hb + f + after).take(cut),
            (hb.len() + f.len()) as int,
            done2,
            hdr,
            opts,
        ) is None by {
            let pre2 = hb + f;
            assert(hb + f + after =~= pre2 + last_block_bytes(o, tail) + e + z);
            lemma_tail_cut(o, tail, pre2, z, cut, done2, opts);
        }
        lemma_full_blocks_cut(o, data.take(w), hb, after, cut, Seq::empty(), hdr, opts);
    }
}

} // verus!
