//! Stream encoding: the stream header, then the data cut into blocks, each coded with the
//! codec that suits it best at the chosen level, then the end-of-stream block and the
//! optional whole-stream hash.
use vstd::prelude::*;

use crate::checksum::crc32c::{spec_crc32c, Crc32c};
use crate::checksum::xxh3::{spec_stream_hash, StreamHash64};
use crate::error::{CodropError, CodropResult};
use crate::format::block::{
    block_header_canonical, law_block_header_roundtrip, lemma_block_header_bytes_len, spec_block_header_bytes,
    spec_end_of_stream, BlockHeader, BlockType,
};
use crate::format::header::{
    law_stream_header_roundtrip, spec_default_header, spec_header_bytes, spec_read_stream_header, stream_header_canonical,
    HeaderParse, StreamHeader,
};
use crate::le_bytes::{le64, le64_val, lemma_le64_roundtrip, write_u64_le};
use crate::streaming::block::{choose_payload, payload_ok, spec_block_payload, spec_choose_payload};
use crate::streaming::decoder::{decode_limit, spec_block_step, spec_blocks, spec_decode_stream, DecoderOptions};

verus! {

/// Default block size: 128 KB.
pub const DEFAULT_BLOCK_SIZE: usize = 131072;

/// Compression levels: which codecs a block may be coded with.
#[derive(Debug, Clone, Copy, PartialEq, Eq, Structural, Default)]
pub enum CompressionLevel {
    /// Run-length and LZF.
    Fast,
    /// Run-length, LZH and prefiltered LZH.
    #[default]
    Balanced,
    /// Run-length, LZA, LZH and prefiltered LZA.
    Compact,
    /// Every codec.
    Auto,
}

/// Encoder settings.
#[derive(Debug, Clone, Copy, PartialEq, Eq)]
pub struct EncoderOptions {
    pub level: CompressionLevel,
    pub block_size: usize,
    pub include_block_checksum: bool,
    pub include_stream_checksum: bool,
    pub known_uncompressed_size: Option<u64>,
}

/// The default settings: balanced level, 128 KB blocks, both checksums, no size.
pub open spec fn spec_default_encoder_options() -> EncoderOptions {
    EncoderOptions {
        level: CompressionLevel::Balanced,
        block_size: DEFAULT_BLOCK_SIZE,
        include_block_checksum: true,
        include_stream_checksum: true,
        known_uncompressed_size: None,
    }
}

impl Default for EncoderOptions {
    fn default() -> (r: Self)
        ensures
            r == spec_default_encoder_options(),
    {
        EncoderOptions {
            level: CompressionLevel::Balanced,
            block_size: DEFAULT_BLOCK_SIZE,
            include_block_checksum: true,
            include_stream_checksum: true,
            known_uncompressed_size: None,
        }
    }
}

/// The stream header written for the settings `o`.
pub open spec fn options_header(o: EncoderOptions) -> StreamHeader {
    let d = spec_default_header();
    StreamHeader {
        flags: crate::format::flags::HeaderFlags {
            has_stream_checksum: o.include_stream_checksum,
            has_uncompressed_size: o.known_uncompressed_size is Some,
            ..d.flags
        },
        uncompressed_size: o.known_uncompressed_size,
        ..d
    }
}

/// The length of the stream header written for the settings `o`.
pub open spec fn header_len(o: EncoderOptions) -> int {
    spec_header_bytes(options_header(o)).len() as int
}

/// An upper bound on the length of the stream coding `n` bytes with the settings `o`: the
/// header, the data itself, 16 bytes of block header per block, the end-of-stream byte and
/// the 8-byte hash. No block is ever coded longer than it is stored.
pub open spec fn stream_size_bound(o: EncoderOptions, n: nat) -> int {
    header_len(o) + n + 16 * (n / (o.block_size as nat) + 1) + 9
}

/// The bytes of a block holding `block`: its header (the type and payload chosen at the
/// settings' level, the settings' checksum choice, the last-block flag `is_last`) and payload.
pub open spec fn spec_block_bytes(o: EncoderOptions, block: Seq<u8>, is_last: bool) -> Seq<u8> {
    let c = spec_choose_payload(block, o.level);
    let h = BlockHeader {
        block_type: c.0,
        has_checksum: o.include_block_checksum,
        is_last,
        compressed_size: c.1.len() as u32,
        uncompressed_size: block.len() as u32,
        checksum: if o.include_block_checksum {
            Some(spec_crc32c(block))
        } else {
            None
        },
    };
    spec_block_header_bytes(h) + c.1
}

/// How much of `d` fills whole blocks of `bs` bytes.
pub open spec fn whole_len(d: Seq<u8>, bs: int) -> int
    decreases d.len(),
{
    if bs <= 0 || d.len() < bs {
        0
    } else {
        bs + whole_len(d.skip(bs), bs)
    }
}

/// The blocks holding the whole blocks of `d`, each not the last.
pub open spec fn full_blocks(o: EncoderOptions, d: Seq<u8>) -> Seq<u8>
    decreases d.len(),
{
    let bs = o.block_size as int;
    if bs <= 0 || d.len() < bs {
        Seq::empty()
    } else {
        spec_block_bytes(o, d.take(bs), false) + full_blocks(o, d.skip(bs))
    }
}

/// The stream that encoding `data` with the settings `o` produces: the header, the whole
/// blocks, the remaining bytes as the last block, the end-of-stream block and, when enabled,
/// the stream hash.
pub open spec fn spec_stream_bytes(o: EncoderOptions, data: Seq<u8>) -> Seq<u8> {
    let w = whole_len(data, o.block_size as int);
    let tail = data.skip(w);
    spec_header_bytes(options_header(o)) + full_blocks(o, data.take(w)) + (if tail.len() > 0 {
        spec_block_bytes(o, tail, true)
    } else {
        Seq::empty()
    }) + spec_block_header_bytes(spec_end_of_stream()) + (if o.include_stream_checksum {
        le64(spec_stream_hash(data))
    } else {
        Seq::empty()
    })
}

/// Appending a whole block to whole blocks.
proof fn lemma_full_blocks_push(o: EncoderOptions, d: Seq<u8>, b: Seq<u8>)
    requires
        o.block_size > 0,
        whole_len(d, o.block_size as int) == d.len(),
        b.len() == o.block_size,
    ensures
        whole_len(d + b, o.block_size as int) == d.len() + b.len(),
        full_blocks(o, d + b) == full_blocks(o, d) + spec_block_bytes(o, b, false),
    decreases d.len(),
{
    let bs = o.block_size as int;
    if d.len() == 0 {
        assert(d + b =~= b);
        assert(b.take(bs) =~= b);
        assert(b.skip(bs) =~= Seq::<u8>::empty());
        assert(full_blocks(o, b.skip(bs)) == Seq::<u8>::empty());
        assert(whole_len(b.skip(bs), bs) == 0);
        assert(full_blocks(o, d) == Seq::<u8>::empty());
        assert(full_blocks(o, d + b) =~= spec_block_bytes(o, b, false) + Seq::<u8>::empty());
        assert(full_blocks(o, d) + spec_block_bytes(o, b, false) =~= spec_block_bytes(o, b, false));
    } else {
        assert(d.len() >= bs);
        let d2 = d.skip(bs);
        lemma_full_blocks_push(o, d2, b);
        assert((d + b).take(bs) =~= d.take(bs));
        assert((d + b).skip(bs) =~= d2 + b);
        assert(full_blocks(o, d + b) == spec_block_bytes(o, d.take(bs), false) + full_blocks(o, d2 + b));
        assert(full_blocks(o, d + b) =~= full_blocks(o, d) + spec_block_bytes(o, b, false));
    }
}

/// Whole blocks followed by less than a block.
proof fn lemma_whole_len_tail(d: Seq<u8>, t: Seq<u8>, bs: int)
    requires
        bs > 0,
        whole_len(d, bs) == d.len(),
        t.len() < bs,
    ensures
        whole_len(d + t, bs) == d.len(),
    decreases d.len(),
{
    if d.len() == 0 {
        assert(d + t =~= t);
    } else {
        assert(d.len() >= bs);
        lemma_whole_len_tail(d.skip(bs), t, bs);
        assert((d + t).skip(bs) =~= d.skip(bs) + t);
    }
}

/// The stream of whole blocks `f` followed by fewer than a block's bytes `b`.
proof fn lemma_stream_bytes(o: EncoderOptions, f: Seq<u8>, b: Seq<u8>)
    requires
        o.block_size > 0,
        whole_len(f, o.block_size as int) == f.len(),
        b.len() < o.block_size,
    ensures
        spec_stream_bytes(o, f + b) == spec_header_bytes(options_header(o)) + full_blocks(o, f) + (if b.len() > 0 {
            spec_block_bytes(o, b, true)
        } else {
            Seq::empty()
        }) + spec_block_header_bytes(spec_end_of_stream()) + (if o.include_stream_checksum {
            le64(spec_stream_hash(f + b))
        } else {
            Seq::empty()
        }),
{
    lemma_whole_len_tail(f, b, o.block_size as int);
    assert((f + b).take(f.len() as int) =~= f);
    assert((f + b).skip(f.len() as int) =~= b);
}

/// `out` is a stream header for `hdr` followed by blocks that decode to `flushed`: whatever
/// follows, decoding from the first block gives what decoding from the end of `out` gives
/// with `flushed` already decoded.
pub open spec fn stream_prefix_ok(out: Seq<u8>, flushed: Seq<u8>, hdr: StreamHeader) -> bool {
    let hl = spec_header_bytes(hdr).len() as int;
    &&& out.len() >= hl
    &&& out.take(hl) == spec_header_bytes(hdr)
    &&& forall|rest: Seq<u8>, opts: DecoderOptions|
        flushed.len() <= decode_limit(opts) ==> #[trigger] spec_blocks(out + rest, hl, Seq::empty(), hdr, opts)
            == spec_blocks(out + rest, out.len() as int, flushed, hdr, opts)
}

/// Decoding a block appended to the stream moves past it with its bytes decoded.
proof fn lemma_block_step_appended(
    out: Seq<u8>,
    flushed: Seq<u8>,
    hdr: StreamHeader,
    h: BlockHeader,
    payload: Seq<u8>,
    block: Seq<u8>,
    rest: Seq<u8>,
    opts: DecoderOptions,
)
    requires
        block_header_canonical(h),
        payload_ok(h.block_type, payload, block),
        h.uncompressed_size == block.len(),
        h.compressed_size == payload.len(),
        h.has_checksum ==> h.checksum == Some(spec_crc32c(block)),
        (flushed + block).len() <= decode_limit(opts),
    ensures
        spec_blocks(out + spec_block_header_bytes(h) + payload + rest, out.len() as int, flushed, hdr, opts) == spec_blocks(
            out + spec_block_header_bytes(h) + payload + rest,
            (out + spec_block_header_bytes(h) + payload).len() as int,
            flushed + block,
            hdr,
            opts,
        ),
{
    reveal(spec_block_step);
    let bh = spec_block_header_bytes(h);
    let input = out + bh + payload + rest;
    assert(spec_block_payload(h.block_type, payload, h.uncompressed_size as int) == Some(block));
    assert(input.skip(out.len() as int) =~= bh + (payload + rest));
    law_block_header_roundtrip(h, payload + rest);
    let p2 = out.len() + bh.len();
    assert(input.subrange(p2 as int, p2 + payload.len() as int) =~= payload);
}

/// Appending a block that decodes to `block` keeps the stream decodable.
proof fn lemma_block_appended(out: Seq<u8>, flushed: Seq<u8>, hdr: StreamHeader, h: BlockHeader, payload: Seq<u8>, block: Seq<u8>)
    requires
        stream_prefix_ok(out, flushed, hdr),
        block_header_canonical(h),
        payload_ok(h.block_type, payload, block),
        h.uncompressed_size == block.len(),
        h.compressed_size == payload.len(),
        h.has_checksum ==> h.checksum == Some(spec_crc32c(block)),
    ensures
        stream_prefix_ok(out + spec_block_header_bytes(h) + payload, flushed + block, hdr),
{
    let bh = spec_block_header_bytes(h);
    let out2 = out + bh + payload;
    let hl = spec_header_bytes(hdr).len() as int;
    assert(out2.take(hl) =~= out.take(hl));
    assert forall|rest: Seq<u8>, opts: DecoderOptions| (flushed + block).len() <= decode_limit(opts) implies #[trigger] spec_blocks(
        out2 + rest,
        hl,
        Seq::empty(),
        hdr,
        opts,
    ) == spec_blocks(out2 + rest, out2.len() as int, flushed + block, hdr, opts) by {
        let rest2 = bh + payload + rest;
        assert(out2 + rest =~= out + rest2);
        assert(spec_blocks(out + rest2, hl, Seq::empty(), hdr, opts) == spec_blocks(out + rest2, out.len() as int, flushed, hdr, opts));
        assert(out + rest2 =~= out + bh + payload + rest);
        lemma_block_step_appended(out, flushed, hdr, h, payload, block, rest, opts);
    }
}

/// The encoder's output so far decodes, once finished, to all the data written.
proof fn lemma_stream_finished(out: Seq<u8>, all: Seq<u8>, hdr: StreamHeader, tail: Seq<u8>, opts: DecoderOptions)
    requires
        stream_prefix_ok(out, all, hdr),
        stream_header_canonical(hdr),
        all.len() <= decode_limit(opts),
        tail == spec_block_header_bytes(spec_end_of_stream()) + (if hdr.flags.has_stream_checksum {
            le64(spec_stream_hash(all))
        } else {
            Seq::empty()
        }),
    ensures
        spec_decode_stream(out + tail, opts) == Some(all),
{
    reveal(spec_block_step);
    let hl = spec_header_bytes(hdr).len() as int;
    let input = out + tail;
    assert(input =~= spec_header_bytes(hdr) + input.skip(hl));
    law_stream_header_roundtrip(hdr, input.skip(hl));
    assert(spec_blocks(out + tail, hl, Seq::empty(), hdr, opts) == spec_blocks(out + tail, out.len() as int, all, hdr, opts));
    let eos = spec_end_of_stream();
    let hashb: Seq<u8> = if hdr.flags.has_stream_checksum { le64(spec_stream_hash(all)) } else { Seq::empty() };
    assert(input.skip(out.len() as int) =~= spec_block_header_bytes(eos) + hashb);
    law_block_header_roundtrip(eos, hashb);
    if hdr.flags.has_stream_checksum {
        assert(input.skip(out.len() as int + 1) =~= le64(spec_stream_hash(all)) + Seq::<u8>::empty());
        lemma_le64_roundtrip(spec_stream_hash(all), Seq::<u8>::empty());
    }
}

/// Stream encoder producing an in-memory `.cdp` stream.
pub struct Encoder {
    out: Vec<u8>,
    options: EncoderOptions,
    buffer: Vec<u8>,
    stream_hasher: StreamHash64,
    header_written: bool,
    finished: bool,
    flushed: Ghost<Seq<u8>>,
    blocks: Ghost<nat>,
}

impl Encoder {
    /// All the data written so far.
    pub closed spec fn data(&self) -> Seq<u8> {
        self.stream_hasher@
    }

    /// The encoder settings.
    pub closed spec fn options(&self) -> EncoderOptions {
        self.options
    }

    pub closed spec fn wf(&self) -> bool {
        &&& 1 <= self.options.block_size <= u32::MAX
        &&& self.buffer@.len() < self.options.block_size
        &&& !self.finished
        &&& self.stream_hasher.wf()
        &&& self.stream_hasher@ == self.flushed@ + self.buffer@
        &&& !self.header_written ==> self.out@.len() == 0 && self.stream_hasher@.len() == 0
        &&& self.header_written ==> stream_prefix_ok(self.out@, self.flushed@, options_header(self.options))
        &&& self.header_written ==> self.out@.len() <= header_len(self.options) + self.flushed@.len() + 16 * self.blocks@
        &&& self.blocks@ * self.options.block_size <= self.flushed@.len()
        &&& self.header_written ==> self.out@ == spec_header_bytes(options_header(self.options)) + full_blocks(
            self.options,
            self.flushed@,
        )
        &&& whole_len(self.flushed@, self.options.block_size as int) == self.flushed@.len()
    }

    /// A new encoder; blocks hold `options.block_size` bytes.
    pub fn new(options: EncoderOptions) -> (r: Self)
        requires
            1 <= options.block_size <= u32::MAX,
        ensures
            r.wf(),
            r.options() == options,
            r.data() == Seq::<u8>::empty(),
    {
        let r = Encoder {
            out: Vec::new(),
            options,
            buffer: Vec::new(),
            stream_hasher: StreamHash64::new(),
            header_written: false,
            finished: false,
            flushed: Ghost(Seq::empty()),
            blocks: Ghost(0),
        };
        assert(r.flushed@ + r.buffer@ =~= Seq::<u8>::empty());
        r
    }

    fn ensure_header_written(&mut self)
        requires
            old(self).wf(),
        ensures
            final(self).wf(),
            final(self).header_written,
            final(self).options == old(self).options,
            final(self).data() == old(self).data(),
            final(self).blocks == old(self).blocks,
    {
        if !self.header_written {
            let mut header = StreamHeader::default();
            header.flags.has_stream_checksum = self.options.include_stream_checksum;
            match self.options.known_uncompressed_size {
                Some(size) => {
                    header.flags.has_uncompressed_size = true;
                    header.uncompressed_size = Some(size);
                },
                None => {},
            }
            assert(header == options_header(self.options));
            header.write_to(&mut self.out);
            self.header_written = true;
            proof {
                let hdr = options_header(self.options);
                let hl = spec_header_bytes(hdr).len() as int;
                assert(self.out@ =~= spec_header_bytes(hdr));
                assert(self.out@.take(hl) =~= spec_header_bytes(hdr));
                assert(self.flushed@ =~= Seq::<u8>::empty());
                assert(self.out@.len() == header_len(self.options));
                assert(self.out@ =~= spec_header_bytes(options_header(self.options)) + full_blocks(self.options, self.flushed@));
            }
        }
    }

    /// Codes the buffered bytes as one block, unless there are none and it is not the last.
    fn flush_block(&mut self, is_last: bool)
        requires
            1 <= old(self).options.block_size <= u32::MAX,
            old(self).buffer@.len() <= old(self).options.block_size,
            old(self).header_written,
            stream_prefix_ok(old(self).out@, old(self).flushed@, options_header(old(self).options)),
            !is_last ==> old(self).buffer@.len() == old(self).options.block_size,
            old(self).out@.len() <= header_len(old(self).options) + old(self).flushed@.len() + 16 * old(self).blocks@,
            old(self).blocks@ * old(self).options.block_size <= old(self).flushed@.len(),
        ensures
            final(self).buffer@.len() == 0,
            final(self).flushed@ == old(self).flushed@ + old(self).buffer@,
            stream_prefix_ok(final(self).out@, final(self).flushed@, options_header(final(self).options)),
            final(self).options == old(self).options,
            final(self).header_written == old(self).header_written,
            final(self).finished == old(self).finished,
            final(self).stream_hasher == old(self).stream_hasher,
            final(self).out@.len() <= header_len(final(self).options) + final(self).flushed@.len() + 16 * final(self).blocks@,
            final(self).blocks@ <= old(self).blocks@ + 1,
            !is_last ==> final(self).blocks@ * final(self).options.block_size <= final(self).flushed@.len(),
            old(self).buffer@.len() == 0 && !is_last ==> final(self).out@ == old(self).out@,
            !(old(self).buffer@.len() == 0 && !is_last) ==> final(self).out@ == old(self).out@ + spec_block_bytes(
                old(self).options,
                old(self).buffer@,
                is_last,
            ),
    {
        if self.buffer.len() == 0 && !is_last {
            assert(self.flushed@ + self.buffer@ =~= self.flushed@);
            return;
        }
        let (block_type, payload) = choose_payload(&self.buffer, self.options.level);
        let checksum = if self.options.include_block_checksum {
            Some(Crc32c::compute(&self.buffer))
        } else {
            None
        };
        let block_header = BlockHeader {
            block_type,
            has_checksum: self.options.include_block_checksum,
            is_last,
            compressed_size: payload.len() as u32,
            uncompressed_size: self.buffer.len() as u32,
            checksum,
        };
        let ghost out0 = self.out@;
        block_header.write_to(&mut self.out);
        crate::buf::append_slice(&mut self.out, &payload);
        assert(self.out@ =~= out0 + spec_block_bytes(self.options, self.buffer@, is_last));
        proof {
            lemma_block_header_bytes_len(block_header);
            let bs = self.options.block_size as int;
            let b = self.blocks@ as int;
            assert((b + 1) * bs == b * bs + bs) by (nonlinear_arith);
            lemma_block_appended(
                out0,
                self.flushed@,
                options_header(self.options),
                block_header,
                payload@,
                self.buffer@,
            );
        }
        self.flushed = Ghost(self.flushed@ + self.buffer@);
        self.blocks = Ghost(self.blocks@ + 1);
        self.buffer = Vec::new();
    }

    /// Feeds `data`; full blocks are coded as they fill. Returns the number of bytes taken.
    pub fn write_chunk(&mut self, data: &[u8]) -> (r: CodropResult<usize>)
        requires
            old(self).wf(),
            old(self).data().len() + data@.len() <= u64::MAX,
        ensures
            final(self).wf(),
            final(self).options() == old(self).options(),
            r == Ok::<usize, CodropError>(data@.len() as usize),
            final(self).data() == old(self).data() + data@,
    {
        if self.finished {
            return Err(CodropError::Io("Encoder already finished".to_string()));
        }
        self.ensure_header_written();
        let ghost d0 = self.stream_hasher@;
        let n = data.len();
        let mut off: usize = 0;
        while off < n
            invariant
                off <= n,
                n == data@.len(),
                1 <= self.options.block_size <= u32::MAX,
                self.buffer@.len() < self.options.block_size,
                self.header_written,
                !self.finished,
                self.stream_hasher.wf(),
                self.stream_hasher@ == d0,
                self.options == old(self).options,
                self.flushed@ + self.buffer@ == d0 + data@.take(off as int),
                stream_prefix_ok(self.out@, self.flushed@, options_header(self.options)),
                self.out@ == spec_header_bytes(options_header(self.options)) + full_blocks(self.options, self.flushed@),
                whole_len(self.flushed@, self.options.block_size as int) == self.flushed@.len(),
                self.out@.len() <= header_len(self.options) + self.flushed@.len() + 16 * self.blocks@,
                self.blocks@ * self.options.block_size <= self.flushed@.len(),
            decreases n - off,
        {
            let space = self.options.block_size - self.buffer.len();
            let to_copy = if n - off < space { n - off } else { space };
            let ghost b0 = self.buffer@;
            crate::buf::append_range(&mut self.buffer, data, off, off + to_copy);
            proof {
                let sub = data@.subrange(off as int, off + to_copy);
                assert(data@.take(off + to_copy) =~= data@.take(off as int) + sub);
                assert(self.buffer@ == b0 + sub);
                assert(self.flushed@ + self.buffer@ =~= (self.flushed@ + b0) + sub);
                assert((d0 + data@.take(off as int)) + sub =~= d0 + (data@.take(off as int) + sub));
            }
            off = off + to_copy;
            if self.buffer.len() == self.options.block_size {
                let ghost f0 = self.flushed@;
                let ghost b1 = self.buffer@;
                let ghost o0 = self.out@;
                self.flush_block(false);
                assert(self.flushed@ + self.buffer@ =~= f0 + b1);
                proof {
                    lemma_full_blocks_push(self.options, f0, b1);
                    assert(self.out@ =~= spec_header_bytes(options_header(self.options)) + full_blocks(self.options, self.flushed@));
                }
            }
        }
        proof {
            assert(data@.take(n as int) =~= data@);
        }
        self.stream_hasher.update(data);
        Ok(n)
    }

    /// Codes the remaining bytes as the last block, then writes the end-of-stream block and,
    /// when enabled, the stream hash; returns the whole stream. Decoding it with any limit of
    /// at least the data's length gives back the data.
    #[verifier::spinoff_prover]
    #[verifier::rlimit(50)]
    pub fn finish(self) -> (r: CodropResult<Vec<u8>>)
        requires
            self.wf(),
        ensures
            r matches Ok(out) && forall|opts: DecoderOptions| self.data().len() <= decode_limit(opts)
                ==> #[trigger] spec_decode_stream(out@, opts) == Some(self.data()),
            r matches Ok(out) && out@.len() <= stream_size_bound(self.options(), self.data().len()),
            r matches Ok(out) && out@ == spec_stream_bytes(self.options(), self.data()),
    {
        let mut enc = self;
        let ghost all = enc.stream_hasher@;
        enc.ensure_header_written();
        let ghost b0 = enc.blocks@;
        let ghost f0 = enc.flushed@.len();
        let ghost fs = enc.flushed@;
        let ghost bufs = enc.buffer@;
        let ghost o = enc.options;
        proof {
            lemma_stream_bytes(o, fs, bufs);
        }
        if enc.buffer.len() > 0 {
            enc.flush_block(true);
        }
        let ghost body = enc.out@;
        assert(body == spec_header_bytes(options_header(o)) + full_blocks(o, fs) + (if bufs.len() > 0 {
            spec_block_bytes(o, bufs, true)
        } else {
            Seq::empty()
        })) by {
            if bufs.len() == 0 {
                assert(body =~= spec_header_bytes(options_header(o)) + full_blocks(o, fs) + Seq::<u8>::empty());
            }
        }
        proof {
            let bs = enc.options.block_size as int;
            let n = all.len() as int;
            assert(b0 * bs <= f0 <= n);
            vstd::arithmetic::div_mod::lemma_fundamental_div_mod(n, bs);
            if b0 > n / bs {
                assert(b0 * bs >= (n / bs + 1) * bs) by (nonlinear_arith)
                    requires b0 >= n / bs + 1, bs >= 1;
                assert((n / bs + 1) * bs == bs * (n / bs) + bs) by (nonlinear_arith);
                assert(n % bs < bs) by {
                    vstd::arithmetic::div_mod::lemma_mod_bound(n, bs);
                }
            }
            assert(enc.blocks@ <= n / bs + 1);
        }
        assert(enc.flushed@ =~= all) by {
            assert(enc.flushed@ + enc.buffer@ == all);
            assert(enc.buffer@.len() == 0);
        }
        let ghost before = enc.out@;
        assert(before.len() <= header_len(enc.options) + all.len() + 16 * enc.blocks@) by {
            assert(enc.flushed@.len() == all.len());
        }
        let eos = BlockHeader::end_of_stream();
        eos.write_to(&mut enc.out);
        if enc.options.include_stream_checksum {
            let h = enc.stream_hasher.finalize();
            write_u64_le(&mut enc.out, h);
        }
        proof {
            let hdr = options_header(enc.options);
            let tail = enc.out@.skip(before.len() as int);
            assert(enc.out@ =~= before + tail);
            assert(tail =~= spec_block_header_bytes(spec_end_of_stream()) + (if hdr.flags.has_stream_checksum {
                le64(spec_stream_hash(all))
            } else {
                Seq::empty()
            }));
            assert forall|opts: DecoderOptions| all.len() <= decode_limit(opts) implies #[trigger] spec_decode_stream(
                enc.out@,
                opts,
            ) == Some(all) by {
                lemma_stream_finished(before, all, hdr, tail, opts);
            }
            assert(fs + bufs == all);
            assert(enc.out@ =~= spec_stream_bytes(o, all));
        }
        Ok(enc.out)
    }
}

} // verus!
