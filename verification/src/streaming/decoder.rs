//! Stream decoding: the stream header, then block after block up to the end-of-stream block
//! and the optional whole-stream hash.
use vstd::prelude::*;

use crate::checksum::crc32c::spec_crc32c;
use crate::checksum::xxh3::{spec_stream_hash, StreamHash64};
use crate::error::{CodropError, CodropResult};
use crate::format::block::{spec_read_block_header, BlockHeader, BlockType, Parse};
use crate::format::header::{header_error_is, spec_read_stream_header, HeaderParse, StreamHeader};
use crate::le_bytes::{le64_val, read_u64_le};
use crate::streaming::block::{decode_block_payload, payload_error_is, spec_block_payload};

verus! {

/// Decoder settings.
#[derive(Debug, Clone, Copy, PartialEq, Eq)]
pub struct DecoderOptions {
    /// Refuse streams that decode to more bytes than this.
    pub max_output_bytes: Option<u64>,
    pub verify_block_checksums: bool,
    pub verify_stream_checksum: bool,
}

/// The default settings: a 1 GB output limit and all checks on.
pub open spec fn spec_default_decoder_options() -> DecoderOptions {
    DecoderOptions { max_output_bytes: Some(1073741824u64), verify_block_checksums: true, verify_stream_checksum: true }
}

impl Default for DecoderOptions {
    fn default() -> (r: Self)
        ensures
            r == spec_default_decoder_options(),
    {
        DecoderOptions { max_output_bytes: Some(1024 * 1024 * 1024), verify_block_checksums: true, verify_stream_checksum: true }
    }
}

/// The most bytes a stream may decode to under `opts`.
pub open spec fn decode_limit(opts: DecoderOptions) -> int {
    match opts.max_output_bytes {
        Some(l) => l as int,
        None => u64::MAX as int,
    }
}

/// A parsed block header occupies at least one byte.
pub proof fn lemma_block_header_len(s: Seq<u8>)
    ensures
        spec_read_block_header(s) matches Parse::Done(_, n) ==> n >= 1,
{
}

/// Outcome of decoding the block at some position.
pub enum BlockStep {
    /// A data block: its bytes and the position after it.
    Block(Seq<u8>, int),
    /// The end of the stream, with its hash checked when asked for.
    End,
    /// A malformed, oversized or corrupted block.
    Fail,
}

/// Decoding of the block at `pos`, with `done` decoded before it.
#[verifier::opaque]
pub open spec fn spec_block_step(input: Seq<u8>, pos: int, done: Seq<u8>, hdr: StreamHeader, opts: DecoderOptions) -> BlockStep {
    match spec_read_block_header(input.skip(pos)) {
        Parse::Done(h, n) => {
            let p2 = pos + n;
            if h.block_type == BlockType::EndOfStream {
                if hdr.flags.has_stream_checksum && opts.verify_stream_checksum {
                    if p2 + 8 > input.len() || le64_val(input.skip(p2)) != spec_stream_hash(done) {
                        BlockStep::Fail
                    } else {
                        BlockStep::End
                    }
                } else {
                    BlockStep::End
                }
            } else if done.len() + h.uncompressed_size > decode_limit(opts) {
                BlockStep::Fail
            } else if p2 + h.compressed_size > input.len() {
                BlockStep::Fail
            } else {
                match spec_block_payload(h.block_type, input.subrange(p2, p2 + h.compressed_size), h.uncompressed_size as int) {
                    None => BlockStep::Fail,
                    Some(d) => if d.len() != h.uncompressed_size || (opts.verify_block_checksums && h.has_checksum
                        && h.checksum != Some(spec_crc32c(d))) {
                        BlockStep::Fail
                    } else {
                        BlockStep::Block(d, p2 + h.compressed_size)
                    },
                }
            }
        },
        _ => BlockStep::Fail,
    }
}

/// `x`, or `u64::MAX` when `x` is larger.
pub open spec fn cap_u64(x: int) -> u64 {
    if x > u64::MAX {
        u64::MAX
    } else {
        x as u64
    }
}

/// `e` is what a failed decoding of the block at `pos` reports, with `done` decoded before.
/// The checks come in this order: the block header; for the end-of-stream block, the stream
/// hash; the output limit (before the payload is read); the payload's presence; the block
/// type; the payload itself (with the error of its codec); the decoded length; the block
/// checksum.
pub open spec fn block_error_is(
    input: Seq<u8>,
    pos: int,
    done: Seq<u8>,
    hdr: StreamHeader,
    opts: DecoderOptions,
    e: CodropError,
) -> bool {
    match spec_read_block_header(input.skip(pos)) {
        Parse::Eof => e == CodropError::UnexpectedEof,
        Parse::Corrupt => e is CorruptedHeader,
        Parse::Done(h, n) => {
            let p2 = pos + n;
            if h.block_type == BlockType::EndOfStream {
                if p2 + 8 > input.len() {
                    e == CodropError::UnexpectedEof
                } else {
                    e == (CodropError::StreamChecksumMismatch {
                        expected: le64_val(input.skip(p2)),
                        actual: spec_stream_hash(done),
                    })
                }
            } else if done.len() + h.uncompressed_size > decode_limit(opts) {
                e == (CodropError::DecompressionBombDetected {
                    limit: decode_limit(opts) as u64,
                    requested: cap_u64(done.len() + h.uncompressed_size),
                })
            } else if p2 + h.compressed_size > input.len() {
                e == CodropError::UnexpectedEof
            } else if h.block_type == BlockType::ReservedCustom {
                e == CodropError::UnsupportedBlockType(BlockType::ReservedCustom)
            } else {
                match spec_block_payload(h.block_type, input.subrange(p2, p2 + h.compressed_size), h.uncompressed_size as int) {
                    None => payload_error_is(
                        h.block_type,
                        input.subrange(p2, p2 + h.compressed_size),
                        h.uncompressed_size as int,
                        e,
                    ),
                    Some(d) => if d.len() != h.uncompressed_size {
                        e is CorruptedHeader
                    } else {
                        match h.checksum {
                            None => e is CorruptedHeader,
                            Some(c) => e == (CodropError::BlockChecksumMismatch { expected: c, actual: spec_crc32c(d) }),
                        }
                    },
                }
            }
        },
    }
}

/// `e` is what a failed decoding of the blocks from `pos` on reports: the error of the first
/// block that fails.
pub open spec fn blocks_error_is(
    input: Seq<u8>,
    pos: int,
    done: Seq<u8>,
    hdr: StreamHeader,
    opts: DecoderOptions,
    e: CodropError,
) -> bool
    decreases input.len() - pos,
{
    if pos < 0 || pos > input.len() {
        false
    } else {
        match spec_block_step(input, pos, done, hdr, opts) {
            BlockStep::Block(d, p) => if p <= pos || p > input.len() {
                false
            } else {
                blocks_error_is(input, p, done + d, hdr, opts, e)
            },
            BlockStep::End => false,
            BlockStep::Fail => block_error_is(input, pos, done, hdr, opts, e),
        }
    }
}

/// `e` is what a failed decoding of the stream `input` reports: the stream header's error, or
/// that of the first block that fails.
pub open spec fn stream_error_is(input: Seq<u8>, opts: DecoderOptions, e: CodropError) -> bool {
    match spec_read_stream_header(input) {
        HeaderParse::Done(h, n) => blocks_error_is(input, n as int, Seq::empty(), h, opts, e),
        p => header_error_is(p, e),
    }
}

/// With block checksums verified, a data block only ever decodes to bytes whose CRC32C is the
/// checksum its header carries, whatever the stream header says (with or without a stream
/// hash): a block whose bytes do not match its checksum fails.
pub proof fn law_block_checksum_enforced(input: Seq<u8>, pos: int, done: Seq<u8>, hdr: StreamHeader, opts: DecoderOptions)
    requires
        opts.verify_block_checksums,
    ensures
        spec_block_step(input, pos, done, hdr, opts) matches BlockStep::Block(d, _) ==> (
        spec_read_block_header(input.skip(pos)) matches Parse::Done(h, _) && (h.has_checksum ==> h.checksum == Some(
            spec_crc32c(d),
        )) && d.len() == h.uncompressed_size && h.block_type != BlockType::EndOfStream),
{
    reveal(spec_block_step);
}

/// The same for a whole stream: with block checksums verified, a stream whose first block
/// carries a checksum that its decoded bytes do not match does not decode.
pub proof fn law_stream_refuses_bad_block_checksum(
    input: Seq<u8>,
    pos: int,
    done: Seq<u8>,
    hdr: StreamHeader,
    opts: DecoderOptions,
    h: BlockHeader,
    n: nat,
    d: Seq<u8>,
)
    requires
        opts.verify_block_checksums,
        0 <= pos <= input.len(),
        spec_read_block_header(input.skip(pos)) == Parse::Done(h, n),
        h.block_type != BlockType::EndOfStream,
        h.has_checksum,
        pos + n + h.compressed_size <= input.len(),
        spec_block_payload(h.block_type, input.subrange(pos + n, pos + n + h.compressed_size), h.uncompressed_size as int)
            == Some(d),
        h.checksum != Some(spec_crc32c(d)),
    ensures
        spec_block_step(input, pos, done, hdr, opts) is Fail,
        spec_blocks(input, pos, done, hdr, opts) is None,
{
    reveal(spec_block_step);
}

/// Decoding of the blocks from `pos` on, with `done` decoded before: everything decoded by
/// the end of the stream, if it decodes.
pub open spec fn spec_blocks(input: Seq<u8>, pos: int, done: Seq<u8>, hdr: StreamHeader, opts: DecoderOptions) -> Option<Seq<u8>>
    decreases input.len() - pos,
{
    if pos < 0 || pos > input.len() {
        None
    } else {
        match spec_block_step(input, pos, done, hdr, opts) {
            BlockStep::Block(d, p) => if p <= pos || p > input.len() {
                None
            } else {
                spec_blocks(input, p, done + d, hdr, opts)
            },
            BlockStep::End => Some(done),
            BlockStep::Fail => None,
        }
    }
}

/// Decoding of a whole stream: what it decodes to, if it decodes.
pub open spec fn spec_decode_stream(input: Seq<u8>, opts: DecoderOptions) -> Option<Seq<u8>> {
    match spec_read_stream_header(input) {
        HeaderParse::Done(h, n) => spec_blocks(input, n as int, Seq::empty(), h, opts),
        _ => None,
    }
}

/// A decoded block keeps the output within the limit.
proof fn lemma_block_step_within_limit(input: Seq<u8>, pos: int, done: Seq<u8>, hdr: StreamHeader, opts: DecoderOptions)
    ensures
        spec_block_step(input, pos, done, hdr, opts) matches BlockStep::Block(d, _) ==> done.len() + d.len()
            <= decode_limit(opts),
{
    reveal(spec_block_step);
}

proof fn lemma_blocks_within_limit(input: Seq<u8>, pos: int, done: Seq<u8>, hdr: StreamHeader, opts: DecoderOptions)
    requires
        done.len() <= decode_limit(opts),
    ensures
        spec_blocks(input, pos, done, hdr, opts) matches Some(d) ==> d.len() <= decode_limit(opts),
    decreases input.len() - pos,
{
    if 0 <= pos <= input.len() {
        lemma_block_step_within_limit(input, pos, done, hdr, opts);
        match spec_block_step(input, pos, done, hdr, opts) {
            BlockStep::Block(d, p) => {
                if pos < p <= input.len() {
                    lemma_blocks_within_limit(input, p, done + d, hdr, opts);
                }
            },
            _ => {},
        }
    }
}

/// Whatever a stream claims, it never decodes to more bytes than the output limit allows.
pub proof fn law_decode_within_limit(input: Seq<u8>, opts: DecoderOptions)
    ensures
        spec_decode_stream(input, opts) matches Some(d) ==> d.len() <= decode_limit(opts),
{
    match spec_read_stream_header(input) {
        HeaderParse::Done(h, n) => {
            lemma_blocks_within_limit(input, n as int, Seq::empty(), h, opts);
        },
        _ => {},
    }
}

/// Stream decoder over an in-memory `.cdp` stream.
pub struct Decoder<'a> {
    input: &'a [u8],
    pos: usize,
    options: DecoderOptions,
    header: StreamHeader,
    stream_hasher: StreamHash64,
    total_decompressed: u64,
    stream_finished: bool,
}

impl<'a> Decoder<'a> {
    /// The stream being decoded.
    pub closed spec fn input(&self) -> Seq<u8> {
        self.input@
    }

    /// Position of the next block.
    pub closed spec fn position(&self) -> int {
        self.pos as int
    }

    /// Everything decoded so far.
    pub closed spec fn decoded(&self) -> Seq<u8> {
        self.stream_hasher@
    }

    /// The decoder settings.
    pub closed spec fn options(&self) -> DecoderOptions {
        self.options
    }

    /// The stream's header.
    pub closed spec fn stream_header(&self) -> StreamHeader {
        self.header
    }

    /// Whether the end of the stream has been reached.
    pub closed spec fn finished(&self) -> bool {
        self.stream_finished
    }

    pub closed spec fn wf(&self) -> bool {
        &&& self.pos <= self.input@.len()
        &&& self.stream_hasher.wf()
        &&& self.total_decompressed == self.stream_hasher@.len()
        &&& self.stream_hasher@.len() <= decode_limit(self.options)
    }

    /// Reads the stream header of `input`.
    pub fn new(input: &'a [u8], options: DecoderOptions) -> (r: CodropResult<Self>)
        ensures
            match spec_read_stream_header(input@) {
                HeaderParse::Done(h, n) => r matches Ok(d) && d.wf() && d.input() == input@ && d.position() == n
                    && d.decoded() == Seq::<u8>::empty() && d.stream_header() == h && d.options() == options
                    && !d.finished(),
                p => r matches Err(e) && header_error_is(p, e),
            },
    {
        let mut pos: usize = 0;
        assert(input@.skip(0) =~= input@);
        let header = match StreamHeader::read_from(input, &mut pos) {
            Ok(h) => h,
            Err(e) => {
                return Err(e);
            },
        };
        proof {
            assert(input@.skip(0) =~= input@);
        }
        Ok(Decoder {
            input,
            pos,
            options,
            header,
            stream_hasher: StreamHash64::new(),
            total_decompressed: 0,
            stream_finished: false,
        })
    }

    /// The stream header.
    pub fn header(&self) -> (r: &StreamHeader)
        ensures
            *r == self.stream_header(),
    {
        &self.header
    }

    /// Decodes the next block and returns its bytes; `None` once the end of the stream is
    /// reached.
    pub fn decode_next_block(&mut self) -> (r: CodropResult<Option<Vec<u8>>>)
        requires
            old(self).wf(),
        ensures
            final(self).wf(),
            final(self).input() == old(self).input(),
            final(self).options() == old(self).options(),
            final(self).stream_header() == old(self).stream_header(),
            old(self).finished() ==> r == Ok::<Option<Vec<u8>>, CodropError>(None) && final(self).finished(),
            !old(self).finished() ==> match spec_block_step(
                old(self).input(),
                old(self).position(),
                old(self).decoded(),
                old(self).stream_header(),
                old(self).options(),
            ) {
                BlockStep::Block(d, p) => r matches Ok(Some(v)) && v@ == d && final(self).position() == p
                    && p > old(self).position() && final(self).decoded() == old(self).decoded() + d
                    && !final(self).finished(),
                BlockStep::End => r == Ok::<Option<Vec<u8>>, CodropError>(None) && final(self).finished(),
                BlockStep::Fail => r matches Err(e) && block_error_is(
                    old(self).input(),
                    old(self).position(),
                    old(self).decoded(),
                    old(self).stream_header(),
                    old(self).options(),
                    e,
                ),
            },
    {
        proof {
            reveal(spec_block_step);
        }
        if self.stream_finished {
            return Ok(None);
        }
        let ghost input = self.input@;
        let ghost pos0 = self.pos as int;
        let ghost done = self.stream_hasher@;
        let mut cursor = self.pos;
        let block_header = match BlockHeader::read_from(self.input, &mut cursor) {
            Ok(h) => h,
            Err(e) => {
                return Err(e);
            },
        };
        if block_header.block_type == BlockType::EndOfStream {
            self.stream_finished = true;
            if self.header.flags.has_stream_checksum && self.options.verify_stream_checksum {
                if self.input.len() < 8 || cursor > self.input.len() - 8 {
                    return Err(CodropError::UnexpectedEof);
                }
                let expected = read_u64_le(self.input, cursor);
                let actual = self.stream_hasher.finalize();
                if expected != actual {
                    return Err(CodropError::StreamChecksumMismatch { expected, actual });
                }
            }
            self.pos = cursor;
            return Ok(None);
        }
        let usize_ = block_header.uncompressed_size;
        let limit: u64 = match self.options.max_output_bytes {
            Some(l) => l,
            None => u64::MAX,
        };
        if usize_ as u64 > limit - self.total_decompressed {
            let requested: u64 = if self.total_decompressed > u64::MAX - usize_ as u64 {
                u64::MAX
            } else {
                self.total_decompressed + usize_ as u64
            };
            return Err(CodropError::DecompressionBombDetected { limit, requested });
        }
        let csize = block_header.compressed_size as usize;
        if csize > self.input.len() - cursor {
            return Err(CodropError::UnexpectedEof);
        }
        let payload = vstd::slice::slice_subrange(self.input, cursor, cursor + csize);
        let decompressed = match decode_block_payload(block_header.block_type, payload, usize_ as usize) {
            Ok(d) => d,
            Err(e) => {
                return Err(e);
            },
        };
        if decompressed.len() as u64 != usize_ as u64 {
            return Err(CodropError::CorruptedHeader("Block length mismatch".to_string()));
        }
        if self.options.verify_block_checksums {
            match block_header.verify_checksum(&decompressed) {
                Ok(()) => {},
                Err(e) => {
                    return Err(e);
                },
            }
        }
        proof {
            lemma_block_header_len(input.skip(pos0));
        }
        self.stream_hasher.update(&decompressed);
        self.total_decompressed = self.total_decompressed + decompressed.len() as u64;
        self.pos = cursor + csize;
        Ok(Some(decompressed))
    }

    /// Decodes all remaining blocks, appending them to `out`; returns the number of bytes
    /// appended.
    pub fn decompress_to(&mut self, out: &mut Vec<u8>) -> (r: CodropResult<u64>)
        requires
            old(self).wf(),
        ensures
            final(self).wf(),
            old(self).finished() ==> r == Ok::<u64, CodropError>(0) && final(out)@ == old(out)@,
            !old(self).finished() ==> (r is Ok <==> spec_blocks(
                old(self).input(),
                old(self).position(),
                old(self).decoded(),
                old(self).stream_header(),
                old(self).options(),
            ) is Some),
            !old(self).finished() && r is Ok ==> final(out)@.len() >= old(out)@.len() && final(out)@.take(
                old(out)@.len() as int,
            ) == old(out)@ && spec_blocks(
                old(self).input(),
                old(self).position(),
                old(self).decoded(),
                old(self).stream_header(),
                old(self).options(),
            ) == Some(old(self).decoded() + final(out)@.skip(old(out)@.len() as int)),
            !old(self).finished() ==> (r matches Err(e) ==> blocks_error_is(
                old(self).input(),
                old(self).position(),
                old(self).decoded(),
                old(self).stream_header(),
                old(self).options(),
                e,
            )),
    {
        if self.stream_finished {
            return Ok(0);
        }
        let ghost start = old(self).position();
        let ghost done0 = old(self).decoded();
        let ghost out0 = out@;
        let ghost target = spec_blocks(self.input(), start, done0, self.stream_header(), self.options());
        let mut total: u64 = 0;
        loop
            invariant
                self.wf(),
                !self.finished(),
                self.input() == old(self).input(),
                self.options() == old(self).options(),
                self.stream_header() == old(self).stream_header(),
                0 <= self.position() <= self.input().len(),
                out@.len() >= out0.len(),
                out@.take(out0.len() as int) == out0,
                self.decoded() == done0 + out@.skip(out0.len() as int),
                target == spec_blocks(self.input(), self.position(), self.decoded(), self.stream_header(), self.options()),
                target == spec_blocks(old(self).input(), start, done0, old(self).stream_header(), old(self).options()),
                out0 == old(out)@,
                done0 == old(self).decoded(),
                start == old(self).position(),
                !old(self).finished(),
                total <= self.decoded().len(),
                forall|e: CodropError| #[trigger] blocks_error_is(self.input(), self.position(), self.decoded(), self.stream_header(), self.options(), e)
                    == blocks_error_is(old(self).input(), start, done0, old(self).stream_header(), old(self).options(), e),
            decreases self.input().len() - self.position(),
        {
            let ghost p0 = self.position();
            let ghost d0 = self.decoded();
            let ghost o0 = out@;
            match self.decode_next_block() {
                Ok(Some(block)) => {
                    proof {
                        assert(out@.skip(out0.len() as int) + block@ =~= (out@ + block@).skip(out0.len() as int));
                        assert((out@ + block@).take(out0.len() as int) =~= out@.take(out0.len() as int));
                    }
                    crate::buf::append_slice(out, &block);
                    total = total + block.len() as u64;
                    proof {
                        assert forall|e: CodropError| #[trigger] blocks_error_is(self.input(), self.position(), self.decoded(),
                            self.stream_header(), self.options(), e) == blocks_error_is(self.input(), p0, d0,
                            self.stream_header(), self.options(), e) by {}
                    }
                },
                Ok(None) => {
                    assert(spec_block_step(self.input(), p0, d0, self.stream_header(), self.options()) is End);
                    assert(target == Some(d0));
                    return Ok(total);
                },
                Err(e) => {
                    assert(spec_block_step(self.input(), p0, d0, self.stream_header(), self.options()) is Fail);
                    assert(target is None);
                    assert(blocks_error_is(self.input(), p0, d0, self.stream_header(), self.options(), e));
                    return Err(e);
                },
            }
        }
    }
}

} // verus!
