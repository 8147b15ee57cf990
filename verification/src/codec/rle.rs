//! Run-length coding: `[byte value] [run length as ULEB128]` per run.
use vstd::prelude::*;

use crate::buf::{append_repeat, repeat_byte};
use crate::error::CodropError;
use crate::varint::{leb_enc_u64, leb_read5_u64, lemma_leb_read5_u64_enc, read_leb5_u64, write_leb_u64, LebRead};

verus! {

/// End of the run of `d[0]` that covers `d[..i]`.
pub open spec fn run_from(d: Seq<u8>, i: int) -> int
    decreases d.len() - i,
{
    if i < 1 || i >= d.len() || d[i] != d[0] {
        i
    } else {
        run_from(d, i + 1)
    }
}

/// Length of the maximal run of equal bytes at the front of `d`.
pub open spec fn run_len(d: Seq<u8>) -> int {
    run_from(d, 1)
}

pub proof fn lemma_run_from(d: Seq<u8>, i: int)
    requires
        1 <= i <= d.len(),
        forall|j: int| 0 <= j < i ==> #[trigger] d[j] == d[0],
    ensures
        i <= run_from(d, i) <= d.len(),
        forall|j: int| 0 <= j < run_from(d, i) ==> #[trigger] d[j] == d[0],
        run_from(d, i) < d.len() ==> d[run_from(d, i)] != d[0],
    decreases d.len() - i,
{
    if i < d.len() && d[i] == d[0] {
        lemma_run_from(d, i + 1);
    }
}

pub proof fn lemma_run_len(d: Seq<u8>)
    requires
        d.len() >= 1,
    ensures
        1 <= run_len(d) <= d.len(),
        d.take(run_len(d)) == repeat_byte(d[0], run_len(d) as nat),
{
    lemma_run_from(d, 1);
    assert(d.take(run_len(d)) =~= repeat_byte(d[0], run_len(d) as nat));
}

/// The run-length encoding of `d`.
pub open spec fn spec_rle_encode(d: Seq<u8>) -> Seq<u8>
    decreases d.len(),
{
    if d.len() == 0 {
        Seq::<u8>::empty()
    } else {
        proof {
            lemma_run_len(d);
        }
        seq![d[0]] + leb_enc_u64(run_len(d) as u64) + spec_rle_encode(d.skip(run_len(d)))
    }
}

/// Outcome of decoding a run-length payload.
pub enum RleDecode {
    /// The decoded bytes.
    Done(Seq<u8>),
    /// A run length is missing or cut short.
    Eof,
    /// A run length runs past five bytes.
    Overflow,
    /// A run of length zero.
    ZeroRun,
    /// A run that does not fit: its length and the room left.
    TooLong(u64, int),
    /// The payload ends before the announced length is reached.
    Short(int),
}

/// `e` is what a failed run-length decoding with outcome `d` reports.
pub open spec fn rle_error_is(d: RleDecode, e: CodropError) -> bool {
    match d {
        RleDecode::Done(_) => false,
        RleDecode::Eof => e == CodropError::UnexpectedEof,
        RleDecode::Overflow => e is CorruptedEntropyStream,
        RleDecode::ZeroRun => e is CorruptedEntropyStream,
        RleDecode::TooLong(run, room) => e == (CodropError::InvalidMatchLength { length: run as usize, remaining: room as usize }),
        RleDecode::Short(_) => e is CorruptedEntropyStream,
    }
}

/// Decoding of the runs in `c`, appended to `out`, against the announced length `expected`.
pub open spec fn spec_rle_decode_from(c: Seq<u8>, out: Seq<u8>, expected: int) -> RleDecode
    decreases c.len(),
{
    if c.len() == 0 {
        if out.len() == expected { RleDecode::Done(out) } else { RleDecode::Short(out.len() as int) }
    } else {
        let v = c[0];
        let rest = c.skip(1);
        match leb_read5_u64(rest) {
            LebRead::Truncated => RleDecode::Eof,
            LebRead::TooLong => RleDecode::Overflow,
            LebRead::Value(run, n) => {
                if run == 0 {
                    RleDecode::ZeroRun
                } else if out.len() + run > expected {
                    RleDecode::TooLong(run, expected - out.len())
                } else if n > rest.len() {
                    RleDecode::Eof
                } else {
                    spec_rle_decode_from(rest.skip(n as int), out + repeat_byte(v, run as nat), expected)
                }
            },
        }
    }
}

/// Decoding of a whole run-length payload.
pub open spec fn spec_rle_decode(c: Seq<u8>, expected: int) -> RleDecode {
    spec_rle_decode_from(c, Seq::<u8>::empty(), expected)
}

pub struct RleCodec;

impl RleCodec {
    /// Encode `data` as runs `[byte value] [run length as ULEB128]`.
    pub fn encode(data: &[u8]) -> (r: Vec<u8>)
        ensures
            r@ == spec_rle_encode(data@),
    {
        let mut out: Vec<u8> = Vec::new();
        let n = data.len();
        let mut i: usize = 0;
        assert(data@.skip(0) =~= data@);
        while i < n
            invariant
                i <= n,
                n == data@.len(),
                spec_rle_encode(data@) == out@ + spec_rle_encode(data@.skip(i as int)),
            decreases n - i,
        {
            let ghost ds = data@.skip(i as int);
            let val = data[i];
            let mut run: usize = 1;
            proof {
                lemma_run_from(ds, 1);
            }
            while run < n - i && data[i + run] == val
                invariant
                    1 <= run <= n - i,
                    i < n,
                    n == data@.len(),
                    ds == data@.skip(i as int),
                    val == ds[0],
                    forall|j: int| 0 <= j < run ==> #[trigger] ds[j] == ds[0],
                    run_from(ds, run as int) == run_len(ds),
                decreases n - i - run,
            {
                run = run + 1;
            }
            proof {
                lemma_run_len(ds);
                assert(run_from(ds, run as int) == run);
                assert(ds.skip(run as int) =~= data@.skip(i + run));
                assert(spec_rle_encode(ds) == seq![val] + leb_enc_u64(run as u64) + spec_rle_encode(ds.skip(run as int)));
            }
            let ghost before = out@;
            out.push(val);
            write_leb_u64(&mut out, run as u64);
            i = i + run;
            assert(before + spec_rle_encode(ds) =~= out@ + spec_rle_encode(data@.skip(i as int)));
        }
        assert(data@.skip(n as int) =~= Seq::<u8>::empty());
        assert(out@ + Seq::<u8>::empty() =~= out@);
        out
    }

    /// Decode a run-length payload that must expand to exactly `expected_len` bytes.
    pub fn decode(compressed: &[u8], expected_len: usize) -> (r: Result<Vec<u8>, CodropError>)
        ensures
            match spec_rle_decode(compressed@, expected_len as int) {
                RleDecode::Done(d) => r matches Ok(v) && v@ == d,
                RleDecode::Eof => r == Err::<Vec<u8>, CodropError>(CodropError::UnexpectedEof),
                RleDecode::Overflow => r matches Err(CodropError::CorruptedEntropyStream(_)),
                RleDecode::ZeroRun => r matches Err(CodropError::CorruptedEntropyStream(_)),
                RleDecode::TooLong(run, room) => r == Err::<Vec<u8>, CodropError>(
                    CodropError::InvalidMatchLength { length: run as usize, remaining: room as usize },
                ),
                RleDecode::Short(_) => r matches Err(CodropError::CorruptedEntropyStream(_)),
            },
            r matches Err(e) ==> rle_error_is(spec_rle_decode(compressed@, expected_len as int), e),
    {
        let mut out: Vec<u8> = Vec::new();
        let mut i: usize = 0;
        let ghost c = compressed@;
        assert(c.skip(0) =~= c);
        while i < compressed.len()
            invariant
                i <= c.len(),
                c == compressed@,
                out@.len() <= expected_len,
                spec_rle_decode(c, expected_len as int) == spec_rle_decode_from(c.skip(i as int), out@, expected_len as int),
            decreases c.len() - i,
        {
            let val = compressed[i];
            i = i + 1;
            assert(c.skip(i - 1).skip(1) =~= c.skip(i as int));
            let (run, n) = match read_leb5_u64(compressed, i) {
                LebRead::Value(run, n) => (run, n),
                LebRead::Truncated => {
                    return Err(CodropError::UnexpectedEof);
                },
                LebRead::TooLong => {
                    return Err(CodropError::CorruptedEntropyStream("RLE run length overflow".to_string()));
                },
            };
            if run == 0 {
                return Err(CodropError::CorruptedEntropyStream("Zero run length in RLE".to_string()));
            }
            if run > (expected_len - out.len()) as u64 {
                return Err(CodropError::InvalidMatchLength { length: run as usize, remaining: expected_len - out.len() });
            }
            i = i + n;
            assert(c.skip(i - n).skip(n as int) =~= c.skip(i as int));
            append_repeat(&mut out, val, run as usize);
        }
        if out.len() != expected_len {
            return Err(CodropError::CorruptedEntropyStream("RLE decoded length mismatch".to_string()));
        }
        Ok(out)
    }
}

proof fn lemma_rle_roundtrip_from(d: Seq<u8>, acc: Seq<u8>, rest: Seq<u8>, expected: int)
    requires
        d.len() < 0x8_0000_0000,
        expected == acc.len() + d.len(),
    ensures
        spec_rle_decode_from(spec_rle_encode(d) + rest, acc, expected) == spec_rle_decode_from(rest, acc + d, expected),
    decreases d.len(),
{
    if d.len() == 0 {
        assert(spec_rle_encode(d) + rest =~= rest);
        assert(acc + d =~= acc);
    } else {
        lemma_run_len(d);
        let r = run_len(d);
        let tail = d.skip(r);
        let e = spec_rle_encode(d) + rest;
        let lb = leb_enc_u64(r as u64);
        assert(e =~= seq![d[0]] + (lb + (spec_rle_encode(tail) + rest)));
        assert(e.skip(1) =~= lb + (spec_rle_encode(tail) + rest));
        lemma_leb_read5_u64_enc(r as u64, spec_rle_encode(tail) + rest);
        assert(e.skip(1).skip(lb.len() as int) =~= spec_rle_encode(tail) + rest);
        lemma_rle_roundtrip_from(tail, acc + repeat_byte(d[0], r as nat), rest, expected);
        assert(d =~= d.take(r) + tail);
        assert(acc + repeat_byte(d[0], r as nat) + tail =~= acc + d);
    }
}

/// Decoding the run-length encoding of `d` against its length gives `d` back.
pub proof fn law_rle_roundtrip(d: Seq<u8>)
    requires
        d.len() < 0x8_0000_0000,
    ensures
        spec_rle_decode(spec_rle_encode(d), d.len() as int) == RleDecode::Done(d),
{
    lemma_rle_roundtrip_from(d, Seq::<u8>::empty(), Seq::<u8>::empty(), d.len() as int);
    assert(spec_rle_encode(d) + Seq::<u8>::empty() =~= spec_rle_encode(d));
    assert(Seq::<u8>::empty() + d =~= d);
}

} // verus!
