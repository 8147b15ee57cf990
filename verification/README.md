# libcodrop

A block-based lossless compression container (`.cdp`, format CDP1) whose codecs, container
parsing and stream logic are written in Verus and proved against their specifications.

## Layout

- `src/` — the verified library.
  - `format/` — stream header, flags, block headers, magic: writers and readers with
    round-trip laws.
  - `codec/` — stored, run-length, LZF, LZH (LZ + canonical Huffman) and LZA (LZ + tANS)
    block codecs. Every decoder and every encoder is specified byte for byte, and every
    encoder is proved to decode back to its input.
  - `entropy/` — bit writer and reader, canonical Huffman codes, ANS tables.
  - `prefilter/` — delta, static dictionary, JSON key and text word prefilters.
  - `streaming/` — the stream encoder and decoder; `compress` / `decompress` in `lib.rs`
    state the exact stream produced, that it decodes back to the data, that decoding never
    exceeds the output limit, and that a stream is never longer than the data plus the
    container's overhead.
  - `checksum/` — CRC-8, CRC32c and the 64-bit stream hash, with incremental laws.
  - `analysis/` — the byte histogram and block-type heuristic.
  - `inspect.rs`, `cli.rs` — stream summaries, exit codes and level names for the
    command line.
  - `image_codec.rs` — image re-encoding through the `image` crate.
- `tests/` — unit, golden-vector, property-style and benchmark tests.
- `app/` — the `codrop` command line, the C ABI and WebAssembly entry points, and the
  floating-point entropy measurement.
