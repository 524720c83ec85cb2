# merlion_tsdb

Verified encoding primitives of a Prometheus-compatible time-series store,
written in Verus.

- `src/encoding/varint.rs`: Go-style LEB128 uvarints and zigzag varints, with
  encoders and decoders proved against `uvarint_bytes` / `decode_uvarint`,
  and round-trip laws.
- `src/encoding/bits.rs`: the bit-level model (bits of integers and of byte
  sequences, most significant bit first) in which the stream is specified.
- `src/encoding/bstream.rs`: the MSB-first `BitWriter` and the buffered
  `BitReader`; every write is specified as the bits it appends, every read as
  the bits it consumes, and reads of what was written give it back.
- `src/chunkenc/xor.rs`: the XOR (Gorilla) chunk. Appends are specified by
  `encode_samples`, iteration by `decode_chunk`; values are IEEE 754 bit
  patterns (`u64`).
- `src/chunkenc/roundtrip.rs`: the proof that iterating a chunk gives back
  exactly the samples appended to it.
- `app/`: error types with `std::error::Error`, and float-facing adapters.
- `tests/`: executable tests.
