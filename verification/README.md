# mura

A byte-pair-encoding tokenizer, a text normaliser for leetspeak, and a
fault-tolerant model file format (Hamming(7,4) error correction plus CRC-32),
written in Verus with their behaviour stated in contracts and proved.

- `src/bpe.rs` — tokenizer: training (most frequent adjacent pair, smallest on a
  tie), encoding, decoding, serialisation; proofs that decoding undoes encoding
  and that reading undoes writing.
- `src/normalize.rs` — lower case, leetspeak table, separator and space
  removal, long runs cut (three or more `o`s to one, any other run of three or
  more to two).
- `src/hamming.rs`, `src/crc.rs` — Hamming(7,4) and CRC-32, with proofs that a
  stream decodes to its data when each codeword has at most one flipped bit
  (in every codeword at once), and that the table-driven CRC equals the
  bitwise one.
- `src/vault.rs` — the `.mura` file container; proofs that a written file reads
  back, also when its header is intact and each codeword of its payload has at
  most one flipped bit.
- `src/digits.rs` — numbers as decimal and hexadecimal text, for error messages.
- `app/` — reading and writing model files on disk.
