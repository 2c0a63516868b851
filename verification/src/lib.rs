//! Text tokenisation, normalisation and a fault-tolerant model file format.
//!
//! - [`bpe`]: byte-pair-encoding tokenizer (training, encoding, decoding, serialisation).
//! - [`normalize`]: text normaliser for leetspeak, separators and repeated letters.
//! - [`hamming`]: Hamming(7,4) error correction of byte streams.
//! - [`crc`]: CRC-32 checksum.
//! - [`vault`]: the model file container built from the above.
//! - [`le_bytes`]: little-endian `u32` encoding; [`digits`]: numbers as text;
//!   [`text`]: std text operations; [`error`].
pub mod bpe;
pub mod crc;
pub mod digits;
pub mod error;
pub mod hamming;
pub mod le_bytes;
pub mod normalize;
pub mod text;
pub mod vault;
