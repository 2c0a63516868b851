//! Error type shared by the library.
use vstd::prelude::*;

verus! {

/// Errors reported by the tokenizer, the Hamming decoder and the model file reader.
#[derive(Debug)]
pub enum MuraError {
    /// Training or reading a tokenizer failed.
    BpeError(String),
    /// A Hamming-encoded stream was too short.
    HammingError(String),
    /// A model file was malformed.
    VaultError(String),
}

/// Result type of the library.
pub type MuraResult<T> = Result<T, MuraError>;

} // verus!
