//! Error taxonomy for the compression engine.

use vstd::prelude::*;

verus! {

/// Everything that can go wrong while encoding or decoding.
#[derive(Debug, Clone)]
pub enum CompressError {
    /// Encode was called with zero-length data, or adaptive selection
    /// exhausted all candidates without success.
    EmptyInput,
    /// Decode was dispatched with the unresolved `Auto` tag.
    InvalidMethod,
    /// Malformed or truncated symbol-coded bytes.
    HuffmanError(String),
    /// The block compressor failed or its framing was malformed.
    Lz4Error(String),
    /// Malformed run-length payload.
    EntropyError(String),
    /// Malformed deduplicated block stream.
    SemanticError(String),
    /// A decoded length disagrees with the expected original size.
    SizeMismatch { expected: usize, actual: usize },
}

impl CompressError {
    /// A human-readable description of the error: a fixed phrase for the
    /// argument-free kinds, the wrapped message otherwise.
    pub fn message(&self) -> (r: String)
        ensures
            self is EmptyInput ==> r@ == "empty input"@,
            self is InvalidMethod ==> r@ == "invalid compression method for this operation"@,
            self is HuffmanError ==> r@ == self->HuffmanError_0@,
            self is Lz4Error ==> r@ == self->Lz4Error_0@,
            self is EntropyError ==> r@ == self->EntropyError_0@,
            self is SemanticError ==> r@ == self->SemanticError_0@,
            self is SizeMismatch ==> r@ == "decompression size mismatch"@,
    {
        match self {
            CompressError::EmptyInput => "empty input".to_string(),
            CompressError::InvalidMethod => {
                "invalid compression method for this operation".to_string()
            },
            CompressError::HuffmanError(m) => m.clone(),
            CompressError::Lz4Error(m) => m.clone(),
            CompressError::EntropyError(m) => m.clone(),
            CompressError::SemanticError(m) => m.clone(),
            CompressError::SizeMismatch { expected: _, actual: _ } => {
                "decompression size mismatch".to_string()
            },
        }
    }
}

} // verus!
