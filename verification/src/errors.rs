//! The closed set of failure values produced by the checked and unchecked
//! entry points.

use vstd::prelude::*;

verus! {

/// Error values that can be returned from encoding.
///
/// Encoding a well-formed payload can only fail on a destination buffer that
/// is smaller than `encode_capacity` demands.
#[derive(Debug, Clone, Copy, PartialEq, Eq, Structural)]
pub enum EncodeError {
    /// The destination buffer holds `have` bytes but `want` are needed.
    BufferTooSmall { have: usize, want: usize },
}

/// Error values that can be returned from decoding, each carrying enough
/// context to diagnose which invariant the malformed frame violated.
#[derive(Debug, Clone, Copy, PartialEq, Eq, Structural)]
pub enum DecodeError {
    /// The frame was empty; no zero-length frame is valid.
    EmptyInput,
    /// The destination buffer holds `have` bytes but `want` are needed.
    BufferTooSmall { have: usize, want: usize },
    /// A sentinel byte was found at offset `at`, where a marker was expected.
    ZeroMarker { at: usize },
    /// A sentinel byte was found at offset `at`, inside a chunk's data bytes.
    ZeroBinary { at: usize },
    /// The marker at offset `at` declares a chunk that runs past the end of
    /// the frame of length `len`.
    ChunkOverflow { at: usize, marker: u8, len: usize },
}

} // verus!
