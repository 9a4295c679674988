//! Consistent Overhead Byte Stuffing (COBS) with zero as the sentinel value.
//!
//! The encoder rewrites an arbitrary byte blob into a frame containing no
//! sentinel byte, so the sentinel can delimit messages on a byte stream; the
//! decoder is the exact inverse and classifies every malformed frame with a
//! specific error. Sizing functions let a caller pre-allocate exactly enough
//! destination space. Each transform comes in a checked variant, which
//! validates destination capacity at run time, and an unchecked variant,
//! which states the capacity as a precondition instead.
//!
//! The byte-level meaning of a frame is pinned down by the specification
//! functions in [`model`], and the laws relating the transforms (round trip,
//! sentinel freedom, capacity bounds) are proved in [`laws`].

pub mod decoder;
pub mod encoder;
pub mod errors;
pub mod laws;
pub mod model;
pub mod sizing;

pub use decoder::decode;
pub use decoder::decode_unsafe;
pub use encoder::encode;
pub use encoder::encode_unsafe;
pub use errors::DecodeError;
pub use errors::EncodeError;
pub use sizing::decode_buffer;
pub use sizing::encode_buffer;
