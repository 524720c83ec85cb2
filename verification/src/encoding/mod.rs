//! Low-level encoding primitives: varints and the MSB-first bit stream.

pub mod bits;
pub mod bstream;
pub mod varint;

mod error;
pub use error::ReadError;
