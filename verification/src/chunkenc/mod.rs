//! Chunk encoders and decoders: the XOR (Gorilla) chunk for float samples,
//! whose values are handled as their IEEE 754 bit patterns.

pub mod roundtrip;
pub mod wire;
pub mod xor;

mod encoding;
pub use encoding::{Encoding, ValueType};
