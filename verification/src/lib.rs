//! Verified encoding primitives of a Prometheus-compatible TSDB: Go-style
//! varints, an MSB-first bit stream, and the XOR (Gorilla) sample chunk.

pub mod encoding;
pub mod chunkenc;
