//! Chunk encoding tags as written to disk. The tag bytes match the order of
//! Prometheus's `Encoding` and `ValueType`; do not reorder the variants.
use vstd::prelude::*;

verus! {

/// Identifier byte for each chunk encoding kind.
#[derive(Debug, Clone, Copy, PartialEq, Eq, Structural)]
pub enum Encoding {
    /// No encoding (sentinel; never written to disk).
    EncNone,
    /// XOR / Gorilla compression for float samples (legacy).
    Xor,
    /// Sparse histogram chunk.
    Histogram,
    /// Sparse float-histogram chunk.
    FloatHistogram,
    /// XOR2 (extended XOR with stale-NaN and start-timestamp support).
    Xor2,
}

impl Encoding {
    /// The tag byte written to disk for this encoding.
    pub fn to_u8(self) -> (r: u8)
        ensures
            r == match self {
                Encoding::EncNone => 0u8,
                Encoding::Xor => 1u8,
                Encoding::Histogram => 2u8,
                Encoding::FloatHistogram => 3u8,
                Encoding::Xor2 => 4u8,
            },
    {
        match self {
            Encoding::EncNone => 0,
            Encoding::Xor => 1,
            Encoding::Histogram => 2,
            Encoding::FloatHistogram => 3,
            Encoding::Xor2 => 4,
        }
    }
}

/// Logical value kind exposed by a chunk iterator.
#[derive(Debug, Clone, Copy, PartialEq, Eq, Structural)]
pub enum ValueType {
    /// Iterator is exhausted.
    ValNone,
    /// Simple float sample.
    Float,
    /// Integer histogram sample.
    Histogram,
    /// Float histogram sample.
    FloatHistogram,
}

impl ValueType {
    /// The numeric tag of this value kind.
    pub fn to_u8(self) -> (r: u8)
        ensures
            r == match self {
                ValueType::ValNone => 0u8,
                ValueType::Float => 1u8,
                ValueType::Histogram => 2u8,
                ValueType::FloatHistogram => 3u8,
            },
    {
        match self {
            ValueType::ValNone => 0,
            ValueType::Float => 1,
            ValueType::Histogram => 2,
            ValueType::FloatHistogram => 3,
        }
    }
}

} // verus!
