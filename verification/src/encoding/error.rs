use vstd::prelude::*;

verus! {

/// Errors returned by the readers of this crate.
///
/// - `EndOfStream`: the stream ended where a value was expected.
/// - `UnexpectedEnd`: the stream ended in the middle of a multi-byte value.
/// - `VarintOverflow`: a varint does not fit in 64 bits.
#[derive(Debug, Clone, Copy, PartialEq, Eq, Structural)]
pub enum ReadError {
    /// Reached the end of the stream at a clean boundary.
    EndOfStream,
    /// Stream ended in the middle of a multi-byte value.
    UnexpectedEnd,
    /// Varint payload exceeded the 10-byte maximum for a `u64`.
    VarintOverflow,
}

} // verus!
