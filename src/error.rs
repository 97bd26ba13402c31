use vstd::prelude::*;

verus! {

/// Why a read or a decode failed.
#[derive(Clone, Copy, Debug, PartialEq, Eq, Structural)]
pub enum DecodeError {
    /// A read asked for more bits than a `u32` result holds (more than 32).
    InvalidBitWidth,
    /// The byte sequence ended before the requested bits could be read.
    StreamExhausted,
    /// A complete Rice code was read, but its value does not fit in a `u32`.
    ValueOverflow,
}

} // verus!
