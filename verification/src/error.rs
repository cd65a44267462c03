use vstd::prelude::*;

verus! {

/// The ways a stream operation can fail.
#[derive(Debug, Clone, Copy, PartialEq, Eq, Structural)]
pub enum Error {
    /// A read asked for more bits than the target integer holds.
    ReadingTooManyBits,
    /// A read ran past the end of the data.
    ReadEof,
    /// A write asked for more bits than the source integer holds.
    WritingTooManyBits,
    /// The value to write does not fit in the requested number of bits.
    ValueOverflowsBitCount,
    /// The bytes of a string are not valid UTF-8.
    InvalidUtf8,
    /// An extra-data block held none of its optional parts.
    Empty,
}

} // verus!
