use vstd::prelude::*;

verus! {

/// The errors the pipeline can report. Every one of them is recoverable at
/// the caller's boundary; nothing in this crate panics on malformed input.
#[derive(Clone, Copy, Debug, PartialEq, Eq, Structural)]
pub enum SequenceError {
    /// A packed-bitfield encode was called with the wrong number of values.
    WrongArity,
    /// A base-N decode met a character outside the alphabet.
    InvalidSymbol,
    /// The requested bit depth lies outside `1..=8`.
    InvalidBitDepth,
    /// The requested target width is zero.
    InvalidMaxWidth,
    /// The decoded animation holds no frames at all.
    EmptyInput,
    /// A frame buffer does not match the declared dimensions.
    FrameSizeMismatch,
    /// The supplied bytes could not be decoded as an image.
    DecodeFailed,
    /// The scaled target height rounds to zero or exceeds the dimension type.
    InvalidTargetSize,
    /// A pixel-count product does not fit the machine's address space.
    ImageTooLarge,
    /// More frames than a run length can count.
    TooManyFrames,
}

} // verus!
