use vstd::prelude::*;

verus! {

/// Why a decode failed.
#[derive(Debug, Clone, Copy, PartialEq, Eq, Structural)]
pub enum Error {
    /// The input ended before the encoding did.
    UnexpectedEof,
    /// A string's bytes are not valid UTF-8.
    Utf8Error,
    /// A unit was encoded by a byte other than 0x00.
    UnexpectedValueForUnit(u8),
    /// A boolean was encoded by a byte other than 0x00 or 0x01.
    UnexpectedValueForBool(u8),
    /// An optional value had a tag other than 0x00 or 0x01.
    UnexpectedValueForOption(u8),
    /// A map encoding holds two entries with equal keys.
    SameKeyAppearsTwiceInMap,
    /// An integer started with a byte that is neither a small value nor a known tag.
    UnexpectedIntegerTag(u8),
}

} // verus!
