//! The ways in which decoding an archive fails.

use vstd::prelude::*;

verus! {

/// Why a decode was abandoned. No tree comes out of a failed decode.
#[derive(Clone, Copy, Debug, PartialEq, Eq)]
pub enum DecodeError {
    /// A read, a file's content or the string pool runs past the end of the
    /// buffer.
    OutOfBounds,
    /// An entry's type tag is neither that of a file nor that of a
    /// directory; the tag is carried along.
    UnknownTag(u32),
    /// The string pool is not valid UTF-8.
    InvalidText,
    /// The pool's bytes from a name's offset to the next NUL are not text:
    /// the offset, which is carried along, falls inside a character.
    NameOffset(u32),
}

} // verus!
