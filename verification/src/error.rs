//! The failure conditions of encoding and decoding, as one structured value.
//!
//! Every error is returned to the immediate caller; nothing is swallowed or
//! coerced into a default. Each variant identifies the kind of failure and,
//! where useful, the offending raw byte.

use vstd::prelude::*;

verus! {

/// A structured decode/encode failure.
#[derive(Clone, Copy, PartialEq, Eq, Structural, Debug)]
pub enum Error {
    /// The byte source ended before a required field's bytes were available.
    UnexpectedEof,
    /// A declared length promised more payload bytes than the source yields.
    UnexpectedLengthOfInput,
    /// A root-level decode left unconsumed bytes in the input.
    NotAllBytesRead,
    /// A boolean was encoded as a byte other than 0 or 1.
    InvalidBoolByte(u8),
    /// An optional value's tag byte was neither 0 (absent) nor 1 (present).
    InvalidOptionTag(u8),
    /// A result value's tag byte was neither 0 (failure) nor 1 (success).
    InvalidResultTag(u8),
    /// An enum discriminant byte matched no variant of the target type.
    InvalidVariantTag(u8),
    /// Map or set keys were not serialized in strictly ascending order.
    WrongOrderOfKeys,
    /// A stored pointer-sized unsigned value does not fit the target width.
    UsizeOverflow,
    /// A stored pointer-sized signed value does not fit the target width.
    IsizeOverflow,
    /// A non-zero-constrained integer decoded to zero.
    ExpectedNonZeroValue,
    /// A float's bit pattern represents a NaN, which is not portable.
    NanNotPortable,
    /// A decoded byte payload is not valid UTF-8.
    InvalidUtf8,
    /// A collection is too long for its 4-byte length prefix.
    LengthTooLarge,
    /// A collection of a zero-sized element type was rejected.
    ZeroSizedElement,
    /// An opaque failure of the underlying byte sink or source.
    Io,
}

/// The coarse classification a transport layer distinguishes by.
#[derive(Clone, Copy, PartialEq, Eq, Structural, Debug)]
pub enum ErrorKind {
    /// The input bytes do not form a well-formed encoding.
    InvalidData,
    /// The raw end-of-input signal of a byte source.
    UnexpectedEof,
    /// A sink or source failed for reasons outside the codec.
    Other,
}

impl Error {
    /// True of the opaque sink/source failures that the codec merely passes
    /// through, as opposed to the errors it raises about the bytes themselves.
    pub open spec fn is_transport(self) -> bool {
        self is Io
    }

    /// The coarse kind of this error.
    pub fn kind(&self) -> (k: ErrorKind)
        ensures
            k == self.spec_kind(),
    {
        match self {
            Error::UnexpectedEof => ErrorKind::UnexpectedEof,
            Error::Io => ErrorKind::Other,
            _ => ErrorKind::InvalidData,
        }
    }

    /// The coarse kind, at the specification level.
    pub open spec fn spec_kind(self) -> ErrorKind {
        match self {
            Error::UnexpectedEof => ErrorKind::UnexpectedEof,
            Error::Io => ErrorKind::Other,
            _ => ErrorKind::InvalidData,
        }
    }
}

/// Replaces the raw end-of-input signal of a byte source by the decode error
/// that a short payload deserves; every other error passes through verbatim.
pub fn unexpected_eof_to_unexpected_length_of_input(e: Error) -> (r: Error)
    ensures
        r == (if e == Error::UnexpectedEof {
            Error::UnexpectedLengthOfInput
        } else {
            e
        }),
{
    if e.kind() == ErrorKind::UnexpectedEof {
        Error::UnexpectedLengthOfInput
    } else {
        e
    }
}

} // verus!
