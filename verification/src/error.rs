use vstd::prelude::*;

verus! {

/// A failure while decoding wire bytes. Decoding aborts at the first error;
/// no partial value is returned.
#[derive(Debug, Clone, Copy, PartialEq, Eq, Structural)]
pub enum Error {
    /// Fewer bytes remain in the buffer than the read requires.
    UnexpectedEnd,
    /// The bytes of a string field are not valid UTF-8.
    InvalidUtf8,
    /// A decoded discriminant matches no declared enum member.
    UnknownEnumValue,
    /// A decoded tag matches no declared union variant.
    UnknownUnionTag,
}

impl Error {
    /// A short human-readable description of the error.
    pub fn describe(&self) -> (r: &'static str)
        ensures
            *self == Error::UnexpectedEnd ==> r@ == "unexpected end of message"@,
            *self == Error::InvalidUtf8 ==> r@ == "invalid UTF-8 in string"@,
            *self == Error::UnknownEnumValue ==> r@ == "unknown enum value"@,
            *self == Error::UnknownUnionTag ==> r@ == "unknown union tag"@,
    {
        match self {
            Error::UnexpectedEnd => "unexpected end of message",
            Error::InvalidUtf8 => "invalid UTF-8 in string",
            Error::UnknownEnumValue => "unknown enum value",
            Error::UnknownUnionTag => "unknown union tag",
        }
    }
}

/// A failure while encoding: a collection, string, message or union whose
/// size does not fit the 32-bit length field of the wire format.
#[derive(Debug, Clone, Copy, PartialEq, Eq, Structural)]
pub enum EncodeError {
    /// A length or element count exceeds what a `u32` can hold.
    TooLarge,
}

} // verus!
