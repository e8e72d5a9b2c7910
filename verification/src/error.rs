use vstd::prelude::*;

verus! {

/// Everything that the library refuses, and why.
#[derive(Debug, Clone, Copy, PartialEq, Eq, Structural)]
pub enum Error {
    /// The datagram holds a byte outside ASCII.
    NotAscii,
    /// The datagram does not both start and end with `/`.
    MissingSlash,
    /// Unknown message type, or the wrong number of fields for the type.
    InvalidFormat,
    /// A numeric field is empty or holds something other than decimal digits.
    InvalidInteger,
    /// A numeric field is 2^31 or more.
    IntegerTooLarge,
    /// The session is closed; nothing can be written to it.
    SessionClosed,
    /// The application handed over bytes outside ASCII.
    NonAsciiPayload,
    /// The write would carry the outbound stream past the last position (2^31 - 1).
    StreamTooLong,
    /// A chat name is empty.
    EmptyUsername,
    /// A chat name is longer than 16 bytes.
    UsernameTooLong,
    /// A chat name holds a character that is not printable ASCII.
    UsernameNotPrintable,
    /// A price message starts with neither `I` nor `Q`.
    InvalidProtocol,
}

} // verus!
