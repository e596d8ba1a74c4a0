use vstd::prelude::*;

verus! {

/// Malformed wire data or text.
#[derive(Debug, Clone, Copy, PartialEq, Eq, Structural)]
pub enum ParseError {
    /// The buffer ended before a field was complete.
    ShortBuffer,
    /// A label length byte is neither a length of at most 63 nor a pointer.
    InvalidLabel,
    /// A compression pointer does not point strictly backwards.
    PointerLoop,
    /// The record data is shorter than its type requires.
    TruncatedRdata,
    /// A name is longer than 255 octets on the wire.
    NameTooLong,
    /// A name in text form holds an empty label or a character that is not ASCII.
    InvalidText,
}

/// Why a query or a validation failed.
#[derive(Debug, Clone, PartialEq, Eq)]
pub enum ClientError {
    /// The response could not be decoded.
    Parse(ParseError),
    /// The response carries another transaction id than the request.
    IncorrectMessageId { got: u16, expect: u16 },
    /// The server answered with a response code other than NoError.
    ErrorResponse(u8),
    /// No signature is present, or none of them verifies.
    NoRRSIG,
    /// No DS record matches the digest of the DNSKEY.
    NoDS,
    /// The signing algorithm is not implemented.
    UnsupportedAlgorithm(u8),
    /// The chain of trust is longer than the validator follows.
    ChainTooLong,
    /// The transport failed.
    Io(String),
}

} // verus!
