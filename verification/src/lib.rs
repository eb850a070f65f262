//! A DNS message codec: builds the wire bytes for a one-question DNS query
//! and decodes a resolver's wire-format response (header, questions and
//! resource records, including compressed names) into structured values.

use vstd::prelude::*;

use crate::message::header::ResponseCode;

pub mod bits;
pub mod dns_types;
pub mod message;
pub mod parse;
pub mod util;

verus! {

/// Why an encode or decode call failed.  Structural failures abort the whole
/// decode; `ServerSignaledError` and `QueryIdMismatch` concern a response that
/// decoded successfully.
#[derive(Debug, Clone, Copy, PartialEq, Eq, Structural)]
pub enum DnsError {
    /// Fewer bytes or bits remain than a fixed-width field requires.
    Truncated,
    /// Malformed structural content: non-zero reserved header bits, a
    /// reserved label-length byte, a compression pointer that does not point
    /// strictly backwards or chains too deep, or record data running past
    /// its declared length.
    FormatError,
    /// The 4-bit opcode field holds a value outside the supported set.
    UnknownOpcode(u8),
    /// The 4-bit response-code field holds a value outside the supported set.
    UnknownResponseCode(u8),
    /// A 16-bit record-type tag outside the supported closed set.
    UnknownRecordType(u16),
    /// A 16-bit class tag other than the Internet class.
    UnknownClass(u16),
    /// A TTL above `2^31 - 1`, a label above 63 bytes, or a whole name whose
    /// encoding would exceed 255 bytes.
    ValueOutOfRange,
    /// A caller-supplied domain name that is not ASCII.
    InvalidDomainName,
    /// The response decoded, but its response code signals that the server
    /// refused or failed the query.
    ServerSignaledError(ResponseCode),
    /// The response's id differs from the query id; advisory, not fatal.
    QueryIdMismatch,
}

} // verus!
