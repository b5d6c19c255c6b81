//! Failures reported by the decoders.
use vstd::prelude::*;

verus! {

/// Why a base64 input could not be decoded.
#[derive(Debug, Clone, Copy, PartialEq, Eq)]
pub enum Base64Error {
    /// A byte that is neither a symbol of the alphabet nor `=` stands in the
    /// group of four symbols with index `group` (counted from zero). No
    /// earlier group holds such a byte.
    InvalidCharacter { group: usize },
    /// Once the trailing `=` are set aside, a single symbol is left over
    /// after the last full group of four.
    InvalidLength,
}

/// Why a FastRPC buffer could not be decoded.
///
/// `position` is always an offset into the buffer handed to the decoder.
#[derive(Debug, Clone, Copy, PartialEq, Eq)]
pub enum DecodeError {
    /// A read that started at `position` needed `missing` more bytes than
    /// the buffer holds.
    TruncatedInput { position: usize, missing: u64 },
    /// The bytes of the text or name that starts at `position` are not
    /// valid UTF-8.
    InvalidEncoding { position: usize },
    /// The tag byte at `position` names a major type that no value has.
    UnknownTag { position: usize, tag: u8 },
    /// The tag byte at `position` opens no call, response or fault.
    UnknownEnvelopeTag { position: usize, tag: u8 },
    /// The tag byte at `position` opens a part of the format that this
    /// decoder deliberately leaves out: a datetime value or a fault
    /// response.
    Unsupported { position: usize, tag: u8 },
    /// The struct or array whose tag stands at `position` is nested more
    /// deeply than the limit the caller set.
    NestingTooDeep { position: usize },
}

} // verus!
