use vstd::prelude::*;

verus! {

/// Failures that abort a decode. A decode error surfaces to the caller as a
/// typed failure; no partial message is ever returned.
#[derive(Clone, Copy, Debug, PartialEq, Eq, Structural)]
pub enum DecodeError {
    /// The input ended before a field was complete.
    UnexpectedEndOfInput,
    /// A label length octet was out of range, or a compression pointer was a
    /// forward reference, revisited an offset, or the name grew past its
    /// 255-octet bound.
    InvalidLabelLength,
    /// An interpreted record payload consumed a byte count different from the
    /// declared rd_length.
    RdataLengthMismatch,
}

/// Failures that abort an encode.
#[derive(Clone, Copy, Debug, PartialEq, Eq, Structural)]
pub enum EncodeError {
    /// A label was empty or longer than 63 bytes.
    InvalidLabelLength,
    /// The encoded name would exceed 255 octets.
    NameTooLong,
    /// A value does not fit its wire width: a name character beyond one byte.
    FieldOverflow,
}

} // verus!
