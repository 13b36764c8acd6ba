use vstd::prelude::*;

verus! {

/// The structural failures of building or encoding DNS data.
///
/// A failed signature check is not an error: it is reported as `false`.
#[derive(Debug, Clone, Copy, PartialEq, Eq, Structural)]
pub enum DnsError {
    /// A label is empty or longer than 63 octets.
    InvalidLabelLength,
    /// A label holds characters outside the accepted set.
    MalformedLabel,
    /// A name would exceed 255 octets in wire form.
    NameTooLong,
    /// A label longer than 63 octets was to be written.
    LabelTooLong,
    /// A character-string longer than 255 octets was to be written.
    CharacterDataTooLong,
    /// Record data longer than a 16-bit length field can describe.
    RecordDataTooLong,
    /// A record that takes part in signing carries no data.
    MissingRecordData,
    /// The signature's label count exceeds the owner name's.
    InvalidLabelCount,
    /// A character that may not appear in a name's text form.
    UnrecognizedChar,
    /// A `\DDD` escape that is not three octal digits.
    InvalidEscape,
}

} // verus!
