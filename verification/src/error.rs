use vstd::prelude::*;

verus! {

/// Everything that can go wrong while reading or writing record data.
#[derive(Debug, Clone, Copy, PartialEq, Eq, Structural)]
pub enum ProtoError {
    /// The input ended before the value being read was complete.
    InsufficientBytes,
    /// A label length byte whose two high bits are `01` or `10`.
    UnrecognizedLabelCode(u8),
    /// A compression pointer at `idx` that does not point before the start
    /// of the name that holds it.
    PointerNotPriorToLabel { idx: usize, ptr: u16 },
    /// A label of a textual name is empty or longer than 63 bytes.
    LabelBytesInvalid { len: usize },
    /// A record type that has no record data of its own (ANY, AXFR, IXFR).
    UnknownRecordTypeValue(u16),
    /// The record data did not take up exactly the announced length.
    IncorrectRDataLengthRead { read: usize, len: usize },
    /// A character string longer than 255 bytes.
    CharacterDataTooLong { max: usize, len: usize },
    /// The announced record data length is too short for the fixed fields.
    RDataTooShort { len: usize },
    /// A CAA tag whose length is not between 1 and 15.
    CaaTagLength(u8),
    /// A CAA tag byte that is not an ASCII letter or digit.
    CaaTagCharacter(u8),
}

} // verus!
