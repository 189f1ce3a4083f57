use vstd::prelude::*;

verus! {

/// The closed set of failure kinds shared by the MC wire codec and the NBT
/// codec. Errors are values; the codecs never retry and never swallow one.
#[derive(Debug, Clone, PartialEq, Eq)]
pub enum Error {
    /// The byte source ran out of data (premature end of input), or the
    /// surrounding I/O layer failed.
    Io,
    /// A boolean byte was neither 0x00 nor 0x01.
    InvalidBooleanValue(u8),
    /// A VarInt/VarLong ran past its maximum byte width.
    HumongousVarInt,
    /// A string was too large for its length prefix.
    HumongousString,
    /// Bytes did not decode as the required string encoding.
    InvalidString,
    /// An unknown NBT tag TypeID.
    InvalidTypeId(u8),
    /// A list element's TypeID disagreed with the list's declared TypeID.
    Heterogeneous,
    /// A negative size where a non-negative size is required.
    SizeOverflow,
    /// A generic message, used for state-machine misuse.
    Custom(String),
}

impl Error {
    /// A human-readable description of the failure kind.
    pub fn describe(&self) -> String {
        match self {
            Error::Io => String::from_str("byte source or sink failed"),
            Error::InvalidBooleanValue(_) => String::from_str(
                "invalid value for boolean: expected 0x00 or 0x01",
            ),
            Error::HumongousVarInt => String::from_str(
                "tried to decode a VarInt with too many bytes",
            ),
            Error::HumongousString => String::from_str("string too large for its length prefix"),
            Error::InvalidString => String::from_str("string bytes did not decode"),
            Error::InvalidTypeId(_) => String::from_str("unknown NBT TypeID"),
            Error::Heterogeneous => String::from_str(
                "heterogeneous sequence not allowed in NBT format",
            ),
            Error::SizeOverflow => String::from_str("negative size"),
            Error::Custom(m) => m.clone(),
        }
    }
}

} // verus!
