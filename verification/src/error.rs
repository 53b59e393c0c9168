use vstd::prelude::*;

verus! {

/// Errors reported while encoding or decoding a data layout.
///
/// Each variant has a stable 32-bit code in the range `MIN..=MAX`
/// (`0x444C` spells "DL", for DataLayout).
#[derive(Clone, Copy, Debug, PartialEq, Eq, Structural)]
pub enum DataLayoutError {
    InvalidDataLength,
    InvalidBufferOffset,
    InvalidOptionTag,
    LengthExceedsCapacity,
    OutputBufferTooSmall,
    MissingOptionTag,
    TruncatedPayload,
    InvalidFieldAlignment,
    MissingLengthHeader,
    TruncatedVectorPayload,
    InvalidImplicitOptionEncoding,
}

/// The position of each variant after `DataLayoutError::MIN`.
pub open spec fn error_index(e: DataLayoutError) -> u32 {
    match e {
        DataLayoutError::InvalidDataLength => 0,
        DataLayoutError::InvalidBufferOffset => 1,
        DataLayoutError::InvalidOptionTag => 2,
        DataLayoutError::LengthExceedsCapacity => 3,
        DataLayoutError::OutputBufferTooSmall => 4,
        DataLayoutError::MissingOptionTag => 5,
        DataLayoutError::TruncatedPayload => 6,
        DataLayoutError::InvalidFieldAlignment => 7,
        DataLayoutError::MissingLengthHeader => 8,
        DataLayoutError::TruncatedVectorPayload => 9,
        DataLayoutError::InvalidImplicitOptionEncoding => 10,
    }
}

/// The numeric code of an error.
pub open spec fn error_code(e: DataLayoutError) -> u32 {
    (DataLayoutError::MIN + error_index(e)) as u32
}

/// The error whose code is `code`, if there is one.
pub open spec fn error_of_code(code: u32) -> Option<DataLayoutError> {
    if code < DataLayoutError::MIN || code > DataLayoutError::MIN + 10 {
        None
    } else {
        let i = code - DataLayoutError::MIN;
        Some(
            if i == 0 {
                DataLayoutError::InvalidDataLength
            } else if i == 1 {
                DataLayoutError::InvalidBufferOffset
            } else if i == 2 {
                DataLayoutError::InvalidOptionTag
            } else if i == 3 {
                DataLayoutError::LengthExceedsCapacity
            } else if i == 4 {
                DataLayoutError::OutputBufferTooSmall
            } else if i == 5 {
                DataLayoutError::MissingOptionTag
            } else if i == 6 {
                DataLayoutError::TruncatedPayload
            } else if i == 7 {
                DataLayoutError::InvalidFieldAlignment
            } else if i == 8 {
                DataLayoutError::MissingLengthHeader
            } else if i == 9 {
                DataLayoutError::TruncatedVectorPayload
            } else {
                DataLayoutError::InvalidImplicitOptionEncoding
            },
        )
    }
}

/// The human-readable description of an error.
pub open spec fn error_message(e: DataLayoutError) -> Seq<char> {
    match e {
        DataLayoutError::InvalidDataLength => "Invalid data length"@,
        DataLayoutError::InvalidBufferOffset => "Invalid buffer offset"@,
        DataLayoutError::InvalidOptionTag => "Invalid option tag"@,
        DataLayoutError::LengthExceedsCapacity => "Length exceeds declared capacity"@,
        DataLayoutError::OutputBufferTooSmall => "Output buffer too small"@,
        DataLayoutError::MissingOptionTag => "Missing option tag"@,
        DataLayoutError::TruncatedPayload => "Truncated payload"@,
        DataLayoutError::InvalidFieldAlignment => "Invalid field alignment"@,
        DataLayoutError::MissingLengthHeader => "Missing length header"@,
        DataLayoutError::TruncatedVectorPayload => "Truncated vector payload"@,
        DataLayoutError::InvalidImplicitOptionEncoding => "Invalid implicit option encoding"@,
    }
}

impl DataLayoutError {
    /// The smallest error code: the bytes `b"DL\0\0"` read as a big-endian u32.
    pub const MIN: u32 = 0x444C0000;

    /// The largest error code reserved for data-layout errors.
    pub const MAX: u32 = 0x444C00FF;

    /// The numeric code of this error.
    pub fn code(self) -> (c: u32)
        ensures
            c == error_code(self),
            Self::MIN <= c <= Self::MAX,
    {
        match self {
            DataLayoutError::InvalidDataLength => Self::MIN,
            DataLayoutError::InvalidBufferOffset => Self::MIN + 1,
            DataLayoutError::InvalidOptionTag => Self::MIN + 2,
            DataLayoutError::LengthExceedsCapacity => Self::MIN + 3,
            DataLayoutError::OutputBufferTooSmall => Self::MIN + 4,
            DataLayoutError::MissingOptionTag => Self::MIN + 5,
            DataLayoutError::TruncatedPayload => Self::MIN + 6,
            DataLayoutError::InvalidFieldAlignment => Self::MIN + 7,
            DataLayoutError::MissingLengthHeader => Self::MIN + 8,
            DataLayoutError::TruncatedVectorPayload => Self::MIN + 9,
            DataLayoutError::InvalidImplicitOptionEncoding => Self::MIN + 10,
        }
    }

    /// The error whose code is `code`, if there is one.
    pub fn try_from_code(code: u32) -> (r: Option<DataLayoutError>)
        ensures
            r == error_of_code(code),
            match r {
                Some(e) => error_code(e) == code,
                None => forall|e: DataLayoutError| error_code(e) != code,
            },
    {
        if code < Self::MIN || code > Self::MIN + 10 {
            proof {
                assert forall|e: DataLayoutError| error_code(e) != code by {
                    assert(error_index(e) <= 10);
                }
            }
            return None;
        }
        let e = match code - Self::MIN {
            0 => DataLayoutError::InvalidDataLength,
            1 => DataLayoutError::InvalidBufferOffset,
            2 => DataLayoutError::InvalidOptionTag,
            3 => DataLayoutError::LengthExceedsCapacity,
            4 => DataLayoutError::OutputBufferTooSmall,
            5 => DataLayoutError::MissingOptionTag,
            6 => DataLayoutError::TruncatedPayload,
            7 => DataLayoutError::InvalidFieldAlignment,
            8 => DataLayoutError::MissingLengthHeader,
            9 => DataLayoutError::TruncatedVectorPayload,
            _ => DataLayoutError::InvalidImplicitOptionEncoding,
        };
        Some(e)
    }

    /// A short description of this error.
    pub fn message(&self) -> (s: &'static str)
        ensures
            s@ == error_message(*self),
    {
        match self {
            DataLayoutError::InvalidDataLength => "Invalid data length",
            DataLayoutError::InvalidBufferOffset => "Invalid buffer offset",
            DataLayoutError::InvalidOptionTag => "Invalid option tag",
            DataLayoutError::LengthExceedsCapacity => "Length exceeds declared capacity",
            DataLayoutError::OutputBufferTooSmall => "Output buffer too small",
            DataLayoutError::MissingOptionTag => "Missing option tag",
            DataLayoutError::TruncatedPayload => "Truncated payload",
            DataLayoutError::InvalidFieldAlignment => "Invalid field alignment",
            DataLayoutError::MissingLengthHeader => "Missing length header",
            DataLayoutError::TruncatedVectorPayload => "Truncated vector payload",
            DataLayoutError::InvalidImplicitOptionEncoding => "Invalid implicit option encoding",
        }
    }
}

/// Distinct errors have distinct codes in `MIN..=MAX`, and every code reads
/// back as its error.
pub proof fn lemma_code_roundtrip(e1: DataLayoutError, e2: DataLayoutError)
    ensures
        error_code(e1) == error_code(e2) <==> e1 == e2,
        DataLayoutError::MIN <= error_code(e1) <= DataLayoutError::MAX,
        error_of_code(error_code(e1)) == Some(e1),
{
}

} // verus!
