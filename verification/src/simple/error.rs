use vstd::prelude::*;

verus! {

/// Errors returned by the decrunch routines.
#[derive(Copy, Clone, Debug, PartialEq, Eq, Structural)]
pub enum DecrunchError {
    EndOfInput,
    UnusedInput,
    BufferOverflow,
    DecodingError,
    BufferTooBig,
}

impl DecrunchError {
    /// The human-readable message of the error.
    pub fn to_string(&self) -> (s: String)
        ensures
            s@ == self.message(),
    {
        match self {
            DecrunchError::EndOfInput => String::from_str("End of input"),
            DecrunchError::UnusedInput => String::from_str("Unused input"),
            DecrunchError::BufferOverflow => String::from_str("Buffer overflow"),
            DecrunchError::DecodingError => String::from_str("Decoding error"),
            DecrunchError::BufferTooBig => String::from_str("Buffer too big"),
        }
    }

    /// The message of each error, as text.
    pub open spec fn message(&self) -> Seq<char> {
        match self {
            DecrunchError::EndOfInput => "End of input"@,
            DecrunchError::UnusedInput => "Unused input"@,
            DecrunchError::BufferOverflow => "Buffer overflow"@,
            DecrunchError::DecodingError => "Decoding error"@,
            DecrunchError::BufferTooBig => "Buffer too big"@,
        }
    }
}

} // verus!
