//! Options for decrunching, and their checks.
use crate::original::crunch_options::text_bytes;
use crate::original::flags::ProtoFlags;
use vstd::prelude::*;

verus! {

/// Options for decrunching.
#[derive(Clone, Debug)]
pub struct DecrunchOptions {
    pub options: DecrunchOptionsBuilder,
    pub enc: Option<Vec<u8>>,
}

/// Errors while building `DecrunchOptions`.
#[derive(Copy, Clone, Debug, PartialEq, Eq, Structural)]
pub enum DecrunchOptionsError {
    InvalidImportedEncoding,
    InvalidFlagsProto,
}

impl DecrunchOptionsError {
    /// The human-readable message of the error.
    pub fn to_string(&self) -> (s: String)
        ensures
            s@ == self.message(),
    {
        match self {
            DecrunchOptionsError::InvalidImportedEncoding => String::from_str("Invalid imported encoding"),
            DecrunchOptionsError::InvalidFlagsProto => String::from_str("Invalid proto flags"),
        }
    }

    /// The message of each error, as text.
    pub open spec fn message(&self) -> Seq<char> {
        match self {
            DecrunchOptionsError::InvalidImportedEncoding => "Invalid imported encoding"@,
            DecrunchOptionsError::InvalidFlagsProto => "Invalid proto flags"@,
        }
    }
}

/// Options for decrunching builder.
#[derive(Clone, Debug)]
pub struct DecrunchOptionsBuilder {
    /// Uses the given encoding for decrunching, default is None.
    pub imported_encoding: Option<String>,
    /// Bitfield that controls bit stream format. \[0-63], default 39.
    pub flags_proto: ProtoFlags,
    /// Set to false for crunch backwards, default false.
    pub direction_forward: bool,
    /// Write outfile in reverse order, default false.
    pub write_reverse: bool,
}

impl DecrunchOptionsBuilder {
    /// The options that `build` accepts, and the error for the others: an
    /// imported encoding must not hold a 0 byte, and the proto flags must be
    /// at most 63.
    pub open spec fn check(&self) -> Result<(), DecrunchOptionsError> {
        if self.imported_encoding matches Some(s) && text_bytes(s).contains(0u8) {
            Err(DecrunchOptionsError::InvalidImportedEncoding)
        } else if self.flags_proto.num() > 63 {
            Err(DecrunchOptionsError::InvalidFlagsProto)
        } else {
            Ok(())
        }
    }

    pub fn imported_encoding(self, value: Option<String>) -> (r: Self)
        ensures
            r == (Self { imported_encoding: value, ..self }),
    {
        Self { imported_encoding: value, ..self }
    }

    pub fn flags_proto<T: Into<ProtoFlags>>(self, value: T) -> (r: Self)
        ensures
            call_ensures(T::into, (value,), r.flags_proto),
            r == (Self { flags_proto: r.flags_proto, ..self }),
    {
        Self { flags_proto: value.into(), ..self }
    }

    pub fn direction_forward(self, value: bool) -> (r: Self)
        ensures
            r == (Self { direction_forward: value, ..self }),
    {
        Self { direction_forward: value, ..self }
    }

    pub fn write_reverse(self, value: bool) -> (r: Self)
        ensures
            r == (Self { write_reverse: value, ..self }),
    {
        Self { write_reverse: value, ..self }
    }

    /// The defaults: no imported encoding, proto 39, crunched backwards.
    pub open spec fn spec_default() -> Self {
        DecrunchOptionsBuilder {
            imported_encoding: None,
            flags_proto: ProtoFlags::Composed(39),
            direction_forward: false,
            write_reverse: false,
        }
    }

    pub(crate) fn default() -> (r: Self)
        ensures
            r == Self::spec_default(),
    {
        DecrunchOptionsBuilder {
            imported_encoding: None,
            flags_proto: ProtoFlags::from_num(39),
            direction_forward: false,
            write_reverse: false,
        }
    }

    /// Build the `DecrunchOptions`,
    ///
    /// # Errors
    ///
    /// Will return an error in case invalid options are used.
    pub fn build(self) -> (r: Result<DecrunchOptions, DecrunchOptionsError>)
        ensures
            match self.check() {
                Ok(()) => r matches Ok(o) && o.options == self && match self.imported_encoding {
                    Some(s) => o.enc matches Some(e) && e@ == text_bytes(s),
                    None => o.enc is None,
                },
                Err(e) => r == Err::<DecrunchOptions, DecrunchOptionsError>(e),
            },
    {
        let enc = self.convert_encoding()?;
        if self.flags_proto.as_num() > 63 {
            return Err(DecrunchOptionsError::InvalidFlagsProto);
        }
        Ok(DecrunchOptions { options: self, enc })
    }

    /// Gives the bytes of the imported encoding, which must not hold a 0.
    fn convert_encoding(&self) -> (r: Result<Option<Vec<u8>>, DecrunchOptionsError>)
        ensures
            match self.imported_encoding {
                Some(s) => if text_bytes(s).contains(0u8) {
                    r == Err::<Option<Vec<u8>>, DecrunchOptionsError>(DecrunchOptionsError::InvalidImportedEncoding)
                } else {
                    r matches Ok(Some(e)) && e@ == text_bytes(s)
                },
                None => r matches Ok(None),
            },
    {
        match &self.imported_encoding {
            None => Ok(None),
            Some(imported_encoding) => {
                let bytes = imported_encoding.as_str().as_bytes();
                let ghost text = text_bytes(*imported_encoding);
                assert(bytes@ == text);
                let mut i: usize = 0;
                while i < bytes.len()
                    invariant
                        bytes@ == text,
                        self.imported_encoding == Some(*imported_encoding),
                        text == text_bytes(*imported_encoding),
                        i <= bytes@.len(),
                        forall|j: int| 0 <= j < i ==> bytes@[j] != 0u8,
                    decreases bytes@.len() - i,
                {
                    if bytes[i] == 0 {
                        assert(text[i as int] == 0u8);
                        return Err(DecrunchOptionsError::InvalidImportedEncoding);
                    }
                    i = i + 1;
                }
                assert(!text.contains(0u8));
                Ok(Some(vstd::slice::slice_to_vec(bytes)))
            },
        }
    }
}

/// The built options read as the builder's fields.
impl core::ops::Deref for DecrunchOptions {
    type Target = DecrunchOptionsBuilder;

    fn deref(&self) -> (r: &DecrunchOptionsBuilder)
        ensures
            *r == self.options,
    {
        &self.options
    }
}

impl DecrunchOptions {
    pub fn builder() -> (r: DecrunchOptionsBuilder)
        ensures
            r == DecrunchOptionsBuilder::spec_default(),
    {
        DecrunchOptionsBuilder::default()
    }

    /// The options that were built.
    pub fn options(&self) -> (r: &DecrunchOptionsBuilder)
        ensures
            *r == self.options,
    {
        &self.options
    }
}

impl Default for DecrunchOptions {
    fn default() -> (r: Self)
        ensures
            r.options == DecrunchOptionsBuilder::spec_default(),
            r.enc is None,
    {
        DecrunchOptions { options: DecrunchOptionsBuilder::default(), enc: None }
    }
}

/// The default options are accepted by `build`.
pub proof fn law_default_decrunch_options_build()
    ensures
        DecrunchOptionsBuilder::spec_default().check() == Ok::<(), DecrunchOptionsError>(()),
{
}

} // verus!
