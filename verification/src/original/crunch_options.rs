//! Options for crunching, and their checks.
use crate::original::flags::{ProtoFlags, TraitFlags};
use crate::original::encoding::{law_accepted_encoding_parses, parse_encoding, table_count};
use vstd::prelude::*;

verus! {

/// Options for crunching.
#[derive(Clone, Debug)]
pub struct CrunchOptions {
    pub options: CrunchOptionsBuilder,
    pub enc: Option<Vec<u8>>,
}

/// Errors while building `CrunchOptions`.
#[derive(Copy, Clone, Debug, PartialEq, Eq, Structural)]
pub enum CrunchOptionsError {
    InvalidImportedEncoding,
    InvalidMaxPasses,
    InvalidFlagsProto,
    InvalidFlagsTrait,
}

impl CrunchOptionsError {
    /// The human-readable message of the error.
    pub fn to_string(&self) -> (s: String)
        ensures
            s@ == self.message(),
    {
        match self {
            CrunchOptionsError::InvalidImportedEncoding => String::from_str("Invalid imported encoding"),
            CrunchOptionsError::InvalidMaxPasses => String::from_str("Invalid max passes"),
            CrunchOptionsError::InvalidFlagsProto => String::from_str("Invalid proto flags"),
            CrunchOptionsError::InvalidFlagsTrait => String::from_str("Invalid trait flags"),
        }
    }

    /// The message of each error, as text.
    pub open spec fn message(&self) -> Seq<char> {
        match self {
            CrunchOptionsError::InvalidImportedEncoding => "Invalid imported encoding"@,
            CrunchOptionsError::InvalidMaxPasses => "Invalid max passes"@,
            CrunchOptionsError::InvalidFlagsProto => "Invalid proto flags"@,
            CrunchOptionsError::InvalidFlagsTrait => "Invalid trait flags"@,
        }
    }
}

/// Options for crunching builder.
#[derive(Clone, Debug)]
pub struct CrunchOptionsBuilder {
    /// Uses the given encoding for crunching, default is None.
    pub imported_encoding: Option<String>,
    /// Limits the number of optimization passes, default is 100. Valid: 0..=100
    pub max_passes: u8,
    /// Sets the maximum sequence length, default is 65535.
    pub max_len: u16,
    /// Sets the maximum sequence offset, default is 65535.
    pub max_offset: u16,
    /// Favor compression speed over ratio.
    pub favor_speed: bool,
    /// Don't write the encoding to the outfile.
    pub output_header: bool,
    /// Bitfield that controls bit stream format. \[0-63], default 39.
    pub flags_proto: ProtoFlags,
    /// Bitfield that controls bit stream traits. \[0-7], default 0.
    pub flags_notrait: TraitFlags,
    /// Set to false for crunch backwards, default false.
    pub direction_forward: bool,
    /// Write outfile in reverse order, default false.
    pub write_reverse: bool,
}

/// The bytes of a text (its UTF-8 encoding).
pub open spec fn text_bytes(s: String) -> Seq<u8> {
    vstd::utf8::encode_utf8(s@)
}

/// Whether `c` is an ASCII hexadecimal digit.
pub open spec fn is_hex_digit(c: u8) -> bool {
    (48 <= c <= 57) || (65 <= c <= 70) || (97 <= c <= 102)
}

/// The length of an encoding string: 55 bytes with three offset tables,
/// 72 with four.
pub open spec fn encoding_len(four_offset_tables: bool) -> nat {
    if four_offset_tables {
        72
    } else {
        55
    }
}

/// An encoding string: hexadecimal digits, one per table entry, and a comma
/// between two tables (at bytes 16, 21, 38 and, with four offset tables, 55).
pub open spec fn is_encoding(bytes: Seq<u8>, four_offset_tables: bool) -> bool {
    &&& bytes.len() == encoding_len(four_offset_tables)
    &&& forall|i: int|
        0 <= i < bytes.len() ==> if i == 16 || i == 21 || i == 38 || i == 55 {
            bytes[i] == 44
        } else {
            is_hex_digit(#[trigger] bytes[i])
        }
}

/// Whether the proto flags select four offset tables.
pub open spec fn has_four_offset_tables(flags: ProtoFlags) -> bool {
    flags.num() & 16 != 0
}

/// An imported encoding passes the checks of `build` exactly when it is a
/// well-formed encoding string with the tables that the proto's
/// `FourOffsetTables` flag (16) asks for: 72 bytes with the flag, 55
/// without; and what passes parses into that many tables.
pub proof fn law_build_encoding_follows_proto(b: CrunchOptionsBuilder, s: String)
    requires
        b.imported_encoding == Some(s),
    ensures
        (b.check() != Err::<(), CrunchOptionsError>(CrunchOptionsError::InvalidImportedEncoding)) == is_encoding(
            text_bytes(s),
            b.flags_proto.num() & 16 != 0,
        ),
        b.check() != Err::<(), CrunchOptionsError>(CrunchOptionsError::InvalidImportedEncoding) ==> {
            &&& text_bytes(s).len() == (if b.flags_proto.num() & 16 != 0 {
                72int
            } else {
                55int
            })
            &&& parse_encoding(text_bytes(s), b.flags_proto.num() & 16 != 0) matches Some(tabs)
            &&& tabs.len() == table_count(b.flags_proto.num() & 16 != 0)
        },
{
    let four = b.flags_proto.num() & 16 != 0;
    if is_encoding(text_bytes(s), four) {
        law_accepted_encoding_parses(text_bytes(s), four);
    }
}

impl CrunchOptionsBuilder {
    /// The options that `build` accepts, and the error for the others (the
    /// first check that fails, in the order encoding, passes, proto, traits).
    pub open spec fn check(&self) -> Result<(), CrunchOptionsError> {
        if self.imported_encoding matches Some(s) && !is_encoding(
            text_bytes(s),
            has_four_offset_tables(self.flags_proto),
        ) {
            Err(CrunchOptionsError::InvalidImportedEncoding)
        } else if self.max_passes > 100 {
            Err(CrunchOptionsError::InvalidMaxPasses)
        } else if self.flags_proto.num() > 63 {
            Err(CrunchOptionsError::InvalidFlagsProto)
        } else if self.flags_notrait.num() > 7 {
            Err(CrunchOptionsError::InvalidFlagsTrait)
        } else {
            Ok(())
        }
    }

    pub fn imported_encoding(self, value: Option<String>) -> (r: Self)
        ensures
            r == (Self { imported_encoding: value, ..self }),
    {
        Self { imported_encoding: value, ..self }
    }

    pub fn max_passes(self, value: u8) -> (r: Self)
        ensures
            r == (Self { max_passes: value, ..self }),
    {
        Self { max_passes: value, ..self }
    }

    pub fn max_len(self, value: u16) -> (r: Self)
        ensures
            r == (Self { max_len: value, ..self }),
    {
        Self { max_len: value, ..self }
    }

    pub fn max_offset(self, value: u16) -> (r: Self)
        ensures
            r == (Self { max_offset: value, ..self }),
    {
        Self { max_offset: value, ..self }
    }

    pub fn favor_speed(self, value: bool) -> (r: Self)
        ensures
            r == (Self { favor_speed: value, ..self }),
    {
        Self { favor_speed: value, ..self }
    }

    pub fn output_header(self, value: bool) -> (r: Self)
        ensures
            r == (Self { output_header: value, ..self }),
    {
        Self { output_header: value, ..self }
    }

    pub fn flags_proto<T: Into<ProtoFlags>>(self, value: T) -> (r: Self)
        ensures
            call_ensures(T::into, (value,), r.flags_proto),
            r == (Self { flags_proto: r.flags_proto, ..self }),
    {
        Self { flags_proto: value.into(), ..self }
    }

    pub fn flags_notrait(self, value: TraitFlags) -> (r: Self)
        ensures
            r == (Self { flags_notrait: value, ..self }),
    {
        Self { flags_notrait: value, ..self }
    }

    pub fn flags_notrait_num(self, value: u8) -> (r: Self)
        ensures
            r == (Self { flags_notrait: TraitFlags::of_num(value), ..self }),
    {
        Self { flags_notrait: TraitFlags::from_num(value), ..self }
    }

    pub fn direction_forward(self, value: bool) -> (r: Self)
        ensures
            r == (Self { direction_forward: value, ..self }),
    {
        Self { direction_forward: value, ..self }
    }

    pub fn write_reverse(self, value: bool) -> (r: Self)
        ensures
            r == (Self { write_reverse: value, ..self }),
    {
        Self { write_reverse: value, ..self }
    }

    /// The defaults: no imported encoding, 100 passes, sequences up to 65535
    /// bytes long and 65535 bytes back, proto 39, no traits left out,
    /// crunching backwards and a header written.
    pub open spec fn spec_default() -> Self {
        CrunchOptionsBuilder {
            imported_encoding: None,
            max_passes: 100,
            max_len: 65535,
            max_offset: 65535,
            favor_speed: false,
            output_header: true,
            flags_proto: ProtoFlags::Composed(39),
            flags_notrait: TraitFlags::Empty,
            direction_forward: false,
            write_reverse: false,
        }
    }

    pub(crate) fn default() -> (r: Self)
        ensures
            r == Self::spec_default(),
    {
        CrunchOptionsBuilder {
            imported_encoding: None,
            max_passes: 100,
            max_len: 65535,
            max_offset: 65535,
            favor_speed: false,
            output_header: true,
            flags_proto: ProtoFlags::from_num(39),
            flags_notrait: TraitFlags::Empty,
            direction_forward: false,
            write_reverse: false,
        }
    }

    /// Build the `CrunchOptions`,
    ///
    /// # Errors
    ///
    /// Will return an error in case invalid options are used.
    pub fn build(self) -> (r: Result<CrunchOptions, CrunchOptionsError>)
        ensures
            match self.check() {
                Ok(()) => r matches Ok(o) && o.options == self && match self.imported_encoding {
                    Some(s) => o.enc matches Some(e) && e@ == text_bytes(s),
                    None => o.enc is None,
                },
                Err(e) => r == Err::<CrunchOptions, CrunchOptionsError>(e),
            },
    {
        let enc = self.convert_encoding()?;
        if self.max_passes > 100 {
            return Err(CrunchOptionsError::InvalidMaxPasses);
        }
        if self.flags_proto.as_num() > 63 {
            return Err(CrunchOptionsError::InvalidFlagsProto);
        }
        if self.flags_notrait.as_num() > 7 {
            return Err(CrunchOptionsError::InvalidFlagsTrait);
        }
        Ok(CrunchOptions { options: self, enc })
    }

    /// Checks the imported encoding, and gives its bytes.
    fn convert_encoding(&self) -> (r: Result<Option<Vec<u8>>, CrunchOptionsError>)
        ensures
            match self.imported_encoding {
                Some(s) => if is_encoding(text_bytes(s), has_four_offset_tables(self.flags_proto)) {
                    r matches Ok(Some(e)) && e@ == text_bytes(s)
                } else {
                    r == Err::<Option<Vec<u8>>, CrunchOptionsError>(CrunchOptionsError::InvalidImportedEncoding)
                },
                None => r matches Ok(None),
            },
    {
        match &self.imported_encoding {
            None => Ok(None),
            Some(imported_encoding) => {
                let bytes = imported_encoding.as_str().as_bytes();
                let len: usize = if self.flags_proto.as_num() & 16 != 0 {
                    72
                } else {
                    55
                };
                if bytes.len() != len {
                    return Err(CrunchOptionsError::InvalidImportedEncoding);
                }
                if !check_encoding_bytes(bytes) {
                    return Err(CrunchOptionsError::InvalidImportedEncoding);
                }
                Ok(Some(vstd::slice::slice_to_vec(bytes)))
            },
        }
    }
}

/// Whether every byte is a hexadecimal digit, but for commas at 16, 21, 38
/// and 55.
fn check_encoding_bytes(bytes: &[u8]) -> (r: bool)
    ensures
        r == (forall|i: int|
            0 <= i < bytes@.len() ==> if i == 16 || i == 21 || i == 38 || i == 55 {
                bytes@[i] == 44
            } else {
                is_hex_digit(#[trigger] bytes@[i])
            }),
{
    let mut i: usize = 0;
    while i < bytes.len()
        invariant
            i <= bytes@.len(),
            forall|j: int|
                0 <= j < i ==> if j == 16 || j == 21 || j == 38 || j == 55 {
                    bytes@[j] == 44
                } else {
                    is_hex_digit(#[trigger] bytes@[j])
                },
        decreases bytes@.len() - i,
    {
        let c = bytes[i];
        let ok = if i == 16 || i == 21 || i == 38 || i == 55 {
            c == 44u8
        } else {
            (48u8 <= c && c <= 57u8) || (65u8 <= c && c <= 70u8) || (97u8 <= c && c <= 102u8)
        };
        if !ok {
            return false;
        }
        i = i + 1;
    }
    true
}

/// The built options read as the builder's fields.
impl core::ops::Deref for CrunchOptions {
    type Target = CrunchOptionsBuilder;

    fn deref(&self) -> (r: &CrunchOptionsBuilder)
        ensures
            *r == self.options,
    {
        &self.options
    }
}

impl CrunchOptions {
    pub fn builder() -> (r: CrunchOptionsBuilder)
        ensures
            r == CrunchOptionsBuilder::spec_default(),
    {
        CrunchOptionsBuilder::default()
    }

    /// The options that were built.
    pub fn options(&self) -> (r: &CrunchOptionsBuilder)
        ensures
            *r == self.options,
    {
        &self.options
    }

    /// The bytes of the imported encoding, if one was given.
    pub fn encoding(&self) -> (r: &Option<Vec<u8>>)
        ensures
            *r == self.enc,
    {
        &self.enc
    }
}

impl Default for CrunchOptions {
    fn default() -> (r: Self)
        ensures
            r.options == CrunchOptionsBuilder::spec_default(),
            r.enc is None,
    {
        CrunchOptions { options: CrunchOptionsBuilder::default(), enc: None }
    }
}

/// The default options are accepted by `build`.
pub proof fn law_default_crunch_options_build()
    ensures
        CrunchOptionsBuilder::spec_default().check() == Ok::<(), CrunchOptionsError>(()),
{
}

} // verus!
