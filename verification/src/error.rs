use vstd::prelude::*;

verus! {

/// What is wrong with a consent language code.
#[derive(Clone, Copy, Debug, PartialEq, Eq, Structural)]
pub enum LanguageFault {
    /// The code does not have exactly two characters; holds the number it has.
    Length(usize),
    /// The character at `position` is not a lowercase ASCII letter.
    Letter { position: usize, found: char },
}

/// What is structurally impossible in a record.
#[derive(Clone, Copy, Debug, PartialEq, Eq, Structural)]
pub enum Malformation {
    /// The language letter at `position` (0 or 1) is stored as an offset
    /// past `'z'`.
    LanguageLetter { position: u8, offset: u8 },
    /// A range entry names a vendor ID that is zero or above the record's
    /// maximum vendor ID.
    VendorId { id: u16 },
}

/// Why a consent string could not be decoded or a record could not be
/// encoded.
#[derive(Clone, Copy, Debug, PartialEq, Eq, Structural)]
pub enum Error {
    /// The text is base64 in neither the URL-safe nor the standard alphabet.
    InvalidBase64,
    /// The version tag is not 1; holds the tag.
    UnsupportedVersion(u8),
    /// The bit stream ends before the record does.
    UnexpectedEndOfInput,
    /// The record holds a value that no encoder writes.
    MalformedRecord(Malformation),
    /// The consent language is not two lowercase ASCII letters.
    InvalidLanguageCode(LanguageFault),
    /// A value does not fit the width of its field.
    FieldOverflow,
}

impl Error {
    /// The fixed text that names this kind of error.
    pub open spec fn description_text(self) -> Seq<char> {
        match self {
            Error::InvalidBase64 => "Invalid base64"@,
            Error::UnsupportedVersion(_) => "Unsupported version"@,
            Error::UnexpectedEndOfInput => "Unexpected end of input"@,
            Error::MalformedRecord(_) => "Malformed record"@,
            Error::InvalidLanguageCode(_) => "Invalid consent language"@,
            Error::FieldOverflow => "Field overflow"@,
        }
    }

    /// A short description of the kind of error.
    pub fn description(&self) -> (text: &'static str)
        ensures
            text@ == self.description_text(),
    {
        match self {
            Error::InvalidBase64 => "Invalid base64",
            Error::UnsupportedVersion(_) => "Unsupported version",
            Error::UnexpectedEndOfInput => "Unexpected end of input",
            Error::MalformedRecord(_) => "Malformed record",
            Error::InvalidLanguageCode(_) => "Invalid consent language",
            Error::FieldOverflow => "Field overflow",
        }
    }
}

} // verus!
