//! The errors of the library.
use vstd::prelude::*;

verus! {

/// The field of an ID tag that holds a forbidden character.
#[derive(Debug, Copy, Clone, PartialEq, Eq, Structural)]
pub enum IDTagErrorKind {
    Label,
    Text,
}

/// Why an operation was refused.
#[derive(Debug, PartialEq)]
pub enum LyricsError {
    /// A timestamp is malformed; the message says which rule it breaks.
    ParseError(String),
    /// A field of an ID tag holds a forbidden character.
    IDTagError(IDTagErrorKind),
    /// A lyric line holds a forbidden control character or a tag.
    FormatError(&'static str),
}

impl IDTagErrorKind {
    /// The name of the field, as messages show it.
    pub open spec fn name(&self) -> Seq<char> {
        match self {
            IDTagErrorKind::Label => "label"@,
            IDTagErrorKind::Text => "text"@,
        }
    }

    /// The name of the field.
    pub fn to_string(&self) -> (r: String)
        ensures
            r@ == self.name(),
    {
        match self {
            IDTagErrorKind::Label => String::from_str("label"),
            IDTagErrorKind::Text => String::from_str("text"),
        }
    }
}

impl LyricsError {
    /// The message that describes the error.
    pub open spec fn message(&self) -> Seq<char> {
        match self {
            LyricsError::ParseError(s) => s@,
            LyricsError::IDTagError(k) => "Set a wrong "@ + k.name() + "."@,
            LyricsError::FormatError(s) => s@,
        }
    }

    /// The message that describes the error.
    pub fn to_string(&self) -> (r: String)
        ensures
            r@ == self.message(),
    {
        match self {
            LyricsError::ParseError(s) => s.clone(),
            LyricsError::IDTagError(k) => {
                let kind = k.to_string();
                String::from_str("Set a wrong ").concat(kind.as_str()).concat(".")
            },
            LyricsError::FormatError(s) => String::from_str(s),
        }
    }
}

} // verus!
