use vstd::prelude::*;

verus! {

/// Parse errors
#[derive(Clone, Copy, Debug, PartialEq, Eq, Structural)]
#[non_exhaustive]
pub enum ParseError {
    ExpectedBool,
    ExpectedMore,
    ExpectedChar,
    ExpectedDate,
    ExpectedDateTime,
    ExpectedInt,
    ExpectedNumber,
    ExpectedTime,
    ExpectedTimeOffset,
    InvalidDefault,
    InvalidIndent,
    InvalidSeparator,
    InvalidSubstitute,
    InvalidType,
    MissingField,
    MissingKey,
    MissingLinefeed,
    MissingSeparator,
    UnexpectedKey,
    UnexpectedSchemaSeparator,
}

/// Errors which can occur when serializing and deserializing MuON data.
#[derive(Clone, Debug, PartialEq)]
pub enum Error {
    /// Serializing error reported by the host type
    Serialize(String),
    /// Deserializing error reported by the host type
    Deserialize(String),
    /// Unsupported type error
    UnsupportedType(String),
    /// Invalid key (only text keys are supported)
    InvalidKey,
    /// Failed parse while deserializing
    FailedParse(ParseError),
}

/// Text describing each parse error
pub open spec fn error_text(e: ParseError) -> Seq<char> {
    match e {
        ParseError::ExpectedBool => "expected bool"@,
        ParseError::ExpectedMore => "expected more input data"@,
        ParseError::ExpectedChar => "expected char"@,
        ParseError::ExpectedDate => "expected date"@,
        ParseError::ExpectedDateTime => "expected datetime"@,
        ParseError::ExpectedInt => "expected int"@,
        ParseError::ExpectedNumber => "expected number"@,
        ParseError::ExpectedTime => "expected time"@,
        ParseError::ExpectedTimeOffset => "expected time offset"@,
        ParseError::InvalidDefault => "invalid default"@,
        ParseError::InvalidIndent => "invalid indent"@,
        ParseError::InvalidSeparator => "invalid separator"@,
        ParseError::InvalidSubstitute => "invalid substitute value"@,
        ParseError::InvalidType => "invalid type"@,
        ParseError::MissingField => "missing field"@,
        ParseError::MissingKey => "missing key"@,
        ParseError::MissingLinefeed => "missing line feed"@,
        ParseError::MissingSeparator => "missing separator"@,
        ParseError::UnexpectedKey => "unexpected key (not in schema)"@,
        ParseError::UnexpectedSchemaSeparator => "unexpected schema separator"@,
    }
}

impl ParseError {
    /// A short description of the error
    pub fn description(self) -> (r: &'static str)
        ensures
            r@ == error_text(self),
    {
        match self {
            ParseError::ExpectedBool => "expected bool",
            ParseError::ExpectedMore => "expected more input data",
            ParseError::ExpectedChar => "expected char",
            ParseError::ExpectedDate => "expected date",
            ParseError::ExpectedDateTime => "expected datetime",
            ParseError::ExpectedInt => "expected int",
            ParseError::ExpectedNumber => "expected number",
            ParseError::ExpectedTime => "expected time",
            ParseError::ExpectedTimeOffset => "expected time offset",
            ParseError::InvalidDefault => "invalid default",
            ParseError::InvalidIndent => "invalid indent",
            ParseError::InvalidSeparator => "invalid separator",
            ParseError::InvalidSubstitute => "invalid substitute value",
            ParseError::InvalidType => "invalid type",
            ParseError::MissingField => "missing field",
            ParseError::MissingKey => "missing key",
            ParseError::MissingLinefeed => "missing line feed",
            ParseError::MissingSeparator => "missing separator",
            ParseError::UnexpectedKey => "unexpected key (not in schema)",
            ParseError::UnexpectedSchemaSeparator => "unexpected schema separator",
        }
    }
}

} // verus!
