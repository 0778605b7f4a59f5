use vstd::prelude::*;

verus! {

/// The closed, flat set of failures that decoding and value extraction report.
/// Decoding is a pure, deterministic computation, so a given byte buffer
/// either always decodes the same way or always fails the same way.
#[derive(Debug, Clone, Copy, PartialEq, Eq, Structural)]
pub enum ParserError {
    /// An integer token has no terminating marker, or its digits do not form
    /// a 64-bit signed integer.
    NumberParseError,
    /// A byte-string has no separator after its claimed length, the length
    /// prefix is not a valid non-negative decimal integer, or the declared
    /// length overruns the remaining buffer.
    StringParseError,
    /// A close token arrived with no open composite, a composite was left
    /// unterminated, or a non-string value was offered as a dictionary key.
    StructParseError,
    /// The lookahead byte matches none of the token classes.
    UndefinedTokenError,
    /// A typed accessor was applied to a value of the wrong variant.
    ValueDataExtractionError,
}

impl ParserError {
    /// Human-readable description of the error kind.
    pub fn message(&self) -> (m: String)
        ensures
            m@ == match self {
                ParserError::NumberParseError => "Number parse error"@,
                ParserError::StringParseError => "String parse error"@,
                ParserError::StructParseError => "Struct parse error"@,
                ParserError::UndefinedTokenError => "Undefined token error"@,
                ParserError::ValueDataExtractionError => "Value data extraction error"@,
            },
    {
        match self {
            ParserError::NumberParseError => "Number parse error".to_owned(),
            ParserError::StringParseError => "String parse error".to_owned(),
            ParserError::StructParseError => "Struct parse error".to_owned(),
            ParserError::UndefinedTokenError => "Undefined token error".to_owned(),
            ParserError::ValueDataExtractionError => "Value data extraction error".to_owned(),
        }
    }
}

/// A value-extraction failure: the error kind together with a
/// human-readable description of the variant actually encountered, to aid
/// debugging malformed metainfo files.
#[derive(Debug, PartialEq, Eq)]
pub struct ParseFailure {
    pub kind: ParserError,
    pub context: String,
}

/// Failures that assembling a torrent record from decoded bytes can report.
#[derive(Debug, Clone, Copy, PartialEq, Eq, Structural)]
pub enum TorrentError {
    /// The torrent file could not be read; reported by callers that do the
    /// reading, never by this library itself.
    TorrentFileReadError,
    /// The bytes did not decode, or a required field was missing or had the
    /// wrong type.
    TorrentFileParseError,
}

impl TorrentError {
    /// Human-readable description of the error kind.
    pub fn message(&self) -> (m: String)
        ensures
            m@ == match self {
                TorrentError::TorrentFileReadError => "Torrent file read error"@,
                TorrentError::TorrentFileParseError => "Torrent file parse error"@,
            },
    {
        match self {
            TorrentError::TorrentFileReadError => "Torrent file read error".to_owned(),
            TorrentError::TorrentFileParseError => "Torrent file parse error".to_owned(),
        }
    }
}

} // verus!
