//! The failures that parsing a file can end in.

use vstd::prelude::*;

verus! {

/// Why no call graph was produced.
#[derive(Debug)]
pub enum ParseError {
    /// The file could not be read.
    IoError(String),
    /// The cache could not be read, written or decoded.
    CacheError(String),
    /// The content cannot be parsed.
    ParseFailure(String),
    /// No lexical description exists for the file's language.
    UnsupportedLanguage(String),
}

impl ParseError {
    /// The text of the failure: what kind it is, then its detail.
    pub open spec fn message_text(self) -> Seq<char> {
        match self {
            ParseError::IoError(detail) => "IO error: "@ + detail@,
            ParseError::CacheError(detail) => "Cache error: "@ + detail@,
            ParseError::ParseFailure(detail) => "Parse error: "@ + detail@,
            ParseError::UnsupportedLanguage(detail) => "Language is not supported yet: "@
                + detail@,
        }
    }

    /// Renders the failure for a reader.
    pub fn message(&self) -> (text: String)
        ensures
            text@ == self.message_text(),
    {
        match self {
            ParseError::IoError(detail) => {
                let mut text = "IO error: ".to_owned();
                text.append(detail.as_str());
                text
            },
            ParseError::CacheError(detail) => {
                let mut text = "Cache error: ".to_owned();
                text.append(detail.as_str());
                text
            },
            ParseError::ParseFailure(detail) => {
                let mut text = "Parse error: ".to_owned();
                text.append(detail.as_str());
                text
            },
            ParseError::UnsupportedLanguage(detail) => {
                let mut text = "Language is not supported yet: ".to_owned();
                text.append(detail.as_str());
                text
            },
        }
    }
}

} // verus!
