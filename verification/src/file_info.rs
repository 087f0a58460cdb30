//! The file under analysis: its language, path and size.

use vstd::prelude::*;
use std::path::PathBuf;
use crate::lang::{LangSpec, LexModel, Lexicon};
use crate::lang::py::Python;
use crate::lang::rs::Rust;
use crate::text::{same_chars, to_chars};

verus! {

/// `std::path::PathBuf`, carried through and never looked into.
#[verifier::external_type_specification]
#[verifier::external_body]
pub struct ExPathBuf(PathBuf);

/// The language of a source file.
#[derive(Debug)]
pub enum Language {
    Py,
    Rs,
    Unknown,
}

/// The language that a file name extension stands for.
pub open spec fn language_of(extension: Option<Seq<char>>) -> Language {
    match extension {
        Some(e) => if e == "py"@ {
            Language::Py
        } else if e == "rs"@ {
            Language::Rs
        } else {
            Language::Unknown
        },
        None => Language::Unknown,
    }
}

impl Language {
    /// The lexical constants of the language, if it is supported.
    pub open spec fn lex_model(self) -> Option<LexModel> {
        match self {
            Language::Py => Some(Python::lex()),
            Language::Rs => Some(Rust::lex()),
            Language::Unknown => None,
        }
    }

    /// Chooses the language by file name extension: `py` is Python, `rs` is
    /// Rust, anything else is unknown.
    pub fn from_extension(extension: Option<&str>) -> (language: Language)
        ensures
            language == language_of(
                match extension {
                    Some(e) => Some(e@),
                    None => None,
                },
            ),
    {
        match extension {
            Some(e) => {
                let chars = to_chars(e);
                if same_chars(&chars, &to_chars("py")) {
                    Language::Py
                } else if same_chars(&chars, &to_chars("rs")) {
                    Language::Rs
                } else {
                    Language::Unknown
                }
            },
            None => Language::Unknown,
        }
    }

    /// Reads the lexical constants of the language, if it is supported.
    pub fn lexicon(&self) -> (lex: Option<Lexicon>)
        ensures
            match lex {
                Some(l) => self.lex_model() == Some(l@),
                None => self.lex_model() is None,
            },
    {
        match self {
            Language::Py => Some(Python::lexicon()),
            Language::Rs => Some(Rust::lexicon()),
            Language::Unknown => None,
        }
    }
}

/// The extension of the file name of `path`, if it has one that is text.
pub uninterp spec fn extension_of(path: PathBuf) -> Option<Seq<char>>;

/// Calls `Path::extension` and hands the extension out as text. Trusted: the
/// result is what the library refers to as `extension_of`, the extension of
/// the path where it has one that is valid Unicode.
#[verifier::external_body]
fn path_extension(path: &PathBuf) -> (extension: Option<String>)
    ensures
        match extension {
            Some(e) => extension_of(*path) == Some(e@),
            None => extension_of(*path) is None,
        },
{
    match path.extension() {
        Some(e) => match e.to_str() {
            Some(text) => Some(text.to_string()),
            None => None,
        },
        None => None,
    }
}

/// A source file, as the engine sees it.
#[derive(Debug)]
pub struct FileInfo<'a> {
    pub file_type: Language,
    pub file_path: &'a PathBuf,
    pub file_size: usize,
}

impl<'a> FileInfo<'a> {
    /// Describes the file at `path`, which holds `file_size` bytes. The
    /// language follows from the extension of `path`.
    pub fn from_path(path: &'a PathBuf, file_size: usize) -> (info: Self)
        ensures
            info.file_path == path,
            info.file_size == file_size,
            info.file_type == language_of(extension_of(*path)),
    {
        let file_type = match path_extension(path) {
            Some(e) => Language::from_extension(Some(e.as_str())),
            None => Language::from_extension(None),
        };
        FileInfo { file_type, file_path: path, file_size }
    }
}

} // verus!
