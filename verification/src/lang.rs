//! Lexical descriptions of the supported languages.
//!
//! A language is told apart by four constants and by what it accepts as a
//! function name. The scanner reads them through a `Lexicon`.

use vstd::prelude::*;

pub mod py;
pub mod rs;

verus! {

/// Whether `c` is alphabetic in the sense of Unicode.
pub uninterp spec fn is_alphabetic(c: char) -> bool;

/// Whether `c` is alphabetic or numeric in the sense of Unicode.
pub uninterp spec fn is_alphanumeric(c: char) -> bool;

/// Calls `char::is_alphabetic`. Trusted: the result is the Unicode
/// `Alphabetic` property of `c`, referred to as `is_alphabetic`.
#[verifier::external_body]
pub(crate) fn char_is_alphabetic(c: char) -> (b: bool)
    ensures
        b == is_alphabetic(c),
{
    c.is_alphabetic()
}

/// Calls `char::is_alphanumeric`. Trusted: the result tells whether `c` is
/// alphabetic or numeric in Unicode, referred to as `is_alphanumeric`.
#[verifier::external_body]
pub(crate) fn char_is_alphanumeric(c: char) -> (b: bool)
    ensures
        b == is_alphanumeric(c),
{
    c.is_alphanumeric()
}

/// A function name: an alphabetic character or an underscore, followed by
/// alphanumeric characters and underscores.
pub open spec fn is_identifier(name: Seq<char>) -> bool {
    &&& name.len() > 0
    &&& (is_alphabetic(name[0]) || name[0] == '_')
    &&& forall|i: int| 0 <= i < name.len() ==> is_alphanumeric(#[trigger] name[i]) || name[i] == '_'
}

/// Whether `name` is a function name.
pub fn is_identifier_chars(name: &Vec<char>) -> (valid: bool)
    ensures
        valid == is_identifier(name@),
{
    if name.len() == 0 {
        return false;
    }
    if !(char_is_alphabetic(name[0]) || name[0] == '_') {
        return false;
    }
    let mut i: usize = 0;
    while i < name.len()
        invariant
            i <= name.len(),
            forall|k: int| 0 <= k < i ==> is_alphanumeric(#[trigger] name@[k]) || name@[k] == '_',
        decreases name.len() - i,
    {
        if !(char_is_alphanumeric(name[i]) || name[i] == '_') {
            return false;
        }
        i += 1;
    }
    true
}

/// Model of the constants that the scanner reads.
pub struct LexModel {
    /// Keyword that opens a function definition.
    pub keyword: Seq<char>,
    /// Delimiter that opens the parameter list.
    pub open: Seq<char>,
    /// Terminator of a definition's signature.
    pub terminator: Seq<char>,
}

/// The constants that the scanner reads, as characters.
pub struct Lexicon {
    pub keyword: Vec<char>,
    pub open: Vec<char>,
    pub terminator: Vec<char>,
}

impl View for Lexicon {
    type V = LexModel;

    open spec fn view(&self) -> LexModel {
        LexModel { keyword: self.keyword@, open: self.open@, terminator: self.terminator@ }
    }
}

/// The lexical constants of a language and its test for function names.
pub trait LangSpec {
    /// Keyword that opens a function definition.
    const FUNC_DEF: &'static str;

    /// Delimiter that opens the parameter list.
    const PARAMS_OPEN: &'static str;

    /// Delimiter that closes the parameter list.
    const PARAMS_CLOSE: &'static str;

    /// Terminator of a definition's signature.
    const END_DEF: &'static str;

    /// The constants that the scanner reads: keyword, opening delimiter and
    /// terminator.
    spec fn lex() -> LexModel;

    /// Reads the constants that the scanner needs.
    fn lexicon() -> (lex: Lexicon)
        ensures
            lex@ == Self::lex(),
    ;

    /// Whether `name` can name a function.
    fn is_valid_identifier(name: &str) -> (valid: bool)
        ensures
            valid == is_identifier(name@),
    ;
}

} // verus!
