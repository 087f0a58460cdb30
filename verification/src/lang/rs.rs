//! Rust: `fn name(...) {`.

use vstd::prelude::*;
use crate::lang::{is_identifier_chars, LangSpec, LexModel, Lexicon};
use crate::text::to_chars;

verus! {

pub struct Rust;

impl LangSpec for Rust {
    const FUNC_DEF: &'static str = "fn";

    const PARAMS_OPEN: &'static str = "(";

    const PARAMS_CLOSE: &'static str = ")";

    const END_DEF: &'static str = "{";

    open spec fn lex() -> LexModel {
        LexModel { keyword: "fn"@, open: "("@, terminator: "{"@ }
    }

    fn lexicon() -> (lex: Lexicon) {
        Lexicon { keyword: to_chars("fn"), open: to_chars("("), terminator: to_chars("{") }
    }

    fn is_valid_identifier(name: &str) -> (valid: bool) {
        is_identifier_chars(&to_chars(name))
    }
}

} // verus!
