//! Python: `def name(...):`.

use vstd::prelude::*;
use crate::lang::{is_identifier_chars, LangSpec, LexModel, Lexicon};
use crate::text::to_chars;

verus! {

pub struct Python;

impl LangSpec for Python {
    const FUNC_DEF: &'static str = "def";

    const PARAMS_OPEN: &'static str = "(";

    const PARAMS_CLOSE: &'static str = ")";

    const END_DEF: &'static str = ":";

    open spec fn lex() -> LexModel {
        LexModel { keyword: "def"@, open: "("@, terminator: ":"@ }
    }

    fn lexicon() -> (lex: Lexicon) {
        Lexicon { keyword: to_chars("def"), open: to_chars("("), terminator: to_chars(":") }
    }

    fn is_valid_identifier(name: &str) -> (valid: bool) {
        is_identifier_chars(&to_chars(name))
    }
}

} // verus!
