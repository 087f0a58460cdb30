use pars::cli::{Cli, InfoLevel};
use pars::config::Config;
use pars::error::ParseError;
use pars::file_info::{FileInfo, Language};
use pars::lang::py::Python;
use pars::lang::rs::Rust;
use pars::lang::{is_identifier_chars, LangSpec};
use std::path::PathBuf;

fn cli(no_cache: bool) -> Cli {
    Cli {
        file_path: PathBuf::from("f.py"),
        info_level: InfoLevel::L1,
        threads: 8,
        block_size_kb: 16,
        no_cache,
        parallel_read: false,
    }
}

#[test]
fn cache_is_enabled_unless_switched_off() {
    assert!(Config::from(&cli(false)).enable_cache);
    assert!(!Config::from(&cli(true)).enable_cache);
}

#[test]
fn info_levels_are_told_apart() {
    assert_eq!(InfoLevel::L1, InfoLevel::L1);
    assert_ne!(InfoLevel::L1, InfoLevel::L2);
    assert_ne!(InfoLevel::L2, InfoLevel::L3);
}

#[test]
fn every_failure_has_its_text() {
    assert_eq!(ParseError::IoError("gone".to_string()).message(), "IO error: gone");
    assert_eq!(ParseError::CacheError("bad json".to_string()).message(), "Cache error: bad json");
    assert_eq!(ParseError::ParseFailure("File is empty".to_string()).message(), "Parse error: File is empty");
    assert_eq!(
        ParseError::UnsupportedLanguage("unknown".to_string()).message(),
        "Language is not supported yet: unknown"
    );
    assert_eq!(ParseError::IoError(String::new()).message(), "IO error: ");
}

#[test]
fn language_follows_the_extension() {
    assert!(matches!(Language::from_extension(Some("py")), Language::Py));
    assert!(matches!(Language::from_extension(Some("rs")), Language::Rs));
    assert!(matches!(Language::from_extension(Some("PY")), Language::Unknown));
    assert!(matches!(Language::from_extension(Some("pyc")), Language::Unknown));
    assert!(matches!(Language::from_extension(Some("")), Language::Unknown));
    assert!(matches!(Language::from_extension(Some("txt")), Language::Unknown));
    assert!(matches!(Language::from_extension(None), Language::Unknown));
}

#[test]
fn file_is_described_by_its_path() {
    let path = PathBuf::from("dir.rs/tool.py");
    let info = FileInfo::from_path(&path, 42);
    assert!(matches!(info.file_type, Language::Py));
    assert_eq!(info.file_path, &path);
    assert_eq!(info.file_size, 42);
    let path = PathBuf::from("src/main.rs");
    assert!(matches!(FileInfo::from_path(&path, 0).file_type, Language::Rs));
    let path = PathBuf::from("README");
    assert!(matches!(FileInfo::from_path(&path, 0).file_type, Language::Unknown));
    let path = PathBuf::from(".py");
    assert!(matches!(FileInfo::from_path(&path, 0).file_type, Language::Unknown));
    let path = PathBuf::from("archive.tar.py");
    assert!(matches!(FileInfo::from_path(&path, 0).file_type, Language::Py));
}

#[test]
fn languages_have_their_constants() {
    assert_eq!(
        (Python::FUNC_DEF, Python::PARAMS_OPEN, Python::PARAMS_CLOSE, Python::END_DEF),
        ("def", "(", ")", ":")
    );
    assert_eq!(
        (Rust::FUNC_DEF, Rust::PARAMS_OPEN, Rust::PARAMS_CLOSE, Rust::END_DEF),
        ("fn", "(", ")", "{")
    );
    let lex = Rust::lexicon();
    assert_eq!(lex.keyword, Rust::FUNC_DEF.chars().collect::<Vec<char>>());
    assert_eq!(lex.open, Rust::PARAMS_OPEN.chars().collect::<Vec<char>>());
    assert_eq!(lex.terminator, Rust::END_DEF.chars().collect::<Vec<char>>());
    let lex = Python::lexicon();
    assert_eq!(lex.keyword, Python::FUNC_DEF.chars().collect::<Vec<char>>());
    assert_eq!(lex.open, Python::PARAMS_OPEN.chars().collect::<Vec<char>>());
    assert_eq!(lex.terminator, Python::END_DEF.chars().collect::<Vec<char>>());
    assert_eq!(Language::Py.lexicon().unwrap().keyword, vec!['d', 'e', 'f']);
    assert_eq!(Language::Rs.lexicon().unwrap().terminator, vec!['{']);
    assert!(Language::Unknown.lexicon().is_none());
}

#[test]
fn identifiers_start_with_a_letter_or_underscore() {
    for good in ["a", "_", "_a1", "snake_case", "CamelCase", "x9", "été", "größe", "名前", "__init__"] {
        assert!(Python::is_valid_identifier(good), "{:?}", good);
        assert!(Rust::is_valid_identifier(good), "{:?}", good);
    }
    for bad in ["", "1a", "9", "a-b", "a b", " a", "a.b", "a(", "-", "a\u{a0}"] {
        assert!(!Python::is_valid_identifier(bad), "{:?}", bad);
        assert!(!Rust::is_valid_identifier(bad), "{:?}", bad);
    }
    assert!(Python::is_valid_identifier("a٣"));
    assert!(!Python::is_valid_identifier("٣a"));
    assert!(is_identifier_chars(&vec!['o', 'k']));
    assert!(!is_identifier_chars(&vec![]));
}
