use pars::cache::{get_cache_path, hash_string, load_cache, save_cache, CacheEntry};
use pars::config::Config;
use pars::error::ParseError;
use pars::file_info::{FileInfo, Language};
use pars::parser::parse_file;
use pars::{CallGraph, FnInfo};
use std::collections::hash_map::DefaultHasher;
use std::hash::{Hash, Hasher};
use std::path::PathBuf;

fn std_hash(s: &str) -> u64 {
    let mut hasher = DefaultHasher::new();
    s.hash(&mut hasher);
    hasher.finish()
}

fn sample() -> CallGraph {
    let mut g = CallGraph::new();
    assert!(g.insert("a".to_string(), FnInfo { line_at_call: 0, callees: vec![("b".to_string(), 1)] }));
    assert!(g.insert("b".to_string(), FnInfo { line_at_call: 2, callees: vec![] }));
    g
}

fn shape(g: &CallGraph) -> Vec<(String, usize, Vec<(String, usize)>)> {
    (0..g.len())
        .map(|i| (g.name_at(i).clone(), g.info_at(i).line_at_call, g.info_at(i).callees.clone()))
        .collect()
}

#[test]
fn fingerprint_is_the_hash_of_the_text() {
    for text in ["", "a", "abc", "def a():\n    b()\n", "größe\u{1F600}", "\u{ff}"] {
        assert_eq!(hash_string(text), std_hash(text));
    }
    assert_ne!(hash_string("a"), hash_string("b"));
    assert_eq!(hash_string("same"), hash_string("same"));
}

#[test]
fn stored_graph_is_found_for_the_unchanged_file() {
    let g = sample();
    let entry = save_cache("content", 1700000000, &g);
    assert_eq!(entry.file_hash, hash_string("content"));
    assert_eq!(entry.last_modified, 1700000000);
    let found = load_cache(Some(entry), "content", 1700000000).unwrap();
    assert_eq!(shape(&found), shape(&g));
}

#[test]
fn other_modification_time_invalidates() {
    let entry = save_cache("content", 1700000000, &sample());
    assert!(load_cache(Some(entry), "content", 1700000001).is_none());
}

#[test]
fn other_content_invalidates() {
    let entry = save_cache("content", 1700000000, &sample());
    assert!(load_cache(Some(entry), "content ", 1700000000).is_none());
}

#[test]
fn no_entry_is_a_miss() {
    assert!(load_cache(None, "content", 0).is_none());
}

fn info(path: &PathBuf, language: Language) -> FileInfo<'_> {
    FileInfo { file_type: language, file_path: path, file_size: 0 }
}

const SOURCE: &str = "def x():\n    y()\ndef y():\n    pass\n";

#[test]
fn pipeline_rejects_empty_content_first() {
    let path = PathBuf::from("f.py");
    let config = Config { enable_cache: true };
    let entry = save_cache("", 5, &sample());
    let e = parse_file(&info(&path, Language::Py), &config, "", Some(entry), Some(5)).unwrap_err();
    assert!(matches!(e, ParseError::ParseFailure(d) if d == "File is empty"));
}

#[test]
fn pipeline_takes_a_fresh_entry() {
    let path = PathBuf::from("f.py");
    let config = Config { enable_cache: true };
    let entry = save_cache(SOURCE, 5, &sample());
    let parsed = parse_file(&info(&path, Language::Py), &config, SOURCE, Some(entry), Some(5)).unwrap();
    assert!(parsed.from_cache);
    assert!(parsed.to_store.is_none());
    assert_eq!(shape(&parsed.functions), shape(&sample()));
}

#[test]
fn pipeline_takes_a_fresh_entry_whatever_the_language() {
    let path = PathBuf::from("f.txt");
    let config = Config { enable_cache: true };
    let entry = save_cache(SOURCE, 5, &sample());
    let parsed = parse_file(&info(&path, Language::Unknown), &config, SOURCE, Some(entry), Some(5)).unwrap();
    assert!(parsed.from_cache);
}

#[test]
fn pipeline_parses_when_the_entry_is_stale() {
    let path = PathBuf::from("f.py");
    let config = Config { enable_cache: true };
    let entry = save_cache(SOURCE, 5, &sample());
    let parsed = parse_file(&info(&path, Language::Py), &config, SOURCE, Some(entry), Some(6)).unwrap();
    assert!(!parsed.from_cache);
    assert_eq!(
        shape(&parsed.functions),
        vec![("x".to_string(), 0, vec![("y".to_string(), 1)]), ("y".to_string(), 2, vec![])]
    );
    let stored: CacheEntry = parsed.to_store.unwrap();
    assert_eq!(stored.file_hash, hash_string(SOURCE));
    assert_eq!(stored.last_modified, 6);
    assert_eq!(shape(&stored.functions), shape(&parsed.functions));
}

#[test]
fn pipeline_leaves_the_cache_alone_when_disabled() {
    let path = PathBuf::from("f.py");
    let config = Config { enable_cache: false };
    let entry = save_cache(SOURCE, 5, &sample());
    let parsed = parse_file(&info(&path, Language::Py), &config, SOURCE, Some(entry), Some(5)).unwrap();
    assert!(!parsed.from_cache);
    assert!(parsed.to_store.is_none());
    assert_eq!(parsed.functions.len(), 2);
    assert_eq!(parsed.functions.name_at(0), "x");
}

#[test]
fn pipeline_stores_nothing_without_a_modification_time() {
    let path = PathBuf::from("f.py");
    let config = Config { enable_cache: true };
    let entry = save_cache(SOURCE, 5, &sample());
    let parsed = parse_file(&info(&path, Language::Py), &config, SOURCE, Some(entry), None).unwrap();
    assert!(!parsed.from_cache);
    assert!(parsed.to_store.is_none());
    assert_eq!(parsed.functions.name_at(0), "x");
}

#[test]
fn pipeline_fails_for_an_unknown_language() {
    let path = PathBuf::from("f.txt");
    let config = Config { enable_cache: true };
    let e = parse_file(&info(&path, Language::Unknown), &config, SOURCE, None, Some(5)).unwrap_err();
    assert!(matches!(e, ParseError::UnsupportedLanguage(d) if d == "unknown"));
}

#[test]
fn cache_lies_beside_the_source_under_its_own_extension() {
    let at = |p: &str| get_cache_path(&PathBuf::from(p));
    assert_eq!(at("dir/tool.py"), PathBuf::from("dir/tool.funcparse_cache"));
    assert_eq!(at("main.rs"), PathBuf::from("main.funcparse_cache"));
    assert_eq!(at("noext"), PathBuf::from("noext.funcparse_cache"));
    assert_eq!(at("a.tar.gz"), PathBuf::from("a.tar.funcparse_cache"));
    assert_eq!(at("dir.d/.hidden"), PathBuf::from("dir.d/.hidden.funcparse_cache"));
}
