use pars::error::ParseError;
use pars::file_info::{FileInfo, Language};
use pars::lang::py::Python;
use pars::lang::rs::Rust;
use pars::parser::{
    extract_function_name, line_contains_function_call, parse_functions, unreadable_definitions,
};
use pars::{find_roots, CallGraph};
use std::path::PathBuf;

fn parse(language: Language, content: &str) -> Result<CallGraph, ParseError> {
    let path = PathBuf::from("sample");
    let info = FileInfo { file_type: language, file_path: &path, file_size: content.len() };
    parse_functions(&info, content)
}

fn python(content: &str) -> CallGraph {
    parse(Language::Py, content).unwrap()
}

fn shape(g: &CallGraph) -> Vec<(String, usize, Vec<(String, usize)>)> {
    let mut out = Vec::new();
    for i in 0..g.len() {
        let info = g.info_at(i);
        out.push((g.name_at(i).clone(), info.line_at_call, info.callees.clone()));
    }
    out
}

fn entry(name: &str, line: usize, callees: &[(&str, usize)]) -> (String, usize, Vec<(String, usize)>) {
    (name.to_string(), line, callees.iter().map(|c| (c.0.to_string(), c.1)).collect())
}

#[test]
fn two_functions_one_call() {
    let g = python("def a():\n    b()\ndef b():\n    pass");
    assert_eq!(shape(&g), vec![entry("a", 0, &[("b", 1)]), entry("b", 2, &[])]);
    assert_eq!(find_roots(&g), vec!["a".to_string()]);
}

#[test]
fn call_to_undefined_name_is_not_recorded() {
    let g = python("def x(): helper()");
    assert_eq!(shape(&g), vec![entry("x", 0, &[])]);
}

#[test]
fn call_before_definition_is_found() {
    let g = python("def first():\n    second()\n    third()\ndef third():\n    pass\ndef second():\n    pass\n");
    assert_eq!(
        shape(&g),
        vec![entry("first", 0, &[("second", 1), ("third", 2)]), entry("third", 3, &[]), entry("second", 5, &[])]
    );
}

#[test]
fn calls_on_one_line_come_in_definition_order() {
    let g = python("def first():\n    second(third())\ndef third():\n    pass\ndef second():\n    pass\n");
    assert_eq!(
        shape(&g),
        vec![entry("first", 0, &[("third", 1), ("second", 1)]), entry("third", 2, &[]), entry("second", 4, &[])]
    );
}

#[test]
fn multi_line_definition_keeps_name_and_first_line() {
    let g = python("# header\ndef long_name(\n    a,\n    b\n):\n    helper()\ndef helper():\n    pass\n");
    assert_eq!(shape(&g), vec![entry("long_name", 1, &[("helper", 5)]), entry("helper", 6, &[])]);
}

#[test]
fn lines_of_a_signature_are_not_searched_for_calls() {
    let g = python("def f(a,\n      b=g(1)):\n    pass\ndef g(x):\n    pass\n");
    assert_eq!(shape(&g), vec![entry("f", 0, &[]), entry("g", 3, &[])]);
}

#[test]
fn unterminated_definition_runs_to_the_end() {
    let g = python("def a(\n    x\ndef b():\n    pass");
    assert_eq!(shape(&g), vec![entry("a", 0, &[])]);
}

#[test]
fn definition_stops_joining_at_the_terminator() {
    let g = python("def a(\n  x):\ndef b():\n    a()\n");
    assert_eq!(shape(&g), vec![entry("a", 0, &[]), entry("b", 2, &[("a", 3)])]);
}

#[test]
fn first_definition_of_a_name_wins() {
    let g = python("def a():\n    pass\ndef a():\n    b()\ndef b():\n    pass\n");
    assert_eq!(shape(&g), vec![entry("a", 0, &[("b", 3)]), entry("b", 4, &[])]);
}

#[test]
fn callee_is_recorded_once_at_its_first_line() {
    let g = python("def a():\n    b()\n    b()\n    c()\n    b()\ndef b():\n    pass\ndef c():\n    pass\n");
    assert_eq!(
        shape(&g),
        vec![entry("a", 0, &[("b", 1), ("c", 3)]), entry("b", 5, &[]), entry("c", 7, &[])]
    );
}

#[test]
fn top_level_line_closes_the_scope() {
    let g = python("def a():\n    pass\nb()\n    b()\ndef b():\n    pass\n");
    assert_eq!(shape(&g), vec![entry("a", 0, &[]), entry("b", 4, &[])]);
}

#[test]
fn empty_and_indented_lines_keep_the_scope() {
    let g = python("def a():\n\n\t\n    b()\ndef b():\n    pass\n");
    assert_eq!(shape(&g), vec![entry("a", 0, &[("b", 3)]), entry("b", 4, &[])]);
}

#[test]
fn member_call_counts() {
    let g = python("def a(self):\n    self.b()\ndef b(self):\n    pass\n");
    assert_eq!(shape(&g), vec![entry("a", 0, &[("b", 1)]), entry("b", 2, &[])]);
}

#[test]
fn name_without_bracket_is_no_call() {
    let g = python("def a():\n    x = b\n    y = b (1)\ndef b():\n    pass\n");
    assert_eq!(shape(&g), vec![entry("a", 0, &[]), entry("b", 3, &[])]);
}

#[test]
fn longer_name_that_ends_alike_matches_too() {
    let g = python("def a():\n    ab()\ndef b():\n    pass\ndef ab():\n    pass\n");
    assert_eq!(
        shape(&g),
        vec![entry("a", 0, &[("b", 1), ("ab", 1)]), entry("b", 2, &[]), entry("ab", 4, &[])]
    );
}

#[test]
fn function_does_not_call_itself() {
    let g = python("def a():\n    a()\n    b()\ndef b():\n    b()\n");
    assert_eq!(shape(&g), vec![entry("a", 0, &[("b", 2)]), entry("b", 3, &[])]);
}

#[test]
fn indented_definitions_are_found() {
    let g = python("class K:\n    def m(self):\n        n()\n    def n(self):\n        pass\n");
    assert_eq!(shape(&g), vec![entry("m", 1, &[("n", 2)]), entry("n", 3, &[])]);
}

#[test]
fn unreadable_definition_is_passed_over() {
    let content = "def 1abc():\n    pass\ndef (x):\n    pass\ndef noparen:\n    pass\ndef ok():\n    pass\n";
    let g = python(content);
    assert_eq!(shape(&g), vec![entry("ok", 6, &[])]);
    let path = PathBuf::from("sample.py");
    let info = FileInfo { file_type: Language::Py, file_path: &path, file_size: 0 };
    assert_eq!(unreadable_definitions(&info, content), vec![0, 2, 4]);
}

#[test]
fn unreadable_definition_leaves_the_current_function() {
    let g = python("def a():\n    x = 1\n    def -():\n    b()\ndef b():\n    pass\n");
    assert_eq!(shape(&g), vec![entry("a", 0, &[("b", 3)]), entry("b", 4, &[])]);
}

#[test]
fn unreadable_definitions_of_unknown_language_are_none() {
    let path = PathBuf::from("sample.txt");
    let info = FileInfo { file_type: Language::Unknown, file_path: &path, file_size: 0 };
    assert_eq!(unreadable_definitions(&info, "def 1():\n"), Vec::<usize>::new());
}

#[test]
fn keyword_is_a_plain_prefix() {
    let g = python("define_x(1)\n");
    assert_eq!(shape(&g), vec![entry("ine_x", 0, &[])]);
}

#[test]
fn text_without_functions_gives_an_empty_graph() {
    let g = python("x = 1\nprint(x)\n");
    assert_eq!(g.len(), 0);
    assert_eq!(find_roots(&g), Vec::<String>::new());
    let g = python("\n");
    assert_eq!(g.len(), 0);
}

#[test]
fn empty_content_is_a_parse_failure() {
    let e = parse(Language::Py, "").unwrap_err();
    assert!(matches!(&e, ParseError::ParseFailure(d) if d == "File is empty"));
    assert_eq!(e.message(), "Parse error: File is empty");
}

#[test]
fn unknown_language_is_unsupported() {
    let e = parse(Language::Unknown, "def a():\n").unwrap_err();
    assert!(matches!(&e, ParseError::UnsupportedLanguage(d) if d == "unknown"));
    assert_eq!(e.message(), "Language is not supported yet: unknown");
    let e = parse(Language::Unknown, "").unwrap_err();
    assert!(matches!(&e, ParseError::UnsupportedLanguage(_)));
}

#[test]
fn rust_functions() {
    let g = parse(Language::Rs, "fn main() {\n    helper();\n}\nfn helper()\n{\n    main();\n}\n").unwrap();
    assert_eq!(shape(&g), vec![entry("main", 0, &[("helper", 1)]), entry("helper", 3, &[("main", 5)])]);
}

#[test]
fn carriage_returns_end_lines() {
    let g = python("def a():\r\n    b()\r\ndef b():\r\n    pass\r\n");
    assert_eq!(shape(&g), vec![entry("a", 0, &[("b", 1)]), entry("b", 2, &[])]);
}

#[test]
fn names_may_be_unicode() {
    let g = python("def été():\n    größe()\ndef größe():\n    pass\n");
    assert_eq!(shape(&g), vec![entry("été", 0, &[("größe", 1)]), entry("größe", 2, &[])]);
}

#[test]
fn extracting_names() {
    assert_eq!(extract_function_name::<Python>("def foo(a, b):"), Some("foo".to_string()));
    assert_eq!(extract_function_name::<Python>("def   spaced   (x)"), Some("spaced".to_string()));
    assert_eq!(extract_function_name::<Python>("defdef foo("), Some("foo".to_string()));
    assert_eq!(extract_function_name::<Python>("def _p1(x) (y)"), Some("_p1".to_string()));
    assert_eq!(extract_function_name::<Python>("def 9lives():"), None);
    assert_eq!(extract_function_name::<Python>("def two words():"), None);
    assert_eq!(extract_function_name::<Python>("def ():"), None);
    assert_eq!(extract_function_name::<Python>("def nothing"), None);
    assert_eq!(extract_function_name::<Rust>("fn main() {"), Some("main".to_string()));
    assert_eq!(extract_function_name::<Rust>("fn generic<T>(x: T) {"), None);
    assert_eq!(extract_function_name::<Rust>("def foo():"), None);
}

#[test]
fn finding_calls_in_a_line() {
    assert!(line_contains_function_call("    helper()", "helper"));
    assert!(line_contains_function_call("x = obj.helper(1)", "helper"));
    assert!(line_contains_function_call("myhelper()", "helper"));
    assert!(!line_contains_function_call("helper", "helper"));
    assert!(!line_contains_function_call("helper ()", "helper"));
    assert!(!line_contains_function_call("help()", "helper"));
    assert!(!line_contains_function_call("", "helper"));
    assert!(line_contains_function_call("(", ""));
}
