use pars::analysis::{find_orphans, has_name};
use pars::report::analyze;
use pars::tree::{draw, Pending};
use pars::{find_roots, print_tree, CallGraph, FnInfo};

fn info(line: usize, callees: &[(&str, usize)]) -> FnInfo {
    FnInfo { line_at_call: line, callees: callees.iter().map(|c| (c.0.to_string(), c.1)).collect() }
}

fn graph(entries: &[(&str, usize, &[(&str, usize)])]) -> CallGraph {
    let mut g = CallGraph::new();
    for e in entries {
        assert!(g.insert(e.0.to_string(), info(e.1, e.2)));
    }
    g
}

fn names(v: &[&str]) -> Vec<String> {
    v.iter().map(|s| s.to_string()).collect()
}

#[test]
fn new_graph_is_empty() {
    let g = CallGraph::new();
    assert_eq!(g.len(), 0);
    assert_eq!(g.position(&"a".to_string()), None);
    assert!(g.get(&"a".to_string()).is_none());
}

#[test]
fn insert_appends_in_order() {
    let g = graph(&[("b", 4, &[]), ("a", 0, &[("b", 1)])]);
    assert_eq!(g.len(), 2);
    assert_eq!(g.name_at(0), "b");
    assert_eq!(g.name_at(1), "a");
    assert_eq!(g.info_at(1).line_at_call, 0);
    assert_eq!(g.info_at(1).callees, vec![("b".to_string(), 1)]);
    assert_eq!(g.position(&"a".to_string()), Some(1));
    assert_eq!(g.position(&"b".to_string()), Some(0));
    assert_eq!(g.get(&"b".to_string()).unwrap().line_at_call, 4);
}

#[test]
fn insert_refuses_a_second_definition() {
    let mut g = graph(&[("a", 0, &[])]);
    assert!(!g.insert("a".to_string(), info(7, &[])));
    assert_eq!(g.len(), 1);
    assert_eq!(g.info_at(0).line_at_call, 0);
}

#[test]
fn insert_refuses_a_record_that_lists_a_callee_twice() {
    let mut g = CallGraph::new();
    assert!(!g.insert("a".to_string(), info(0, &[("b", 1), ("c", 2), ("b", 3)])));
    assert_eq!(g.len(), 0);
    assert!(!info(0, &[("b", 1), ("b", 1)]).is_valid());
    assert!(info(0, &[("b", 1), ("c", 1)]).is_valid());
}

#[test]
fn insert_refuses_a_line_without_successor() {
    let mut g = CallGraph::new();
    assert!(!g.insert("a".to_string(), info(usize::MAX, &[])));
    assert!(g.insert("a".to_string(), info(usize::MAX - 1, &[])));
}

#[test]
fn record_call_adds_each_callee_once() {
    let mut g = graph(&[("a", 0, &[]), ("b", 3, &[])]);
    assert!(g.record_call(0, &"b".to_string(), 1));
    assert!(!g.record_call(0, &"b".to_string(), 2));
    assert!(g.record_call(0, &"elsewhere".to_string(), 2));
    assert_eq!(g.info_at(0).callees, vec![("b".to_string(), 1), ("elsewhere".to_string(), 2)]);
    assert_eq!(g.info_at(1).callees, vec![]);
    assert!(g.info_at(0).has_callee(&"b".to_string()));
    assert!(!g.info_at(0).has_callee(&"a".to_string()));
}

#[test]
fn clone_copies_the_graph() {
    let g = graph(&[("a", 0, &[("b", 1)]), ("b", 3, &[("a", 4)])]);
    let c = g.clone();
    assert_eq!(c.len(), 2);
    assert_eq!(c.name_at(0), "a");
    assert_eq!(c.info_at(0).callees, vec![("b".to_string(), 1)]);
    assert_eq!(c.name_at(1), "b");
    assert_eq!(c.info_at(1).line_at_call, 3);
    assert_eq!(c.info_at(1).callees, vec![("a".to_string(), 4)]);
}

#[test]
fn roots_are_the_names_that_nothing_calls() {
    let g = graph(&[
        ("leaf", 9, &[]),
        ("top", 0, &[("mid", 1), ("missing", 2)]),
        ("mid", 4, &[("leaf", 5)]),
        ("alone", 12, &[]),
    ]);
    assert_eq!(find_roots(&g), names(&["top", "alone"]));
}

#[test]
fn without_calls_every_function_is_a_root() {
    let g = graph(&[("c", 0, &[]), ("a", 1, &[]), ("b", 2, &[])]);
    assert_eq!(find_roots(&g), names(&["c", "a", "b"]));
}

#[test]
fn function_that_calls_itself_is_no_root() {
    let g = graph(&[("a", 0, &[("a", 1)]), ("b", 2, &[])]);
    assert_eq!(find_roots(&g), names(&["b"]));
}

#[test]
fn tree_of_one_call() {
    let g = graph(&[("a", 0, &[("b", 1)]), ("b", 2, &[])]);
    let mut visited = Vec::new();
    let lines = print_tree("a", &g, String::new(), true, &mut visited);
    assert_eq!(lines, names(&["└── a (line 0)", "    └── b (line 2)"]));
    assert_eq!(visited, names(&["a", "b"]));
}

#[test]
fn tree_that_is_not_last_draws_a_rail() {
    let g = graph(&[("a", 10, &[("b", 11), ("c", 12)]), ("b", 20, &[]), ("c", 123, &[])]);
    let mut visited = Vec::new();
    let lines = print_tree("a", &g, "  ".to_string(), false, &mut visited);
    assert_eq!(
        lines,
        names(&["  ├── a (line 10)", "  │   ├── b (line 20)", "  │   └── c (line 123)"])
    );
}

#[test]
fn shared_callee_is_drawn_once() {
    let g = graph(&[
        ("a", 0, &[("b", 1), ("c", 2)]),
        ("b", 1, &[("d", 3)]),
        ("c", 2, &[("d", 4)]),
        ("d", 3, &[]),
    ]);
    let mut visited = Vec::new();
    let lines = print_tree("a", &g, String::new(), true, &mut visited);
    assert_eq!(
        lines,
        names(&[
            "└── a (line 0)",
            "    ├── b (line 1)",
            "    │   └── d (line 3)",
            "    └── c (line 2)",
        ])
    );
    assert_eq!(visited, names(&["a", "b", "d", "c"]));
}

#[test]
fn mutual_recursion_is_walked_once_each() {
    let g = graph(&[("a", 0, &[("b", 1)]), ("b", 2, &[("a", 3)])]);
    let mut visited = Vec::new();
    let lines = print_tree("a", &g, String::new(), true, &mut visited);
    assert_eq!(lines, names(&["└── a (line 0)", "    └── b (line 2)"]));
    assert_eq!(visited, names(&["a", "b"]));
    let again = print_tree("b", &g, String::new(), true, &mut visited);
    assert_eq!(again, Vec::<String>::new());
    assert_eq!(visited, names(&["a", "b"]));
}

#[test]
fn self_recursion_is_walked_once() {
    let g = graph(&[("a", 5, &[("a", 6)])]);
    let mut visited = Vec::new();
    assert_eq!(print_tree("a", &g, String::new(), true, &mut visited), names(&["└── a (line 5)"]));
}

#[test]
fn callee_that_the_graph_lacks_is_passed_over() {
    let g = graph(&[("a", 0, &[("ghost", 1), ("b", 2)]), ("b", 1, &[])]);
    let mut visited = Vec::new();
    let lines = print_tree("a", &g, String::new(), true, &mut visited);
    assert_eq!(lines, names(&["└── a (line 0)", "    └── b (line 1)"]));
    assert_eq!(visited, names(&["a", "b"]));
    assert_eq!(print_tree("ghost", &g, String::new(), true, &mut visited), Vec::<String>::new());
    assert_eq!(visited, names(&["a", "b"]));
}

#[test]
fn visited_name_is_not_drawn() {
    let g = graph(&[("a", 0, &[("b", 1)]), ("b", 2, &[])]);
    let mut visited = names(&["b"]);
    let lines = print_tree("a", &g, String::new(), true, &mut visited);
    assert_eq!(lines, names(&["└── a (line 0)"]));
    assert_eq!(visited, names(&["b", "a"]));
    assert!(has_name(&visited, &"a".to_string()));
    assert!(!has_name(&visited, &"c".to_string()));
}

#[test]
fn drawing_works_off_the_top_of_the_stack() {
    let g = graph(&[("a", 0, &[]), ("b", 1, &[])]);
    let stack = vec![
        Pending { name: "b".to_string(), prefix: String::new(), is_last: true },
        Pending { name: "a".to_string(), prefix: String::new(), is_last: false },
    ];
    let mut visited = Vec::new();
    assert_eq!(draw(&g, stack, &mut visited), names(&["├── a (line 0)", "└── b (line 1)"]));
}

#[test]
fn orphans_come_by_name_with_one_based_lines() {
    let g = graph(&[("c", 5, &[]), ("a", 0, &[]), ("b", 2, &[]), ("B", 9, &[]), ("ab", 7, &[])]);
    let orphans = find_orphans(&g, &names(&["b", "unknown"]));
    assert_eq!(
        orphans,
        vec![("B".to_string(), 10), ("a".to_string(), 1), ("ab".to_string(), 8), ("c".to_string(), 6)]
    );
    assert_eq!(find_orphans(&g, &names(&["a", "b", "c", "B", "ab"])), vec![]);
}

#[test]
fn report_of_one_call() {
    let g = graph(&[("a", 0, &[("b", 1)]), ("b", 2, &[])]);
    let report = analyze(&g);
    assert_eq!(report.roots, names(&["a"]));
    assert_eq!(report.tree, names(&["└── a (line 0)", "    └── b (line 2)"]));
    assert_eq!(report.visited, names(&["a", "b"]));
    assert_eq!(report.orphans, vec![]);
}

#[test]
fn report_of_mutual_recursion_has_orphans_only() {
    let g = graph(&[("a", 0, &[("b", 1)]), ("b", 2, &[("a", 3)])]);
    let report = analyze(&g);
    assert_eq!(report.roots, Vec::<String>::new());
    assert_eq!(report.tree, Vec::<String>::new());
    assert_eq!(report.visited, Vec::<String>::new());
    assert_eq!(report.orphans, vec![("a".to_string(), 1), ("b".to_string(), 3)]);
}

#[test]
fn report_draws_the_roots_in_turn() {
    let g = graph(&[
        ("main", 0, &[("util", 1)]),
        ("util", 3, &[]),
        ("x", 5, &[("y", 6)]),
        ("y", 8, &[("x", 9)]),
        ("test", 11, &[("util", 12), ("main", 13)]),
    ]);
    let report = analyze(&g);
    assert_eq!(report.roots, names(&["test"]));
    assert_eq!(
        report.tree,
        names(&["└── test (line 11)", "    ├── util (line 3)", "    └── main (line 0)"])
    );
    assert_eq!(report.orphans, vec![("x".to_string(), 6), ("y".to_string(), 9)]);
    let g = graph(&[("a", 0, &[("b", 1)]), ("b", 2, &[]), ("c", 4, &[("b", 5)])]);
    let report = analyze(&g);
    assert_eq!(report.roots, names(&["a", "c"]));
    assert_eq!(report.tree, names(&["├── a (line 0)", "│   └── b (line 2)", "└── c (line 4)"]));
    assert_eq!(report.visited, names(&["a", "b", "c"]));
}

#[test]
fn report_of_an_empty_graph_is_empty() {
    let report = analyze(&CallGraph::new());
    assert!(report.roots.is_empty() && report.tree.is_empty());
    assert!(report.visited.is_empty() && report.orphans.is_empty());
}
