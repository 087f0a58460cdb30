//! What holds of every graph that the scanner yields.

use vstd::prelude::*;
use crate::graph::{calls, defines, FnModel};
use crate::lang::LexModel;
use crate::parser::{
    after_def, collect_calls, collect_definitions, definition_at, is_call_site, is_def_line,
    lemma_continuation_bound, note_calls, parse_model, record, register,
};

verus! {

/// `b` defines the functions of `a`, at the same lines and in the same order.
pub open spec fn same_definitions(a: Seq<FnModel>, b: Seq<FnModel>) -> bool {
    &&& a.len() == b.len()
    &&& forall|k: int|
        0 <= k < a.len() ==> (#[trigger] a[k]).name == b[k].name && a[k].line == b[k].line
}

/// Every function of `g` is defined in `lines`: its line opens a definition
/// that declares its name.
pub open spec fn grounded(lex: LexModel, lines: Seq<Seq<char>>, g: Seq<FnModel>) -> bool {
    forall|k: int|
        0 <= k < g.len() ==> (#[trigger] g[k]).line < lines.len() && definition_at(
            lex,
            lines[g[k].line as int],
        ) == Some(g[k].name)
}

/// Every call of `g` goes from a function to another function of `g`, and
/// is made on a line of `lines` that holds it.
pub open spec fn calls_resolved(lines: Seq<Seq<char>>, g: Seq<FnModel>) -> bool {
    forall|k: int, j: int|
        0 <= k < g.len() && 0 <= j < g[k].callees.len() ==> {
            let call = #[trigger] g[k].callees[j];
            &&& defines(g, call.0)
            &&& call.0 != g[k].name
            &&& call.1 < lines.len()
            &&& is_call_site(lines[call.1 as int], call.0)
        }
}

/// A graph that defines the same functions defines the same names.
proof fn lemma_defines_kept(a: Seq<FnModel>, b: Seq<FnModel>, name: Seq<char>)
    requires
        same_definitions(a, b),
        defines(a, name),
    ensures
        defines(b, name),
{
    let i = choose|i: int| 0 <= i < a.len() && (#[trigger] a[i]).name == name;
    assert(b[i].name == name);
}

/// Recording a call found on a line keeps the definitions, and keeps the
/// calls resolved.
proof fn lemma_record(
    lines: Seq<Seq<char>>,
    g: Seq<FnModel>,
    caller: Seq<char>,
    callee: Seq<char>,
    at: int,
)
    requires
        0 <= at < lines.len(),
        defines(g, callee),
        callee != caller,
        is_call_site(lines[at], callee),
        calls_resolved(lines, g),
    ensures
        same_definitions(g, record(g, caller, callee, at)),
        calls_resolved(lines, record(g, caller, callee, at)),
{
    let r = record(g, caller, callee, at);
    assert(same_definitions(g, r));
    assert forall|k: int, j: int| 0 <= k < r.len() && 0 <= j < r[k].callees.len() implies {
        let call = #[trigger] r[k].callees[j];
        &&& defines(r, call.0)
        &&& call.0 != r[k].name
        &&& call.1 < lines.len()
        &&& is_call_site(lines[call.1 as int], call.0)
    } by {
        let call = r[k].callees[j];
        if j < g[k].callees.len() {
            assert(call == g[k].callees[j]);
            lemma_defines_kept(g, r, call.0);
        } else {
            assert(call == (callee, at as nat));
            lemma_defines_kept(g, r, callee);
        }
    }
}

/// Searching a line for calls keeps the definitions, and keeps the calls
/// resolved.
proof fn lemma_note_calls(
    lines: Seq<Seq<char>>,
    g: Seq<FnModel>,
    caller: Seq<char>,
    at: int,
    j: int,
)
    requires
        0 <= at < lines.len(),
        calls_resolved(lines, g),
    ensures
        same_definitions(g, note_calls(g, caller, lines[at], at, j)),
        calls_resolved(lines, note_calls(g, caller, lines[at], at, j)),
    decreases g.len() - j,
{
    if 0 <= j < g.len() {
        let callee = g[j].name;
        if callee != caller && is_call_site(lines[at], callee) {
            let next = record(g, caller, callee, at);
            lemma_record(lines, g, caller, callee, at);
            lemma_note_calls(lines, next, caller, at, j + 1);
            let last = note_calls(next, caller, lines[at], at, j + 1);
            assert forall|k: int| 0 <= k < g.len() implies (#[trigger] g[k]).name == last[k].name
                && g[k].line == last[k].line by {
                assert(next[k].name == last[k].name);
            }
        } else {
            lemma_note_calls(lines, g, caller, at, j + 1);
        }
    }
}

/// The second pass keeps the definitions, and keeps the calls resolved.
proof fn lemma_collect_calls(
    lex: LexModel,
    lines: Seq<Seq<char>>,
    i: int,
    current: Option<Seq<char>>,
    g: Seq<FnModel>,
)
    requires
        calls_resolved(lines, g),
    ensures
        same_definitions(g, collect_calls(lex, lines, i, current, g)),
        calls_resolved(lines, collect_calls(lex, lines, i, current, g)),
    decreases lines.len() - i,
{
    if 0 <= i < lines.len() {
        if is_def_line(lex, lines[i]) {
            match definition_at(lex, lines[i]) {
                Some(name) => {
                    lemma_continuation_bound(lex, lines, i, i);
                    lemma_collect_calls(lex, lines, after_def(lex, lines, i), Some(name), g);
                },
                None => {
                    lemma_collect_calls(lex, lines, i + 1, current, g);
                },
            }
        } else {
            match current {
                Some(caller) => {
                    if crate::parser::closes_scope(lines[i]) {
                        lemma_collect_calls(lex, lines, i + 1, None, g);
                    } else {
                        let next = note_calls(g, caller, lines[i], i, 0);
                        lemma_note_calls(lines, g, caller, i, 0);
                        lemma_collect_calls(lex, lines, i + 1, current, next);
                        let last = collect_calls(lex, lines, i + 1, current, next);
                        assert forall|k: int| 0 <= k < g.len() implies (#[trigger] g[k]).name
                            == last[k].name && g[k].line == last[k].line by {
                            assert(next[k].name == last[k].name);
                        }
                    }
                },
                None => {
                    lemma_collect_calls(lex, lines, i + 1, None, g);
                },
            }
        }
    }
}

/// The first pass adds nothing but functions defined in the lines, and no
/// calls.
proof fn lemma_collect_definitions(lex: LexModel, lines: Seq<Seq<char>>, i: int, g: Seq<FnModel>)
    requires
        grounded(lex, lines, g),
        forall|k: int| 0 <= k < g.len() ==> (#[trigger] g[k]).callees.len() == 0,
    ensures
        grounded(lex, lines, collect_definitions(lex, lines, i, g)),
        forall|k: int|
            0 <= k < collect_definitions(lex, lines, i, g).len() ==> (
            #[trigger] collect_definitions(lex, lines, i, g)[k]).callees.len() == 0,
    decreases lines.len() - i,
{
    if 0 <= i < lines.len() {
        match definition_at(lex, lines[i]) {
            Some(name) => {
                lemma_continuation_bound(lex, lines, i, i);
                let next = register(g, name, i);
                assert(grounded(lex, lines, next));
                lemma_collect_definitions(lex, lines, after_def(lex, lines, i), next);
            },
            None => {
                lemma_collect_definitions(lex, lines, i + 1, g);
            },
        }
    }
}

/// Every function of a parsed graph is defined in the text, under its name
/// and at its line; nothing else enters the graph.
pub proof fn lemma_functions_are_defined(lex: LexModel, lines: Seq<Seq<char>>)
    ensures
        grounded(lex, lines, parse_model(lex, lines)),
{
    let defined = collect_definitions(lex, lines, 0, Seq::empty());
    lemma_collect_definitions(lex, lines, 0, Seq::empty());
    lemma_collect_calls(lex, lines, 0, None, defined);
    let g = parse_model(lex, lines);
    assert forall|k: int| 0 <= k < g.len() implies (#[trigger] g[k]).line < lines.len()
        && definition_at(lex, lines[g[k].line as int]) == Some(g[k].name) by {
        assert(defined[k].name == g[k].name && defined[k].line == g[k].line);
    }
}

/// Every call of a parsed graph goes to another function of the graph, and
/// is made on a line that holds it: a call to a name that the text does not
/// define is not recorded.
pub proof fn lemma_calls_are_resolved(lex: LexModel, lines: Seq<Seq<char>>)
    ensures
        calls_resolved(lines, parse_model(lex, lines)),
{
    let defined = collect_definitions(lex, lines, 0, Seq::empty());
    lemma_collect_definitions(lex, lines, 0, Seq::empty());
    lemma_collect_calls(lex, lines, 0, None, defined);
}

// ---------------------------------------------------------------------------
// Which definition of a name is kept
// ---------------------------------------------------------------------------

/// The first pass, begun at line `i`, comes to line `k`: no definition
/// before `k` takes line `k` in as part of its signature.
pub open spec fn reaches(lex: LexModel, lines: Seq<Seq<char>>, i: int, k: int) -> bool
    decreases lines.len() - i,
{
    if i < 0 || i >= lines.len() || k < i {
        false
    } else if i == k {
        true
    } else {
        match definition_at(lex, lines[i]) {
            Some(name) => {
                proof {
                    lemma_continuation_bound(lex, lines, i, i);
                }
                reaches(lex, lines, after_def(lex, lines, i), k)
            },
            None => reaches(lex, lines, i + 1, k),
        }
    }
}

/// Line `k` is where the scan first meets a definition of `name`: the scan
/// comes to line `k`, which opens a definition that declares `name`, and
/// comes to no definition of `name` before.
pub open spec fn first_definition(
    lex: LexModel,
    lines: Seq<Seq<char>>,
    name: Seq<char>,
    k: int,
) -> bool {
    &&& reaches(lex, lines, 0, k)
    &&& definition_at(lex, lines[k]) == Some(name)
    &&& forall|j: int|
        0 <= j < k && #[trigger] reaches(lex, lines, 0, j) ==> definition_at(lex, lines[j])
            != Some(name)
}

/// `g` has an entry for `name` at `line`.
pub open spec fn defines_at(g: Seq<FnModel>, name: Seq<char>, line: int) -> bool {
    exists|e: int| 0 <= e < g.len() && (#[trigger] g[e]).name == name && g[e].line == line
}

/// The first pass only adds functions: what the graph held stays where it is.
proof fn lemma_definitions_extend(lex: LexModel, lines: Seq<Seq<char>>, i: int, g: Seq<FnModel>)
    ensures
        g.len() <= collect_definitions(lex, lines, i, g).len(),
        forall|e: int| 0 <= e < g.len() ==> collect_definitions(lex, lines, i, g)[e] == #[trigger] g[e],
    decreases lines.len() - i,
{
    if 0 <= i < lines.len() {
        match definition_at(lex, lines[i]) {
            Some(name) => {
                lemma_continuation_bound(lex, lines, i, i);
                let next = register(g, name, i);
                lemma_definitions_extend(lex, lines, after_def(lex, lines, i), next);
                assert forall|e: int| 0 <= e < g.len() implies collect_definitions(
                    lex,
                    lines,
                    i,
                    g,
                )[e] == #[trigger] g[e] by {
                    assert(next[e] == g[e]);
                }
            },
            None => {
                lemma_definitions_extend(lex, lines, i + 1, g);
            },
        }
    }
}

/// The first pass, begun at a line from which it comes to the definition of
/// `name` at line `k` and to no other before, registers `name` at line `k`,
/// unless the graph defines `name` already.
proof fn lemma_registered_at(
    lex: LexModel,
    lines: Seq<Seq<char>>,
    i: int,
    g: Seq<FnModel>,
    name: Seq<char>,
    k: int,
)
    requires
        reaches(lex, lines, i, k),
        definition_at(lex, lines[k]) == Some(name),
        !defines(g, name),
        forall|j: int|
            i <= j < k && #[trigger] reaches(lex, lines, i, j) ==> definition_at(lex, lines[j])
                != Some(name),
    ensures
        defines_at(collect_definitions(lex, lines, i, g), name, k),
    decreases lines.len() - i,
{
    if i == k {
        lemma_continuation_bound(lex, lines, i, i);
        let next = register(g, name, k);
        lemma_definitions_extend(lex, lines, after_def(lex, lines, k), next);
        let last = collect_definitions(lex, lines, i, g);
        assert(next[g.len() as int].name == name);
        assert(last[g.len() as int] == next[g.len() as int]);
    } else {
        assert(reaches(lex, lines, i, i));
        match definition_at(lex, lines[i]) {
            Some(other) => {
                lemma_continuation_bound(lex, lines, i, i);
                let from = after_def(lex, lines, i);
                let next = register(g, other, i);
                assert(!defines(next, name)) by {
                    if defines(next, name) {
                        let e = choose|e: int| 0 <= e < next.len() && (#[trigger] next[e]).name == name;
                        if e < g.len() {
                            assert(g[e].name == name);
                        }
                    }
                }
                assert forall|j: int| from <= j < k && #[trigger] reaches(lex, lines, from, j) implies definition_at(
                    lex,
                    lines[j],
                ) != Some(name) by {
                    assert(reaches(lex, lines, i, j));
                }
                lemma_registered_at(lex, lines, from, next, name, k);
            },
            None => {
                assert forall|j: int| i + 1 <= j < k && #[trigger] reaches(lex, lines, i + 1, j) implies definition_at(
                    lex,
                    lines[j],
                ) != Some(name) by {
                    assert(reaches(lex, lines, i, j));
                }
                lemma_registered_at(lex, lines, i + 1, g, name, k);
            },
        }
    }
}

/// A function is registered where the scan first meets a definition of its
/// name: under that name, and at the line that opens the definition, however
/// many lines the signature runs on and whatever is defined later.
pub proof fn lemma_first_definition_is_kept(
    lex: LexModel,
    lines: Seq<Seq<char>>,
    name: Seq<char>,
    k: int,
)
    requires
        first_definition(lex, lines, name, k),
    ensures
        defines_at(parse_model(lex, lines), name, k),
{
    let defined = collect_definitions(lex, lines, 0, Seq::empty());
    assert(!defines(Seq::<FnModel>::empty(), name));
    lemma_registered_at(lex, lines, 0, Seq::empty(), name, k);
    lemma_collect_definitions(lex, lines, 0, Seq::empty());
    lemma_collect_calls(lex, lines, 0, None, defined);
    let e = choose|e: int| 0 <= e < defined.len() && (#[trigger] defined[e]).name == name && defined[e].line == k;
    let g = parse_model(lex, lines);
    assert(g[e].name == name && g[e].line == k);
}

} // verus!
