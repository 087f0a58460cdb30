//! The call tree: a depth-first walk from chosen functions that draws every
//! function once, however the calls loop.
//!
//! The walk works off a stack of pending functions, the next on top. A
//! pending function that was visited before, or that the graph does not
//! define, is dropped. Any other is visited: it yields a row, and its callees
//! go on the stack, the first on top.

use vstd::prelude::*;
use crate::analysis::{has_name, name_set, texts};
use crate::graph::{defines, graph_wf, index_of, lemma_index_of, names_of, CallGraph, FnModel};
use crate::text::{decimal, push_decimal, to_text};

verus! {

/// A function that waits to be drawn.
pub struct Pending {
    pub name: String,
    /// What stands before the connector on the function's row.
    pub prefix: String,
    /// Whether the function is the last of its siblings.
    pub is_last: bool,
}

/// Model of a pending function.
pub struct PendingModel {
    pub name: Seq<char>,
    pub prefix: Seq<char>,
    pub is_last: bool,
}

impl View for Pending {
    type V = PendingModel;

    open spec fn view(&self) -> PendingModel {
        PendingModel { name: self.name@, prefix: self.prefix@, is_last: self.is_last }
    }
}

/// The models of a stack of pending functions.
pub open spec fn stack_view(stack: Seq<Pending>) -> Seq<PendingModel> {
    Seq::new(stack.len(), |i: int| stack[i]@)
}

/// One row of the tree.
pub struct TreeRow {
    pub prefix: Seq<char>,
    pub is_last: bool,
    pub name: Seq<char>,
    /// Zero-based line of the definition.
    pub line: nat,
}

/// What joins a row to its parent.
pub open spec fn connector(is_last: bool) -> Seq<char> {
    if is_last {
        "└── "@
    } else {
        "├── "@
    }
}

/// What a row adds to the prefix of its children.
pub open spec fn guide(is_last: bool) -> Seq<char> {
    if is_last {
        "    "@
    } else {
        "│   "@
    }
}

/// The text of a row: prefix, connector, name, and the line in brackets.
pub open spec fn row_text(row: TreeRow) -> Seq<char> {
    row.prefix + connector(row.is_last) + row.name + " (line "@ + decimal(row.line) + ")"@
}

/// The texts of `rows`.
pub open spec fn rows_text(rows: Seq<TreeRow>) -> Seq<Seq<char>> {
    Seq::new(rows.len(), |i: int| row_text(rows[i]))
}

/// The callees of `m` as pending functions under `prefix`, in stack order:
/// the first callee comes last, which is on top.
pub open spec fn children_of(m: FnModel, prefix: Seq<char>) -> Seq<PendingModel> {
    Seq::new(
        m.callees.len(),
        |j: int|
            PendingModel {
                name: m.callees[m.callees.len() - 1 - j].0,
                prefix,
                is_last: j == 0,
            },
    )
}

/// How many functions of `g` are not among `visited`.
pub open spec fn unvisited(g: Seq<FnModel>, visited: Set<Seq<char>>) -> nat {
    names_of(g).to_set().difference(visited).len()
}

/// Visiting a function leaves fewer functions unvisited.
pub proof fn lemma_unvisited_decreases(g: Seq<FnModel>, visited: Set<Seq<char>>, name: Seq<char>)
    requires
        defines(g, name),
        !visited.contains(name),
    ensures
        unvisited(g, visited.insert(name)) < unvisited(g, visited),
{
    let names = names_of(g);
    let i = choose|i: int| 0 <= i < g.len() && (#[trigger] g[i]).name == name;
    assert(names[i] == name);
    assert(names.to_set().contains(name));
    vstd::seq_lib::seq_to_set_is_finite(names);
    names.to_set().lemma_set_insert_diff_decreases(visited, name);
}

/// The rows that the walk draws from `stack`, given the names `visited`
/// before, and the names visited after.
pub open spec fn walk(g: Seq<FnModel>, stack: Seq<PendingModel>, visited: Set<Seq<char>>) -> (
    Seq<TreeRow>,
    Set<Seq<char>>,
)
    decreases unvisited(g, visited), stack.len(),
{
    if stack.len() == 0 {
        (Seq::empty(), visited)
    } else {
        let top = stack.last();
        let rest = stack.drop_last();
        if visited.contains(top.name) || !defines(g, top.name) {
            walk(g, rest, visited)
        } else {
            let m = g[index_of(g, top.name)];
            proof {
                lemma_unvisited_decreases(g, visited, top.name);
            }
            let below = walk(
                g,
                rest + children_of(m, top.prefix + guide(top.is_last)),
                visited.insert(top.name),
            );
            (
                seq![
                    TreeRow { prefix: top.prefix, is_last: top.is_last, name: top.name, line: m.line },
                ] + below.0,
                below.1,
            )
        }
    }
}

/// Renders one row.
fn render_row(prefix: &String, is_last: bool, name: &String, line: usize) -> (text: String)
    ensures
        text@ == row_text(TreeRow { prefix: prefix@, is_last, name: name@, line: line as nat }),
{
    let mut text = prefix.clone();
    if is_last {
        text.append("└── ");
    } else {
        text.append("├── ");
    }
    text.append(name.as_str());
    text.append(" (line ");
    let mut digits: Vec<char> = Vec::new();
    push_decimal(&mut digits, line);
    assert(digits@ =~= decimal(line as nat));
    let number = to_text(&digits);
    text.append(number.as_str());
    text.append(")");
    text
}

/// Draws the tree from `stack`, the next function on top. Names in
/// `visited` are passed over, and every function drawn joins `visited`.
pub fn draw(hm: &CallGraph, stack: Vec<Pending>, visited: &mut Vec<String>) -> (lines: Vec<String>)
    ensures
        texts(lines@) == rows_text(walk(hm@, stack_view(stack@), name_set(old(visited)@)).0),
        name_set(final(visited)@) == walk(hm@, stack_view(stack@), name_set(old(visited)@)).1,
{
    let mut stack = stack;
    let mut lines: Vec<String> = Vec::new();
    let ghost g = hm@;
    let ghost total = walk(g, stack_view(stack@), name_set(visited@));
    assert(texts(lines@) + rows_text(total.0) =~= rows_text(total.0));
    while stack.len() > 0
        invariant
            g == hm@,
            walk(g, stack_view(stack@), name_set(visited@)).1 == total.1,
            texts(lines@) + rows_text(walk(g, stack_view(stack@), name_set(visited@)).0)
                == rows_text(total.0),
        decreases unvisited(g, name_set(visited@)), stack@.len(),
    {
        let ghost before = stack_view(stack@);
        let ghost seen = name_set(visited@);
        let top = stack.pop().unwrap();
        assert(stack_view(stack@) =~= before.drop_last());
        assert(before.last() == top@);
        if !has_name(visited, &top.name) {
            match hm.position(&top.name) {
                Some(at) => {
                    let info = hm.info_at(at);
                    let ghost m = g[at as int];
                    proof {
                        lemma_index_of(g, at as int);
                        lemma_unvisited_decreases(g, seen, top.name@);
                    }
                    let ghost old_lines = texts(lines@);
                    let text = render_row(&top.prefix, top.is_last, &top.name, info.line_at_call);
                    lines.push(text);
                    let ghost old_visited = visited@;
                    visited.push(top.name.clone());
                    let mut below = top.prefix.clone();
                    if top.is_last {
                        below.append("    ");
                    } else {
                        below.append("│   ");
                    }
                    let count = info.callees.len();
                    let ghost base = stack_view(stack@);
                    let ghost kids = children_of(m, below@);
                    let mut j: usize = count;
                    assert(stack_view(stack@) =~= base + kids.take(0));
                    while j > 0
                        invariant
                            j <= count,
                            count == info.callees@.len(),
                            count == m.callees.len(),
                            info.model(m.name) == m,
                            kids == children_of(m, below@),
                            stack_view(stack@) == base + kids.take(count - j),
                        decreases j,
                    {
                        j -= 1;
                        let ghost sofar = stack_view(stack@);
                        let child = Pending {
                            name: info.callees[j].0.clone(),
                            prefix: below.clone(),
                            is_last: j == count - 1,
                        };
                        proof {
                            let k = count - 1 - j;
                            assert(m.callees[j as int].0 == info.callees@[j as int].0@);
                            assert(child@ == kids[k]);
                            assert(kids.take(k + 1) =~= kids.take(k).push(kids[k]));
                        }
                        stack.push(child);
                        assert(stack_view(stack@) =~= sofar.push(child@));
                    }
                    proof {
                        assert(kids.take(count as int) =~= kids);
                        assert(name_set(visited@) =~= seen.insert(top.name@)) by {
                            assert forall|x: Seq<char>| name_set(visited@).contains(x)
                                <==> seen.insert(top.name@).contains(x) by {
                                if name_set(visited@).contains(x) {
                                    let i = choose|i: int|
                                        0 <= i < visited@.len() && (#[trigger] visited@[i])@ == x;
                                    if i < old_visited.len() {
                                        assert(old_visited[i]@ == x);
                                    }
                                }
                                if seen.contains(x) {
                                    let i = choose|i: int|
                                        0 <= i < old_visited.len() && (#[trigger] old_visited[i])@
                                            == x;
                                    assert(visited@[i]@ == x);
                                }
                                if x == top.name@ {
                                    assert(visited@[old_visited.len() as int]@ == x);
                                }
                            }
                        }
                        let rest = walk(g, stack_view(stack@), name_set(visited@));
                        let here = walk(g, before, seen);
                        let row = TreeRow {
                            prefix: top.prefix@,
                            is_last: top.is_last,
                            name: top.name@,
                            line: m.line,
                        };
                        assert(here.0 == seq![row] + rest.0);
                        assert(rows_text(here.0) =~= seq![row_text(row)] + rows_text(rest.0));
                        assert(texts(lines@) =~= old_lines.push(row_text(row)));
                        assert(texts(lines@) + rows_text(rest.0) =~= old_lines + rows_text(here.0));
                    }
                },
                None => {},
            }
        }
    }
    lines
}

/// Draws the tree below `name`: the row of `name`, then the trees of its
/// callees in call order, each function once. Nothing is drawn when `name`
/// is among `visited` or is no function of the graph.
pub fn print_tree(
    name: &str,
    hm: &CallGraph,
    prefix: String,
    is_last: bool,
    visited: &mut Vec<String>,
) -> (lines: Vec<String>)
    ensures
        texts(lines@) == rows_text(
            walk(
                hm@,
                seq![PendingModel { name: name@, prefix: prefix@, is_last }],
                name_set(old(visited)@),
            ).0,
        ),
        name_set(final(visited)@) == walk(
            hm@,
            seq![PendingModel { name: name@, prefix: prefix@, is_last }],
            name_set(old(visited)@),
        ).1,
{
    let mut stack: Vec<Pending> = Vec::new();
    stack.push(Pending { name: name.to_owned(), prefix, is_last });
    assert(stack_view(stack@) =~= seq![PendingModel { name: name@, prefix: prefix@, is_last }]);
    draw(hm, stack, visited)
}

// ---------------------------------------------------------------------------
// What holds of every walk
// ---------------------------------------------------------------------------

/// `rows` hold a row for `name`.
pub open spec fn drawn(rows: Seq<TreeRow>, name: Seq<char>) -> bool {
    exists|k: int| 0 <= k < rows.len() && (#[trigger] rows[k]).name == name
}

/// No two of `rows` draw the same function.
pub open spec fn drawn_once(rows: Seq<TreeRow>) -> bool {
    forall|a: int, b: int|
        0 <= a < b < rows.len() ==> (#[trigger] rows[a]).name != (#[trigger] rows[b]).name
}

/// A walk ends, and draws every function at most once: it draws exactly the
/// functions that it visits for the first time, each with its definition
/// line. Nothing visited is forgotten, nothing but functions of the graph is
/// visited, and every pending function that the graph defines is visited in
/// the end.
pub proof fn lemma_walk_draws_once(
    g: Seq<FnModel>,
    stack: Seq<PendingModel>,
    visited: Set<Seq<char>>,
)
    requires
        graph_wf(g),
    ensures
        ({
            let (rows, after) = walk(g, stack, visited);
            &&& visited.subset_of(after)
            &&& drawn_once(rows)
            &&& forall|n: Seq<char>|
                #![trigger drawn(rows, n)]
                #![trigger after.contains(n)]
                drawn(rows, n) <==> after.contains(n) && !visited.contains(n)
            &&& forall|k: int|
                0 <= k < rows.len() ==> defines(g, (#[trigger] rows[k]).name) && rows[k].line
                    == g[index_of(g, rows[k].name)].line
            &&& forall|s: int|
                0 <= s < stack.len() && defines(g, (#[trigger] stack[s]).name) ==> after.contains(
                    stack[s].name,
                )
        }),
    decreases unvisited(g, visited), stack.len(),
{
    let (rows, after) = walk(g, stack, visited);
    if stack.len() > 0 {
        let top = stack.last();
        let rest = stack.drop_last();
        if visited.contains(top.name) || !defines(g, top.name) {
            lemma_walk_draws_once(g, rest, visited);
            assert forall|s: int|
                0 <= s < stack.len() && defines(g, (#[trigger] stack[s]).name) implies after.contains(
                stack[s].name,
            ) by {
                if s < rest.len() {
                    assert(rest[s] == stack[s]);
                }
            }
        } else {
            let m = g[index_of(g, top.name)];
            let next = rest + children_of(m, top.prefix + guide(top.is_last));
            let seen = visited.insert(top.name);
            lemma_unvisited_decreases(g, visited, top.name);
            lemma_walk_draws_once(g, next, seen);
            let below = walk(g, next, seen);
            let row = TreeRow {
                prefix: top.prefix,
                is_last: top.is_last,
                name: top.name,
                line: m.line,
            };
            assert(rows == seq![row] + below.0);
            assert(after == below.1);
            assert(seen.contains(top.name));
            assert forall|k: int| 0 < k < rows.len() implies (#[trigger] rows[k]) == below.0[k
                - 1] by {}
            assert forall|k: int| 0 < k < rows.len() implies (#[trigger] rows[k]).name
                != top.name by {
                assert(drawn(below.0, below.0[k - 1].name));
            }
            assert forall|a: int, b: int| 0 <= a < b < rows.len() implies (#[trigger] rows[a]).name
                != (#[trigger] rows[b]).name by {
                if a > 0 {
                    assert(below.0[a - 1].name != below.0[b - 1].name);
                }
            }
            assert forall|n: Seq<char>|
                #![trigger drawn(rows, n)]
                #![trigger after.contains(n)]
                drawn(rows, n) <==> after.contains(n) && !visited.contains(n) by {
                if drawn(rows, n) {
                    let k = choose|k: int| 0 <= k < rows.len() && (#[trigger] rows[k]).name == n;
                    if k > 0 {
                        assert(drawn(below.0, below.0[k - 1].name));
                    }
                }
                if after.contains(n) && !visited.contains(n) {
                    if n == top.name {
                        assert(rows[0].name == n);
                    } else {
                        assert(drawn(below.0, n));
                        let k = choose|k: int|
                            0 <= k < below.0.len() && (#[trigger] below.0[k]).name == n;
                        assert(rows[k + 1].name == n);
                    }
                }
            }
            assert forall|k: int| 0 <= k < rows.len() implies defines(g, (#[trigger] rows[k]).name)
                && rows[k].line == g[index_of(g, rows[k].name)].line by {
                if k > 0 {
                    assert(rows[k] == below.0[k - 1]);
                }
            }
            assert forall|s: int|
                0 <= s < stack.len() && defines(g, (#[trigger] stack[s]).name) implies after.contains(
                stack[s].name,
            ) by {
                if s < rest.len() {
                    assert(next[s] == stack[s]);
                }
            }
        }
    }
}

/// Walking a stack is walking what lies on top, then what lies below with
/// the names visited so far: the trees of several functions can be drawn
/// one after the other.
pub proof fn lemma_walk_in_turn(
    g: Seq<FnModel>,
    below: Seq<PendingModel>,
    above: Seq<PendingModel>,
    visited: Set<Seq<char>>,
)
    ensures
        ({
            let first = walk(g, above, visited);
            let then = walk(g, below, first.1);
            walk(g, below + above, visited) == (first.0 + then.0, then.1)
        }),
    decreases unvisited(g, visited), above.len(),
{
    let first = walk(g, above, visited);
    let then = walk(g, below, first.1);
    let whole = below + above;
    if above.len() == 0 {
        assert(whole =~= below);
        assert(first.0 + then.0 =~= then.0);
    } else {
        let top = above.last();
        let rest = above.drop_last();
        assert(whole.last() == top);
        assert(whole.drop_last() =~= below + rest);
        if visited.contains(top.name) || !defines(g, top.name) {
            lemma_walk_in_turn(g, below, rest, visited);
        } else {
            let m = g[index_of(g, top.name)];
            let kids = children_of(m, top.prefix + guide(top.is_last));
            lemma_unvisited_decreases(g, visited, top.name);
            lemma_walk_in_turn(g, below, rest + kids, visited.insert(top.name));
            assert((below + rest) + kids =~= below + (rest + kids));
            let inner = walk(g, rest + kids, visited.insert(top.name));
            let row = TreeRow {
                prefix: top.prefix,
                is_last: top.is_last,
                name: top.name,
                line: m.line,
            };
            assert((seq![row] + inner.0) + then.0 =~= seq![row] + (inner.0 + then.0));
        }
    }
}

} // verus!
