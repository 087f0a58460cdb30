//! The whole reading of a graph: its roots, the trees below them, what the
//! trees visit, and what they leave out.

use vstd::prelude::*;
use crate::analysis::{
    entries, find_orphans, find_roots, is_orphan_report, lemma_filter_keeps, name_set, roots_of,
    texts,
};
use crate::graph::{graph_wf, is_called, names_of, CallGraph, FnModel};
use crate::reach::{lemma_walk_visits_reachable, reachable_from};
use crate::text::{lemma_precedes_total, lemma_precedes_transitive, precedes};
use crate::tree::{
    draw, lemma_walk_draws_once, rows_text, stack_view, walk, Pending, PendingModel,
};

verus! {

/// What a graph shows.
#[derive(Debug)]
pub struct Report {
    /// The functions that nothing calls, in definition order.
    pub roots: Vec<String>,
    /// The rows of the trees below the roots.
    pub tree: Vec<String>,
    /// The functions that the trees show, in the order of their rows.
    pub visited: Vec<String>,
    /// The functions that no tree shows, by name, with one-based lines.
    pub orphans: Vec<(String, usize)>,
}

/// The stack from which the trees of `roots` are drawn: the first root on
/// top, no prefix, and the last root marked as last.
pub open spec fn root_stack(roots: Seq<Seq<char>>) -> Seq<PendingModel> {
    Seq::new(
        roots.len(),
        |j: int|
            PendingModel {
                name: roots[roots.len() - 1 - j],
                prefix: Seq::empty(),
                is_last: j == 0,
            },
    )
}

/// Reads `hm`: finds the roots, draws the tree of each in turn, every
/// function once, and reports the functions that no tree reached.
pub fn analyze(hm: &CallGraph) -> (report: Report)
    ensures
        texts(report.roots@) == roots_of(hm@),
        texts(report.tree@) == rows_text(walk(hm@, root_stack(roots_of(hm@)), Set::empty()).0),
        name_set(report.visited@) == walk(hm@, root_stack(roots_of(hm@)), Set::empty()).1,
        is_orphan_report(hm@, name_set(report.visited@), entries(report.orphans@)),
{
    let roots = find_roots(hm);
    let count = roots.len();
    let ghost wanted = root_stack(roots_of(hm@));
    let mut stack: Vec<Pending> = Vec::new();
    let mut j: usize = count;
    assert(stack_view(stack@) =~= wanted.take(0));
    while j > 0
        invariant
            j <= count,
            count == roots@.len(),
            texts(roots@) == roots_of(hm@),
            wanted == root_stack(roots_of(hm@)),
            stack_view(stack@) == wanted.take(count - j),
        decreases j,
    {
        j -= 1;
        let ghost sofar = stack_view(stack@);
        let pending = Pending {
            name: roots[j].clone(),
            prefix: String::new(),
            is_last: j == count - 1,
        };
        proof {
            let k = count - 1 - j;
            assert(texts(roots@)[j as int] == roots@[j as int]@);
            assert(pending@ == wanted[k]);
            assert(wanted.take(k + 1) =~= wanted.take(k).push(wanted[k]));
        }
        stack.push(pending);
        assert(stack_view(stack@) =~= sofar.push(pending@));
    }
    assert(wanted.take(count as int) =~= wanted);
    let mut visited: Vec<String> = Vec::new();
    assert(name_set(visited@) =~= Set::<Seq<char>>::empty());
    let tree = draw(hm, stack, &mut visited);
    let orphans = find_orphans(hm, &visited);
    Report { roots, tree, visited, orphans }
}

/// No function is dropped: each function of the graph is among the visited
/// names or in the orphan report.
pub proof fn lemma_visited_or_orphan(
    g: Seq<FnModel>,
    visited: Set<Seq<char>>,
    report: Seq<(Seq<char>, nat)>,
    i: int,
)
    requires
        is_orphan_report(g, visited, report),
        0 <= i < g.len(),
    ensures
        visited.contains(g[i].name) != (exists|k: int|
            0 <= k < report.len() && (#[trigger] report[k]).0 == g[i].name),
{
    assert(names_of(g)[i] == g[i].name);
    if !visited.contains(g[i].name) {
        let k = choose|k: int|
            0 <= k < report.len() && #[trigger] report[k] == (g[i].name, g[i].line + 1);
        assert(report[k].0 == g[i].name);
    }
}

/// Every root is drawn: the walk from the roots visits each of them.
pub proof fn lemma_roots_are_visited(g: Seq<FnModel>, k: int)
    requires
        graph_wf(g),
        0 <= k < roots_of(g).len(),
    ensures
        walk(g, root_stack(roots_of(g)), Set::empty()).1.contains(roots_of(g)[k]),
{
    let roots = roots_of(g);
    let stack = root_stack(roots);
    let root = roots[k];
    lemma_filter_keeps(names_of(g), |n: Seq<char>| !is_called(g, n), root);
    assert(roots.contains(root));
    let i = choose|i: int| 0 <= i < names_of(g).len() && names_of(g)[i] == root;
    assert(g[i].name == root);
    lemma_walk_draws_once(g, stack, Set::empty());
    assert(stack[roots.len() - 1 - k].name == root);
}

/// Sequences in strict order of names that hold the same pairs are one
/// sequence.
proof fn lemma_same_pairs_same_order(x: Seq<(Seq<char>, nat)>, y: Seq<(Seq<char>, nat)>)
    requires
        forall|a: int, b: int|
            0 <= a < b < x.len() ==> precedes((#[trigger] x[a]).0, (#[trigger] x[b]).0),
        forall|a: int, b: int|
            0 <= a < b < y.len() ==> precedes((#[trigger] y[a]).0, (#[trigger] y[b]).0),
        forall|k: int| 0 <= k < x.len() ==> y.contains(#[trigger] x[k]),
        forall|k: int| 0 <= k < y.len() ==> x.contains(#[trigger] y[k]),
    ensures
        x == y,
    decreases x.len(),
{
    if x.len() == 0 {
        if y.len() > 0 {
            assert(x.contains(y[0]));
        }
        assert(x =~= y);
    } else {
        let xl = x[x.len() - 1];
        assert(y.contains(xl));
        let j = choose|j: int| 0 <= j < y.len() && y[j] == xl;
        let yl = y[y.len() - 1];
        assert(x.contains(yl));
        let i = choose|i: int| 0 <= i < x.len() && x[i] == yl;
        lemma_precedes_total(xl.0, xl.0);
        lemma_precedes_total(yl.0, yl.0);
        if i < x.len() - 1 {
            assert(precedes(x[i].0, xl.0));
            if j < y.len() - 1 {
                assert(precedes(y[j].0, yl.0));
                lemma_precedes_transitive(yl.0, xl.0, yl.0);
            }
        }
        assert(xl == yl);
        let xf = x.drop_last();
        let yf = y.drop_last();
        assert forall|k: int| 0 <= k < xf.len() implies yf.contains(#[trigger] xf[k]) by {
            assert(xf[k] == x[k]);
            assert(y.contains(x[k]));
            let o = choose|o: int| 0 <= o < y.len() && y[o] == x[k];
            assert(precedes(x[k].0, xl.0));
            assert(o < y.len() - 1);
            assert(yf[o] == xf[k]);
        }
        assert forall|k: int| 0 <= k < yf.len() implies xf.contains(#[trigger] yf[k]) by {
            assert(yf[k] == y[k]);
            assert(x.contains(y[k]));
            let o = choose|o: int| 0 <= o < x.len() && x[o] == y[k];
            assert(precedes(y[k].0, yl.0));
            assert(o < x.len() - 1);
            assert(xf[o] == yf[k]);
        }
        assert forall|a: int, b: int| 0 <= a < b < xf.len() implies precedes(
            (#[trigger] xf[a]).0,
            (#[trigger] xf[b]).0,
        ) by {
            assert(xf[a] == x[a] && xf[b] == x[b]);
        }
        assert forall|a: int, b: int| 0 <= a < b < yf.len() implies precedes(
            (#[trigger] yf[a]).0,
            (#[trigger] yf[b]).0,
        ) by {
            assert(yf[a] == y[a] && yf[b] == y[b]);
        }
        lemma_same_pairs_same_order(xf, yf);
        assert(x =~= xf.push(xl));
        assert(y =~= yf.push(yl));
    }
}

/// A graph and the names visited have one orphan report.
pub proof fn lemma_one_orphan_report(
    g: Seq<FnModel>,
    visited: Set<Seq<char>>,
    x: Seq<(Seq<char>, nat)>,
    y: Seq<(Seq<char>, nat)>,
)
    requires
        is_orphan_report(g, visited, x),
        is_orphan_report(g, visited, y),
    ensures
        x == y,
{
    assert forall|k: int| 0 <= k < x.len() implies y.contains(#[trigger] x[k]) by {
        let i = choose|i: int|
            0 <= i < g.len() && (#[trigger] g[i]).name == x[k].0 && x[k].1 == g[i].line + 1;
        assert(names_of(g)[i] == g[i].name);
        let o = choose|o: int| 0 <= o < y.len() && #[trigger] y[o] == (g[i].name, g[i].line + 1);
        assert(y[o] == x[k]);
    }
    assert forall|k: int| 0 <= k < y.len() implies x.contains(#[trigger] y[k]) by {
        let i = choose|i: int|
            0 <= i < g.len() && (#[trigger] g[i]).name == y[k].0 && y[k].1 == g[i].line + 1;
        assert(names_of(g)[i] == g[i].name);
        let o = choose|o: int| 0 <= o < x.len() && #[trigger] x[o] == (g[i].name, g[i].line + 1);
        assert(x[o] == y[k]);
    }
    lemma_same_pairs_same_order(x, y);
}

/// The orphans are the functions that no root reaches: a function is in the
/// orphan report of the walk from the roots exactly when no chain of calls
/// leads to it from a root.
pub proof fn lemma_orphans_are_unreached(g: Seq<FnModel>, report: Seq<(Seq<char>, nat)>, i: int)
    requires
        graph_wf(g),
        is_orphan_report(g, walk(g, root_stack(roots_of(g)), Set::empty()).1, report),
        0 <= i < g.len(),
    ensures
        (exists|k: int| 0 <= k < report.len() && (#[trigger] report[k]).0 == g[i].name)
            <==> !reachable_from(g, root_stack(roots_of(g)), Set::empty(), g[i].name),
{
    let stack = root_stack(roots_of(g));
    let visited = walk(g, stack, Set::empty()).1;
    lemma_visited_or_orphan(g, visited, report, i);
    lemma_walk_visits_reachable(g, stack, Set::empty());
    assert(visited.contains(g[i].name) <==> reachable_from(g, stack, Set::empty(), g[i].name));
}

} // verus!
