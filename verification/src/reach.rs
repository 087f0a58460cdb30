//! What a walk reaches: the functions to which calls lead from the pending
//! functions, through functions not visited before.

use vstd::prelude::*;
use crate::graph::{calls, defines, graph_wf, index_of, FnModel};
use crate::tree::{children_of, guide, lemma_unvisited_decreases, unvisited, walk, PendingModel};

verus! {

/// `path` is a chain of calls through functions of `g` that are not among
/// `avoid`: each function on it is defined, is not avoided, and calls the
/// next.
pub open spec fn is_open_path(g: Seq<FnModel>, path: Seq<Seq<char>>, avoid: Set<Seq<char>>) -> bool
    decreases path.len(),
{
    if path.len() == 0 {
        false
    } else {
        &&& defines(g, path[0])
        &&& !avoid.contains(path[0])
        &&& path.len() > 1 ==> calls(g[index_of(g, path[0])], path[1]) && is_open_path(
            g,
            path.skip(1),
            avoid,
        )
    }
}

/// `path` leads from `start` to `name` without touching `avoid`.
pub open spec fn leads(
    g: Seq<FnModel>,
    path: Seq<Seq<char>>,
    avoid: Set<Seq<char>>,
    start: Seq<char>,
    name: Seq<char>,
) -> bool {
    is_open_path(g, path, avoid) && path[0] == start && path.last() == name
}

/// Calls lead from a function of `stack` to `name` without touching `avoid`.
pub open spec fn reachable_from(
    g: Seq<FnModel>,
    stack: Seq<PendingModel>,
    avoid: Set<Seq<char>>,
    name: Seq<char>,
) -> bool {
    exists|s: int, path: Seq<Seq<char>>|
        0 <= s < stack.len() && #[trigger] leads(g, path, avoid, stack[s].name, name)
}

/// A path that avoids more avoids less.
proof fn lemma_avoid_less(
    g: Seq<FnModel>,
    path: Seq<Seq<char>>,
    avoid: Set<Seq<char>>,
    more: Seq<char>,
)
    requires
        is_open_path(g, path, avoid.insert(more)),
    ensures
        is_open_path(g, path, avoid),
    decreases path.len(),
{
    if path.len() > 1 {
        lemma_avoid_less(g, path.skip(1), avoid, more);
    }
}

/// A path that does not end at `via` either never touches `via`, or has an
/// end piece that starts at a callee of `via` and never touches it.
proof fn lemma_past(
    g: Seq<FnModel>,
    path: Seq<Seq<char>>,
    avoid: Set<Seq<char>>,
    via: Seq<char>,
) -> (piece: Seq<Seq<char>>)
    requires
        is_open_path(g, path, avoid),
        path.last() != via,
    ensures
        is_open_path(g, piece, avoid.insert(via)),
        piece.last() == path.last(),
        piece == path || calls(g[index_of(g, via)], piece[0]),
    decreases path.len(),
{
    if path.len() == 1 {
        path
    } else {
        let tail = path.skip(1);
        assert(tail.last() == path.last());
        let piece = lemma_past(g, tail, avoid, via);
        if piece == tail {
            if path[0] == via {
                assert(tail[0] == path[1]);
                tail
            } else {
                assert(path.skip(1) == piece);
                path
            }
        } else {
            piece
        }
    }
}

/// A walk visits, beside the names visited before, exactly the functions to
/// which calls lead from the pending functions without touching a name
/// visited before.
pub proof fn lemma_walk_visits_reachable(
    g: Seq<FnModel>,
    stack: Seq<PendingModel>,
    visited: Set<Seq<char>>,
)
    requires
        graph_wf(g),
    ensures
        forall|n: Seq<char>|
            #![trigger walk(g, stack, visited).1.contains(n)]
            #![trigger reachable_from(g, stack, visited, n)]
            walk(g, stack, visited).1.contains(n) <==> visited.contains(n) || reachable_from(
                g,
                stack,
                visited,
                n,
            ),
    decreases unvisited(g, visited), stack.len(),
{
    let after = walk(g, stack, visited).1;
    if stack.len() == 0 {
    } else {
        let top = stack.last();
        let rest = stack.drop_last();
        if visited.contains(top.name) || !defines(g, top.name) {
            lemma_walk_visits_reachable(g, rest, visited);
            assert forall|n: Seq<char>|
                #![trigger after.contains(n)]
                #![trigger reachable_from(g, stack, visited, n)]
                after.contains(n) <==> visited.contains(n) || reachable_from(
                    g,
                    stack,
                    visited,
                    n,
                ) by {
                if reachable_from(g, rest, visited, n) {
                    let (s, path) = choose|s: int, path: Seq<Seq<char>>|
                        0 <= s < rest.len() && #[trigger] leads(g, path, visited, rest[s].name, n);
                    assert(stack[s] == rest[s]);
                    assert(leads(g, path, visited, stack[s].name, n));
                }
                if reachable_from(g, stack, visited, n) {
                    let (s, path) = choose|s: int, path: Seq<Seq<char>>|
                        0 <= s < stack.len() && #[trigger] leads(
                            g,
                            path,
                            visited,
                            stack[s].name,
                            n,
                        );
                    assert(s < rest.len());
                    assert(stack[s] == rest[s]);
                    assert(leads(g, path, visited, rest[s].name, n));
                }
            }
        } else {
            let t = top.name;
            let m = g[index_of(g, t)];
            let kids = children_of(m, top.prefix + guide(top.is_last));
            let next = rest + kids;
            let seen = visited.insert(t);
            lemma_unvisited_decreases(g, visited, t);
            lemma_walk_visits_reachable(g, next, seen);
            assert(after == walk(g, next, seen).1);
            assert forall|n: Seq<char>|
                #![trigger after.contains(n)]
                #![trigger reachable_from(g, stack, visited, n)]
                after.contains(n) <==> visited.contains(n) || reachable_from(
                    g,
                    stack,
                    visited,
                    n,
                ) by {
                let here = stack.len() - 1;
                if after.contains(n) && !visited.contains(n) {
                    if n == t {
                        let path = seq![t];
                        assert(leads(g, path, visited, stack[here].name, n));
                    } else {
                        assert(reachable_from(g, next, seen, n));
                        let (s, path) = choose|s: int, path: Seq<Seq<char>>|
                            0 <= s < next.len() && #[trigger] leads(g, path, seen, next[s].name, n);
                        lemma_avoid_less(g, path, visited, t);
                        if s < rest.len() {
                            assert(stack[s] == next[s]);
                            assert(leads(g, path, visited, stack[s].name, n));
                        } else {
                            let j = s - rest.len();
                            assert(next[s] == kids[j]);
                            let c = m.callees[m.callees.len() - 1 - j];
                            assert(kids[j].name == c.0);
                            assert(calls(m, path[0]));
                            let longer = seq![t] + path;
                            assert(longer.skip(1) =~= path);
                            assert(longer[1] == path[0]);
                            assert(is_open_path(g, longer, visited));
                            assert(leads(g, longer, visited, stack[here].name, n));
                        }
                    }
                }
                if reachable_from(g, stack, visited, n) {
                    if n == t {
                        assert(seen.contains(n));
                    } else {
                        let (s, path) = choose|s: int, path: Seq<Seq<char>>|
                            0 <= s < stack.len() && #[trigger] leads(
                                g,
                                path,
                                visited,
                                stack[s].name,
                                n,
                            );
                        let piece = lemma_past(g, path, visited, t);
                        if piece == path {
                            assert(path[0] != t);
                            assert(s < rest.len());
                            assert(next[s] == stack[s]);
                            assert(leads(g, piece, seen, next[s].name, n));
                        } else {
                            let j = choose|j: int|
                                0 <= j < m.callees.len() && (#[trigger] m.callees[j]).0 == piece[0];
                            let k = m.callees.len() - 1 - j;
                            assert(kids[k].name == piece[0]);
                            assert(next[rest.len() + k] == kids[k]);
                            assert(leads(g, piece, seen, next[rest.len() + k].name, n));
                        }
                        assert(reachable_from(g, next, seen, n));
                    }
                }
                if visited.contains(n) {
                    assert(seen.contains(n));
                }
            }
        }
    }
}

} // verus!
