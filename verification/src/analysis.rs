//! Reading a call graph: its roots, its tree and its orphans.

use vstd::prelude::*;
use crate::graph::{calls, graph_wf, is_called, names_of, CallGraph, FnModel};
use crate::text::{
    comes_before, lemma_precedes_total, lemma_precedes_transitive, precedes, to_chars,
};

verus! {

/// The character sequences of the strings of `v`.
pub open spec fn texts(v: Seq<String>) -> Seq<Seq<char>> {
    Seq::new(v.len(), |i: int| v[i]@)
}

/// The names that occur in `v`.
pub open spec fn name_set(v: Seq<String>) -> Set<Seq<char>> {
    Set::new(|n: Seq<char>| exists|i: int| 0 <= i < v.len() && (#[trigger] v[i])@ == n)
}

/// Whether `name` occurs in `v`.
pub fn has_name(v: &Vec<String>, name: &String) -> (found: bool)
    ensures
        found == name_set(v@).contains(name@),
{
    let mut i: usize = 0;
    while i < v.len()
        invariant
            i <= v.len(),
            forall|k: int| 0 <= k < i ==> (#[trigger] v@[k])@ != name@,
        decreases v.len() - i,
    {
        if v[i] == *name {
            return true;
        }
        i += 1;
    }
    false
}

// ---------------------------------------------------------------------------
// Roots
// ---------------------------------------------------------------------------

/// The roots of `g`: the functions that no function of `g` calls, in
/// definition order.
pub open spec fn roots_of(g: Seq<FnModel>) -> Seq<Seq<char>> {
    names_of(g).filter(|n: Seq<char>| !is_called(g, n))
}

/// Whether some function of `g` calls `name`.
fn called_somewhere(g: &CallGraph, name: &String) -> (found: bool)
    ensures
        found == is_called(g@, name@),
{
    let n = g.len();
    let mut k: usize = 0;
    while k < n
        invariant
            k <= n,
            n == g@.len(),
            forall|i: int| 0 <= i < k ==> !calls(#[trigger] g@[i], name@),
        decreases n - k,
    {
        if g.info_at(k).has_callee(name) {
            assert(calls(g@[k as int], name@));
            return true;
        }
        k += 1;
    }
    false
}

/// The functions of `hm` that no function of `hm` calls, in definition
/// order.
pub fn find_roots(hm: &CallGraph) -> (roots: Vec<String>)
    ensures
        texts(roots@) == roots_of(hm@),
{
    let ghost g = hm@;
    let ghost uncalled = |n: Seq<char>| !is_called(g, n);
    let n = hm.len();
    let mut roots: Vec<String> = Vec::new();
    let mut i: usize = 0;
    proof {
        reveal(Seq::filter);
        assert(names_of(g).take(0) =~= Seq::<Seq<char>>::empty());
        assert(texts(roots@) =~= names_of(g).take(0).filter(uncalled));
    }
    while i < n
        invariant
            i <= n,
            n == g.len(),
            g == hm@,
            uncalled == (|n: Seq<char>| !is_called(g, n)),
            texts(roots@) == names_of(g).take(i as int).filter(uncalled),
        decreases n - i,
    {
        let name = hm.name_at(i);
        let ghost before = texts(roots@);
        proof {
            reveal(Seq::filter);
            let upto = names_of(g).take(i + 1);
            assert(upto.drop_last() =~= names_of(g).take(i as int));
            assert(upto.last() == name@);
        }
        if !called_somewhere(hm, name) {
            roots.push(name.clone());
            assert(texts(roots@) =~= before.push(name@));
        }
        i += 1;
    }
    assert(names_of(g).take(n as int) =~= names_of(g));
    roots
}

/// What a filter keeps: the elements of the sequence that pass it.
pub proof fn lemma_filter_keeps(s: Seq<Seq<char>>, keep: spec_fn(Seq<char>) -> bool, n: Seq<char>)
    ensures
        s.filter(keep).contains(n) <==> s.contains(n) && keep(n),
    decreases s.len(),
{
    reveal(Seq::filter);
    if s.len() > 0 {
        let front = s.drop_last();
        lemma_filter_keeps(front, keep, n);
        let kept = front.filter(keep);
        if s.filter(keep).contains(n) {
            let k = choose|k: int| 0 <= k < s.filter(keep).len() && s.filter(keep)[k] == n;
            if keep(s.last()) && k == kept.len() {
                assert(s[s.len() - 1] == n);
            } else {
                assert(kept[k] == n);
                assert(kept.contains(n));
                let j = choose|j: int| 0 <= j < front.len() && front[j] == n;
                assert(s[j] == n);
            }
        }
        if s.contains(n) && keep(n) {
            let j = choose|j: int| 0 <= j < s.len() && s[j] == n;
            if j == s.len() - 1 {
                assert(s.filter(keep)[kept.len() as int] == n);
            } else {
                assert(front[j] == n);
                assert(front.contains(n));
                let k = choose|k: int| 0 <= k < kept.len() && kept[k] == n;
                assert(s.filter(keep)[k] == n);
            }
        }
    }
}

/// The roots are the names less the callees: a name is a root exactly when
/// the graph defines it and no function of the graph calls it.
pub proof fn lemma_roots_are_names_less_callees(g: Seq<FnModel>)
    ensures
        roots_of(g).to_set() == names_of(g).to_set().difference(
            Set::new(|n: Seq<char>| is_called(g, n)),
        ),
{
    let uncalled = |n: Seq<char>| !is_called(g, n);
    let names = names_of(g);
    let lhs = roots_of(g).to_set();
    let rhs = names.to_set().difference(Set::new(|n: Seq<char>| is_called(g, n)));
    assert forall|n: Seq<char>| lhs.contains(n) <==> rhs.contains(n) by {
        lemma_filter_keeps(names, uncalled, n);
    }
    assert(lhs =~= rhs);
}

/// In a graph without calls every function is a root.
pub proof fn lemma_roots_of_call_free(g: Seq<FnModel>)
    requires
        forall|i: int| 0 <= i < g.len() ==> (#[trigger] g[i]).callees.len() == 0,
    ensures
        roots_of(g) == names_of(g),
{
    let uncalled = |n: Seq<char>| !is_called(g, n);
    let names = names_of(g);
    assert forall|k: int| 0 <= k < names.len() implies uncalled(#[trigger] names[k]) by {
        let n = names[k];
        if is_called(g, n) {
            let i = choose|i: int| 0 <= i < g.len() && calls(#[trigger] g[i], n);
            assert(g[i].callees.len() == 0);
        }
    }
    lemma_filter_all(names, uncalled);
}

/// A filter that every element passes keeps the sequence.
proof fn lemma_filter_all(s: Seq<Seq<char>>, keep: spec_fn(Seq<char>) -> bool)
    requires
        forall|k: int| 0 <= k < s.len() ==> keep(#[trigger] s[k]),
    ensures
        s.filter(keep) == s,
    decreases s.len(),
{
    reveal(Seq::filter);
    if s.len() > 0 {
        let front = s.drop_last();
        assert forall|k: int| 0 <= k < front.len() implies keep(#[trigger] front[k]) by {
            assert(front[k] == s[k]);
        }
        lemma_filter_all(front, keep);
        assert(keep(s[s.len() - 1]));
        assert(front.push(s.last()) =~= s);
    }
}

// ---------------------------------------------------------------------------
// Orphans
// ---------------------------------------------------------------------------

/// `report` lists the orphans of `g` for the names `visited`: the functions
/// that are not among `visited`, each once, with its one-based definition
/// line, in the order of their names.
pub open spec fn is_orphan_report(
    g: Seq<FnModel>,
    visited: Set<Seq<char>>,
    report: Seq<(Seq<char>, nat)>,
) -> bool {
    &&& forall|a: int, b: int|
        0 <= a < b < report.len() ==> precedes((#[trigger] report[a]).0, (#[trigger] report[b]).0)
    &&& forall|k: int|
        0 <= k < report.len() ==> !visited.contains((#[trigger] report[k]).0) && exists|i: int|
            0 <= i < g.len() && (#[trigger] g[i]).name == report[k].0 && report[k].1 == g[i].line
                + 1
    &&& forall|i: int|
        0 <= i < g.len() && !visited.contains(#[trigger] names_of(g)[i]) ==> exists|k: int|
            0 <= k < report.len() && #[trigger] report[k] == (g[i].name, g[i].line + 1)
}

/// The pairs of name and line that `v` holds.
pub open spec fn entries(v: Seq<(String, usize)>) -> Seq<(Seq<char>, nat)> {
    Seq::new(v.len(), |k: int| (v[k].0@, v[k].1 as nat))
}

/// An orphan report stays one when a visited function joins the graph.
proof fn lemma_orphan_skipped(
    g: Seq<FnModel>,
    i: int,
    seen: Set<Seq<char>>,
    report: Seq<(Seq<char>, nat)>,
)
    requires
        0 <= i < g.len(),
        is_orphan_report(g.take(i), seen, report),
        seen.contains(g[i].name),
    ensures
        is_orphan_report(g.take(i + 1), seen, report),
{
    let part = g.take(i);
    let next = g.take(i + 1);
    assert forall|k: int| 0 <= k < report.len() implies !seen.contains((#[trigger] report[k]).0)
        && exists|j: int|
        0 <= j < next.len() && (#[trigger] next[j]).name == report[k].0 && report[k].1
            == next[j].line + 1 by {
        let j = choose|j: int|
            0 <= j < part.len() && (#[trigger] part[j]).name == report[k].0 && report[k].1
                == part[j].line + 1;
        assert(next[j] == part[j]);
    }
    assert forall|j: int|
        0 <= j < next.len() && !seen.contains(#[trigger] names_of(next)[j]) implies exists|k: int|
        0 <= k < report.len() && #[trigger] report[k] == (next[j].name, next[j].line + 1) by {
        assert(j != i);
        assert(part[j] == next[j]);
        assert(names_of(part)[j] == part[j].name);
    }
}

/// Where the report is in order and `name` goes in at `p`, behind the names
/// that precede it and before the first that does not, the order holds.
proof fn lemma_insert_keeps_order(report: Seq<(Seq<char>, nat)>, p: int, item: (Seq<char>, nat))
    requires
        0 <= p <= report.len(),
        forall|a: int, b: int|
            0 <= a < b < report.len() ==> precedes(
                (#[trigger] report[a]).0,
                (#[trigger] report[b]).0,
            ),
        forall|k: int| 0 <= k < p ==> precedes((#[trigger] report[k]).0, item.0),
        p < report.len() ==> !precedes(report[p].0, item.0),
        forall|k: int| 0 <= k < report.len() ==> (#[trigger] report[k]).0 != item.0,
    ensures
        forall|a: int, b: int|
            0 <= a < b < report.len() + 1 ==> precedes(
                (#[trigger] report.insert(p, item)[a]).0,
                (#[trigger] report.insert(p, item)[b]).0,
            ),
{
    let after = report.insert(p, item);
    assert forall|k: int| p <= k < report.len() implies precedes(item.0, (#[trigger] report[k]).0) by {
        lemma_precedes_total(report[p].0, item.0);
        assert(report[p].0 != item.0);
        if k > p {
            lemma_precedes_transitive(item.0, report[p].0, report[k].0);
        }
    }
    assert forall|a: int, b: int| 0 <= a < b < report.len() + 1 implies precedes(
        (#[trigger] after[a]).0,
        (#[trigger] after[b]).0,
    ) by {
        let x = if a < p { a } else { a - 1 };
        let y = if b < p { b } else { b - 1 };
        if a == p {
            assert(after[b] == report[y]);
        } else if b == p {
            assert(after[a] == report[x]);
        } else {
            assert(after[a] == report[x]);
            assert(after[b] == report[y]);
        }
    }
}

/// An orphan report takes an unvisited function in at its place in the
/// order of names.
proof fn lemma_orphan_added(
    g: Seq<FnModel>,
    i: int,
    seen: Set<Seq<char>>,
    report: Seq<(Seq<char>, nat)>,
    p: int,
)
    requires
        graph_wf(g),
        0 <= i < g.len(),
        is_orphan_report(g.take(i), seen, report),
        !seen.contains(g[i].name),
        0 <= p <= report.len(),
        forall|k: int| 0 <= k < p ==> precedes((#[trigger] report[k]).0, g[i].name),
        p < report.len() ==> !precedes(report[p].0, g[i].name),
    ensures
        is_orphan_report(g.take(i + 1), seen, report.insert(p, (g[i].name, g[i].line + 1))),
{
    let part = g.take(i);
    let next = g.take(i + 1);
    let item = (g[i].name, g[i].line + 1);
    let after = report.insert(p, item);
    assert forall|k: int| 0 <= k < report.len() implies (#[trigger] report[k]).0 != item.0 by {
        let j = choose|j: int| 0 <= j < part.len() && (#[trigger] part[j]).name == report[k].0;
        assert(g[j].name != g[i].name);
    }
    lemma_insert_keeps_order(report, p, item);
    assert forall|k: int| 0 <= k < after.len() implies !seen.contains((#[trigger] after[k]).0)
        && exists|j: int|
        0 <= j < next.len() && (#[trigger] next[j]).name == after[k].0 && after[k].1
            == next[j].line + 1 by {
        if k == p {
            assert(next[i].name == after[k].0);
        } else {
            let o = if k < p { k } else { k - 1 };
            assert(after[k] == report[o]);
            let j = choose|j: int|
                0 <= j < part.len() && (#[trigger] part[j]).name == report[o].0 && report[o].1
                    == part[j].line + 1;
            assert(next[j] == part[j]);
        }
    }
    assert forall|j: int|
        0 <= j < next.len() && !seen.contains(#[trigger] names_of(next)[j]) implies exists|k: int|
        0 <= k < after.len() && #[trigger] after[k] == (next[j].name, next[j].line + 1) by {
        if j == i {
            assert(after[p] == item);
        } else {
            assert(part[j] == next[j]);
            assert(names_of(part)[j] == part[j].name);
            let o = choose|o: int|
                0 <= o < report.len() && #[trigger] report[o] == (part[j].name, part[j].line + 1);
            if o < p {
                assert(after[o] == report[o]);
            } else {
                assert(after[o + 1] == report[o]);
            }
        }
    }
}

/// The functions of `g` that are not among `visited`, in the order of their
/// names, each with its one-based definition line.
pub fn find_orphans(g: &CallGraph, visited: &Vec<String>) -> (orphans: Vec<(String, usize)>)
    ensures
        is_orphan_report(g@, name_set(visited@), entries(orphans@)),
{
    let n = g.len();
    let ghost seen = name_set(visited@);
    let mut keys: Vec<Vec<char>> = Vec::new();
    let mut orphans: Vec<(String, usize)> = Vec::new();
    let mut i: usize = 0;
    while i < n
        invariant
            i <= n,
            n == g@.len(),
            graph_wf(g@),
            seen == name_set(visited@),
            keys@.len() == orphans@.len(),
            forall|k: int| 0 <= k < keys@.len() ==> (#[trigger] keys@[k])@ == orphans@[k].0@,
            is_orphan_report(g@.take(i as int), seen, entries(orphans@)),
        decreases n - i,
    {
        let name = g.name_at(i);
        let ghost before = entries(orphans@);
        let ghost old_keys = keys@;
        if !has_name(visited, name) {
            let key = to_chars(name.as_str());
            let mut p: usize = 0;
            while p < keys.len() && comes_before(&keys[p], &key)
                invariant
                    p <= keys@.len(),
                    forall|k: int| 0 <= k < p ==> precedes((#[trigger] keys@[k])@, key@),
                decreases keys@.len() - p,
            {
                p += 1;
            }
            let info = g.info_at(i);
            let line: usize = info.line_at_call + 1;
            keys.insert(p, key);
            orphans.insert(p, (name.clone(), line));
            proof {
                assert(entries(orphans@) =~= before.insert(p as int, (name@, line as nat)));
                assert forall|k: int| 0 <= k < keys@.len() implies (#[trigger] keys@[k])@
                    == orphans@[k].0@ by {
                    if k < p {
                        assert(keys@[k] == old_keys[k]);
                    } else if k > p {
                        assert(keys@[k] == old_keys[k - 1]);
                    }
                }
                assert forall|k: int| 0 <= k < p implies precedes(
                    (#[trigger] before[k]).0,
                    name@,
                ) by {
                    assert(old_keys[k]@ == before[k].0);
                }
                if p < before.len() {
                    assert(old_keys[p as int]@ == before[p as int].0);
                }
                lemma_orphan_added(g@, i as int, seen, before, p as int);
            }
        } else {
            proof {
                lemma_orphan_skipped(g@, i as int, seen, before);
            }
        }
        i += 1;
    }
    assert(g@.take(n as int) =~= g@);
    orphans
}

} // verus!
