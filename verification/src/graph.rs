//! The call graph: functions in order of first definition, each with the
//! functions it calls in order of discovery.
//!
//! The model of a graph is a `Seq<FnModel>`. A `CallGraph` always holds a
//! well-formed one: no name is defined twice, no caller lists a callee twice,
//! and every definition line has a one-based successor that fits `usize`.

use vstd::prelude::*;

verus! {

/// Where a function is defined and what it calls.
#[derive(Debug)]
pub struct FnInfo {
    /// Zero-based line of the first definition.
    pub line_at_call: usize,
    /// Callee name and zero-based line of the first call, in discovery order.
    pub callees: Vec<(String, usize)>,
}

/// Model of one graph entry.
pub struct FnModel {
    pub name: Seq<char>,
    pub line: nat,
    pub callees: Seq<(Seq<char>, nat)>,
}

/// `name` is among the callees `cs`.
pub open spec fn lists(cs: Seq<(Seq<char>, nat)>, name: Seq<char>) -> bool {
    exists|j: int| 0 <= j < cs.len() && (#[trigger] cs[j]).0 == name
}

/// No name occurs twice among the callees `cs`.
pub open spec fn distinct_callees(cs: Seq<(Seq<char>, nat)>) -> bool {
    forall|j: int, k: int| 0 <= j < k < cs.len() ==> (#[trigger] cs[j]).0 != (#[trigger] cs[k]).0
}

/// The function `m` calls `name`.
pub open spec fn calls(m: FnModel, name: Seq<char>) -> bool {
    lists(m.callees, name)
}

/// The names that `g` defines, in definition order.
pub open spec fn names_of(g: Seq<FnModel>) -> Seq<Seq<char>> {
    Seq::new(g.len(), |i: int| g[i].name)
}

/// `g` has an entry for `name`.
pub open spec fn defines(g: Seq<FnModel>, name: Seq<char>) -> bool {
    exists|i: int| 0 <= i < g.len() && (#[trigger] g[i]).name == name
}

/// Position of the entry for `name`, where `g` defines `name`.
pub open spec fn index_of(g: Seq<FnModel>, name: Seq<char>) -> int {
    choose|i: int| 0 <= i < g.len() && (#[trigger] g[i]).name == name
}

/// In a well-formed graph the entry of a name is the one entry with that name.
pub proof fn lemma_index_of(g: Seq<FnModel>, i: int)
    requires
        graph_wf(g),
        0 <= i < g.len(),
    ensures
        index_of(g, g[i].name) == i,
{
    let name = g[i].name;
    let c = index_of(g, name);
    assert(0 <= c < g.len() && g[c].name == name);
    if c < i {
        assert(g[c].name != g[i].name);
    } else if i < c {
        assert(g[i].name != g[c].name);
    }
}

/// Some function of `g` calls `name`.
pub open spec fn is_called(g: Seq<FnModel>, name: Seq<char>) -> bool {
    exists|i: int| 0 <= i < g.len() && calls(#[trigger] g[i], name)
}

/// An entry lists no callee twice and its one-based line fits `usize`.
pub open spec fn entry_wf(m: FnModel) -> bool {
    &&& m.line < usize::MAX
    &&& distinct_callees(m.callees)
}

/// No name is defined twice and every entry is well formed.
pub open spec fn graph_wf(g: Seq<FnModel>) -> bool {
    &&& forall|i: int, j: int|
        0 <= i < j < g.len() ==> (#[trigger] g[i]).name != (#[trigger] g[j]).name
    &&& forall|i: int| 0 <= i < g.len() ==> entry_wf(#[trigger] g[i])
}

impl FnInfo {
    /// The callees as pairs of name and line.
    pub open spec fn callee_seq(&self) -> Seq<(Seq<char>, nat)> {
        Seq::new(self.callees@.len(), |j: int| (self.callees@[j].0@, self.callees@[j].1 as nat))
    }

    /// The entry that this record makes under `name`.
    pub open spec fn model(&self, name: Seq<char>) -> FnModel {
        FnModel { name, line: self.line_at_call as nat, callees: self.callee_seq() }
    }

    /// A record for a function defined at `line` that calls nothing yet.
    pub fn new(line: usize) -> (info: FnInfo)
        ensures
            info.line_at_call == line,
            info.callee_seq() == Seq::<(Seq<char>, nat)>::empty(),
    {
        let info = FnInfo { line_at_call: line, callees: Vec::new() };
        assert(info.callee_seq() =~= Seq::<(Seq<char>, nat)>::empty());
        info
    }

    /// Whether `name` is among the first `upto` callees.
    fn lists_before(&self, name: &String, upto: usize) -> (found: bool)
        requires
            upto <= self.callees@.len(),
        ensures
            found == exists|j: int| 0 <= j < upto && (#[trigger] self.callee_seq()[j]).0 == name@,
    {
        let mut j: usize = 0;
        while j < upto
            invariant
                j <= upto <= self.callees@.len(),
                forall|k: int| 0 <= k < j ==> (#[trigger] self.callee_seq()[k]).0 != name@,
            decreases upto - j,
        {
            if self.callees[j].0 == *name {
                assert(self.callee_seq()[j as int].0 == name@);
                return true;
            }
            j += 1;
        }
        false
    }

    /// Whether this function calls `name`.
    pub fn has_callee(&self, name: &String) -> (found: bool)
        ensures
            found == lists(self.callee_seq(), name@),
    {
        self.lists_before(name, self.callees.len())
    }

    /// Whether the record is well formed: no callee twice, and a definition
    /// line below `usize::MAX`.
    pub fn is_valid(&self) -> (ok: bool)
        ensures
            ok == (self.line_at_call < usize::MAX && distinct_callees(self.callee_seq())),
    {
        if self.line_at_call == usize::MAX {
            return false;
        }
        let mut k: usize = 0;
        while k < self.callees.len()
            invariant
                k <= self.callees@.len(),
                forall|a: int, b: int|
                    0 <= a < b < k ==> (#[trigger] self.callee_seq()[a]).0 != (
                    #[trigger] self.callee_seq()[b]).0,
            decreases self.callees@.len() - k,
        {
            assert(self.callee_seq()[k as int].0 == self.callees@[k as int].0@);
            if self.lists_before(&self.callees[k].0, k) {
                return false;
            }
            k += 1;
        }
        true
    }
}

impl Clone for FnInfo {
    fn clone(&self) -> (copy: Self)
        ensures
            copy.line_at_call == self.line_at_call,
            copy.callee_seq() == self.callee_seq(),
    {
        let mut callees: Vec<(String, usize)> = Vec::new();
        let mut j: usize = 0;
        while j < self.callees.len()
            invariant
                j <= self.callees@.len(),
                callees@.len() == j,
                forall|k: int|
                    0 <= k < j ==> (#[trigger] callees@[k]).0@ == self.callees@[k].0@
                        && callees@[k].1 == self.callees@[k].1,
            decreases self.callees@.len() - j,
        {
            callees.push((self.callees[j].0.clone(), self.callees[j].1));
            j += 1;
        }
        let copy = FnInfo { line_at_call: self.line_at_call, callees };
        assert(copy.callee_seq() =~= self.callee_seq());
        copy
    }
}

/// One function of the graph.
#[derive(Debug)]
pub struct FnEntry {
    pub name: String,
    pub info: FnInfo,
}

/// The functions of one file, keyed by name, in order of first definition.
#[derive(Debug)]
pub struct CallGraph {
    entries: Vec<FnEntry>,
}

impl View for CallGraph {
    type V = Seq<FnModel>;

    closed spec fn view(&self) -> Seq<FnModel> {
        Seq::new(self.entries@.len(), |i: int| self.entries@[i].info.model(self.entries@[i].name@))
    }
}

impl CallGraph {
    #[verifier::type_invariant]
    closed spec fn well_formed(self) -> bool {
        graph_wf(self@)
    }

    /// A graph without functions.
    pub fn new() -> (g: CallGraph)
        ensures
            g@ == Seq::<FnModel>::empty(),
    {
        let g = CallGraph { entries: Vec::new() };
        assert(g@ =~= Seq::<FnModel>::empty());
        g
    }

    /// Number of functions. Every graph that a program holds is well formed.
    pub fn len(&self) -> (n: usize)
        ensures
            n == self@.len(),
            graph_wf(self@),
    {
        proof {
            use_type_invariant(self);
        }
        self.entries.len()
    }

    /// Name of the `i`-th function.
    pub fn name_at(&self, i: usize) -> (name: &String)
        requires
            i < self@.len(),
        ensures
            name@ == self@[i as int].name,
    {
        &self.entries[i].name
    }

    /// Record of the `i`-th function.
    pub fn info_at(&self, i: usize) -> (info: &FnInfo)
        requires
            i < self@.len(),
        ensures
            info.model(self@[i as int].name) == self@[i as int],
    {
        &self.entries[i].info
    }

    /// Position of the entry for `name`.
    pub fn position(&self, name: &String) -> (at: Option<usize>)
        ensures
            match at {
                Some(i) => i < self@.len() && self@[i as int].name == name@,
                None => !defines(self@, name@),
            },
            graph_wf(self@),
    {
        proof {
            use_type_invariant(self);
        }
        let mut i: usize = 0;
        while i < self.entries.len()
            invariant
                i <= self.entries@.len(),
                graph_wf(self@),
                forall|k: int| 0 <= k < i ==> (#[trigger] self@[k]).name != name@,
            decreases self.entries@.len() - i,
        {
            if self.entries[i].name == *name {
                return Some(i);
            }
            i += 1;
        }
        None
    }

    /// Record of the function `name`, if the graph defines it.
    pub fn get(&self, name: &String) -> (found: Option<&FnInfo>)
        ensures
            match found {
                Some(info) => exists|i: int|
                    0 <= i < self@.len() && (#[trigger] self@[i]).name == name@ && info.model(
                        name@,
                    ) == self@[i],
                None => !defines(self@, name@),
            },
    {
        match self.position(name) {
            Some(i) => Some(&self.entries[i].info),
            None => None,
        }
    }

    /// Adds `name` with `info` at the end, unless the graph defines `name`
    /// already or `info` is not a valid record; says whether it was added.
    pub fn insert(&mut self, name: String, info: FnInfo) -> (added: bool)
        ensures
            added == (!defines(old(self)@, name@) && entry_wf(info.model(name@))),
            added ==> final(self)@ == old(self)@.push(info.model(name@)),
            !added ==> final(self)@ == old(self)@,
            graph_wf(final(self)@),
    {
        proof {
            use_type_invariant(&*self);
        }
        if self.position(&name).is_some() || !info.is_valid() {
            return false;
        }
        let ghost before = self@;
        let ghost m = info.model(name@);
        let mut entries: Vec<FnEntry> = Vec::new();
        core::mem::swap(&mut self.entries, &mut entries);
        entries.push(FnEntry { name, info });
        proof {
            let after = Seq::new(
                entries@.len(),
                |i: int| entries@[i].info.model(entries@[i].name@),
            );
            assert(after =~= before.push(m));
            assert forall|i: int, j: int| 0 <= i < j < after.len() implies (#[trigger] after[i]).name
                != (#[trigger] after[j]).name by {
                if j == before.len() {
                    assert(before[i].name != m.name);
                }
            }
            assert(graph_wf(after));
        }
        self.entries = entries;
        assert(self@ =~= before.push(m));
        true
    }

    /// Records that the `caller`-th function calls `callee` at `line`, unless
    /// it lists `callee` already; says whether the call was recorded.
    pub fn record_call(&mut self, caller: usize, callee: &String, line: usize) -> (added: bool)
        requires
            caller < old(self)@.len(),
        ensures
            added == !calls(old(self)@[caller as int], callee@),
            final(self)@.len() == old(self)@.len(),
            forall|i: int|
                0 <= i < old(self)@.len() && i != caller ==> final(self)@[i] == old(self)@[i],
            final(self)@[caller as int].name == old(self)@[caller as int].name,
            final(self)@[caller as int].line == old(self)@[caller as int].line,
            final(self)@[caller as int].callees == if added {
                old(self)@[caller as int].callees.push((callee@, line as nat))
            } else {
                old(self)@[caller as int].callees
            },
            graph_wf(final(self)@),
    {
        proof {
            use_type_invariant(&*self);
        }
        let ghost before = self@;
        let listed = self.entries[caller].info.has_callee(callee);
        if listed {
            return false;
        }
        let ghost old_entries = self.entries@;
        let mut entries: Vec<FnEntry> = Vec::new();
        core::mem::swap(&mut self.entries, &mut entries);
        entries[caller].info.callees.push((callee.clone(), line));
        proof {
            let grown = entries@[caller as int];
            let o = old_entries[caller as int];
            assert(grown.info.callee_seq() =~= o.info.callee_seq().push((callee@, line as nat)));
            let after = Seq::new(
                entries@.len(),
                |i: int| entries@[i].info.model(entries@[i].name@),
            );
            assert forall|i: int| 0 <= i < before.len() && i != caller implies after[i]
                == before[i] by {
                assert(entries@[i] == old_entries[i]);
            }
            let listed_after = after[caller as int].callees;
            let listed_before = before[caller as int].callees;
            assert(listed_after == listed_before.push((callee@, line as nat)));
            assert forall|j: int, k: int| 0 <= j < k < listed_after.len() implies (
            #[trigger] listed_after[j]).0 != (#[trigger] listed_after[k]).0 by {
                if k == listed_before.len() {
                    assert(listed_before[j].0 != callee@);
                } else {
                    assert(listed_before[j].0 != listed_before[k].0);
                }
            }
            assert(entry_wf(after[caller as int]));
            assert(graph_wf(after));
        }
        self.entries = entries;
        true
    }
}

impl Clone for CallGraph {
    fn clone(&self) -> (copy: Self)
        ensures
            copy@ == self@,
    {
        proof {
            use_type_invariant(self);
        }
        let mut entries: Vec<FnEntry> = Vec::new();
        let mut i: usize = 0;
        while i < self.entries.len()
            invariant
                i <= self.entries@.len(),
                entries@.len() == i,
                forall|k: int|
                    0 <= k < i ==> (#[trigger] entries@[k]).info.model(entries@[k].name@)
                        == self@[k],
            decreases self.entries@.len() - i,
        {
            let name = self.entries[i].name.clone();
            let info = self.entries[i].info.clone();
            entries.push(FnEntry { name, info });
            i += 1;
        }
        let copy = CallGraph { entries };
        assert(copy@ =~= self@);
        copy
    }
}

} // verus!
