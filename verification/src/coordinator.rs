//! The coordinator: dependency-aware scheduling over the job graph.
//!
//! Each node moves `Pending → Running → Done` or `Failed`; a node with all
//! dependencies `Done` and an entry already in the store moves straight to
//! `Done` without running (a cache hit). A node is dispatched only when
//! every dependency is `Done`, is executed at most once per run, and a
//! failure marks every transitively dependent node `Failed` while unrelated
//! subgraphs continue.

use vstd::prelude::*;

use crate::graph::Graph;
use crate::store::Store;

verus! {

/// The lifecycle of one node in a coordinator run.
#[derive(Debug, Clone, Copy, PartialEq, Eq, Structural)]
pub enum JobState {
    /// Not yet dispatched; waiting for its dependencies.
    Pending,
    /// Its command is executing.
    Running,
    /// Its outputs are available (by execution or by cache hit).
    Done,
    /// Its command failed, or a dependency failed.
    Failed,
}

/// The scheduling state machine over a built graph. The caller drives it:
/// ask which nodes are ready, start them or settle them from the store, and
/// report each outcome back.
pub struct Coordinator {
    /// The dependency graph being executed.
    pub graph: Graph,
    /// Per-node lifecycle state.
    pub states: Vec<JobState>,
    /// How many times each node's command was started; never exceeds one.
    pub runs: Vec<u8>,
}

impl Coordinator {
    /// Internal consistency: a `Running` or `Done` node has every
    /// dependency `Done`, a `Pending` node was never started, and no node
    /// starts twice.
    pub open spec fn wf(&self) -> bool {
        let n = self.graph.jobs@.len();
        &&& self.graph.wf()
        &&& self.states@.len() == n
        &&& self.runs@.len() == n
        &&& forall|i: int, k: int|
            0 <= i < n && (self.states@[i] == JobState::Running || self.states@[i]
                == JobState::Done) && 0 <= k < self.graph.deps@[i]@.len()
                ==> self.states@[(#[trigger] self.graph.deps@[i]@[k]) as int] == JobState::Done
        &&& forall|i: int|
            0 <= i < n && self.states@[i] == JobState::Pending ==> (#[trigger] self.runs@[i]) == 0
        &&& forall|i: int| 0 <= i < n ==> (#[trigger] self.runs@[i]) <= 1
    }

    /// A node is ready when it is pending and every dependency is done.
    pub open spec fn is_ready(&self, i: int) -> bool {
        &&& self.states@[i] == JobState::Pending
        &&& forall|k: int|
            0 <= k < self.graph.deps@[i]@.len() ==> self.states@[(
            #[trigger] self.graph.deps@[i]@[k]) as int] == JobState::Done
    }

    /// Some dependency of `j` has failed.
    pub open spec fn dep_failed(&self, j: int) -> bool {
        exists|k: int|
            0 <= k < self.graph.deps@[j]@.len() && self.states@[(
            #[trigger] self.graph.deps@[j]@[k]) as int] == JobState::Failed
    }

    /// Start coordinating a built graph: every node pending, none started.
    pub fn new(graph: Graph) -> (r: Coordinator)
        requires
            graph.wf(),
        ensures
            r.wf(),
            r.graph == graph,
            forall|i: int| 0 <= i < r.states@.len() ==> r.states@[i] == JobState::Pending,
            forall|i: int| 0 <= i < r.runs@.len() ==> r.runs@[i] == 0,
    {
        let n = graph.len();
        let mut states: Vec<JobState> = Vec::new();
        let mut runs: Vec<u8> = Vec::new();
        let mut i: usize = 0;
        while i < n
            invariant
                i <= n,
                states@.len() == i,
                runs@.len() == i,
                forall|k: int| 0 <= k < i ==> states@[k] == JobState::Pending,
                forall|k: int| 0 <= k < i ==> runs@[k] == 0,
            decreases n - i,
        {
            states.push(JobState::Pending);
            runs.push(0);
            i = i + 1;
        }
        Coordinator { graph, states, runs }
    }

    /// The state of one node.
    pub fn state_of(&self, i: usize) -> (s: JobState)
        requires
            self.wf(),
            i < self.graph.jobs@.len(),
        ensures
            s == self.states@[i as int],
    {
        self.states[i]
    }

    /// Whether some dependency of `j` is in the given state.
    fn has_dep_in_state(&self, j: usize, s: JobState) -> (r: bool)
        requires
            self.wf(),
            j < self.graph.jobs@.len(),
        ensures
            r == exists|k: int|
                0 <= k < self.graph.deps@[j as int]@.len() && self.states@[(
                #[trigger] self.graph.deps@[j as int]@[k]) as int] == s,
    {
        let row = &self.graph.deps[j];
        let mut k: usize = 0;
        while k < row.len()
            invariant
                k <= row@.len(),
                row@ == self.graph.deps@[j as int]@,
                self.wf(),
                j < self.graph.jobs@.len(),
                forall|m: int| 0 <= m < k ==> self.states@[(#[trigger] row@[m]) as int] != s,
            decreases row@.len() - k,
        {
            if self.states[row[k]] == s {
                return true;
            }
            k = k + 1;
        }
        false
    }

    /// Whether node `i` is ready to be dispatched.
    pub fn ready(&self, i: usize) -> (r: bool)
        requires
            self.wf(),
            i < self.graph.jobs@.len(),
        ensures
            r == self.is_ready(i as int),
    {
        if !(self.states[i] == JobState::Pending) {
            return false;
        }
        let row = &self.graph.deps[i];
        let mut k: usize = 0;
        while k < row.len()
            invariant
                k <= row@.len(),
                row@ == self.graph.deps@[i as int]@,
                self.wf(),
                i < self.graph.jobs@.len(),
                forall|m: int|
                    0 <= m < k ==> self.states@[(#[trigger] row@[m]) as int] == JobState::Done,
            decreases row@.len() - k,
        {
            if !(self.states[row[k]] == JobState::Done) {
                return false;
            }
            k = k + 1;
        }
        true
    }

    /// Every index that is ready right now.
    pub fn ready_jobs(&self) -> (r: Vec<usize>)
        requires
            self.wf(),
        ensures
            forall|k: int| 0 <= k < r@.len() ==> (#[trigger] r@[k]) < self.graph.jobs@.len()
                && self.is_ready(r@[k] as int),
            forall|i: int|
                0 <= i < self.graph.jobs@.len() && self.is_ready(i) ==> r@.contains(i as usize),
    {
        let n = self.graph.len();
        let mut r: Vec<usize> = Vec::new();
        let mut i: usize = 0;
        while i < n
            invariant
                i <= n,
                self.wf(),
                n == self.graph.jobs@.len(),
                forall|k: int| 0 <= k < r@.len() ==> (#[trigger] r@[k]) < n && self.is_ready(
                    r@[k] as int,
                ),
                forall|j: int| 0 <= j < i && self.is_ready(j) ==> r@.contains(j as usize),
            decreases n - i,
        {
            let ghost rpre = r@;
            if self.ready(i) {
                r.push(i);
                proof {
                    assert(r@ == rpre.push(i));
                    assert(r@[r@.len() - 1] == i);
                    assert forall|j: int| 0 <= j < i + 1 && self.is_ready(j) implies r@.contains(
                        j as usize,
                    ) by {
                        if j < i {
                            let m = choose|m: int| 0 <= m < rpre.len() && rpre[m] == j as usize;
                            assert(r@[m] == j as usize);
                        } else {
                            assert(r@.last() == j as usize);
                        }
                    }
                }
            }
            i = i + 1;
        }
        r
    }

    /// Dispatch a ready node: it moves to `Running` and its single
    /// execution is charged. No node can be dispatched twice.
    pub fn start(&mut self, i: usize)
        requires
            old(self).wf(),
            i < old(self).graph.jobs@.len(),
            old(self).is_ready(i as int),
        ensures
            final(self).wf(),
            final(self).graph == old(self).graph,
            final(self).states@ == old(self).states@.update(i as int, JobState::Running),
            final(self).runs@ == old(self).runs@.update(i as int, 1u8),
    {
        self.states.set(i, JobState::Running);
        self.runs.set(i, 1);
    }

    /// The node's command succeeded: it moves to `Done`.
    pub fn finish_success(&mut self, i: usize)
        requires
            old(self).wf(),
            i < old(self).graph.jobs@.len(),
            old(self).states@[i as int] == JobState::Running,
        ensures
            final(self).wf(),
            final(self).graph == old(self).graph,
            final(self).runs@ == old(self).runs@,
            final(self).states@ == old(self).states@.update(i as int, JobState::Done),
    {
        self.states.set(i, JobState::Done);
    }

    /// The store already holds this node's outputs: it moves straight from
    /// ready to `Done` without its command ever running.
    pub fn cache_hit(&mut self, i: usize)
        requires
            old(self).wf(),
            i < old(self).graph.jobs@.len(),
            old(self).is_ready(i as int),
        ensures
            final(self).wf(),
            final(self).graph == old(self).graph,
            final(self).runs@ == old(self).runs@,
            final(self).states@ == old(self).states@.update(i as int, JobState::Done),
    {
        self.states.set(i, JobState::Done);
    }

    /// The node's command failed: it moves to `Failed`, and so does every
    /// pending node that transitively depends on it. `Done` and other
    /// `Running` nodes are untouched, so unrelated subgraphs continue; after
    /// the call no pending node has a failed dependency, and every newly
    /// failed node other than `i` has a failed dependency to blame.
    #[verifier::loop_isolation(false)]
    pub fn finish_failure(&mut self, i: usize)
        requires
            old(self).wf(),
            i < old(self).graph.jobs@.len(),
            old(self).states@[i as int] == JobState::Running,
        ensures
            final(self).wf(),
            final(self).graph == old(self).graph,
            final(self).runs@ == old(self).runs@,
            final(self).states@.len() == old(self).states@.len(),
            final(self).states@[i as int] == JobState::Failed,
            forall|j: int|
                0 <= j < old(self).states@.len() && final(self).states@[j] != old(self).states@[j] ==> j == i || (old(self).states@[j] == JobState::Pending && final(self).states@[j] == JobState::Failed),
            forall|j: int|
                0 <= j < old(self).states@.len() && final(self).states@[j] == JobState::Failed
                    && old(self).states@[j] != JobState::Failed && j != i ==> final(self).dep_failed(j),
            forall|j: int|
                0 <= j < old(self).states@.len() && (#[trigger] final(self).states@[j])
                    == JobState::Pending ==> !final(self).dep_failed(j),
    {
        self.states.set(i, JobState::Failed);
        let ghost base = self.states@;
        let n = self.graph.len();
        let mut k: usize = 0;
        while k < n
            invariant
                k <= n,
                self.wf(),
                self.graph == old(self).graph,
                self.runs@ == old(self).runs@,
                n == self.graph.jobs@.len(),
                self.states@.len() == n,
                self.states@[i as int] == JobState::Failed,
                forall|j: int|
                    0 <= j < n && self.states@[j] != base[j] ==> base[j] == JobState::Pending
                        && self.states@[j] == JobState::Failed,
                forall|j: int|
                    0 <= j < n && self.states@[j] == JobState::Failed && base[j]
                        != JobState::Failed ==> self.dep_failed(j),
                forall|j: int|
                    0 <= j < n && self.graph.rank@[j] < k && (#[trigger] self.states@[j])
                        == JobState::Pending ==> !self.dep_failed(j),
            decreases n - k,
        {
            let j = self.graph.order[k];
            proof {
                assert(self.graph.rank@[j as int] == k);
            }
            if self.states[j] == JobState::Pending && self.has_dep_in_state(j, JobState::Failed) {
                let ghost cpre = *self;
                self.states.set(j, JobState::Failed);
                proof {
                    let spre = cpre.states@;
                    assert forall|j2: int|
                        0 <= j2 < n && self.states@[j2] == JobState::Failed && base[j2]
                            != JobState::Failed implies self.dep_failed(j2) by {
                        if j2 == j {
                            let m = choose|m: int|
                                0 <= m < cpre.graph.deps@[j as int]@.len() && cpre.states@[(
                                #[trigger] cpre.graph.deps@[j as int]@[m]) as int]
                                    == JobState::Failed;
                            assert(self.states@[(self.graph.deps@[j2]@[m]) as int]
                                == JobState::Failed);
                        } else {
                            assert(cpre.dep_failed(j2));
                            let m = choose|m: int|
                                0 <= m < cpre.graph.deps@[j2]@.len() && cpre.states@[(
                                #[trigger] cpre.graph.deps@[j2]@[m]) as int] == JobState::Failed;
                            assert(self.states@[(self.graph.deps@[j2]@[m]) as int]
                                == JobState::Failed);
                        }
                    }
                    assert forall|j2: int|
                        0 <= j2 < n && self.graph.rank@[j2] < k + 1 && (
                        #[trigger] self.states@[j2]) == JobState::Pending implies !self.dep_failed(
                        j2,
                    ) by {
                        assert(j2 != j);
                        assert(self.graph.rank@[j2] < k);
                        assert(spre[j2] == JobState::Pending);
                        assert(!cpre.dep_failed(j2));
                        if self.dep_failed(j2) {
                            let m = choose|m: int|
                                0 <= m < self.graph.deps@[j2]@.len() && self.states@[(
                                #[trigger] self.graph.deps@[j2]@[m]) as int] == JobState::Failed;
                            let d = self.graph.deps@[j2]@[m] as int;
                            assert(self.graph.rank@[d] < self.graph.rank@[j2]);
                            assert(d != j) by {
                                assert(self.graph.rank@[j as int] == k);
                            }
                            assert(cpre.states@[d] == self.states@[d]);
                            assert(cpre.dep_failed(j2));
                        }
                    }
                }
            } else {
                proof {
                    assert forall|j2: int|
                        0 <= j2 < n && self.graph.rank@[j2] < k + 1 && (
                        #[trigger] self.states@[j2]) == JobState::Pending implies !self.dep_failed(
                        j2,
                    ) by {
                        if self.graph.rank@[j2] == k {
                            assert(self.graph.order@[self.graph.rank@[j2] as int] == j2);
                            assert(j2 == j);
                        }
                    }
                }
            }
            k = k + 1;
        }
        proof {
            assert forall|j: int|
                0 <= j < n && self.states@[j] != old(self).states@[j] implies j == i || (old(self).states@[j] == JobState::Pending && self.states@[j] == JobState::Failed) by {
                if j != i {
                    assert(base[j] == old(self).states@[j]);
                }
            }
            assert forall|j: int|
                0 <= j < n && self.states@[j] == JobState::Failed && old(self).states@[j]
                    != JobState::Failed && j != i implies self.dep_failed(j) by {
                assert(base[j] == old(self).states@[j]);
            }
        }
    }

    /// Settle every cache hit: walk the graph in dependency order and move
    /// each pending node whose dependencies are done and whose identity the
    /// store already holds straight to `Done`.
    ///
    /// No command is charged. In particular, when every node is pending and
    /// the store holds every identity — a rerun of an unchanged graph —
    /// every node comes out `Done` with zero executions.
    #[verifier::loop_isolation(false)]
    pub fn settle_cache_hits(&mut self, store: &Store)
        requires
            old(self).wf(),
        ensures
            final(self).wf(),
            final(self).graph == old(self).graph,
            final(self).runs@ == old(self).runs@,
            final(self).states@.len() == old(self).states@.len(),
            forall|j: int|
                0 <= j < old(self).states@.len() && final(self).states@[j] != old(self).states@[j] ==> old(self).states@[j] == JobState::Pending && final(self).states@[j] == JobState::Done && store@.contains_key(
                    final(self).graph.jobs@[j].id.spec_value(),
                ),
            ((forall|j: int|
                0 <= j < old(self).states@.len() ==> old(self).states@[j] == JobState::Pending)
                && (forall|j: int|
                0 <= j < old(self).graph.jobs@.len() ==> store@.contains_key(
                    (#[trigger] old(self).graph.jobs@[j]).id.spec_value(),
                ))) ==> forall|j: int|
                0 <= j < old(self).states@.len() ==> final(self).states@[j] == JobState::Done,
    {
        let ghost hyp = (forall|j: int|
            0 <= j < old(self).states@.len() ==> old(self).states@[j] == JobState::Pending)
            && (forall|j: int|
            0 <= j < old(self).graph.jobs@.len() ==> store@.contains_key(
                (#[trigger] old(self).graph.jobs@[j]).id.spec_value(),
            ));
        let n = self.graph.len();
        let mut k: usize = 0;
        while k < n
            invariant
                k <= n,
                self.wf(),
                self.graph == old(self).graph,
                self.runs@ == old(self).runs@,
                n == self.graph.jobs@.len(),
                self.states@.len() == old(self).states@.len(),
                forall|j: int|
                    0 <= j < n && self.states@[j] != old(self).states@[j] ==> old(self).states@[j] == JobState::Pending && self.states@[j] == JobState::Done
                        && store@.contains_key(self.graph.jobs@[j].id.spec_value()),
                hyp ==> forall|j: int|
                    0 <= j < n && self.graph.rank@[j] < k ==> self.states@[j] == JobState::Done,
            decreases n - k,
        {
            let j = self.graph.order[k];
            proof {
                assert(self.graph.rank@[j as int] == k);
            }
            if self.ready(j) && store.has(self.graph.jobs[j].id.value()) {
                self.cache_hit(j);
            } else {
                proof {
                    if hyp {
                        assert(old(self).states@[j as int] == JobState::Pending);
                        assert(self.states@[j as int] == JobState::Pending || self.states@[
                        j as int] == JobState::Done) by {
                            if self.states@[j as int] != old(self).states@[j as int] {
                            }
                        }
                        if self.states@[j as int] == JobState::Pending {
                            assert(self.is_ready(j as int)) by {
                                assert forall|m: int|
                                    0 <= m < self.graph.deps@[j as int]@.len() implies self.states@[(
                                #[trigger] self.graph.deps@[j as int]@[m]) as int]
                                    == JobState::Done by {
                                    assert(self.graph.rank@[(self.graph.deps@[j as int]@[
                                    m]) as int] < k);
                                }
                            }
                            assert(old(self).graph.jobs@[j as int] == self.graph.jobs@[
                            j as int]);
                            assert(store@.contains_key(
                                self.graph.jobs@[j as int].id.spec_value(),
                            ));
                            assert(false);
                        }
                    }
                }
            }
            proof {
                if hyp {
                    assert forall|j2: int|
                        0 <= j2 < n && self.graph.rank@[j2] < k + 1 implies self.states@[j2]
                        == JobState::Done by {
                        if self.graph.rank@[j2] == k {
                            assert(self.graph.order@[self.graph.rank@[j2] as int] == j2);
                            assert(j2 == j);
                        }
                    }
                }
            }
            k = k + 1;
        }
        proof {
            if hyp {
                assert forall|j: int| 0 <= j < n implies self.states@[j] == JobState::Done by {
                    assert(self.graph.rank@[j] < n);
                }
            }
        }
    }
}

/// Node `j` can reach node `t` along dependency edges using at most `fuel`
/// steps (reflexively).
pub open spec fn depends_within(g: &Graph, j: int, t: int, fuel: nat) -> bool
    decreases fuel,
{
    j == t || (fuel > 0 && exists|m: int|
        0 <= m < g.deps@[j]@.len() && depends_within(
            g,
            (#[trigger] g.deps@[j]@[m]) as int,
            t,
            (fuel - 1) as nat,
        ))
}

/// Failure is isolated: take a failure transition from `before` to `after`
/// as `finish_failure` describes it — node `i` fails and the change spreads
/// only to pending nodes with a failed dependency. Any node that does not
/// transitively depend on `i`, nor on a node that had already failed, keeps
/// its state. Since dependency ranks strictly decrease, `fuel` at least one
/// more than `j`'s rank covers every dependency path out of `j`.
pub proof fn lemma_failure_isolated(
    before: Coordinator,
    after: Coordinator,
    i: int,
    j: int,
    fuel: nat,
)
    requires
        before.wf(),
        after.graph == before.graph,
        after.states@.len() == before.states@.len(),
        0 <= i < before.states@.len(),
        0 <= j < before.states@.len(),
        fuel > before.graph.rank@[j],
        forall|x: int|
            0 <= x < before.states@.len() && (#[trigger] after.states@[x]) != before.states@[x]
                ==> x == i || (before.states@[x] == JobState::Pending && after.states@[x]
                == JobState::Failed),
        forall|x: int|
            0 <= x < before.states@.len() && (#[trigger] after.states@[x]) == JobState::Failed
                && before.states@[x] != JobState::Failed && x != i ==> after.dep_failed(x),
        !depends_within(&before.graph, j, i, fuel),
        forall|t: int|
            0 <= t < before.states@.len() && (#[trigger] before.states@[t]) == JobState::Failed
                ==> !depends_within(&before.graph, j, t, fuel),
    ensures
        after.states@[j] == before.states@[j],
    decreases fuel,
{
    let g = before.graph;
    if after.states@[j] != before.states@[j] {
        assert(j != i);
        assert(before.states@[j] == JobState::Pending && after.states@[j] == JobState::Failed);
        assert(after.dep_failed(j));
        let m = choose|m: int|
            0 <= m < after.graph.deps@[j]@.len() && after.states@[(
            #[trigger] after.graph.deps@[j]@[m]) as int] == JobState::Failed;
        let d = g.deps@[j]@[m] as int;
        assert(0 <= d < before.states@.len());
        assert(g.rank@[d] < g.rank@[j]);
        assert(fuel > 0);
        if before.states@[d] == JobState::Failed {
            assert(depends_within(&g, d, d, (fuel - 1) as nat));
            assert(depends_within(&g, j, d, fuel));
            assert(false);
        } else if d == i {
            assert(depends_within(&g, d, i, (fuel - 1) as nat));
            assert(depends_within(&g, j, i, fuel));
            assert(false);
        } else {
            assert(!depends_within(&g, d, i, (fuel - 1) as nat)) by {
                if depends_within(&g, d, i, (fuel - 1) as nat) {
                    assert(depends_within(&g, j, i, fuel));
                }
            }
            assert forall|t: int|
                0 <= t < before.states@.len() && (#[trigger] before.states@[t])
                    == JobState::Failed implies !depends_within(&g, d, t, (fuel - 1) as nat) by {
                if depends_within(&g, d, t, (fuel - 1) as nat) {
                    assert(depends_within(&g, j, t, fuel));
                }
            }
            lemma_failure_isolated(before, after, i, d, (fuel - 1) as nat);
            assert(false);
        }
    }
}

} // verus!
