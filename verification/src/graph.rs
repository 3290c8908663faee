//! The job graph: producer/consumer edges inferred from overlapping paths.
//!
//! Nodes are validated job descriptors, deduplicated by identity so that two
//! requests for bit-identical work collapse to one node. A directed edge from
//! a consumer to a producer exists when some output path of the producer is
//! an input path of the consumer. Construction fails fast on an output path
//! claimed by two distinct jobs, and on any dependency cycle; a successful
//! build carries a topological order as its acyclicity witness.

use vstd::prelude::*;

use crate::job::Job;

verus! {

/// Why the graph could not be built.
#[derive(Debug, Clone)]
pub enum GraphError {
    /// Two distinct jobs declare this output path.
    AmbiguousProducer(String),
    /// No execution order exists; the payload names the identities of a set
    /// of jobs each of which depends on another member of the set.
    DependencyCycle(Vec<u64>),
}

/// Node `i` depends on node `d`: some output path of `d` is an input path
/// of `i`.
pub open spec fn edge(jobs: Seq<Job>, i: int, d: int) -> bool {
    exists|p: Seq<char>|
        #![trigger jobs[d].outputs.deep_view().contains(p)]
        jobs[d].outputs.deep_view().contains(p) && jobs[i].input_files.deep_view().contains(p)
}

/// Output path `p` has two distinct producers among the jobs.
pub open spec fn ambiguous_output(jobs: Seq<Job>, p: Seq<char>) -> bool {
    exists|a: int, b: int|
        0 <= a < jobs.len() && 0 <= b < jobs.len() && jobs[a].id.spec_value()
            != jobs[b].id.spec_value() && (#[trigger] jobs[a].outputs.deep_view().contains(p))
            && (#[trigger] jobs[b].outputs.deep_view().contains(p))
}

/// No output path has two producers with distinct identities among the
/// jobs: the ambiguity that graph construction must refuse is absent.
pub open spec fn no_ambiguity(jobs: Seq<Job>) -> bool {
    forall|a: int, b: int, p: Seq<char>|
        0 <= a < jobs.len() && 0 <= b < jobs.len() && jobs[a].id.spec_value()
            != jobs[b].id.spec_value() && (#[trigger] jobs[a].outputs.deep_view().contains(p))
            ==> !(#[trigger] jobs[b].outputs.deep_view().contains(p))
}

/// Every node is one of the given jobs, by value.
pub open spec fn nodes_from(nodes: Seq<Job>, jobs: Seq<Job>) -> bool {
    forall|k: int| 0 <= k < nodes.len() ==> jobs.contains(#[trigger] nodes[k])
}

/// The identities of the nodes, in order.
pub open spec fn node_ids(nodes: Seq<Job>) -> Seq<u64> {
    nodes.map_values(|n: Job| n.id.spec_value())
}

/// Every given job's identity occurs among the nodes.
pub open spec fn ids_covered(nodes: Seq<Job>, jobs: Seq<Job>) -> bool {
    forall|j: int|
        0 <= j < jobs.len() ==> node_ids(nodes).contains((#[trigger] jobs[j]).id.spec_value())
}

/// The job carrying the `k`-th named identity has a dependency edge to a
/// job carrying another named identity.
pub open spec fn id_has_cyclic_edge(jobs: Seq<Job>, ids: Seq<u64>, k: int) -> bool {
    exists|a: int, b: int, m: int|
        #![trigger jobs[a].id.spec_value(), jobs[b].id.spec_value(), ids[m]]
        0 <= a < jobs.len() && 0 <= b < jobs.len() && 0 <= m < ids.len()
            && jobs[a].id.spec_value() == ids[k] && edge(jobs, a, b) && jobs[b].id.spec_value()
            == ids[m]
}

/// `ids` names a nonempty set of the given jobs, each of which has a
/// dependency edge to another member of the set — a certificate that the
/// dependency relation contains a cycle, so no execution order exists.
pub open spec fn cyclic_ids(jobs: Seq<Job>, ids: Seq<u64>) -> bool {
    &&& ids.len() > 0
    &&& forall|k: int| 0 <= k < ids.len() ==> #[trigger] id_has_cyclic_edge(jobs, ids, k)
}

/// Index `x` has a listed dependency that is also in the stuck list.
pub open spec fn has_stuck_dep(deps: Seq<Vec<usize>>, stuck: Seq<usize>, x: int) -> bool {
    exists|m: int, k2: int|
        0 <= m < deps[x]@.len() && 0 <= k2 < stuck.len() && (#[trigger] deps[x]@[m]) == (
        #[trigger] stuck[k2])
}

/// The index-level cycle certificate: a nonempty list of node indices each
/// of which has a listed dependency that is also in the list.
pub open spec fn stuck_closed(deps: Seq<Vec<usize>>, stuck: Seq<usize>) -> bool {
    &&& stuck.len() > 0
    &&& forall|k: int|
        0 <= k < stuck.len() ==> has_stuck_dep(deps, stuck, (#[trigger] stuck[k]) as int)
}

/// A path string both lists contain, if any.
fn common_string(u: &Vec<String>, w: &Vec<String>) -> (r: Option<String>)
    ensures
        match r {
            Some(p) => u.deep_view().contains(p@) && w.deep_view().contains(p@),
            None => forall|p: Seq<char>|
                #![trigger u.deep_view().contains(p)]
                !(u.deep_view().contains(p) && w.deep_view().contains(p)),
        },
{
    let mut a: usize = 0;
    while a < u.len()
        invariant
            a <= u.len(),
            forall|k: int|
                0 <= k < a ==> !w.deep_view().contains(#[trigger] u.deep_view()[k]),
        decreases u.len() - a,
    {
        let mut b: usize = 0;
        while b < w.len()
            invariant
                b <= w.len(),
                a < u.len(),
                forall|m: int| 0 <= m < b ==> w.deep_view()[m] != u.deep_view()[a as int],
                forall|k: int|
                    0 <= k < a ==> !w.deep_view().contains(#[trigger] u.deep_view()[k]),
            decreases w.len() - b,
        {
            if u[a] == w[b] {
                proof {
                    assert(u@[a as int]@ == u.deep_view()[a as int]);
                    assert(w@[b as int]@ == w.deep_view()[b as int]);
                    assert(u.deep_view().contains(u.deep_view()[a as int]));
                    assert(w.deep_view().contains(w.deep_view()[b as int]));
                }
                return Some(u[a].clone());
            }
            proof {
                assert(u@[a as int]@ == u.deep_view()[a as int]);
                assert(w@[b as int]@ == w.deep_view()[b as int]);
            }
            b = b + 1;
        }
        proof {
            assert forall|m: int|
                0 <= m < w.deep_view().len() implies w.deep_view()[m] != u.deep_view()[a as int] by {}
            assert(!w.deep_view().contains(u.deep_view()[a as int]));
        }
        a = a + 1;
    }
    proof {
        assert forall|p: Seq<char>|
            u.deep_view().contains(p) implies !w.deep_view().contains(p) by {
            let k = choose|k: int| 0 <= k < u.deep_view().len() && u.deep_view()[k] == p;
        }
    }
    None
}

/// The index of the job in the list carrying this identity, if any.
fn find_id(out: &Vec<Job>, id: u64) -> (r: Option<usize>)
    ensures
        match r {
            Some(m) => m < out@.len() && out@[m as int].id.spec_value() == id,
            None => forall|m: int| 0 <= m < out@.len() ==> (#[trigger] out@[m]).id.spec_value() != id,
        },
{
    let mut k: usize = 0;
    while k < out.len()
        invariant
            k <= out.len(),
            forall|m: int| 0 <= m < k ==> (#[trigger] out@[m]).id.spec_value() != id,
        decreases out@.len() - k,
    {
        if out[k].id.value() == id {
            return Some(k);
        }
        k = k + 1;
    }
    None
}

/// Keep the first job of each identity, in order of first occurrence.
///
/// Besides the deduplicated jobs, returns ghost witnesses: `src` maps each
/// kept job to the input position it came from, and `cov` maps each input
/// position to a kept job with the same identity.
fn dedup_jobs(jobs: Vec<Job>) -> (r: (Vec<Job>, Ghost<(Seq<int>, Seq<int>)>))
    ensures
        ({
            let out = r.0@;
            let src_idx = r.1@.0;
            let cov = r.1@.1;
            &&& forall|a: int, b: int|
                0 <= a < b < out.len() ==> out[a].id.spec_value() != out[b].id.spec_value()
            &&& src_idx.len() == out.len()
            &&& cov.len() == jobs@.len()
            &&& forall|k: int|
                0 <= k < out.len() ==> 0 <= #[trigger] src_idx[k] < jobs@.len() && out[k]
                    == jobs@[src_idx[k]]
            &&& forall|j: int|
                0 <= j < jobs@.len() ==> 0 <= #[trigger] cov[j] < out.len() && out[cov[j]].id.spec_value()
                    == jobs@[j].id.spec_value()
        }),
{
    let ghost orig = jobs@;
    let mut rest = jobs;
    let mut out: Vec<Job> = Vec::new();
    let ghost mut c: int = 0;
    let ghost mut src_idx: Seq<int> = Seq::empty();
    let ghost mut cov: Seq<int> = Seq::empty();
    while rest.len() > 0
        invariant
            0 <= c <= orig.len(),
            rest@ == orig.subrange(c, orig.len() as int),
            src_idx.len() == out@.len(),
            cov.len() == c,
            forall|a: int, b: int|
                0 <= a < b < out@.len() ==> out@[a].id.spec_value() != out@[b].id.spec_value(),
            forall|k: int|
                0 <= k < out@.len() ==> 0 <= #[trigger] src_idx[k] < c && out@[k] == orig[src_idx[k]],
            forall|j: int|
                0 <= j < c ==> 0 <= #[trigger] cov[j] < out@.len() && out@[cov[j]].id.spec_value()
                    == orig[j].id.spec_value(),
        decreases rest@.len(),
    {
        let next = rest.remove(0);
        proof {
            assert(next == orig[c]);
        }
        match find_id(&out, next.id.value()) {
            Some(m) => {
                proof {
                    cov = cov.push(m as int);
                }
            },
            None => {
                let ghost outpre = out@;
                out.push(next);
                proof {
                    assert(out@ == outpre.push(next));
                    src_idx = src_idx.push(c);
                    cov = cov.push(out@.len() - 1);
                }
            },
        }
        proof {
            c = c + 1;
            assert(rest@ == orig.subrange(c, orig.len() as int));
        }
    }
    proof {
        assert(rest@.len() == orig.len() - c);
        assert(c == orig.len());
    }
    (out, Ghost((src_idx, cov)))
}

/// The identities of the nodes at the given indices.
fn ids_of(nodes: &Vec<Job>, stuck: &Vec<usize>) -> (ids: Vec<u64>)
    requires
        forall|k: int| 0 <= k < stuck@.len() ==> (#[trigger] stuck@[k]) < nodes@.len(),
    ensures
        ids@.len() == stuck@.len(),
        forall|k: int|
            0 <= k < ids@.len() ==> (#[trigger] ids@[k]) == nodes@[stuck@[k] as int].id.spec_value(),
{
    let mut ids: Vec<u64> = Vec::new();
    let mut k: usize = 0;
    while k < stuck.len()
        invariant
            k <= stuck@.len(),
            ids@.len() == k,
            forall|m: int| 0 <= m < stuck@.len() ==> (#[trigger] stuck@[m]) < nodes@.len(),
            forall|m: int|
                0 <= m < k ==> (#[trigger] ids@[m]) == nodes@[stuck@[m] as int].id.spec_value(),
        decreases stuck@.len() - k,
    {
        ids.push(nodes[stuck[k]].id.value());
        k = k + 1;
    }
    ids
}

/// The deduplication witnesses imply provenance and identity coverage.
proof fn lemma_dedup_semantics(nodes: Seq<Job>, jobs: Seq<Job>, src_idx: Seq<int>, cov: Seq<int>)
    requires
        src_idx.len() == nodes.len(),
        cov.len() == jobs.len(),
        forall|k: int|
            0 <= k < nodes.len() ==> 0 <= #[trigger] src_idx[k] < jobs.len() && nodes[k]
                == jobs[src_idx[k]],
        forall|j: int|
            0 <= j < jobs.len() ==> 0 <= #[trigger] cov[j] < nodes.len()
                && nodes[cov[j]].id.spec_value() == jobs[j].id.spec_value(),
    ensures
        nodes_from(nodes, jobs),
        ids_covered(nodes, jobs),
{
    assert forall|k: int| 0 <= k < nodes.len() implies jobs.contains(#[trigger] nodes[k]) by {
        assert(jobs[src_idx[k]] == nodes[k]);
    }
    assert forall|j: int|
        0 <= j < jobs.len() implies node_ids(nodes).contains((
    #[trigger] jobs[j]).id.spec_value()) by {
        assert(node_ids(nodes)[cov[j]] == jobs[j].id.spec_value());
    }
}

/// With unambiguous inputs, nodes drawn from them with pairwise distinct
/// identities have pairwise disjoint output paths.
proof fn lemma_nodes_disjoint(nodes: Seq<Job>, jobs: Seq<Job>, src_idx: Seq<int>)
    requires
        no_ambiguity(jobs),
        src_idx.len() == nodes.len(),
        forall|k: int|
            0 <= k < nodes.len() ==> 0 <= #[trigger] src_idx[k] < jobs.len() && nodes[k]
                == jobs[src_idx[k]],
        forall|a: int, b: int|
            0 <= a < b < nodes.len() ==> nodes[a].id.spec_value() != nodes[b].id.spec_value(),
    ensures
        forall|a: int, b: int, p: Seq<char>|
            0 <= a < nodes.len() && 0 <= b < nodes.len() && a != b && (
            #[trigger] nodes[a].outputs.deep_view().contains(p)) ==> !(
        #[trigger] nodes[b].outputs.deep_view().contains(p)),
{
    assert forall|a: int, b: int, p: Seq<char>|
        0 <= a < nodes.len() && 0 <= b < nodes.len() && a != b && (
        #[trigger] nodes[a].outputs.deep_view().contains(p)) implies !(
    #[trigger] nodes[b].outputs.deep_view().contains(p)) by {
        let ja = src_idx[a];
        let jb = src_idx[b];
        assert(nodes[a] == jobs[ja] && nodes[b] == jobs[jb]);
        assert(nodes[a].id.spec_value() != nodes[b].id.spec_value());
        assert(jobs[ja].id.spec_value() != jobs[jb].id.spec_value());
        assert(jobs[ja].outputs.deep_view().contains(p));
        if jobs[jb].outputs.deep_view().contains(p) {
            assert(false);
        }
    }
}

/// An index-level stuck set translates to an identity-level cycle
/// certificate over the original jobs.
proof fn lemma_cycle_certificate(
    nodes: Seq<Job>,
    jobs: Seq<Job>,
    src_idx: Seq<int>,
    deps: Seq<Vec<usize>>,
    stuck: Seq<usize>,
    ids: Seq<u64>,
)
    requires
        deps.len() == nodes.len(),
        stuck_closed(deps, stuck),
        forall|k: int| 0 <= k < stuck.len() ==> (#[trigger] stuck[k]) < nodes.len(),
        ids.len() == stuck.len(),
        forall|k: int|
            0 <= k < ids.len() ==> (#[trigger] ids[k]) == nodes[stuck[k] as int].id.spec_value(),
        src_idx.len() == nodes.len(),
        forall|k: int|
            0 <= k < nodes.len() ==> 0 <= #[trigger] src_idx[k] < jobs.len() && nodes[k]
                == jobs[src_idx[k]],
        forall|x: int, d: int|
            0 <= x < nodes.len() && 0 <= d < nodes.len() ==> ((
            #[trigger] deps[x]@.contains(d as usize)) <==> edge(nodes, x, d)),
    ensures
        cyclic_ids(jobs, ids),
{
    assert forall|k: int|
        0 <= k < ids.len() implies #[trigger] id_has_cyclic_edge(jobs, ids, k) by {
        let x = stuck[k] as int;
        assert(has_stuck_dep(deps, stuck, x));
        let (m0, k2) = choose|m0: int, k2: int|
            0 <= m0 < deps[x]@.len() && 0 <= k2 < stuck.len() && (#[trigger] deps[x]@[m0]) == (
            #[trigger] stuck[k2]);
        let d = deps[x]@[m0] as int;
        assert(deps[x]@[m0] == d as usize);
        assert(deps[x]@.contains(d as usize));
        assert(0 <= d < nodes.len());
        assert(edge(nodes, x, d));
        let jx = src_idx[x];
        let jd = src_idx[d];
        assert(nodes[x] == jobs[jx] && nodes[d] == jobs[jd]);
        let pp = choose|pp: Seq<char>|
            #![trigger nodes[d].outputs.deep_view().contains(pp)]
            nodes[d].outputs.deep_view().contains(pp) && nodes[x].input_files.deep_view().contains(
                pp,
            );
        assert(jobs[jd].outputs.deep_view().contains(pp));
        assert(jobs[jx].input_files.deep_view().contains(pp));
        assert(edge(jobs, jx, jd));
        assert(jobs[jx].id.spec_value() == ids[k]);
        assert(jobs[jd].id.spec_value() == ids[k2]);
    }
}

/// The dependency-ordered job graph, with its acyclicity witness.
pub struct Graph {
    /// The deduplicated nodes.
    pub jobs: Vec<Job>,
    /// `deps[i]` lists the node indices `i` depends on.
    pub deps: Vec<Vec<usize>>,
    /// A topological execution order: every node's dependencies come earlier.
    pub order: Vec<usize>,
    /// `rank[i]` is node `i`'s position in `order`.
    pub rank: Vec<usize>,
}

impl Graph {
    /// Well-formedness: consistent sizes, exact edges, unique identities, and
    /// a valid topological order, which witnesses that the graph is acyclic.
    pub open spec fn wf(&self) -> bool {
        let n = self.jobs@.len();
        &&& self.deps@.len() == n
        &&& self.rank@.len() == n
        &&& self.order@.len() == n
        &&& forall|i: int, k: int|
            0 <= i < n && 0 <= k < self.deps@[i]@.len() ==> (#[trigger] self.deps@[i]@[k]) < n
        &&& forall|i: int, d: int|
            0 <= i < n && 0 <= d < n ==> ((#[trigger] self.deps@[i]@.contains(d as usize))
                <==> edge(self.jobs@, i, d))
        &&& forall|a: int, b: int|
            0 <= a < b < n ==> (#[trigger] self.jobs@[a].id.spec_value()) != (
            #[trigger] self.jobs@[b].id.spec_value())
        &&& forall|i: int| 0 <= i < n ==> (#[trigger] self.rank@[i]) < n
        &&& forall|k: int| 0 <= k < n ==> (#[trigger] self.order@[k]) < n
        &&& forall|k: int| 0 <= k < n ==> self.rank@[#[trigger] self.order@[k] as int] == k
        &&& forall|i: int| 0 <= i < n ==> self.order@[#[trigger] self.rank@[i] as int] == i
        &&& forall|i: int, k: int|
            0 <= i < n && 0 <= k < self.deps@[i]@.len() ==> self.rank@[#[trigger] self.deps@[i]@[k] as int]
                < self.rank@[i]
    }

    /// The number of nodes.
    pub fn len(&self) -> (n: usize)
        ensures
            n == self.jobs@.len(),
    {
        self.jobs.len()
    }

    /// The index of the node carrying this identity, if any.
    pub fn find(&self, id: u64) -> (r: Option<usize>)
        ensures
            match r {
                Some(i) => i < self.jobs@.len() && self.jobs@[i as int].id.spec_value() == id,
                None => forall|i: int|
                    0 <= i < self.jobs@.len() ==> (#[trigger] self.jobs@[i].id.spec_value()) != id,
            },
    {
        let mut i: usize = 0;
        while i < self.jobs.len()
            invariant
                i <= self.jobs@.len(),
                forall|k: int|
                    0 <= k < i ==> (#[trigger] self.jobs@[k].id.spec_value()) != id,
            decreases self.jobs@.len() - i,
        {
            if self.jobs[i].id.value() == id {
                return Some(i);
            }
            i = i + 1;
        }
        None
    }

    /// Build the graph from validated jobs: refuse an output path claimed
    /// by two jobs with distinct identities, deduplicate by identity, infer
    /// edges from path overlap, and refuse any dependency cycle.
    ///
    /// On success the nodes are exactly the given jobs with duplicate
    /// identities collapsed — every node is one of the given jobs and every
    /// given identity occurs exactly once — no output path has two distinct
    /// producers among the given jobs, and the graph is well-formed, its
    /// `order` field a topological order proving acyclicity. On
    /// `AmbiguousProducer(p)` two given jobs with distinct identities both
    /// declare output `p`; on `DependencyCycle(ids)` the named given jobs
    /// form a nonempty set each member of which depends on another member,
    /// so no execution order can exist.
    #[verifier::rlimit(100)]
    pub fn build(jobs: Vec<Job>) -> (r: Result<Graph, GraphError>)
        ensures
            match r {
                Ok(g) => {
                    &&& g.wf()
                    &&& nodes_from(g.jobs@, jobs@)
                    &&& ids_covered(g.jobs@, jobs@)
                    &&& no_ambiguity(jobs@)
                    &&& forall|a: int, b: int, p: Seq<char>|
                        0 <= a < g.jobs@.len() && 0 <= b < g.jobs@.len() && a != b
                            && (#[trigger] g.jobs@[a].outputs.deep_view().contains(p)) ==> !(
                        #[trigger] g.jobs@[b].outputs.deep_view().contains(p))
                },
                Err(GraphError::AmbiguousProducer(p)) => ambiguous_output(jobs@, p@),
                Err(GraphError::DependencyCycle(ids)) => cyclic_ids(jobs@, ids@),
            },
    {
        match check_ambiguity(&jobs) {
            Some(p) => {
                return Err(GraphError::AmbiguousProducer(p));
            },
            None => {},
        }
        let ghost origjobs = jobs@;
        let (nodes, wit) = dedup_jobs(jobs);
        let ghost src_idx = wit@.0;
        let ghost cov = wit@.1;
        let deps = build_deps(&nodes);
        match topo_sort(&nodes, &deps) {
            Ok((order, rank)) => {
                let g = Graph { jobs: nodes, deps, order, rank };
                proof {
                    lemma_dedup_semantics(g.jobs@, origjobs, src_idx, cov);
                    lemma_dedup_semantics(g.jobs@, jobs@, src_idx, cov);
                    lemma_nodes_disjoint(g.jobs@, jobs@, src_idx);
                }
                Ok(g)
            },
            Err(stuck) => {
                let ids = ids_of(&nodes, &stuck);
                proof {
                    lemma_cycle_certificate(nodes@, jobs@, src_idx, deps@, stuck@, ids@);
                }
                Err(GraphError::DependencyCycle(ids))
            },
        }
    }
}

/// An output path claimed by two jobs with distinct identities, if any.
///
/// `None` means every output path has at most one producer (by identity)
/// among the given jobs.
#[verifier::loop_isolation(false)]
fn check_ambiguity(jobs: &Vec<Job>) -> (r: Option<String>)
    ensures
        match r {
            Some(p) => ambiguous_output(jobs@, p@),
            None => no_ambiguity(jobs@),
        },
{
    let n = jobs.len();
    let mut a: usize = 0;
    while a < n
        invariant
            a <= n,
            forall|x: int, y: int, p: Seq<char>|
                0 <= x < a && x < y < n && jobs@[x].id.spec_value() != jobs@[y].id.spec_value()
                    && (#[trigger] jobs@[x].outputs.deep_view().contains(p)) ==> !(
                #[trigger] jobs@[y].outputs.deep_view().contains(p)),
        decreases n - a,
    {
        let mut b: usize = a + 1;
        while b < n
            invariant
                a < b <= n,
                forall|y: int, p: Seq<char>|
                    a < y < b && jobs@[a as int].id.spec_value() != jobs@[y].id.spec_value()
                        && (#[trigger] jobs@[a as int].outputs.deep_view().contains(p)) ==> !(
                    #[trigger] jobs@[y].outputs.deep_view().contains(p)),
            decreases n - b,
        {
            if !(jobs[a].id.value() == jobs[b].id.value()) {
                match common_string(&jobs[a].outputs, &jobs[b].outputs) {
                    Some(p) => {
                        proof {
                            assert(jobs@[a as int].id.spec_value() != jobs@[
                            b as int].id.spec_value());
                            assert(ambiguous_output(jobs@, p@));
                        }
                        return Some(p);
                    },
                    None => {},
                }
            }
            b = b + 1;
        }
        a = a + 1;
    }
    proof {
        assert forall|x: int, y: int, p: Seq<char>|
            0 <= x < n && 0 <= y < n && jobs@[x].id.spec_value() != jobs@[y].id.spec_value() && (
            #[trigger] jobs@[x].outputs.deep_view().contains(p)) implies !(
        #[trigger] jobs@[y].outputs.deep_view().contains(p)) by {
            if x < y {
            } else {
                if jobs@[y].outputs.deep_view().contains(p) {
                    assert(!jobs@[x].outputs.deep_view().contains(p));
                }
            }
        }
    }
    None
}

/// The exact dependency lists: `i` depends on `d` when `d` produces one of
/// `i`'s declared inputs.
#[verifier::loop_isolation(false)]
fn build_deps(nodes: &Vec<Job>) -> (deps: Vec<Vec<usize>>)
    ensures
        deps@.len() == nodes@.len(),
        forall|x: int, k: int|
            0 <= x < deps@.len() && 0 <= k < deps@[x]@.len() ==> (#[trigger] deps@[x]@[k])
                < nodes@.len(),
        forall|x: int, d: int|
            0 <= x < nodes@.len() && 0 <= d < nodes@.len() ==> ((
            #[trigger] deps@[x]@.contains(d as usize)) <==> edge(nodes@, x, d)),
{
    let n = nodes.len();
    let mut deps: Vec<Vec<usize>> = Vec::new();
    let mut i: usize = 0;
    while i < n
        invariant
            i <= n,
            deps@.len() == i,
            forall|x: int, k: int|
                0 <= x < i && 0 <= k < deps@[x]@.len() ==> (#[trigger] deps@[x]@[k]) < n,
            forall|x: int, d: int|
                0 <= x < i && 0 <= d < n ==> ((#[trigger] deps@[x]@.contains(d as usize)) <==> edge(
                    nodes@,
                    x,
                    d,
                )),
        decreases n - i,
    {
        let mut row: Vec<usize> = Vec::new();
        let mut d: usize = 0;
        while d < n
            invariant
                d <= n,
                i < n,
                forall|k: int| 0 <= k < row@.len() ==> (#[trigger] row@[k]) < d,
                forall|e: int|
                    0 <= e < d ==> ((#[trigger] row@.contains(e as usize)) <==> edge(
                        nodes@,
                        i as int,
                        e,
                    )),
            decreases n - d,
        {
            let ghost rowpre = row@;
            match common_string(&nodes[d].outputs, &nodes[i].input_files) {
                Some(_) => {
                    row.push(d);
                    proof {
                        assert(row@ =~= rowpre.push(d));
                        assert(row@[row@.len() - 1] == d);
                        assert(row@.contains(d));
                        assert(edge(nodes@, i as int, d as int));
                        assert forall|e: int|
                            0 <= e < d + 1 implies ((#[trigger] row@.contains(e as usize)) <==> edge(
                            nodes@,
                            i as int,
                            e,
                        )) by {
                            if e < d {
                                if rowpre.contains(e as usize) {
                                    let k = choose|k: int|
                                        0 <= k < rowpre.len() && rowpre[k] == e as usize;
                                    assert(row@[k] == e as usize);
                                }
                                if row@.contains(e as usize) {
                                    let k = choose|k: int|
                                        0 <= k < row@.len() && row@[k] == e as usize;
                                    assert(k < rowpre.len());
                                    assert(rowpre[k] == e as usize);
                                }
                            }
                        }
                    }
                },
                None => {
                    proof {
                        assert(!edge(nodes@, i as int, d as int));
                        assert forall|e: int|
                            0 <= e < d + 1 implies ((#[trigger] row@.contains(e as usize)) <==> edge(
                            nodes@,
                            i as int,
                            e,
                        )) by {
                            if e == d && row@.contains(d as usize) {
                                let k = choose|k: int| 0 <= k < row@.len() && row@[k] == d as usize;
                            }
                        }
                    }
                },
            }
            d = d + 1;
        }
        deps.push(row);
        i = i + 1;
    }
    deps
}

/// A topological order over the dependency lists, found greedily.
///
/// `Ok` yields `(order, rank)`: `order` enumerates every node once and
/// `rank` inverts it, with every dependency ranked before its dependent. A
/// stall proves a cycle: `Err` names the identities of the unplaced nodes,
/// a nonempty set each member of which depends on another member.
/// The set of indices below `n` marked true.
spec fn marked(s: Seq<bool>, n: int) -> Set<int> {
    Set::new(|k: int| 0 <= k < n && s[k])
}

/// Collect the unplaced node indices: every unplaced node has an unplaced
/// dependency, so together they certify a cycle.
#[verifier::rlimit(100)]
#[verifier::loop_isolation(false)]
fn collect_stuck(placed: &Vec<bool>, deps: &Vec<Vec<usize>>) -> (stuck: Vec<usize>)
    requires
        placed@.len() == deps@.len(),
        exists|k: int| 0 <= k < placed@.len() && !placed@[k],
        forall|x: int, k: int|
            0 <= x < deps@.len() && 0 <= k < deps@[x]@.len() ==> (#[trigger] deps@[x]@[k])
                < deps@.len(),
        forall|x: int|
            0 <= x < placed@.len() && !(#[trigger] placed@[x]) ==> exists|k: int|
                0 <= k < deps@[x]@.len() && !placed@[(deps@[x]@[k]) as int],
    ensures
        stuck_closed(deps@, stuck@),
        forall|k: int| 0 <= k < stuck@.len() ==> (#[trigger] stuck@[k]) < deps@.len(),
{
    let n = placed.len();
    let mut stuck: Vec<usize> = Vec::new();
    let mut x: usize = 0;
    while x < n
        invariant
            x <= n,
            forall|k: int|
                0 <= k < stuck@.len() ==> (#[trigger] stuck@[k]) < n && !placed@[
                stuck@[k] as int],
            forall|x2: int| 0 <= x2 < x && !placed@[x2] ==> stuck@.contains(x2 as usize),
        decreases n - x,
    {
        if !placed[x] {
            let ghost stuckpre = stuck@;
            stuck.push(x);
            proof {
                assert(stuck@ =~= stuckpre.push(x));
                assert forall|x2: int|
                    0 <= x2 < x + 1 && !placed@[x2] implies stuck@.contains(x2 as usize) by {
                    if x2 < x {
                        let m = choose|m: int|
                            0 <= m < stuckpre.len() && stuckpre[m] == x2 as usize;
                        assert(stuck@[m] == x2 as usize);
                    } else {
                        assert(stuck@[stuck@.len() - 1] == x2 as usize);
                    }
                }
            }
        }
        x = x + 1;
    }
    proof {
        let k0 = choose|k: int| 0 <= k < n && !placed@[k];
        assert(stuck@.contains(k0 as usize));
        assert(stuck@.len() > 0);
        assert forall|k: int|
            0 <= k < stuck@.len() implies has_stuck_dep(
            deps@,
            stuck@,
            (#[trigger] stuck@[k]) as int,
        ) by {
            let x2 = stuck@[k] as int;
            assert(!placed@[x2]);
            let m = choose|m: int| 0 <= m < deps@[x2]@.len() && !placed@[(deps@[x2]@[m]) as int];
            let d = deps@[x2]@[m];
            assert(d < n && !placed@[d as int]);
            assert(stuck@.contains(d));
            let k2 = choose|k2: int| 0 <= k2 < stuck@.len() && stuck@[k2] == d;
            assert(deps@[x2]@[m] == stuck@[k2]);
        }
        assert(stuck_closed(deps@, stuck@));
    }
    stuck
}

#[verifier::rlimit(100)]
#[verifier::loop_isolation(false)]
fn topo_sort(nodes: &Vec<Job>, deps: &Vec<Vec<usize>>) -> (r: Result<
    (Vec<usize>, Vec<usize>),
    Vec<usize>,
>)
    requires
        deps@.len() == nodes@.len(),
        forall|x: int, k: int|
            0 <= x < deps@.len() && 0 <= k < deps@[x]@.len() ==> (#[trigger] deps@[x]@[k])
                < nodes@.len(),
    ensures
        match r {
            Ok(p) => {
                let order = p.0;
                let rank = p.1;
                &&& order@.len() == nodes@.len()
                &&& rank@.len() == nodes@.len()
                &&& forall|i: int| 0 <= i < nodes@.len() ==> (#[trigger] rank@[i]) < nodes@.len()
                &&& forall|k: int| 0 <= k < nodes@.len() ==> (#[trigger] order@[k]) < nodes@.len()
                &&& forall|k: int|
                    0 <= k < nodes@.len() ==> rank@[#[trigger] order@[k] as int] == k
                &&& forall|i: int|
                    0 <= i < nodes@.len() ==> order@[#[trigger] rank@[i] as int] == i
                &&& forall|x: int, k: int|
                    0 <= x < deps@.len() && 0 <= k < deps@[x]@.len() ==> rank@[(
                    #[trigger] deps@[x]@[k]) as int] < rank@[x]
            },
            Err(stuck) => stuck_closed(deps@, stuck@) && forall|k: int|
                0 <= k < stuck@.len() ==> (#[trigger] stuck@[k]) < nodes@.len(),
        },
{
    let n = nodes.len();
    let mut placed: Vec<bool> = Vec::new();
    let mut idx: usize = 0;
    while idx < n
        invariant
            idx <= n,
            placed@.len() == idx,
            forall|k: int| 0 <= k < idx ==> !(#[trigger] placed@[k]),
        decreases n - idx,
    {
        placed.push(false);
        idx = idx + 1;
    }

    let mut order: Vec<usize> = Vec::new();
    let mut rank: Vec<usize> = Vec::new();
    idx = 0;
    while idx < n
        invariant
            idx <= n,
            rank@.len() == idx,
        decreases n - idx,
    {
        rank.push(0);
        idx = idx + 1;
    }
    proof {
        assert(marked(placed@, n as int) =~= Set::<int>::empty());
        assert(marked(placed@, n as int).len() == 0);
    }

    let mut round: usize = 0;
    while round < n
        invariant
            round <= n,
            placed@.len() == n,
            rank@.len() == n,
            order@.len() == round,
            marked(placed@, n as int).len() == round,
            marked(placed@, n as int).finite(),
            forall|k: int| 0 <= k < round ==> (#[trigger] order@[k]) < n,
            forall|k: int| 0 <= k < round ==> placed@[#[trigger] order@[k] as int],
            forall|k: int| 0 <= k < round ==> rank@[#[trigger] order@[k] as int] == k,
            forall|k: int|
                0 <= k < n && placed@[k] ==> order@[#[trigger] rank@[k] as int] == k as usize,
            forall|k: int| 0 <= k < n && placed@[k] ==> (#[trigger] rank@[k]) < round,
            forall|x: int, k: int|
                0 <= x < n && placed@[x] && 0 <= k < deps@[x]@.len() ==> placed@[(
                #[trigger] deps@[x]@[k]) as int] && rank@[deps@[x]@[k] as int] < rank@[x],
        decreases n - round,
    {
        let mut found: bool = false;
        let mut pick: usize = 0;
        let mut cand: usize = 0;
        while cand < n
            invariant
                cand <= n,
                found ==> pick < n && !placed@[pick as int] && forall|k: int|
                    0 <= k < deps@[pick as int]@.len() ==> placed@[(
                    #[trigger] deps@[pick as int]@[k]) as int],
                !found ==> forall|x: int|
                    0 <= x < cand && !(#[trigger] placed@[x]) ==> exists|k: int|
                        0 <= k < deps@[x]@.len() && !placed@[(deps@[x]@[k]) as int],
            decreases n - cand,
        {
            if !found && !placed[cand] {
                let row = &deps[cand];
                let mut ok: bool = true;
                let mut k: usize = 0;
                while k < row.len()
                    invariant
                        k <= row@.len(),
                        row@ == deps@[cand as int]@,
                        cand < n,
                        ok <==> forall|m: int|
                            0 <= m < k ==> placed@[(#[trigger] row@[m]) as int],
                    decreases row@.len() - k,
                {
                    if !placed[row[k]] {
                        ok = false;
                    }
                    k = k + 1;
                }
                if ok {
                    found = true;
                    pick = cand;
                } else {
                    proof {
                        let m = choose|m: int| 0 <= m < row@.len() && !placed@[(row@[m]) as int];
                        assert(0 <= m < deps@[cand as int]@.len() && !placed@[(deps@[
                            cand as int]@[m]) as int]);
                    }
                }
            }
            cand = cand + 1;
        }
        if !found {
            proof {
                // some node is unplaced: the marked set holds round < n indices
                assert(exists|k: int| 0 <= k < n && !placed@[k]) by {
                    if forall|k: int| 0 <= k < n ==> #[trigger] placed@[k] {
                        vstd::set_lib::lemma_int_range(0, n as int);
                        assert(marked(placed@, n as int) =~= vstd::set_lib::set_int_range(
                            0,
                            n as int,
                        ));
                    }
                }
            }
            let stuck = collect_stuck(&placed, &deps);
            return Err(stuck);
        }
        let ghost placedpre = placed@;
        placed.set(pick, true);
        rank.set(pick, round);
        order.push(pick);
        proof {
            assert(marked(placed@, n as int) =~= marked(placedpre, n as int).insert(pick as int));
            assert(!marked(placedpre, n as int).contains(pick as int));
            assert(marked(placed@, n as int).len() == round + 1);
            assert(order@[order@.len() - 1] == pick);
        }
        round = round + 1;
    }
    proof {
        // with n indices marked, every node is placed, so every rank is set
        assert forall|k: int| 0 <= k < n implies #[trigger] placed@[k] by {
            if !placed@[k] {
                vstd::set_lib::lemma_int_range(0, n as int);
                assert(marked(placed@, n as int).subset_of(
                    vstd::set_lib::set_int_range(0, n as int).remove(k),
                ));
                assert(vstd::set_lib::set_int_range(0, n as int).remove(k).len() == n - 1);
                vstd::set_lib::lemma_len_subset(
                    marked(placed@, n as int),
                    vstd::set_lib::set_int_range(0, n as int).remove(k),
                );
            }
        }
    }
    Ok((order, rank))
}

} // verus!
