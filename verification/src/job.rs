//! Job descriptors and their construction from untrusted job records.
//!
//! A job record arrives from the external job source as plain data: a tool,
//! an ordered argument list, and unordered input and output path lists.
//! Construction canonicalizes the path lists, validates output safety,
//! resolves every input's content hash, and computes the job's identity.

use vstd::prelude::*;

use crate::canon;
use crate::fingerprint;
use crate::fingerprint::Id;
use crate::paths;

verus! {

/// The command a job runs: a tool plus its arguments in declared order.
/// Argument order is significant and is part of the job's identity.
#[derive(Debug, Clone)]
pub struct Command {
    pub tool: String,
    pub args: Vec<String>,
}

/// One unit of declared work as it crosses the job-source boundary:
/// untrusted plain data, validated before it can enter the graph.
#[derive(Debug, Clone)]
pub struct JobRecord {
    pub tool: String,
    pub args: Vec<String>,
    pub input_files: Vec<String>,
    pub outputs: Vec<String>,
}

/// Why a job record was rejected before entering the graph. The two output
/// rules are distinct variants, so a caller can tell which rule broke.
#[derive(Debug, Clone)]
pub enum JobError {
    /// An input file has no resolvable content hash; the payload is the path.
    MissingInputHash(String),
    /// A declared output path is absolute.
    AbsoluteOutputPath(String),
    /// A declared output path contains a `..` segment.
    EscapingOutputPath(String),
}

/// Durable mapping from file path to content hash. Repeated fingerprinting
/// consults this cache instead of rehashing unchanged files; persistence of
/// the mapping is the caller's concern.
pub struct FileHashes {
    entries: Vec<(String, String)>,
}

impl FileHashes {
    spec fn key_at(&self, i: int) -> Seq<char> {
        self.entries.deep_view()[i].0
    }

    spec fn spec_has(&self, p: Seq<char>) -> bool {
        exists|i: int| 0 <= i < self.entries.deep_view().len() && self.key_at(i) == p
    }

    spec fn spec_hash(&self, p: Seq<char>) -> Seq<char> {
        let i = choose|i: int| 0 <= i < self.entries.deep_view().len() && self.key_at(i) == p;
        self.entries.deep_view()[i].1
    }

    /// No path occurs twice, so each path has one well-defined hash.
    #[verifier::type_invariant]
    spec fn unique_keys(&self) -> bool {
        forall|i: int, j: int|
            0 <= i < j < self.entries.deep_view().len() ==> self.key_at(i) != self.key_at(j)
    }

    pub fn new() -> (r: FileHashes)
        ensures
            r@ == Map::<Seq<char>, Seq<char>>::empty(),
    {
        let r = FileHashes { entries: Vec::new() };
        proof {
            assert(r@ =~= Map::<Seq<char>, Seq<char>>::empty());
        }
        r
    }

    /// Look up the content hash recorded for a path.
    pub fn get(&self, path: &String) -> (r: Option<String>)
        ensures
            match r {
                Some(h) => self@.contains_key(path@) && h@ == self@[path@],
                None => !self@.contains_key(path@),
            },
    {
        proof {
            use_type_invariant(self);
        }
        let mut i: usize = 0;
        while i < self.entries.len()
            invariant
                i <= self.entries.len(),
                self.unique_keys(),
                forall|k: int| 0 <= k < i ==> self.key_at(k) != path@,
            decreases self.entries.len() - i,
        {
            if self.entries[i].0 == *path {
                let h = self.entries[i].1.clone();
                proof {
                    assert(self.entries.deep_view()[i as int] == self.entries@[i as int].deep_view());
                    assert(self.key_at(i as int) == path@);
                    assert(self.spec_has(path@));
                    let k = choose|k: int|
                        0 <= k < self.entries.deep_view().len() && self.key_at(k) == path@;
                    assert(k == i);
                    assert(self@.contains_key(path@));
                    assert(self@[path@] == self.spec_hash(path@));
                    assert(h@ == self.entries.deep_view()[i as int].1);
                }
                return Some(h);
            } else {
                proof {
                    assert(self.entries.deep_view()[i as int] == self.entries@[i as int].deep_view());
                    assert(self.key_at(i as int) != path@);
                }
            }
            i = i + 1;
        }
        proof {
            if self.spec_has(path@) {
                let k = choose|k: int|
                    0 <= k < self.entries.deep_view().len() && self.key_at(k) == path@;
            }
            assert(!self@.contains_key(path@));
        }
        None
    }

    /// Record (or refresh) the content hash for a path. Last writer wins,
    /// which is sound because content hashing is deterministic.
    pub fn insert(&mut self, path: String, hash: String)
        ensures
            final(self)@ == old(self)@.insert(path@, hash@),
    {
        proof {
            use_type_invariant(&*self);
        }
        let ghost pre = self.entries.deep_view();
        let mut out: Vec<(String, String)> = Vec::new();
        let mut i: usize = 0;
        let n = self.entries.len();
        while i < n
            invariant
                i <= n,
                n == self.entries.len(),
                self == old(self),
                self.unique_keys(),
                pre == self.entries.deep_view(),
                forall|k: int|
                    0 <= k < out.deep_view().len() ==> (#[trigger] out.deep_view()[k]).0 != path@,
                forall|k: int|
                    #![trigger out.deep_view()[k]]
                    0 <= k < out.deep_view().len() ==> exists|j: int|
                        0 <= j < i && out.deep_view()[k] == pre[j],
                forall|a: int, b: int|
                    0 <= a < b < out.deep_view().len() ==> (#[trigger] out.deep_view()[a]).0 != (
                    #[trigger] out.deep_view()[b]).0,
                forall|j: int|
                    0 <= j < i && (#[trigger] pre[j]).0 != path@ ==> out.deep_view().contains(
                        pre[j],
                    ),
            decreases n - i,
        {
            proof {
                assert(self.entries.deep_view()[i as int] == self.entries@[i as int].deep_view());
            }
            if !(self.entries[i].0 == path) {
                let ghost outpre0 = out.deep_view();
                out.push((self.entries[i].0.clone(), self.entries[i].1.clone()));
                proof {
                    assert(out.deep_view() =~= outpre0.push(pre[i as int]));
                    assert(pre[i as int].0 != path@);
                    assert forall|k: int|
                        0 <= k < outpre0.len() implies outpre0[k].0 != pre[i as int].0 by {
                        let j = choose|j: int| 0 <= j < i && outpre0[k] == pre[j];
                        assert(self.key_at(j) != self.key_at(i as int));
                    }
                    assert forall|j: int|
                        0 <= j < i + 1 && (#[trigger] pre[j]).0 != path@ implies out.deep_view()
                        .contains(pre[j]) by {
                        if j < i {
                            assert(outpre0.contains(pre[j]));
                            let k = choose|k: int| 0 <= k < outpre0.len() && outpre0[k] == pre[j];
                            assert(out.deep_view()[k] == pre[j]);
                        } else {
                            assert(out.deep_view().last() == pre[j]);
                        }
                    }
                }
            } else {
                proof {
                    assert(pre[i as int].0 == path@);
                    assert forall|j: int|
                        0 <= j < i + 1 && (#[trigger] pre[j]).0 != path@ implies out.deep_view()
                        .contains(pre[j]) by {
                        assert(j < i);
                    }
                }
            }
            i = i + 1;
        }
        let ghost outpre = out.deep_view();
        out.push((path, hash));
        proof {
            let post = out.deep_view();
            assert(post =~= outpre.push((path@, hash@)));
            assert(post.last() == (path@, hash@));
            assert forall|a: int, b: int|
                0 <= a < b < post.len() implies post[a].0 != post[b].0 by {
                if b < post.len() - 1 {
                    assert(outpre[a].0 != outpre[b].0);
                } else {
                    assert(post[b] == (path@, hash@));
                    assert(post[a].0 != path@);
                }
            }
        }
        self.entries = out;
        proof {
            let post = self.entries.deep_view();
            assert(post.last() == (path@, hash@));
            assert(self.unique_keys());
            assert(final(self)@ =~= old(self)@.insert(path@, hash@)) by {
                assert forall|q: Seq<char>| true implies (self.spec_has(q) <==> (q == path@
                    || old(self).spec_has(q))) by {
                    if q == path@ {
                        assert(self.key_at(post.len() - 1) == path@);
                    } else {
                        if self.spec_has(q) {
                            let k = choose|k: int| 0 <= k < post.len() && self.key_at(k) == q;
                            assert(k < post.len() - 1);
                            let j = choose|j: int| 0 <= j < n && outpre[k] == pre[j];
                            assert(old(self).key_at(j) == q);
                            assert(old(self).spec_has(q));
                        }
                        if old(self).spec_has(q) {
                            let j = choose|j: int|
                                0 <= j < pre.len() && old(self).key_at(j) == q;
                            assert(pre[j].0 == q);
                            assert(outpre.contains(pre[j]));
                            let k = choose|k: int| 0 <= k < outpre.len() && outpre[k] == pre[j];
                            assert(self.key_at(k) == q);
                            assert(self.spec_has(q));
                        }
                    }
                }
                assert forall|q: Seq<char>| self.spec_has(q) implies self.spec_hash(q) == (if q
                    == path@ {
                    hash@
                } else {
                    old(self).spec_hash(q)
                }) by {
                    let k = choose|k: int| 0 <= k < post.len() && self.key_at(k) == q;
                    if q == path@ {
                        assert forall|k2: int|
                            0 <= k2 < post.len() && self.key_at(k2) == q implies k2 == post.len()
                            - 1 by {}
                        assert(self.spec_hash(q) == hash@);
                    } else {
                        assert(k < post.len() - 1);
                        let j = choose|j: int| 0 <= j < n && outpre[k] == pre[j];
                        assert(old(self).key_at(j) == q);
                        assert(old(self).spec_has(q));
                        assert forall|j2: int|
                            0 <= j2 < pre.len() && old(self).key_at(j2) == q implies j2 == j by {}
                        assert(old(self).spec_hash(q) == pre[j].1);
                        assert forall|k2: int|
                            0 <= k2 < post.len() && self.key_at(k2) == q implies post[k2]
                            == pre[j] by {
                            assert(k2 < post.len() - 1);
                            let j2 = choose|j2: int| 0 <= j2 < n && outpre[k2] == pre[j2];
                            assert(old(self).key_at(j2) == q);
                            assert(j2 == j);
                        }
                        assert(self.spec_hash(q) == pre[j].1);
                    }
                }
                assert forall|q: Seq<char>|
                    #![trigger self@.contains_key(q)]
                    #![trigger old(self)@.insert(path@, hash@).contains_key(q)]
                    true implies (self@.contains_key(q) <==> old(self)@.insert(
                    path@,
                    hash@,
                ).contains_key(q)) && (self@.contains_key(q) ==> self@[q] == old(self)@.insert(
                    path@,
                    hash@,
                )[q]) by {}
            }
        }
    }
}

impl View for FileHashes {
    type V = Map<Seq<char>, Seq<char>>;

    closed spec fn view(&self) -> Map<Seq<char>, Seq<char>> {
        Map::new(|p: Seq<char>| self.spec_has(p), |p: Seq<char>| self.spec_hash(p))
    }
}

/// A validated job descriptor: the unit the graph and coordinator work with.
/// Input and output path lists are canonical (strictly sorted, deduplicated),
/// every output path is safe, and `id` is the job's fingerprint.
#[derive(Debug)]
pub struct Job {
    pub id: Id,
    pub command: Command,
    pub input_files: Vec<String>,
    pub outputs: Vec<String>,
}

impl Job {
    /// Structural well-formedness: canonical path lists and safe outputs.
    pub open spec fn wf(&self) -> bool {
        &&& canon::strict_sorted(self.input_files.deep_view())
        &&& canon::strict_sorted(self.outputs.deep_view())
        &&& forall|k: int|
            0 <= k < self.outputs.deep_view().len() ==> paths::is_safe_output_path(
                #[trigger] self.outputs.deep_view()[k],
            )
    }

    /// The (path, content hash) pairs actually folded into a job's identity:
    /// each canonical input path beside its hash from the cache.
    pub open spec fn input_pairs(
        inputs: Seq<Seq<char>>,
        hashes: Map<Seq<char>, Seq<char>>,
    ) -> Seq<(Seq<char>, Seq<char>)> {
        Seq::new(inputs.len(), |i: int| (inputs[i], hashes[inputs[i]]))
    }

    /// The identity a well-formed job must carry, given the hash cache it was
    /// resolved against.
    pub open spec fn expected_id(&self, hashes: Map<Seq<char>, Seq<char>>) -> u64 {
        fingerprint::spec_fingerprint(
            self.command.tool@,
            self.command.args.deep_view(),
            Self::input_pairs(self.input_files.deep_view(), hashes),
            self.outputs.deep_view(),
        )
    }

    /// Validate one untrusted job record and turn it into a job descriptor.
    ///
    /// Inputs and outputs are sorted and deduplicated, so identity does not
    /// depend on declaration order. Every input must have a known content
    /// hash and every output path must be safe; otherwise the record is
    /// rejected with the offending path, inputs checked first.
    #[verifier::loop_isolation(false)]
    pub fn from_glue(record: JobRecord, path_to_hash: &FileHashes) -> (r: Result<Job, JobError>)
        ensures
            (r is Ok) <==> {
                &&& forall|p: Seq<char>|
                    record.input_files.deep_view().contains(p)
                        ==> path_to_hash@.contains_key(p)
                &&& forall|p: Seq<char>|
                    record.outputs.deep_view().contains(p) ==> paths::is_safe_output_path(p)
            },
            match r {
                Ok(job) => {
                    &&& job.wf()
                    &&& job.command.tool@ == record.tool@
                    &&& job.command.args.deep_view() == record.args.deep_view()
                    &&& forall|p: Seq<char>|
                        job.input_files.deep_view().contains(p)
                            <==> record.input_files.deep_view().contains(p)
                    &&& forall|p: Seq<char>|
                        job.outputs.deep_view().contains(p)
                            <==> record.outputs.deep_view().contains(p)
                    &&& job.id.spec_value() == job.expected_id(path_to_hash@)
                },
                Err(JobError::MissingInputHash(p)) => {
                    &&& record.input_files.deep_view().contains(p@)
                    &&& !path_to_hash@.contains_key(p@)
                },
                Err(JobError::AbsoluteOutputPath(p)) => {
                    &&& record.outputs.deep_view().contains(p@)
                    &&& paths::starts_absolute(p@)
                    &&& forall|q: Seq<char>|
                        record.input_files.deep_view().contains(q)
                            ==> path_to_hash@.contains_key(q)
                },
                Err(JobError::EscapingOutputPath(p)) => {
                    &&& record.outputs.deep_view().contains(p@)
                    &&& paths::has_parent_segment(p@)
                    &&& !paths::starts_absolute(p@)
                    &&& forall|q: Seq<char>|
                        record.input_files.deep_view().contains(q)
                            ==> path_to_hash@.contains_key(q)
                },
            },
    {
        let ghost rec_inputs = record.input_files.deep_view();
        let ghost rec_outputs = record.outputs.deep_view();
        let inputs = canon::canonicalize(&record.input_files);
        let outputs = canon::canonicalize(&record.outputs);

        let mut pairs: Vec<(String, String)> = Vec::new();
        let mut i: usize = 0;
        while i < inputs.len()
            invariant
                i <= inputs.len(),
                pairs.deep_view() =~= Job::input_pairs(
                    inputs.deep_view().subrange(0, i as int),
                    path_to_hash@,
                ),
                forall|k: int|
                    0 <= k < i ==> path_to_hash@.contains_key(
                        #[trigger] inputs.deep_view()[k],
                    ),
            decreases inputs.len() - i,
        {
            proof {
                assert(inputs@[i as int]@ == inputs.deep_view()[i as int]);
                assert(inputs.deep_view().contains(inputs.deep_view()[i as int]));
            }
            match path_to_hash.get(&inputs[i]) {
                Some(h) => {
                    let ghost pairs_pre = pairs.deep_view();
                    let ghost hv = h@;
                    pairs.push((inputs[i].clone(), h));
                    proof {
                        assert(pairs.deep_view() =~= pairs_pre.push(
                            (inputs.deep_view()[i as int], hv),
                        ));
                        assert(pairs.deep_view() =~= Job::input_pairs(
                            inputs.deep_view().subrange(0, i + 1),
                            path_to_hash@,
                        ));
                    }
                },
                None => {
                    proof {
                        assert(rec_inputs.contains(inputs.deep_view()[i as int]));
                    }
                    return Err(JobError::MissingInputHash(inputs[i].clone()));
                },
            }
            i = i + 1;
        }
        proof {
            assert(inputs.deep_view().subrange(0, inputs.deep_view().len() as int) =~= inputs
                .deep_view());
            assert forall|p: Seq<char>| rec_inputs.contains(p) implies path_to_hash@.contains_key(
                p,
            ) by {
                assert(inputs.deep_view().contains(p));
                let k = choose|k: int|
                    0 <= k < inputs.deep_view().len() && inputs.deep_view()[k] == p;
            }
        }

        let mut j: usize = 0;
        while j < outputs.len()
            invariant
                j <= outputs.len(),
                forall|k: int|
                    0 <= k < j ==> paths::is_safe_output_path(#[trigger] outputs.deep_view()[k]),
            decreases outputs.len() - j,
        {
            proof {
                assert(outputs@[j as int]@ == outputs.deep_view()[j as int]);
                assert(outputs.deep_view().contains(outputs.deep_view()[j as int]));
            }
            if paths::check_absolute(outputs[j].as_str()) {
                proof {
                    assert(rec_outputs.contains(outputs.deep_view()[j as int]));
                    assert(paths::starts_absolute(outputs.deep_view()[j as int]));
                    assert(!paths::is_safe_output_path(outputs.deep_view()[j as int]));
                }
                return Err(JobError::AbsoluteOutputPath(outputs[j].clone()));
            }
            if paths::check_parent_segment(outputs[j].as_str()) {
                proof {
                    assert(rec_outputs.contains(outputs.deep_view()[j as int]));
                    assert(paths::has_parent_segment(outputs.deep_view()[j as int]));
                    assert(!paths::is_safe_output_path(outputs.deep_view()[j as int]));
                }
                return Err(JobError::EscapingOutputPath(outputs[j].clone()));
            }
            j = j + 1;
        }
        proof {
            assert forall|p: Seq<char>| rec_outputs.contains(p) implies paths::is_safe_output_path(
                p,
            ) by {
                assert(outputs.deep_view().contains(p));
                let k = choose|k: int|
                    0 <= k < outputs.deep_view().len() && outputs.deep_view()[k] == p;
            }
        }

        let id = fingerprint::fingerprint_parts(record.tool.as_str(), &record.args, &pairs, &outputs);
        Ok(Job { id, command: Command { tool: record.tool, args: record.args }, input_files: inputs, outputs })
    }
}

/// Declaration order never affects identity: two well-formed jobs with the
/// same command, the same set of input paths, and the same set of output
/// paths carry the same fingerprint under any one hash cache, because their
/// canonical (strictly sorted) path lists coincide.
pub proof fn lemma_identity_order_independent(
    j1: Job,
    j2: Job,
    hashes: Map<Seq<char>, Seq<char>>,
)
    requires
        j1.wf(),
        j2.wf(),
        j1.command.tool@ == j2.command.tool@,
        j1.command.args.deep_view() == j2.command.args.deep_view(),
        forall|p: Seq<char>|
            j1.input_files.deep_view().contains(p) <==> j2.input_files.deep_view().contains(p),
        forall|p: Seq<char>|
            j1.outputs.deep_view().contains(p) <==> j2.outputs.deep_view().contains(p),
    ensures
        j1.expected_id(hashes) == j2.expected_id(hashes),
{
    canon::lemma_strict_sorted_unique(j1.input_files.deep_view(), j2.input_files.deep_view());
    canon::lemma_strict_sorted_unique(j1.outputs.deep_view(), j2.outputs.deep_view());
    assert(j1.input_files.deep_view() == j2.input_files.deep_view());
    assert(j1.outputs.deep_view() == j2.outputs.deep_view());
}

} // verus!
