//! Workspace capture validation.
//!
//! A job runs inside an isolated directory with its declared inputs
//! materialized; afterwards only its declared outputs are captured. This
//! module decides what to capture: every declared output must exist after
//! the run, and files produced incidentally are ignored.

use vstd::prelude::*;

use crate::job::Job;

verus! {

/// A declared output that the job failed to produce.
#[derive(Debug, Clone)]
pub enum CaptureError {
    MissingOutput(String),
}

/// Whether the list holds this path.
fn contains_path(v: &Vec<String>, s: &String) -> (r: bool)
    ensures
        r == v.deep_view().contains(s@),
{
    let mut i: usize = 0;
    while i < v.len()
        invariant
            i <= v.len(),
            forall|k: int| 0 <= k < i ==> v.deep_view()[k] != s@,
        decreases v.len() - i,
    {
        proof {
            assert(v@[i as int]@ == v.deep_view()[i as int]);
        }
        if v[i] == *s {
            proof {
                assert(v.deep_view().contains(v.deep_view()[i as int]));
            }
            return true;
        }
        i = i + 1;
    }
    proof {
        if v.deep_view().contains(s@) {
            let k = choose|k: int| 0 <= k < v.deep_view().len() && v.deep_view()[k] == s@;
        }
    }
    false
}

/// Decide which files to capture out of a finished workspace.
///
/// `present` lists the paths that exist in the workspace after the command
/// ran. Exactly the job's declared outputs are captured, in declared
/// (canonical) order; a declared output that is not present fails with that
/// path, and undeclared files are ignored. Succeeds if and only if every
/// declared output is present.
#[verifier::loop_isolation(false)]
pub fn capture_plan(job: &Job, present: &Vec<String>) -> (r: Result<Vec<String>, CaptureError>)
    ensures
        (r is Ok) <==> (forall|p: Seq<char>|
            job.outputs.deep_view().contains(p) ==> present.deep_view().contains(p)),
        match r {
            Ok(outs) => outs.deep_view() == job.outputs.deep_view(),
            Err(CaptureError::MissingOutput(p)) => job.outputs.deep_view().contains(p@)
                && !present.deep_view().contains(p@),
        },
{
    let mut outs: Vec<String> = Vec::new();
    let mut i: usize = 0;
    while i < job.outputs.len()
        invariant
            i <= job.outputs.len(),
            outs.deep_view() =~= job.outputs.deep_view().subrange(0, i as int),
            forall|k: int|
                0 <= k < i ==> present.deep_view().contains(
                    #[trigger] job.outputs.deep_view()[k],
                ),
        decreases job.outputs.len() - i,
    {
        proof {
            assert(job.outputs@[i as int]@ == job.outputs.deep_view()[i as int]);
            assert(job.outputs.deep_view().contains(job.outputs.deep_view()[i as int]));
        }
        if !contains_path(present, &job.outputs[i]) {
            return Err(CaptureError::MissingOutput(job.outputs[i].clone()));
        }
        let ghost outspre = outs.deep_view();
        outs.push(job.outputs[i].clone());
        proof {
            assert(outs.deep_view() =~= outspre.push(job.outputs.deep_view()[i as int]));
            assert(outs.deep_view() =~= job.outputs.deep_view().subrange(0, i + 1));
        }
        i = i + 1;
    }
    proof {
        assert(outs.deep_view() =~= job.outputs.deep_view());
        assert forall|p: Seq<char>|
            job.outputs.deep_view().contains(p) implies present.deep_view().contains(p) by {
            let k = choose|k: int|
                0 <= k < job.outputs.deep_view().len() && job.outputs.deep_view()[k] == p;
        }
    }
    Ok(outs)
}

} // verus!
