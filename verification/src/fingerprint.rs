//! Deterministic job fingerprinting.
//!
//! A job's identity is a 64-bit hash of its command (tool and argument order
//! preserved), the content hashes of its input files in sorted path order,
//! and its sorted, deduplicated output paths. The composition is explicit and
//! versioned, so the hashed shape is a stable contract: identity never
//! depends on wall-clock time, environment, or declaration order.

use vstd::prelude::*;

verus! {

/// First byte folded into every fingerprint, so the hashed shape can change
/// in later revisions without colliding with this one.
pub const FINGERPRINT_VERSION: u64 = 1;

/// FNV-1a 64-bit offset basis.
pub const FNV_OFFSET_BASIS: u64 = 0xcbf2_9ce4_8422_2325;

/// FNV-1a 64-bit prime.
pub const FNV_PRIME: u64 = 0x0000_0100_0000_01b3;

/// Stable identity of one job: a deterministic fingerprint of its command,
/// resolved input hashes, and declared output paths.
#[derive(Debug, Clone, Copy, PartialEq, Eq, Hash, Structural)]
pub struct Id(u64);

impl Id {
    /// The fingerprint value this identity carries.
    pub closed spec fn spec_value(self) -> u64 {
        self.0
    }

    pub fn new(v: u64) -> (r: Id)
        ensures
            r.spec_value() == v,
    {
        Id(v)
    }

    pub fn value(self) -> (v: u64)
        ensures
            v == self.spec_value(),
    {
        self.0
    }
}

/// One FNV-1a step: xor the next value in, then multiply by the prime
/// modulo 2^64.
pub open spec fn mix(h: u64, x: u64) -> u64 {
    vstd::wrapping::u64_specs::wrapping_mul(h ^ x, FNV_PRIME)
}

fn mix_exec(h: u64, x: u64) -> (r: u64)
    ensures
        r == mix(h, x),
{
    (h ^ x).wrapping_mul(FNV_PRIME)
}

/// Fold every character of `s` into the hash, left to right.
pub open spec fn mix_chars(h: u64, s: Seq<char>) -> u64
    decreases s.len(),
{
    if s.len() == 0 {
        h
    } else {
        mix(mix_chars(h, s.drop_last()), s.last() as u64)
    }
}

/// Fold a string into the hash: its length first, then its characters, so
/// that adjacent strings cannot run together.
pub open spec fn mix_string(h: u64, s: Seq<char>) -> u64 {
    mix_chars(mix(h, s.len() as u64), s)
}

/// Fold a list of strings into the hash, in order.
pub open spec fn mix_strings(h: u64, l: Seq<Seq<char>>) -> u64
    decreases l.len(),
{
    if l.len() == 0 {
        h
    } else {
        mix_string(mix_strings(h, l.drop_last()), l.last())
    }
}

/// Fold a list of (path, content hash) pairs into the hash, in order.
pub open spec fn mix_pairs(h: u64, l: Seq<(Seq<char>, Seq<char>)>) -> u64
    decreases l.len(),
{
    if l.len() == 0 {
        h
    } else {
        mix_string(mix_string(mix_pairs(h, l.drop_last()), l.last().0), l.last().1)
    }
}

/// The fingerprint of a job, as a pure function of its canonical parts:
/// the tool, the arguments in declared order, the input files as
/// (path, content hash) pairs in sorted path order, and the sorted,
/// deduplicated output paths.
pub open spec fn spec_fingerprint(
    tool: Seq<char>,
    args: Seq<Seq<char>>,
    inputs: Seq<(Seq<char>, Seq<char>)>,
    outputs: Seq<Seq<char>>,
) -> u64 {
    let h0 = mix(FNV_OFFSET_BASIS, FINGERPRINT_VERSION);
    let h1 = mix_string(h0, tool);
    let h2 = mix_strings(mix(h1, args.len() as u64), args);
    let h3 = mix_pairs(mix(h2, inputs.len() as u64), inputs);
    mix_strings(mix(h3, outputs.len() as u64), outputs)
}

fn mix_str(h: u64, s: &str) -> (r: u64)
    ensures
        r == mix_string(h, s@),
{
    let n: usize = s.unicode_len();
    let mut acc: u64 = mix_exec(h, n as u64);
    let mut i: usize = 0;
    while i < n
        invariant
            n == s@.len(),
            i <= n,
            acc == mix_chars(mix(h, s@.len() as u64), s@.subrange(0, i as int)),
        decreases n - i,
    {
        let c = s.get_char(i);
        proof {
            assert(s@.subrange(0, i + 1 as int).drop_last() =~= s@.subrange(0, i as int));
        }
        acc = mix_exec(acc, c as u64);
        i = i + 1;
    }
    proof {
        assert(s@.subrange(0, n as int) =~= s@);
    }
    acc
}

/// Compute the fingerprint of a job from its canonical parts.
///
/// `inputs` must already be in sorted path order and `outputs` sorted and
/// deduplicated for identity to be declaration-order independent; callers
/// canonicalize before fingerprinting.
pub fn fingerprint_parts(
    tool: &str,
    args: &Vec<String>,
    inputs: &Vec<(String, String)>,
    outputs: &Vec<String>,
) -> (r: Id)
    ensures
        r.spec_value() == spec_fingerprint(
            tool@,
            args.deep_view(),
            inputs.deep_view(),
            outputs.deep_view(),
        ),
{
    let h0 = mix_exec(FNV_OFFSET_BASIS, FINGERPRINT_VERSION);
    let h1 = mix_str(h0, tool);

    let mut acc: u64 = mix_exec(h1, args.len() as u64);
    let mut i: usize = 0;
    while i < args.len()
        invariant
            i <= args.len(),
            acc == mix_strings(
                mix(mix_string(mix(FNV_OFFSET_BASIS, FINGERPRINT_VERSION), tool@), args.deep_view().len() as u64),
                args.deep_view().subrange(0, i as int),
            ),
        decreases args.len() - i,
    {
        proof {
            assert(args.deep_view().subrange(0, i + 1 as int).drop_last() =~= args.deep_view().subrange(0, i as int));
        }
        acc = mix_str(acc, args[i].as_str());
        i = i + 1;
    }
    proof {
        assert(args.deep_view().subrange(0, args.deep_view().len() as int) =~= args.deep_view());
    }

    let h2 = acc;
    let mut acc2: u64 = mix_exec(h2, inputs.len() as u64);
    let mut j: usize = 0;
    while j < inputs.len()
        invariant
            j <= inputs.len(),
            acc2 == mix_pairs(
                mix(h2, inputs.deep_view().len() as u64),
                inputs.deep_view().subrange(0, j as int),
            ),
        decreases inputs.len() - j,
    {
        proof {
            assert(inputs.deep_view().subrange(0, j + 1 as int).drop_last() =~= inputs.deep_view().subrange(0, j as int));
        }
        acc2 = mix_str(acc2, inputs[j].0.as_str());
        acc2 = mix_str(acc2, inputs[j].1.as_str());
        j = j + 1;
    }
    proof {
        assert(inputs.deep_view().subrange(0, inputs.deep_view().len() as int) =~= inputs.deep_view());
    }

    let h3 = acc2;
    let mut acc3: u64 = mix_exec(h3, outputs.len() as u64);
    let mut k: usize = 0;
    while k < outputs.len()
        invariant
            k <= outputs.len(),
            acc3 == mix_strings(
                mix(h3, outputs.deep_view().len() as u64),
                outputs.deep_view().subrange(0, k as int),
            ),
        decreases outputs.len() - k,
    {
        proof {
            assert(outputs.deep_view().subrange(0, k + 1 as int).drop_last() =~= outputs.deep_view().subrange(0, k as int));
        }
        acc3 = mix_str(acc3, outputs[k].as_str());
        k = k + 1;
    }
    proof {
        assert(outputs.deep_view().subrange(0, outputs.deep_view().len() as int) =~= outputs.deep_view());
    }

    Id::new(acc3)
}

/// Fingerprinting is deterministic: the identity is a pure function of the
/// job's canonical parts, so two jobs with equal parts have equal identity,
/// in one run or across process restarts.
pub proof fn lemma_fingerprint_deterministic(
    tool1: Seq<char>,
    args1: Seq<Seq<char>>,
    inputs1: Seq<(Seq<char>, Seq<char>)>,
    outputs1: Seq<Seq<char>>,
    tool2: Seq<char>,
    args2: Seq<Seq<char>>,
    inputs2: Seq<(Seq<char>, Seq<char>)>,
    outputs2: Seq<Seq<char>>,
)
    requires
        tool1 == tool2,
        args1 == args2,
        inputs1 == inputs2,
        outputs1 == outputs2,
    ensures
        spec_fingerprint(tool1, args1, inputs1, outputs1) == spec_fingerprint(
            tool2,
            args2,
            inputs2,
            outputs2,
        ),
{
}

} // verus!
