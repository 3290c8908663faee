//! Safety validation of declared output paths.
//!
//! A job's declared outputs are resolved inside its isolated workspace, so a
//! path must never escape it: absolute paths and paths with a `..` segment
//! are rejected before a job can enter the graph.

use vstd::prelude::*;

verus! {

/// The path is absolute: it begins with a root separator. Paths are
/// modelled POSIX-style; a drive-letter prefix is not recognized.
pub open spec fn starts_absolute(s: Seq<char>) -> bool {
    s.len() > 0 && s[0] == '/'
}

/// Position `i` starts a `..` path segment: the two dots stand alone between
/// separators (or the ends of the path).
pub open spec fn is_parent_segment_at(s: Seq<char>, i: int) -> bool {
    &&& 0 <= i
    &&& i + 2 <= s.len()
    &&& s[i] == '.'
    &&& s[i + 1] == '.'
    &&& (i == 0 || s[i - 1] == '/')
    &&& (i + 2 == s.len() || s[i + 2] == '/')
}

/// The path contains a `..` segment somewhere.
pub open spec fn has_parent_segment(s: Seq<char>) -> bool {
    exists|i: int| is_parent_segment_at(s, i)
}

/// A path is a safe output path when it is relative and never steps up
/// through a parent directory, so it cannot resolve outside the workspace.
pub open spec fn is_safe_output_path(s: Seq<char>) -> bool {
    !starts_absolute(s) && !has_parent_segment(s)
}

/// Decide whether a path is absolute.
pub fn check_absolute(s: &str) -> (r: bool)
    ensures
        r == starts_absolute(s@),
{
    let n: usize = s.unicode_len();
    n > 0 && s.get_char(0) == '/'
}

/// Decide whether a path contains a `..` segment.
pub fn check_parent_segment(s: &str) -> (r: bool)
    ensures
        r == has_parent_segment(s@),
{
    let n: usize = s.unicode_len();
    if n < 2 {
        proof {
            assert(forall|i: int| !is_parent_segment_at(s@, i));
        }
        return false;
    }
    let mut i: usize = 0;
    while i <= n - 2
        invariant
            n == s@.len(),
            2 <= n,
            i <= n - 1,
            forall|k: int| 0 <= k < i ==> !is_parent_segment_at(s@, k),
        decreases n - i,
    {
        let c0 = s.get_char(i);
        if c0 == '.' {
            let c1 = s.get_char(i + 1);
            if c1 == '.' {
                let pre_ok: bool = if i == 0 {
                    true
                } else {
                    s.get_char(i - 1) == '/'
                };
                let post_ok: bool = if i + 2 == n {
                    true
                } else {
                    s.get_char(i + 2) == '/'
                };
                if pre_ok && post_ok {
                    proof {
                        assert(is_parent_segment_at(s@, i as int));
                    }
                    return true;
                }
            }
        }
        i = i + 1;
    }
    proof {
        assert forall|k: int| !is_parent_segment_at(s@, k) by {
            if 0 <= k && k + 2 <= n {
                assert(k < i);
            }
        }
    }
    false
}

/// Decide whether a declared output path is safe to use.
pub fn check_output_path(s: &str) -> (r: bool)
    ensures
        r == is_safe_output_path(s@),
{
    let n: usize = s.unicode_len();
    if n > 0 && s.get_char(0) == '/' {
        return false;
    }
    if n < 2 {
        proof {
            assert(forall|i: int| !is_parent_segment_at(s@, i));
        }
        return true;
    }
    let mut i: usize = 0;
    while i <= n - 2
        invariant
            n == s@.len(),
            2 <= n,
            i <= n - 1,
            forall|k: int| 0 <= k < i ==> !is_parent_segment_at(s@, k),
        decreases n - i,
    {
        let c0 = s.get_char(i);
        if c0 == '.' {
            let c1 = s.get_char(i + 1);
            if c1 == '.' {
                let pre_ok: bool = if i == 0 {
                    true
                } else {
                    s.get_char(i - 1) == '/'
                };
                let post_ok: bool = if i + 2 == n {
                    true
                } else {
                    s.get_char(i + 2) == '/'
                };
                if pre_ok && post_ok {
                    proof {
                        assert(is_parent_segment_at(s@, i as int));
                    }
                    return false;
                }
            }
        }
        i = i + 1;
    }
    proof {
        assert forall|k: int| !is_parent_segment_at(s@, k) by {
            if 0 <= k && k + 2 <= n {
                assert(k < i);
            }
        }
    }
    true
}

} // verus!
