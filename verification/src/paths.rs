//! Sandboxed path resolution: the containment check that keeps file-browser
//! callers inside the workspace root.
//!
//! The caller canonicalizes both paths; this module decides, on the
//! canonical forms alone, whether the candidate stays within the root.

use vstd::prelude::*;

use crate::error::WorkSpaceError;
use crate::text::chars_of;

verus! {

/// The candidate equals the root or extends it at a component boundary,
/// the way `Path::starts_with` compares whole components.
pub open spec fn path_within(root: Seq<char>, candidate: Seq<char>) -> bool {
    root == candidate || (root.len() < candidate.len() && candidate.take(root.len() as int)
        == root && (candidate[root.len() as int] == '/' || (root.len() > 0 && root.last()
        == '/')))
}

/// Accepts a canonical candidate path that stays within the canonical
/// root; a path outside the root fails with `PathEscape`.
pub fn resolve_path(canonical_root: &str, candidate: &str) -> (r: Result<String, WorkSpaceError>)
    ensures
        r is Ok <==> path_within(canonical_root@, candidate@),
        r matches Ok(p) ==> p@ == candidate@,
        r matches Err(e) ==> (e matches WorkSpaceError::PathEscape(m) && m@ == candidate@),
{
    let rv = chars_of(canonical_root);
    let cv = chars_of(candidate);
    let rn = rv.len();
    let cn = cv.len();
    if rn > cn {
        proof {
            assert(!path_within(canonical_root@, candidate@));
        }
        return Err(WorkSpaceError::PathEscape(candidate.to_owned()));
    }
    let mut i: usize = 0;
    while i < rn
        invariant
            i <= rn <= cn,
            rn == canonical_root@.len(),
            cn == candidate@.len(),
            rv@ == canonical_root@,
            cv@ == candidate@,
            forall|k: int| 0 <= k < i ==> canonical_root@[k] == candidate@[k],
        decreases rn - i,
    {
        if rv[i] != cv[i] {
            proof {
                if canonical_root@ == candidate@ {
                    assert(false);
                }
                if candidate@.take(rn as int) == canonical_root@ {
                    assert(candidate@.take(rn as int)[i as int] == candidate@[i as int]);
                }
            }
            return Err(WorkSpaceError::PathEscape(candidate.to_owned()));
        }
        i = i + 1;
    }
    proof {
        assert(candidate@.take(rn as int) =~= canonical_root@);
    }
    if rn == cn {
        proof {
            assert(canonical_root@ =~= candidate@);
        }
        return Ok(candidate.to_owned());
    }
    if cv[rn] == '/' || (rn > 0 && rv[rn - 1] == '/') {
        return Ok(candidate.to_owned());
    }
    proof {
        if canonical_root@ == candidate@ {
            assert(canonical_root@.len() == candidate@.len());
            assert(false);
        }
    }
    Err(WorkSpaceError::PathEscape(candidate.to_owned()))
}

} // verus!
