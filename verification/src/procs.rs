//! Selection of running executables that may be offered for wrapping.
//!
//! The surrounding application enumerates the executable paths of running
//! processes; the library decides which of them qualify: the path must
//! exist as a regular file writable by the user, and must not lie under a
//! reserved system prefix.

use vstd::prelude::*;

use crate::fsmodel::{has_write_access, node_is_writable_file, FsNode, SimFs};
use crate::paths::{is_system, is_system_path, str_equal};

verus! {

/// A candidate path qualifies: it names a writable regular file outside
/// the reserved system prefixes.
pub open spec fn offerable(m: Map<Seq<char>, FsNode>, p: Seq<char>) -> bool {
    m.contains_key(p) && node_is_writable_file(m[p]) && !is_system(p)
}

/// Some element of `v` holds exactly the characters `p`.
pub open spec fn holds_path(v: Seq<String>, p: Seq<char>) -> bool {
    exists|k: int| 0 <= k < v.len() && (#[trigger] v[k]@) == p
}

/// A path held by a sequence is still held after elements are appended.
proof fn lemma_holds_path_extend(v1: Seq<String>, v2: Seq<String>, p: Seq<char>)
    requires
        holds_path(v1, p),
        v1.len() <= v2.len(),
        forall|j: int| 0 <= j < v1.len() ==> v2[j] == v1[j],
    ensures
        holds_path(v2, p),
{
    let k = choose|k: int| 0 <= k < v1.len() && (#[trigger] v1[k]@) == p;
    assert(v2[k]@ == p);
}

/// Whether some element of `v` holds the characters of `s`.
fn vec_contains_str(v: &Vec<String>, s: &str) -> (r: bool)
    ensures
        r == holds_path(v@, s@),
{
    let n = v.len();
    let mut i: usize = 0;
    while i < n
        invariant
            0 <= i <= n,
            n == v@.len(),
            forall|j: int| 0 <= j < i ==> (#[trigger] v@[j]@) != s@,
        decreases n - i,
    {
        if str_equal(v[i].as_str(), s) {
            proof {
                assert(v@[i as int]@ == s@);
            }
            return true;
        }
        i += 1;
    }
    false
}

/// Get the list of executable paths of running processes that qualify for
/// wrapping: of the candidate paths handed in, exactly those that exist as
/// writable regular files outside the reserved system prefixes, each once.
pub fn get_executable_paths(fs: &SimFs, candidates: &Vec<String>) -> (r: Vec<String>)
    requires
        fs.wf(),
    ensures
        forall|j: int| #![trigger r@[j]] 0 <= j < r@.len() ==> offerable(fs@, r@[j]@),
        forall|j: int| #![trigger r@[j]] 0 <= j < r@.len() ==> holds_path(candidates@, r@[j]@),
        forall|k: int|
            0 <= k < candidates@.len() && offerable(fs@, (#[trigger] candidates@[k])@)
                ==> holds_path(r@, candidates@[k]@),
        forall|j1: int, j2: int| #![trigger r@[j1], r@[j2]]
            0 <= j1 < j2 < r@.len() ==> r@[j1]@ != r@[j2]@,
{
    let mut r: Vec<String> = Vec::new();
    let n = candidates.len();
    let mut i: usize = 0;
    while i < n
        invariant
            fs.wf(),
            0 <= i <= n,
            n == candidates@.len(),
            forall|j: int| #![trigger r@[j]] 0 <= j < r@.len() ==> offerable(fs@, r@[j]@),
            forall|j: int| #![trigger r@[j]]
                0 <= j < r@.len() ==> holds_path(candidates@, r@[j]@),
            forall|k: int|
                0 <= k < i && offerable(fs@, (#[trigger] candidates@[k])@) ==> holds_path(
                    r@,
                    candidates@[k]@,
                ),
            forall|j1: int, j2: int| #![trigger r@[j1], r@[j2]]
                0 <= j1 < j2 < r@.len() ==> r@[j1]@ != r@[j2]@,
        decreases n - i,
    {
        let c = candidates[i].as_str();
        let qualifies = has_write_access(fs, c) && !is_system_path(c);
        let already = vec_contains_str(&r, c);
        if qualifies && !already {
            let ghost r_before = r@;
            r.push(String::from_str(c));
            proof {
                assert(r@[r@.len() - 1]@ == candidates@[i as int]@);
                assert(forall|j: int| 0 <= j < r_before.len() ==> r@[j] == r_before[j]);
                assert(holds_path(candidates@, r@[r@.len() - 1]@));
                assert(holds_path(r@, candidates@[i as int]@));
                assert forall|k: int|
                    0 <= k < i && offerable(fs@, (#[trigger] candidates@[k])@) implies holds_path(
                    r@,
                    candidates@[k]@,
                ) by {
                    lemma_holds_path_extend(r_before, r@, candidates@[k]@);
                }
                assert forall|j: int| #![trigger r@[j]] 0 <= j < r@.len() implies holds_path(
                    candidates@,
                    r@[j]@,
                ) by {
                    if j < r_before.len() {
                        assert(r@[j] == r_before[j]);
                    }
                }
            }
        }
        i += 1;
    }
    r
}

} // verus!
