//! The toggle state machine: install a wrapper for an unwrapped target,
//! revert a wrapped one.
//!
//! The state of a target is read off the filesystem alone: a target is
//! wrapped exactly when its backup path exists.  `execute` is the single
//! entry point; it dispatches a directory to a scan followed by per-file
//! toggles, and a single file to install or revert.  Every transition is
//! specified as a pure function of the filesystem map, and the executable
//! orchestrator is proved to realise exactly that function.

use vstd::prelude::*;

use crate::fsmodel::{scan_hit, FsNode, SimFs, SimNode};
use crate::paths::{
    backup_of, backup_path, has_bak_extension, original_of, original_path, path_is_backup,
};
use crate::slug::{escape_seq, generate_wrapper_name, lemma_escape_seq_len, slug_of, slug_tag};

verus! {

/// The failures the toggle machine can report.
#[derive(Clone, Copy, Debug, PartialEq, Eq, Structural)]
pub enum ToggleError {
    /// The target path names nothing on disk.
    PathNotFound,
    /// A revert was asked of a target whose backup does not exist.
    NoBackupFound,
    /// A filesystem permission forbade a step.
    PermissionDenied,
    /// A filesystem step failed for any other reason.
    IoFailure,
}

impl ToggleError {
    /// A short human-readable description of the failure.
    pub fn message(&self) -> (r: &'static str)
        ensures
            *self is PathNotFound ==> r@ == "path does not exist"@,
            *self is NoBackupFound ==> r@ == "no backup found, cannot revert changes"@,
            *self is PermissionDenied ==> r@ == "permission denied"@,
            *self is IoFailure ==> r@ == "filesystem operation failed"@,
    {
        match self {
            ToggleError::PathNotFound => "path does not exist",
            ToggleError::NoBackupFound => "no backup found, cannot revert changes",
            ToggleError::PermissionDenied => "permission denied",
            ToggleError::IoFailure => "filesystem operation failed",
        }
    }
}

/// The permission mode given to a generated wrapper script.
pub open spec fn script_mode() -> u32 {
    0o755
}

/// The content of the wrapper script for a target: it exports the three
/// render-offload environment variables, then execs the backup of the
/// target, passing all arguments through.
pub open spec fn script_of(target: Seq<char>) -> Seq<char> {
    "#!/bin/bash\nexport __NV_PRIME_RENDER_OFFLOAD=1\nexport __GLX_VENDOR_LIBRARY_NAME=nvidia\nexport __VK_LAYER_NV_optimus=NVIDIA_only\nexec \""@
        + target + ".bak\" \"$@\"\n"@
}

/// Build the wrapper script text for a target.
pub fn wrapper_script(target_path: &str) -> (r: String)
    ensures
        r@ == script_of(target_path@),
{
    String::from_str(
        "#!/bin/bash\nexport __NV_PRIME_RENDER_OFFLOAD=1\nexport __GLX_VENDOR_LIBRARY_NAME=nvidia\nexport __VK_LAYER_NV_optimus=NVIDIA_only\nexec \"",
    ).concat(target_path).concat(".bak\" \"$@\"\n")
}

/// The path of the wrapper script named `name` in `dir`.
pub open spec fn wrapper_path_of(dir: Seq<char>, name: Seq<char>) -> Seq<char> {
    dir + seq!['/'] + name
}

/// Join the wrapper directory and the wrapper name.
pub fn wrapper_path(wrapper_dir: &str, wrapper_name: &str) -> (r: String)
    ensures
        r@ == wrapper_path_of(wrapper_dir@, wrapper_name@),
{
    proof {
        reveal_strlit("/");
        assert("/"@ =~= seq!['/']);
    }
    String::from_str(wrapper_dir).concat("/").concat(wrapper_name)
}

/// The effect of installing a wrapper for `t`, named `name` in `d`, on the
/// filesystem `m`: write the executable script, rename the target to its
/// backup, and leave a symlink to the script at the target.  Each step
/// fails as the real filesystem would, leaving the earlier steps applied.
pub open spec fn install_model(
    m: Map<Seq<char>, FsNode>,
    d: Seq<char>,
    t: Seq<char>,
    name: Seq<char>,
) -> (Map<Seq<char>, FsNode>, Result<(), ToggleError>) {
    let wp = wrapper_path_of(d, name);
    if m.contains_key(wp) && m[wp] is Dir {
        (m, Err(ToggleError::IoFailure))
    } else {
        let m1 = m.insert(wp, FsNode::File { mode: script_mode(), content: script_of(t) });
        if !m1.contains_key(t) {
            (m1, Err(ToggleError::IoFailure))
        } else {
            let m2 = m1.remove(t).insert(backup_of(t), m1[t]);
            if m2.contains_key(t) {
                (m2, Err(ToggleError::IoFailure))
            } else {
                (m2.insert(t, FsNode::Link { dest: wp }), Ok(()))
            }
        }
    }
}

/// The effect of reverting the wrapper of `t`: remove the symlink at the
/// original location, rename the backup back, and delete the wrapper
/// script.  A missing backup is refused up front with `NoBackupFound` and
/// no mutation; a failure at the final step leaves the restored target in
/// place, as the real sequence does.
pub open spec fn revert_model(
    m: Map<Seq<char>, FsNode>,
    d: Seq<char>,
    t: Seq<char>,
    name: Seq<char>,
) -> (Map<Seq<char>, FsNode>, Result<(), ToggleError>) {
    let bak = backup_of(t);
    let orig = original_of(t);
    let wp = wrapper_path_of(d, name);
    if !m.contains_key(bak) {
        (m, Err(ToggleError::NoBackupFound))
    } else if !m.contains_key(orig) || m[orig] is Dir {
        (m, Err(ToggleError::IoFailure))
    } else {
        let m1 = m.remove(orig);
        if !m1.contains_key(bak) {
            (m1, Err(ToggleError::IoFailure))
        } else {
            let m2 = m1.remove(bak).insert(orig, m1[bak]);
            if !m2.contains_key(wp) || m2[wp] is Dir {
                (m2, Err(ToggleError::IoFailure))
            } else {
                (m2.remove(wp), Ok(()))
            }
        }
    }
}

/// The toggle of a single (non-directory) target: revert when the backup
/// path exists, install otherwise; `true` reports a revert.
pub open spec fn toggle_model(m: Map<Seq<char>, FsNode>, d: Seq<char>, t: Seq<char>) -> (
    Map<Seq<char>, FsNode>,
    Result<bool, ToggleError>,
) {
    if !m.contains_key(t) {
        (m, Err(ToggleError::PathNotFound))
    } else if m[t] is Dir {
        (m, Err(ToggleError::IoFailure))
    } else {
        let name = slug_of(original_of(t));
        if m.contains_key(backup_of(t)) {
            let step = revert_model(m, d, t, name);
            (
                step.0,
                match step.1 {
                    Ok(_) => Ok(true),
                    Err(e) => Err(e),
                },
            )
        } else {
            let step = install_model(m, d, t, name);
            (
                step.0,
                match step.1 {
                    Ok(_) => Ok(false),
                    Err(e) => Err(e),
                },
            )
        }
    }
}

/// The directory batch: each scanned path is toggled in turn, stopping at
/// the first failure and reporting the result of the last entry processed
/// (`acc` when none is).  The scanner hands out regular files only, so a
/// wrapped target shows up as its backup file: a path in backup form
/// stands in for the original it names, and is passed over when that
/// original is gone (a stray backup with nothing to revert).
pub open spec fn batch_model(
    m: Map<Seq<char>, FsNode>,
    d: Seq<char>,
    ps: Seq<Seq<char>>,
    acc: Result<bool, ToggleError>,
) -> (Map<Seq<char>, FsNode>, Result<bool, ToggleError>)
    decreases ps.len(),
{
    if ps.len() == 0 {
        (m, acc)
    } else if has_bak_extension(ps[0]) && !m.contains_key(original_of(ps[0])) {
        batch_model(m, d, ps.drop_first(), acc)
    } else {
        let step = toggle_model(m, d, original_of(ps[0]));
        if step.1 is Err {
            step
        } else {
            batch_model(step.0, d, ps.drop_first(), step.1)
        }
    }
}

/// A sequence of paths that a scan of directory `t` in filesystem `m` may
/// return: exactly the executable regular files strictly under `t`, each
/// once, in some order.
pub open spec fn valid_scan(m: Map<Seq<char>, FsNode>, t: Seq<char>, ps: Seq<Seq<char>>) -> bool {
    &&& forall|k: int| 0 <= k < ps.len() ==> scan_hit(m, t, #[trigger] ps[k])
    &&& forall|p: Seq<char>|
        scan_hit(m, t, p) ==> exists|k: int| 0 <= k < ps.len() && #[trigger] ps[k] == p
    &&& forall|k1: int, k2: int| 0 <= k1 < k2 < ps.len() ==> ps[k1] != ps[k2]
}

/// Create a wrapper script for a target, move the target to its backup
/// path, and leave a symlink to the script at the target's location.
pub fn create_wrapper(
    fs: &mut SimFs,
    target_path: &str,
    wrapper_dir: &str,
    wrapper_name: &str,
) -> (r: Result<(), ToggleError>)
    requires
        old(fs).wf(),
    ensures
        final (fs).wf(),
        final (fs)@ == install_model(old(fs)@, wrapper_dir@, target_path@, wrapper_name@).0,
        r == install_model(old(fs)@, wrapper_dir@, target_path@, wrapper_name@).1,
{
    let wp = wrapper_path(wrapper_dir, wrapper_name);
    if fs.is_dir(wp.as_str()) {
        return Err(ToggleError::IoFailure);
    }
    let script = wrapper_script(target_path);
    fs.set_node(wp.as_str(), SimNode::File { mode: 0o755, content: script });
    if !fs.path_exists(target_path) {
        return Err(ToggleError::IoFailure);
    }
    let moved = fs.remove_node(target_path);
    let bak = backup_path(target_path);
    fs.set_node(bak.as_str(), moved);
    if fs.path_exists(target_path) {
        return Err(ToggleError::IoFailure);
    }
    fs.set_node(target_path, SimNode::Link { dest: wp });
    Ok(())
}

/// Revert the changes made to the target executable: remove the symlink,
/// restore the backup, delete the wrapper script.
pub fn revert_changes(
    fs: &mut SimFs,
    target: &str,
    wrapper_dir: &str,
    wrapper_name: &str,
) -> (r: Result<(), ToggleError>)
    requires
        old(fs).wf(),
    ensures
        final (fs).wf(),
        final (fs)@ == revert_model(old(fs)@, wrapper_dir@, target@, wrapper_name@).0,
        r == revert_model(old(fs)@, wrapper_dir@, target@, wrapper_name@).1,
{
    let bak = backup_path(target);
    if !fs.path_exists(bak.as_str()) {
        return Err(ToggleError::NoBackupFound);
    }
    let orig = original_path(target);
    if !fs.path_exists(orig.as_str()) || fs.is_dir(orig.as_str()) {
        return Err(ToggleError::IoFailure);
    }
    let _symlink = fs.remove_node(orig.as_str());
    if !fs.path_exists(bak.as_str()) {
        return Err(ToggleError::IoFailure);
    }
    let restored = fs.remove_node(bak.as_str());
    fs.set_node(orig.as_str(), restored);
    let wp = wrapper_path(wrapper_dir, wrapper_name);
    if !fs.path_exists(wp.as_str()) || fs.is_dir(wp.as_str()) {
        return Err(ToggleError::IoFailure);
    }
    let _script = fs.remove_node(wp.as_str());
    Ok(())
}

/// Toggle one non-directory target.
fn toggle_single(fs: &mut SimFs, wrapper_dir: &str, target: &str) -> (r: Result<
    bool,
    ToggleError,
>)
    requires
        old(fs).wf(),
    ensures
        final (fs).wf(),
        final (fs)@ == toggle_model(old(fs)@, wrapper_dir@, target@).0,
        r == toggle_model(old(fs)@, wrapper_dir@, target@).1,
{
    if !fs.path_exists(target) {
        return Err(ToggleError::PathNotFound);
    }
    if fs.is_dir(target) {
        return Err(ToggleError::IoFailure);
    }
    let orig = original_path(target);
    let name = generate_wrapper_name(orig.as_str());
    let bak = backup_path(target);
    if fs.path_exists(bak.as_str()) {
        match revert_changes(fs, target, wrapper_dir, name.as_str()) {
            Ok(_) => Ok(true),
            Err(e) => Err(e),
        }
    } else {
        match create_wrapper(fs, target, wrapper_dir, name.as_str()) {
            Ok(_) => Ok(false),
            Err(e) => Err(e),
        }
    }
}

/// Execute the main logic of the application on one target path: a return
/// of `true` means an existing wrapper was reverted, `false` that a new
/// wrapper was installed.  A directory is scanned and each executable file
/// under it is toggled in turn; a discovered backup file stands in for the
/// original it names — toggling it reverts that original — and is passed
/// over when the original is gone.  The batch stops at the first failure
/// and otherwise reports the result of the last entry it processed
/// (`false` when the directory holds no executables).
pub fn execute(fs: &mut SimFs, wrapper_dir: &str, executable_path: &str) -> (r: Result<
    bool,
    ToggleError,
>)
    requires
        old(fs).wf(),
    ensures
        final (fs).wf(),
        !old(fs)@.contains_key(executable_path@) ==> {
            &&& r == Err::<bool, ToggleError>(ToggleError::PathNotFound)
            &&& final (fs)@ == old(fs)@
        },
        old(fs)@.contains_key(executable_path@) && !(old(fs)@[executable_path@] is Dir) ==> {
            &&& final (fs)@ == toggle_model(old(fs)@, wrapper_dir@, executable_path@).0
            &&& r == toggle_model(old(fs)@, wrapper_dir@, executable_path@).1
        },
        old(fs)@.contains_key(executable_path@) && old(fs)@[executable_path@] is Dir ==> exists|
            ps: Seq<Seq<char>>,
        |
            {
                &&& #[trigger] valid_scan(old(fs)@, executable_path@, ps)
                &&& final (fs)@ == batch_model(
                    old(fs)@,
                    wrapper_dir@,
                    ps,
                    Ok::<bool, ToggleError>(false),
                ).0
                &&& r == batch_model(old(fs)@, wrapper_dir@, ps, Ok::<bool, ToggleError>(false)).1
            },
{
    if !fs.path_exists(executable_path) {
        return Err(ToggleError::PathNotFound);
    }
    if !fs.is_dir(executable_path) {
        return toggle_single(fs, wrapper_dir, executable_path);
    }
    let paths = crate::fsmodel::find_executables(fs, executable_path);
    let ghost m0 = fs@;
    let ghost ps = paths.deep_view();
    proof {
        assert(valid_scan(m0, executable_path@, ps)) by {
            assert(forall|k: int| 0 <= k < ps.len() ==> ps[k] == #[trigger] paths@[k]@);
            assert forall|p: Seq<char>| scan_hit(m0, executable_path@, p) implies exists|k: int|
                0 <= k < ps.len() && #[trigger] ps[k] == p by {
                let j = choose|j: int| 0 <= j < paths@.len() && #[trigger] paths@[j]@ == p;
                assert(ps[j] == p);
            }
        }
    }
    let n = paths.len();
    let mut i: usize = 0;
    let mut acc: Result<bool, ToggleError> = Ok(false);
    proof {
        assert(ps.skip(0) =~= ps);
    }
    while i < n
        invariant
            fs.wf(),
            0 <= i <= n,
            n == ps.len(),
            n == paths@.len(),
            m0 == old(fs)@,
            m0.contains_key(executable_path@),
            m0[executable_path@] is Dir,
            valid_scan(m0, executable_path@, ps),
            forall|k: int| 0 <= k < ps.len() ==> ps[k] == #[trigger] paths@[k]@,
            !(acc is Err),
            batch_model(m0, wrapper_dir@, ps, Ok::<bool, ToggleError>(false)) == batch_model(
                fs@,
                wrapper_dir@,
                ps.skip(i as int),
                acc,
            ),
        decreases n - i,
    {
        let ghost fs_before = fs@;
        let ghost tail = ps.skip(i as int);
        proof {
            assert(tail.len() > 0);
            assert(tail[0] == ps[i as int]);
            assert(tail.drop_first() =~= ps.skip(i + 1));
        }
        let orig = original_path(paths[i].as_str());
        let process = if path_is_backup(paths[i].as_str()) {
            fs.path_exists(orig.as_str())
        } else {
            true
        };
        if process {
            let step = toggle_single(fs, wrapper_dir, orig.as_str());
            match step {
                Ok(b) => {
                    acc = Ok(b);
                },
                Err(e) => {
                    proof {
                        assert(batch_model(fs_before, wrapper_dir@, tail, acc) == (
                            fs@,
                            Err::<bool, ToggleError>(e),
                        ));
                    }
                    return Err(e);
                },
            }
        }
        i += 1;
    }
    proof {
        assert(ps.skip(n as int) =~= Seq::<Seq<char>>::empty());
        assert(batch_model(fs@, wrapper_dir@, ps.skip(n as int), acc) == (fs@, acc));
    }
    acc
}

} // verus!

verus! {

/// The wrapper path of a target is strictly longer than both the target
/// and its backup path, so it collides with neither.
pub proof fn lemma_wrapper_path_distinct(d: Seq<char>, t: Seq<char>)
    ensures
        wrapper_path_of(d, slug_of(t)) != t,
        wrapper_path_of(d, slug_of(t)) != backup_of(t),
{
    lemma_escape_seq_len(t);
    let wp = wrapper_path_of(d, slug_of(t));
    assert(slug_tag().len() == 8);
    assert(slug_of(t).len() == 8 + escape_seq(t).len());
    assert(wp.len() == d.len() + 1 + slug_of(t).len());
    assert(wp.len() > t.len() + 4);
    assert(backup_of(t).len() <= t.len() + 4);
}

/// State oracle, install half: toggling an unwrapped regular file reports
/// an install, moves the file's node to its backup path, leaves a symlink
/// to the wrapper script at the target, and writes the executable script
/// into the wrapper directory.
pub proof fn lemma_install_state_oracle(m: Map<Seq<char>, FsNode>, d: Seq<char>, f: Seq<char>)
    requires
        m.contains_key(f),
        !(m[f] is Dir),
        !m.contains_key(backup_of(f)),
        !(m.contains_key(wrapper_path_of(d, slug_of(f))) && m[wrapper_path_of(d, slug_of(f))]
            is Dir),
    ensures
        !has_bak_extension(f),
        toggle_model(m, d, f).1 == Ok::<bool, ToggleError>(false),
        toggle_model(m, d, f).0.contains_key(backup_of(f)),
        toggle_model(m, d, f).0[backup_of(f)] == m[f],
        toggle_model(m, d, f).0.contains_key(f),
        toggle_model(m, d, f).0[f] == (FsNode::Link { dest: wrapper_path_of(d, slug_of(f)) }),
        toggle_model(m, d, f).0.contains_key(wrapper_path_of(d, slug_of(f))),
        toggle_model(m, d, f).0[wrapper_path_of(d, slug_of(f))] == (FsNode::File {
            mode: script_mode(),
            content: script_of(f),
        }),
{
    assert(!has_bak_extension(f));
    assert(original_of(f) == f);
    lemma_wrapper_path_distinct(d, f);
    let wp = wrapper_path_of(d, slug_of(f));
    let bak = backup_of(f);
    assert(bak == f + crate::paths::bak_suffix());
    assert(bak.len() == f.len() + 4);
    assert(bak != f);
}

/// State oracle, revert half: toggling a wrapped target restores the
/// backed-up node at the original location, removes the backup, and
/// deletes the wrapper script.
pub proof fn lemma_revert_state_oracle(m: Map<Seq<char>, FsNode>, d: Seq<char>, f: Seq<char>)
    requires
        !has_bak_extension(f),
        m.contains_key(f),
        !(m[f] is Dir),
        m.contains_key(backup_of(f)),
        m.contains_key(wrapper_path_of(d, slug_of(f))),
        !(m[wrapper_path_of(d, slug_of(f))] is Dir),
    ensures
        toggle_model(m, d, f).1 == Ok::<bool, ToggleError>(true),
        !toggle_model(m, d, f).0.contains_key(backup_of(f)),
        toggle_model(m, d, f).0.contains_key(f),
        toggle_model(m, d, f).0[f] == m[backup_of(f)],
        m[backup_of(f)] is File ==> toggle_model(m, d, f).0[f] is File,
        !toggle_model(m, d, f).0.contains_key(wrapper_path_of(d, slug_of(f))),
{
    assert(original_of(f) == f);
    lemma_wrapper_path_distinct(d, f);
    let wp = wrapper_path_of(d, slug_of(f));
    let bak = backup_of(f);
    assert(bak == f + crate::paths::bak_suffix());
    assert(bak.len() == f.len() + 4);
    assert(bak != f);
}

/// Idempotent round trip: toggling an unwrapped regular file twice
/// restores its node (content and permission bits) at its original path,
/// leaves no backup file, and leaves no wrapper script in the wrapper
/// directory.  When no stray node sat at the wrapper path beforehand, the
/// filesystem is exactly what it was.
pub proof fn lemma_toggle_round_trip(m: Map<Seq<char>, FsNode>, d: Seq<char>, f: Seq<char>)
    requires
        m.contains_key(f),
        m[f] is File,
        !m.contains_key(backup_of(f)),
        !(m.contains_key(wrapper_path_of(d, slug_of(f))) && m[wrapper_path_of(d, slug_of(f))]
            is Dir),
    ensures
        toggle_model(m, d, f).1 == Ok::<bool, ToggleError>(false),
        toggle_model(toggle_model(m, d, f).0, d, f).1 == Ok::<bool, ToggleError>(true),
        toggle_model(toggle_model(m, d, f).0, d, f).0 == m.remove(
            wrapper_path_of(d, slug_of(f)),
        ),
        toggle_model(toggle_model(m, d, f).0, d, f).0.contains_key(f),
        toggle_model(toggle_model(m, d, f).0, d, f).0[f] == m[f],
        !toggle_model(toggle_model(m, d, f).0, d, f).0.contains_key(backup_of(f)),
        !m.contains_key(wrapper_path_of(d, slug_of(f))) ==> toggle_model(
            toggle_model(m, d, f).0,
            d,
            f,
        ).0 == m,
{
    let wp = wrapper_path_of(d, slug_of(f));
    let bak = backup_of(f);
    lemma_install_state_oracle(m, d, f);
    let m1 = toggle_model(m, d, f).0;
    lemma_revert_state_oracle(m1, d, f);
    lemma_wrapper_path_distinct(d, f);
    assert(bak.len() == f.len() + 4);
    assert(bak != f);
    let m2 = toggle_model(m1, d, f).0;
    assert(m2 =~= m.remove(wp));
    if !m.contains_key(wp) {
        assert(m.remove(wp) =~= m);
    }
}

/// Revert without install fails: asking a revert of a target with no
/// backup file reports `NoBackupFound` and performs no mutation at all.
pub proof fn lemma_revert_without_backup(
    m: Map<Seq<char>, FsNode>,
    d: Seq<char>,
    t: Seq<char>,
    name: Seq<char>,
)
    requires
        !m.contains_key(backup_of(t)),
    ensures
        revert_model(m, d, t, name).1 == Err::<(), ToggleError>(ToggleError::NoBackupFound),
        revert_model(m, d, t, name).0 == m,
{
}

} // verus!
