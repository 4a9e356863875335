//! An explicit filesystem model.
//!
//! The toggle state machine is a function of on-disk state alone, so the
//! library carries its own filesystem: a finite map from absolute path to
//! node (regular file with permission mode and content, symlink, or
//! directory).  `SimFs` is the executable form, a vector of entries with
//! distinct paths, whose view is that map.  The toggle orchestrator is
//! verified against this model; an unverified shell performs the same
//! operations on the real filesystem.
//!
//! The model is flat: parent directories are not tracked, permissions are
//! recorded but not enforced, and symlinks are not followed.

use vstd::prelude::*;

use crate::paths::str_equal;

verus! {

/// A filesystem node, at the specification level.
pub enum FsNode {
    /// A regular file with its POSIX permission mode and its content.
    File { mode: u32, content: Seq<char> },
    /// A symbolic link and its destination.
    Link { dest: Seq<char> },
    /// A directory.
    Dir,
}

/// A filesystem node, executable form.
pub enum SimNode {
    File { mode: u32, content: String },
    Link { dest: String },
    Dir,
}

impl View for SimNode {
    type V = FsNode;

    open spec fn view(&self) -> FsNode {
        match self {
            SimNode::File { mode, content } => FsNode::File { mode: *mode, content: content@ },
            SimNode::Link { dest } => FsNode::Link { dest: dest@ },
            SimNode::Dir => FsNode::Dir,
        }
    }
}

/// One path of the filesystem and the node it names.
pub struct SimEntry {
    pub(crate) path: String,
    pub(crate) node: SimNode,
}

/// An in-memory filesystem: entries with pairwise distinct paths, viewed
/// as a map from path to node.
pub struct SimFs {
    pub(crate) entries: Vec<SimEntry>,
}

/// No two entries name the same path.
pub(crate) open spec fn distinct_paths(s: Seq<SimEntry>) -> bool {
    forall|i: int, j: int| 0 <= i < j < s.len() ==> s[i].path@ != s[j].path@
}

/// The map named by a sequence of entries; later entries win, though with
/// distinct paths no entry shadows another.
pub(crate) open spec fn entries_map(s: Seq<SimEntry>) -> Map<Seq<char>, FsNode>
    decreases s.len(),
{
    if s.len() == 0 {
        Map::empty()
    } else {
        entries_map(s.drop_last()).insert(s.last().path@, s.last().node@)
    }
}

impl View for SimFs {
    type V = Map<Seq<char>, FsNode>;

    closed spec fn view(&self) -> Map<Seq<char>, FsNode> {
        entries_map(self.entries@)
    }
}

/// A path is in the map exactly when some entry names it.
pub(crate) proof fn lemma_entries_map_contains(s: Seq<SimEntry>, p: Seq<char>)
    ensures
        entries_map(s).contains_key(p) <==> exists|i: int|
            0 <= i < s.len() && #[trigger] s[i].path@ == p,
    decreases s.len(),
{
    if s.len() > 0 {
        lemma_entries_map_contains(s.drop_last(), p);
        if s.last().path@ == p {
            assert(s[s.len() - 1].path@ == p);
        } else {
            if exists|i: int| 0 <= i < s.len() && #[trigger] s[i].path@ == p {
                let i = choose|i: int| 0 <= i < s.len() && #[trigger] s[i].path@ == p;
                assert(i < s.len() - 1);
                assert(s.drop_last()[i].path@ == p);
            }
            if exists|i: int| 0 <= i < s.drop_last().len() && #[trigger] s.drop_last()[i].path@
                == p {
                let i = choose|i: int|
                    0 <= i < s.drop_last().len() && #[trigger] s.drop_last()[i].path@ == p;
                assert(s[i].path@ == p);
            }
        }
    }
}

/// With distinct paths, the map sends each entry's path to its node.
pub(crate) proof fn lemma_entries_map_index(s: Seq<SimEntry>, i: int)
    requires
        distinct_paths(s),
        0 <= i < s.len(),
    ensures
        entries_map(s).contains_key(s[i].path@),
        entries_map(s)[s[i].path@] == s[i].node@,
    decreases s.len(),
{
    if i == s.len() - 1 {
        assert(s.last() == s[i]);
    } else {
        assert(distinct_paths(s.drop_last())) by {
            assert(forall|a: int, b: int|
                0 <= a < b < s.drop_last().len() ==> s.drop_last()[a] == s[a] && s.drop_last()[b]
                    == s[b]);
        }
        assert(s.drop_last()[i] == s[i]);
        lemma_entries_map_index(s.drop_last(), i);
        assert(s.last().path@ != s[i].path@);
    }
}

/// Removing the entry at `i` removes exactly its path from the map.
pub(crate) proof fn lemma_entries_map_remove(s: Seq<SimEntry>, i: int)
    requires
        distinct_paths(s),
        0 <= i < s.len(),
    ensures
        entries_map(s.remove(i)) == entries_map(s).remove(s[i].path@),
    decreases s.len(),
{
    let p = s[i].path@;
    assert(distinct_paths(s.drop_last())) by {
        assert(forall|a: int, b: int|
            0 <= a < b < s.drop_last().len() ==> s.drop_last()[a] == s[a] && s.drop_last()[b]
                == s[b]);
    }
    if i == s.len() - 1 {
        assert(s.remove(i) =~= s.drop_last());
        lemma_entries_map_contains(s.drop_last(), p);
        assert(forall|j: int|
            0 <= j < s.drop_last().len() ==> #[trigger] s.drop_last()[j].path@ == s[j].path@);
        assert(!entries_map(s.drop_last()).contains_key(p));
        assert(entries_map(s).remove(p) =~= entries_map(s.drop_last()));
    } else {
        assert(s.remove(i).drop_last() =~= s.drop_last().remove(i));
        assert(s.remove(i).last() == s.last());
        assert(s.drop_last()[i] == s[i]);
        lemma_entries_map_remove(s.drop_last(), i);
        assert(entries_map(s.remove(i)) == entries_map(s.drop_last()).remove(p).insert(
            s.last().path@,
            s.last().node@,
        ));
        assert(s.last().path@ != p);
        assert(entries_map(s.drop_last()).remove(p).insert(s.last().path@, s.last().node@)
            =~= entries_map(s.drop_last()).insert(s.last().path@, s.last().node@).remove(p));
    }
}

impl SimFs {
    /// Entries name pairwise distinct paths.
    pub closed spec fn wf(&self) -> bool {
        distinct_paths(self.entries@)
    }

    /// An empty filesystem.
    pub fn new() -> (r: SimFs)
        ensures
            r.wf(),
            r@ == Map::<Seq<char>, FsNode>::empty(),
    {
        let r = SimFs { entries: Vec::new() };
        proof {
            assert(r.entries@.len() == 0);
        }
        r
    }

    /// The index of the entry naming `path`, if any.
    fn find_idx(&self, path: &str) -> (r: Option<usize>)
        ensures
            match r {
                Some(i) => i < self.entries@.len() && self.entries@[i as int].path@ == path@,
                None => forall|i: int|
                    0 <= i < self.entries@.len() ==> #[trigger] self.entries@[i].path@ != path@,
            },
    {
        let n = self.entries.len();
        let mut i: usize = 0;
        while i < n
            invariant
                0 <= i <= n,
                n == self.entries@.len(),
                forall|j: int| 0 <= j < i ==> #[trigger] self.entries@[j].path@ != path@,
            decreases n - i,
        {
            if str_equal(self.entries[i].path.as_str(), path) {
                return Some(i);
            }
            i += 1;
        }
        None
    }

    /// Whether any node exists at `path`.
    pub fn path_exists(&self, path: &str) -> (r: bool)
        requires
            self.wf(),
        ensures
            r == self@.contains_key(path@),
    {
        proof {
            lemma_entries_map_contains(self.entries@, path@);
        }
        match self.find_idx(path) {
            Some(_) => true,
            None => false,
        }
    }

    /// Whether a directory exists at `path`.
    pub fn is_dir(&self, path: &str) -> (r: bool)
        requires
            self.wf(),
        ensures
            r == (self@.contains_key(path@) && self@[path@] is Dir),
    {
        proof {
            lemma_entries_map_contains(self.entries@, path@);
        }
        match self.find_idx(path) {
            Some(i) => {
                proof {
                    lemma_entries_map_index(self.entries@, i as int);
                }
                match &self.entries[i].node {
                    SimNode::Dir => true,
                    _ => false,
                }
            },
            None => false,
        }
    }

    /// The permission mode of the regular file at `path`, if one is there.
    pub fn file_mode(&self, path: &str) -> (r: Option<u32>)
        requires
            self.wf(),
        ensures
            match r {
                Some(m) => {
                    &&& self@.contains_key(path@)
                    &&& self@[path@] matches FsNode::File { mode, .. } && mode == m
                },
                None => !(self@.contains_key(path@) && self@[path@] is File),
            },
    {
        proof {
            lemma_entries_map_contains(self.entries@, path@);
        }
        match self.find_idx(path) {
            Some(i) => {
                proof {
                    lemma_entries_map_index(self.entries@, i as int);
                }
                match &self.entries[i].node {
                    SimNode::File { mode, .. } => Some(*mode),
                    _ => None,
                }
            },
            None => None,
        }
    }

    /// The content of the regular file at `path`, if one is there.
    pub fn file_content(&self, path: &str) -> (r: Option<String>)
        requires
            self.wf(),
        ensures
            match r {
                Some(c) => {
                    &&& self@.contains_key(path@)
                    &&& self@[path@] matches FsNode::File { content, .. } && content == c@
                },
                None => !(self@.contains_key(path@) && self@[path@] is File),
            },
    {
        proof {
            lemma_entries_map_contains(self.entries@, path@);
        }
        match self.find_idx(path) {
            Some(i) => {
                proof {
                    lemma_entries_map_index(self.entries@, i as int);
                }
                match &self.entries[i].node {
                    SimNode::File { content, .. } => Some(String::from_str(content.as_str())),
                    _ => None,
                }
            },
            None => None,
        }
    }

    /// The destination of the symlink at `path`, if one is there.
    pub fn link_dest(&self, path: &str) -> (r: Option<String>)
        requires
            self.wf(),
        ensures
            match r {
                Some(d) => {
                    &&& self@.contains_key(path@)
                    &&& self@[path@] matches FsNode::Link { dest } && dest == d@
                },
                None => !(self@.contains_key(path@) && self@[path@] is Link),
            },
    {
        proof {
            lemma_entries_map_contains(self.entries@, path@);
        }
        match self.find_idx(path) {
            Some(i) => {
                proof {
                    lemma_entries_map_index(self.entries@, i as int);
                }
                match &self.entries[i].node {
                    SimNode::Link { dest } => Some(String::from_str(dest.as_str())),
                    _ => None,
                }
            },
            None => None,
        }
    }

    /// Create or replace the node at `path`.
    pub fn set_node(&mut self, path: &str, node: SimNode)
        requires
            old(self).wf(),
        ensures
            final (self).wf(),
            final (self)@ == old(self)@.insert(path@, node@),
    {
        let ghost m0 = self@;
        match self.find_idx(path) {
            Some(i) => {
                proof {
                    lemma_entries_map_remove(self.entries@, i as int);
                }
                let _removed = self.entries.remove(i);
                proof {
                    assert(distinct_paths(self.entries@)) by {
                        assert(forall|a: int|
                            0 <= a < self.entries@.len() ==> #[trigger] self.entries@[a]
                                == old(self).entries@[if a < i as int {
                                a
                            } else {
                                a + 1
                            }]);
                    }
                    assert(forall|a: int|
                        0 <= a < self.entries@.len() ==> #[trigger] self.entries@[a].path@
                            != path@);
                }
            },
            None => {},
        }
        let ghost before = self.entries@;
        self.entries.push(SimEntry { path: String::from_str(path), node });
        proof {
            assert(self.entries@.drop_last() =~= before);
            assert(self.entries@.last().path@ == path@);
            assert(self@ == entries_map(before).insert(path@, node@));
            assert(distinct_paths(self.entries@)) by {
                assert(forall|a: int|
                    0 <= a < before.len() ==> #[trigger] self.entries@[a] == before[a]);
            }
            assert(entries_map(before).insert(path@, node@) =~= m0.insert(path@, node@));
        }
    }

    /// Remove the node at `path`, returning it.
    pub fn remove_node(&mut self, path: &str) -> (r: SimNode)
        requires
            old(self).wf(),
            old(self)@.contains_key(path@),
        ensures
            final (self).wf(),
            final (self)@ == old(self)@.remove(path@),
            r@ == old(self)@[path@],
    {
        proof {
            lemma_entries_map_contains(self.entries@, path@);
        }
        let i = match self.find_idx(path) {
            Some(i) => i,
            None => {
                proof {
                    assert(false);
                }
                0
            },
        };
        proof {
            lemma_entries_map_index(self.entries@, i as int);
            lemma_entries_map_remove(self.entries@, i as int);
        }
        let entry = self.entries.remove(i);
        proof {
            assert(distinct_paths(self.entries@)) by {
                assert(forall|a: int|
                    0 <= a < self.entries@.len() ==> #[trigger] self.entries@[a]
                        == old(self).entries@[if a < i as int {
                        a
                    } else {
                        a + 1
                    }]);
            }
        }
        entry.node
    }
}

} // verus!

use crate::paths::{is_under, path_is_under};

verus! {

/// The node is a regular file with at least one executable permission bit.
pub open spec fn node_is_exec_file(n: FsNode) -> bool {
    n matches FsNode::File { mode, .. } && mode & 0o111 != 0
}

/// The node is a regular file writable by its owner.
pub open spec fn node_is_writable_file(n: FsNode) -> bool {
    n matches FsNode::File { mode, .. } && mode & 0o200 != 0
}

/// `p` names an executable regular file and lies strictly under `d`.
/// Symlinks and non-regular files are not scan hits: a wrapped target
/// (a symlink) is reached through its backup file instead.
pub open spec fn scan_hit(m: Map<Seq<char>, FsNode>, d: Seq<char>, p: Seq<char>) -> bool {
    m.contains_key(p) && node_is_exec_file(m[p]) && is_under(p, d)
}

/// Check if a file is executable: a regular file with at least one
/// executable permission bit set.  A symlink, a directory or a missing
/// path does not count.
pub fn is_executable(fs: &SimFs, file_path: &str) -> (r: bool)
    requires
        fs.wf(),
    ensures
        r == (fs@.contains_key(file_path@) && node_is_exec_file(fs@[file_path@])),
{
    match fs.file_mode(file_path) {
        Some(mode) => mode & 0o111 != 0,
        None => false,
    }
}

/// Check if a path has write access: a regular file with the owner write
/// permission bit set.
pub fn has_write_access(fs: &SimFs, path: &str) -> (r: bool)
    requires
        fs.wf(),
    ensures
        r == (fs@.contains_key(path@) && node_is_writable_file(fs@[path@])),
{
    match fs.file_mode(path) {
        Some(mode) => mode & 0o200 != 0,
        None => false,
    }
}

/// Find executable files inside a directory and its subdirectories: every
/// regular file strictly under `directory` with at least one executable
/// permission bit, each exactly once, in no guaranteed order.  Symlinks
/// and non-regular files are excluded.
pub fn find_executables(fs: &SimFs, directory: &str) -> (r: Vec<String>)
    requires
        fs.wf(),
    ensures
        forall|j: int| 0 <= j < r@.len() ==> scan_hit(fs@, directory@, #[trigger] r@[j]@),
        forall|p: Seq<char>|
            scan_hit(fs@, directory@, p) ==> exists|j: int|
                0 <= j < r@.len() && #[trigger] r@[j]@ == p,
        forall|j1: int, j2: int| #![trigger r@[j1], r@[j2]] 0 <= j1 < j2 < r@.len() ==> r@[j1]@ != r@[j2]@,
{
    let mut r: Vec<String> = Vec::new();
    let n = fs.entries.len();
    let mut i: usize = 0;
    while i < n
        invariant
            fs.wf(),
            0 <= i <= n,
            n == fs.entries@.len(),
            forall|j: int| 0 <= j < r@.len() ==> scan_hit(fs@, directory@, #[trigger] r@[j]@),
            forall|j: int, k: int|
                0 <= j < r@.len() && i <= k < n ==> (#[trigger] fs.entries@[k].path@) != (
                #[trigger] r@[j]@),
            forall|j1: int, j2: int| #![trigger r@[j1], r@[j2]] 0 <= j1 < j2 < r@.len() ==> r@[j1]@ != r@[j2]@,
            forall|k: int|
                0 <= k < i && scan_hit(fs@, directory@, (#[trigger] fs.entries@[k]).path@)
                    ==> exists|j: int| 0 <= j < r@.len() && #[trigger] r@[j]@ == fs.entries@[k].path@,
        decreases n - i,
    {
        let p = fs.entries[i].path.as_str();
        let hit = is_executable(fs, p) && path_is_under(p, directory);
        if hit {
            let ghost r_before = r@;
            r.push(String::from_str(p));
            proof {
                assert(r@[r@.len() - 1]@ == fs.entries@[i as int].path@);
                assert(forall|j: int| 0 <= j < r_before.len() ==> r@[j] == r_before[j]);
                assert(forall|j: int|
                    0 <= j < r_before.len() ==> fs.entries@[i as int].path@ != (
                    #[trigger] r_before[j]@));
                assert(forall|k: int|
                    i < k < n ==> (#[trigger] fs.entries@[k].path@) != fs.entries@[
                        i as int
                    ].path@);
                assert forall|k: int|
                    0 <= k < i + 1 && scan_hit(fs@, directory@, (#[trigger] fs.entries@[k]).path@)
                        implies exists|j: int|
                    0 <= j < r@.len() && #[trigger] r@[j]@ == fs.entries@[k].path@ by {
                    if k < i {
                        let j = choose|j: int|
                            0 <= j < r_before.len() && #[trigger] r_before[j]@ == fs.entries@[k].path@;
                        assert(r@[j]@ == fs.entries@[k].path@);
                    } else {
                        assert(r@[r@.len() - 1]@ == fs.entries@[k].path@);
                    }
                }
            }
        }
        i += 1;
    }
    proof {
        assert forall|p: Seq<char>| scan_hit(fs@, directory@, p) implies exists|j: int|
            0 <= j < r@.len() && #[trigger] r@[j]@ == p by {
            lemma_entries_map_contains(fs.entries@, p);
            let k = choose|k: int| 0 <= k < fs.entries@.len() && #[trigger] fs.entries@[k].path@ == p;
            assert(scan_hit(fs@, directory@, fs.entries@[k].path@));
        }
    }
    r
}

} // verus!
