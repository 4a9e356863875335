//! Path classifier: derives the backup form and the original form of a
//! target path from a fixed naming convention, and recognises reserved
//! system prefixes.
//!
//! The convention: a path whose final path component carries the reserved
//! `bak` extension is itself a backup; any other path gains `.bak` appended
//! to become its backup.  Stripping the trailing `.bak` component recovers
//! the original.

use vstd::prelude::*;

verus! {

/// The reserved marker, as a character sequence: `.bak`.
pub open spec fn bak_suffix() -> Seq<char> {
    seq!['.', 'b', 'a', 'k']
}

/// A path's extension equals the reserved marker: its final path component
/// ends in `.bak` with a non-empty stem before the dot.
pub open spec fn has_bak_extension(s: Seq<char>) -> bool {
    &&& s.len() >= 5
    &&& s.subrange(s.len() - 4, s.len() as int) == bak_suffix()
    &&& s[s.len() - 5] != '/'
}

/// A string that can name a filesystem node: non-empty and not ending in
/// the path separator.  The naming convention's laws are stated for such
/// paths; on the empty string or a path ending in `/` the convention has
/// nothing to name.
pub open spec fn valid_node_path(s: Seq<char>) -> bool {
    s.len() > 0 && s[s.len() - 1] != '/'
}

/// The backup form of a path: itself when its extension is already the
/// marker, otherwise the path with `.bak` appended.
pub open spec fn backup_of(s: Seq<char>) -> Seq<char> {
    if has_bak_extension(s) {
        s
    } else {
        s + bak_suffix()
    }
}

/// The original form of a path: the trailing `.bak` stripped when present,
/// otherwise the path unchanged.
pub open spec fn original_of(s: Seq<char>) -> Seq<char> {
    if has_bak_extension(s) {
        s.subrange(0, s.len() - 4)
    } else {
        s
    }
}

/// Whether the path is in backup form.
pub fn path_is_backup(path: &str) -> (r: bool)
    ensures
        r == has_bak_extension(path@),
{
    let n = path.unicode_len();
    if n < 5 {
        return false;
    }
    let r = path.get_char(n - 4) == '.' && path.get_char(n - 3) == 'b' && path.get_char(n - 2)
        == 'a' && path.get_char(n - 1) == 'k' && path.get_char(n - 5) != '/';
    proof {
        if r {
            assert(path@.subrange(path@.len() - 4, path@.len() as int) =~= bak_suffix());
        }
        if has_bak_extension(path@) {
            assert(path@[path@.len() - 4] == bak_suffix()[0]);
            assert(path@[path@.len() - 3] == bak_suffix()[1]);
            assert(path@[path@.len() - 2] == bak_suffix()[2]);
            assert(path@[path@.len() - 1] == bak_suffix()[3]);
        }
    }
    r
}

/// The backup path of `path`: `name.bak` when there is no extension,
/// `name.ext.bak` when the extension is `ext`, and `path` itself when its
/// extension is already `bak`.  On every path that can name a node the
/// result is again such a path, deriving it once more changes nothing,
/// and taking its original form returns to the start.
pub fn backup_path(path: &str) -> (r: String)
    ensures
        r@ == backup_of(path@),
        valid_node_path(path@) ==> valid_node_path(r@),
        valid_node_path(path@) ==> backup_of(r@) == r@,
        valid_node_path(path@) ==> original_of(r@) == original_of(path@),
{
    proof {
        if valid_node_path(path@) {
            lemma_backup_laws(path@);
        }
    }
    if path_is_backup(path) {
        String::from_str(path)
    } else {
        proof {
            reveal_strlit(".bak");
            assert(".bak"@ =~= bak_suffix());
        }
        String::from_str(path).concat(".bak")
    }
}

/// The original path of `path`: the trailing `.bak` removed when the
/// extension is `bak`, otherwise `path` unchanged.  On every path that
/// can name a node the result is again such a path, and — unless the
/// path was the backup of a backup — its backup form is the backup form
/// of `path`.
pub fn original_path(path: &str) -> (r: String)
    ensures
        r@ == original_of(path@),
        valid_node_path(path@) ==> valid_node_path(r@),
        !has_bak_extension(original_of(path@)) ==> backup_of(r@) == backup_of(path@),
{
    proof {
        if valid_node_path(path@) {
            lemma_original_valid(path@);
        }
        if !has_bak_extension(original_of(path@)) {
            lemma_backup_of_original_agrees(path@);
        }
    }
    if path_is_backup(path) {
        let n = path.unicode_len();
        String::from_str(path.substring_char(0, n - 4))
    } else {
        String::from_str(path)
    }
}

/// Whether two strings hold the same characters.
pub fn str_equal(a: &str, b: &str) -> (r: bool)
    ensures
        r == (a@ == b@),
{
    let na = a.unicode_len();
    let nb = b.unicode_len();
    if na != nb {
        return false;
    }
    let mut i: usize = 0;
    while i < na
        invariant
            0 <= i <= na,
            na == a@.len(),
            na == b@.len(),
            forall|j: int| 0 <= j < i ==> a@[j] == b@[j],
        decreases na - i,
    {
        if a.get_char(i) != b.get_char(i) {
            return false;
        }
        i += 1;
    }
    proof {
        assert(a@ =~= b@);
    }
    true
}

/// `prefix` starts the sequence `s`.
pub open spec fn starts_with(s: Seq<char>, prefix: Seq<char>) -> bool {
    s.len() >= prefix.len() && s.subrange(0, prefix.len() as int) == prefix
}

/// A path under one of the reserved system prefixes `/usr`, `/bin` or
/// `/sbin`; such paths are never offered for wrapping.
pub open spec fn is_system(s: Seq<char>) -> bool {
    ||| starts_with(s, seq!['/', 'u', 's', 'r'])
    ||| starts_with(s, seq!['/', 'b', 'i', 'n'])
    ||| starts_with(s, seq!['/', 's', 'b', 'i', 'n'])
}

/// Whether `s` begins with `prefix`, character for character.
pub fn str_starts_with(s: &str, prefix: &str) -> (r: bool)
    ensures
        r == starts_with(s@, prefix@),
{
    let np = prefix.unicode_len();
    let ns = s.unicode_len();
    if ns < np {
        return false;
    }
    let mut i: usize = 0;
    while i < np
        invariant
            0 <= i <= np,
            np == prefix@.len(),
            np <= ns == s@.len(),
            forall|j: int| 0 <= j < i ==> s@[j] == prefix@[j],
        decreases np - i,
    {
        if s.get_char(i) != prefix.get_char(i) {
            return false;
        }
        i += 1;
    }
    proof {
        assert(s@.subrange(0, np as int) =~= prefix@);
    }
    true
}

/// Whether `path` lies under a reserved system prefix.
pub fn is_system_path(path: &str) -> (r: bool)
    ensures
        r == is_system(path@),
{
    proof {
        reveal_strlit("/usr");
        reveal_strlit("/bin");
        reveal_strlit("/sbin");
        assert("/usr"@ =~= seq!['/', 'u', 's', 'r']);
        assert("/bin"@ =~= seq!['/', 'b', 'i', 'n']);
        assert("/sbin"@ =~= seq!['/', 's', 'b', 'i', 'n']);
    }
    str_starts_with(path, "/usr") || str_starts_with(path, "/bin") || str_starts_with(
        path,
        "/sbin",
    )
}

/// `p` lies strictly under the directory `d`: it extends `d` past a `/`
/// separator with a non-empty remainder.
pub open spec fn is_under(p: Seq<char>, d: Seq<char>) -> bool {
    p.len() > d.len() + 1 && p.subrange(0, d.len() + 1 as int) == d + seq!['/']
}

/// Whether `path` lies strictly under the directory `dir`.
pub fn path_is_under(path: &str, dir: &str) -> (r: bool)
    ensures
        r == is_under(path@, dir@),
{
    let prefix = String::from_str(dir).concat("/");
    proof {
        reveal_strlit("/");
        assert("/"@ =~= seq!['/']);
    }
    let np = path.unicode_len();
    let nd = prefix.as_str().unicode_len();
    np > nd && str_starts_with(path, prefix.as_str())
}

/// On a path that can name a node, the backup form can too, is its own
/// backup, and strips back to the original form of the starting path.
pub proof fn lemma_backup_laws(p: Seq<char>)
    requires
        valid_node_path(p),
    ensures
        valid_node_path(backup_of(p)),
        backup_of(backup_of(p)) == backup_of(p),
        original_of(backup_of(p)) == original_of(p),
{
    let b = backup_of(p);
    if has_bak_extension(p) {
        assert(b == p);
    } else {
        assert(b == p + bak_suffix());
        assert(b[b.len() - 1] == 'k');
        assert(b.subrange(b.len() - 4, b.len() as int) =~= bak_suffix());
        assert(b[b.len() - 5] == p[p.len() - 1]);
        assert(has_bak_extension(b));
        lemma_original_of_backup_of(p);
    }
}

/// On a path that can name a node, the original form can too.
pub proof fn lemma_original_valid(p: Seq<char>)
    requires
        valid_node_path(p),
    ensures
        valid_node_path(original_of(p)),
{
    if has_bak_extension(p) {
        assert(original_of(p)[original_of(p).len() - 1] == p[p.len() - 5]);
    }
}

/// Classifier inverse law: deriving a backup path and then taking its
/// original form returns to the starting path, for every path that is not
/// already in backup form and has a non-empty final component.
pub proof fn lemma_original_of_backup_of(p: Seq<char>)
    requires
        !has_bak_extension(p),
        p.len() > 0,
        p[p.len() - 1] != '/',
    ensures
        original_of(backup_of(p)) == p,
{
    let b = backup_of(p);
    assert(b == p + bak_suffix());
    assert(b.subrange(b.len() - 4, b.len() as int) =~= bak_suffix());
    assert(b[b.len() - 5] == p[p.len() - 1]);
    assert(has_bak_extension(b));
    assert(original_of(b) =~= p);
}

/// A path already in backup form is its own backup: the classifier is
/// idempotent on backup paths.
pub proof fn lemma_backup_of_backup(p: Seq<char>)
    requires
        has_bak_extension(p),
    ensures
        backup_of(p) == p,
{
}

/// Taking the original form is insensitive to first taking the backup
/// form, for every path whose final component is non-empty.
pub proof fn lemma_original_of_backup_agrees(p: Seq<char>)
    requires
        has_bak_extension(p) || (p.len() > 0 && p[p.len() - 1] != '/'),
    ensures
        original_of(backup_of(p)) == original_of(p),
{
    if !has_bak_extension(p) {
        lemma_original_of_backup_of(p);
    }
}

/// Taking the backup form is insensitive to first taking the original
/// form, for every path that is not itself the backup of a backup.
pub proof fn lemma_backup_of_original_agrees(p: Seq<char>)
    requires
        !has_bak_extension(original_of(p)),
    ensures
        backup_of(original_of(p)) == backup_of(p),
{
    if has_bak_extension(p) {
        let orig = original_of(p);
        assert(orig + bak_suffix() =~= p);
    }
}

} // verus!
