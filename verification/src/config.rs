//! The persisted selection set: a plain line-delimited set of paths kept
//! by the surrounding application.
//!
//! The library supplies the pure text operations — parse the file into
//! its non-empty lines, add or remove an entry, and validate entries
//! against the filesystem — while the application reads and writes the
//! file itself.

use vstd::prelude::*;

use crate::fsmodel::{FsNode, SimFs};
use crate::paths::{backup_of, backup_path, str_equal};

verus! {

/// Split into segments at every newline; `cur` is the segment read so far.
pub open spec fn split_rec(s: Seq<char>, cur: Seq<char>) -> Seq<Seq<char>>
    decreases s.len(),
{
    if s.len() == 0 {
        seq![cur]
    } else if s[0] == '\n' {
        seq![cur] + split_rec(s.drop_first(), Seq::empty())
    } else {
        split_rec(s.drop_first(), cur.push(s[0]))
    }
}

/// Remove the empty segments.
pub open spec fn drop_empty(ls: Seq<Seq<char>>) -> Seq<Seq<char>>
    decreases ls.len(),
{
    if ls.len() == 0 {
        Seq::empty()
    } else {
        let rest = drop_empty(ls.drop_last());
        if ls.last().len() > 0 {
            rest.push(ls.last())
        } else {
            rest
        }
    }
}

/// The non-empty lines of a config text, in order, duplicates included.
pub open spec fn config_lines(s: Seq<char>) -> Seq<Seq<char>> {
    drop_empty(split_rec(s, Seq::empty()))
}

/// Keep the first occurrence of each line, dropping later duplicates.
pub open spec fn dedup_rec(ls: Seq<Seq<char>>) -> Seq<Seq<char>>
    decreases ls.len(),
{
    if ls.len() == 0 {
        Seq::empty()
    } else {
        let rest = dedup_rec(ls.drop_last());
        if rest.contains(ls.last()) {
            rest
        } else {
            rest.push(ls.last())
        }
    }
}

/// The entries of a config text: a set kept as its non-empty lines, each
/// distinct line once, in first-occurrence order.
pub open spec fn config_entries(s: Seq<char>) -> Seq<Seq<char>> {
    dedup_rec(config_lines(s))
}

/// The config text holding the given lines, one per line.
pub open spec fn join_lines(ls: Seq<Seq<char>>) -> Seq<char>
    decreases ls.len(),
{
    if ls.len() == 0 {
        Seq::empty()
    } else if ls.len() == 1 {
        ls[0]
    } else {
        join_lines(ls.drop_last()) + seq!['\n'] + ls.last()
    }
}

/// Dropping empty segments of a single segment.
proof fn lemma_drop_empty_single(x: Seq<char>)
    ensures
        x.len() > 0 ==> drop_empty(seq![x]) == seq![x],
        x.len() == 0 ==> drop_empty(seq![x]) == Seq::<Seq<char>>::empty(),
{
    assert(seq![x].drop_last() =~= Seq::<Seq<char>>::empty());
    assert(drop_empty(Seq::<Seq<char>>::empty()) == Seq::<Seq<char>>::empty());
    assert(seq![x].last() == x);
    if x.len() > 0 {
        assert(drop_empty(seq![x]) =~= seq![x]);
    }
}

/// Dropping empty segments distributes over concatenation.
proof fn lemma_drop_empty_concat(a: Seq<Seq<char>>, b: Seq<Seq<char>>)
    ensures
        drop_empty(a + b) == drop_empty(a) + drop_empty(b),
    decreases b.len(),
{
    if b.len() == 0 {
        assert(a + b =~= a);
        assert(drop_empty(a) + drop_empty(b) =~= drop_empty(a));
    } else {
        assert((a + b).drop_last() =~= a + b.drop_last());
        assert((a + b).last() == b.last());
        lemma_drop_empty_concat(a, b.drop_last());
        if b.last().len() > 0 {
            assert(drop_empty(a) + drop_empty(b.drop_last()).push(b.last()) =~= (drop_empty(a)
                + drop_empty(b.drop_last())).push(b.last()));
        }
    }
}

/// Read a config text into its entries: the non-empty lines, each
/// distinct line once, in first-occurrence order.
pub fn read_config(content: &str) -> (r: Vec<String>)
    ensures
        r.deep_view() == config_entries(content@),
{
    let mut r: Vec<String> = Vec::new();
    let ghost mut all: Seq<Seq<char>> = Seq::empty();
    let n = content.unicode_len();
    let mut start: usize = 0;
    let mut i: usize = 0;
    proof {
        assert(content@.skip(0) =~= content@);
        assert(content@.subrange(0, 0) =~= Seq::<char>::empty());
        assert(r.deep_view() =~= Seq::<Seq<char>>::empty());
        assert(all + drop_empty(split_rec(content@, Seq::empty())) =~= config_lines(content@));
        assert(dedup_rec(all) =~= Seq::<Seq<char>>::empty());
    }
    while i < n
        invariant
            0 <= start <= i <= n,
            n == content@.len(),
            config_lines(content@) == all + drop_empty(
                split_rec(content@.skip(i as int), content@.subrange(start as int, i as int)),
            ),
            r.deep_view() == dedup_rec(all),
        decreases n - i,
    {
        let ghost cur = content@.subrange(start as int, i as int);
        let ghost tail = content@.skip(i as int);
        proof {
            assert(tail.len() > 0);
            assert(tail[0] == content@[i as int]);
            assert(tail.drop_first() =~= content@.skip(i + 1));
        }
        let c = content.get_char(i);
        if c == '\n' {
            proof {
                assert(split_rec(tail, cur) == seq![cur] + split_rec(
                    content@.skip(i + 1),
                    Seq::empty(),
                ));
                lemma_drop_empty_concat(seq![cur], split_rec(content@.skip(i + 1), Seq::empty()));
                lemma_drop_empty_single(cur);
            }
            if i > start {
                let line = content.substring_char(start, i);
                let ghost all_before = all;
                proof {
                    all = all.push(cur);
                    assert(all.drop_last() =~= all_before);
                    assert(all.last() == cur);
                    assert((all_before + seq![cur]) + drop_empty(
                        split_rec(content@.skip(i + 1), Seq::empty()),
                    ) =~= all_before + (seq![cur] + drop_empty(
                        split_rec(content@.skip(i + 1), Seq::empty()),
                    )));
                    assert(all =~= all_before + seq![cur]);
                }
                if !contains_line(&r, line) {
                    let ghost dv_before = r.deep_view();
                    r.push(String::from_str(line));
                    proof {
                        assert(r.deep_view() =~= dv_before.push(cur));
                    }
                }
            }
            proof {
                assert(content@.subrange(i + 1, i + 1) =~= Seq::<char>::empty());
            }
            start = i + 1;
        } else {
            proof {
                assert(content@.subrange(start as int, i + 1) =~= cur.push(content@[i as int]));
                assert(split_rec(tail, cur) == split_rec(
                    content@.skip(i + 1),
                    content@.subrange(start as int, i + 1),
                ));
            }
        }
        i += 1;
    }
    let ghost cur = content@.subrange(start as int, n as int);
    proof {
        assert(content@.skip(n as int) =~= Seq::<char>::empty());
        assert(split_rec(content@.skip(n as int), cur) == seq![cur]);
        lemma_drop_empty_single(cur);
    }
    if i > start {
        let line = content.substring_char(start, i);
        let ghost all_before = all;
        proof {
            all = all.push(cur);
            assert(all.drop_last() =~= all_before);
            assert(all.last() == cur);
            assert(all_before + drop_empty(seq![cur]) =~= all_before.push(cur));
            assert(config_lines(content@) =~= all);
        }
        if !contains_line(&r, line) {
            let ghost dv_before = r.deep_view();
            r.push(String::from_str(line));
            proof {
                assert(r.deep_view() =~= dv_before.push(cur));
            }
        }
    } else {
        proof {
            assert(config_lines(content@) =~= all);
        }
    }
    r
}

/// Join entries back into a config text, one entry per line.
pub fn write_config(lines: &Vec<String>) -> (r: String)
    ensures
        r@ == join_lines(lines.deep_view()),
{
    let mut out = String::new();
    let n = lines.len();
    let mut i: usize = 0;
    proof {
        assert(lines.deep_view().subrange(0, 0) =~= Seq::<Seq<char>>::empty());
    }
    while i < n
        invariant
            0 <= i <= n,
            n == lines@.len(),
            n == lines.deep_view().len(),
            forall|j: int| 0 <= j < n ==> lines.deep_view()[j] == (#[trigger] lines@[j])@,
            out@ == join_lines(lines.deep_view().subrange(0, i as int)),
        decreases n - i,
    {
        let ghost dv = lines.deep_view();
        proof {
            assert(dv.subrange(0, i + 1).drop_last() =~= dv.subrange(0, i as int));
            assert(dv.subrange(0, i + 1).last() == dv[i as int]);
        }
        if i > 0 {
            out.append("\n");
            proof {
                reveal_strlit("\n");
                assert("\n"@ =~= seq!['\n']);
            }
        }
        out.append(lines[i].as_str());
        proof {
            if i == 0 {
                assert(dv.subrange(0, 1).len() == 1);
                assert(join_lines(dv.subrange(0, 1)) == dv.subrange(0, 1)[0]);
            }
        }
        i += 1;
    }
    proof {
        assert(lines.deep_view().subrange(0, n as int) =~= lines.deep_view());
    }
    out
}

/// Whether some line equals `s`.
fn contains_line(lines: &Vec<String>, s: &str) -> (r: bool)
    ensures
        r == lines.deep_view().contains(s@),
{
    let n = lines.len();
    let mut i: usize = 0;
    while i < n
        invariant
            0 <= i <= n,
            n == lines@.len(),
            forall|j: int| 0 <= j < i ==> (#[trigger] lines@[j])@ != s@,
        decreases n - i,
    {
        if str_equal(lines[i].as_str(), s) {
            proof {
                assert(lines.deep_view()[i as int] == s@);
            }
            return true;
        }
        i += 1;
    }
    proof {
        assert forall|j: int| 0 <= j < lines.deep_view().len() implies lines.deep_view()[j]
            != s@ by {
            assert(lines@[j]@ != s@);
        }
        assert(!lines.deep_view().contains(s@));
    }
    false
}

/// The entries with `t` added at the end, unless it is already present.
pub open spec fn add_line(ls: Seq<Seq<char>>, t: Seq<char>) -> Seq<Seq<char>> {
    if ls.contains(t) {
        ls
    } else {
        ls.push(t)
    }
}

/// Add an entry to a config text; a text whose entry set is unchanged
/// comes back when the entry is already present.
pub fn add_config(text: &str, content: &str) -> (r: String)
    ensures
        r@ == join_lines(add_line(config_entries(content@), text@)),
{
    let mut lines = read_config(content);
    if !contains_line(&lines, text) {
        let ghost dv_before = lines.deep_view();
        lines.push(String::from_str(text));
        proof {
            assert(lines.deep_view() =~= dv_before.push(text@));
        }
    }
    write_config(&lines)
}

/// The entries with every occurrence of `t` removed.
pub open spec fn remove_line(ls: Seq<Seq<char>>, t: Seq<char>) -> Seq<Seq<char>>
    decreases ls.len(),
{
    if ls.len() == 0 {
        Seq::empty()
    } else {
        let rest = remove_line(ls.drop_last(), t);
        if ls.last() == t {
            rest
        } else {
            rest.push(ls.last())
        }
    }
}

/// Remove an entry from a config text.
pub fn remove_config(text: &str, content: &str) -> (r: String)
    ensures
        r@ == join_lines(remove_line(config_entries(content@), text@)),
{
    let lines = read_config(content);
    let mut kept: Vec<String> = Vec::new();
    let n = lines.len();
    let mut i: usize = 0;
    proof {
        assert(lines.deep_view().subrange(0, 0) =~= Seq::<Seq<char>>::empty());
        assert(kept.deep_view() =~= Seq::<Seq<char>>::empty());
    }
    while i < n
        invariant
            0 <= i <= n,
            n == lines@.len(),
            n == lines.deep_view().len(),
            forall|j: int| 0 <= j < n ==> lines.deep_view()[j] == (#[trigger] lines@[j])@,
            kept.deep_view() == remove_line(lines.deep_view().subrange(0, i as int), text@),
        decreases n - i,
    {
        let ghost dv = lines.deep_view();
        proof {
            assert(dv.subrange(0, i + 1).drop_last() =~= dv.subrange(0, i as int));
            assert(dv.subrange(0, i + 1).last() == dv[i as int]);
        }
        if !str_equal(lines[i].as_str(), text) {
            let ghost kept_before = kept.deep_view();
            kept.push(String::from_str(lines[i].as_str()));
            proof {
                assert(kept.deep_view() =~= kept_before.push(dv[i as int]));
            }
        }
        i += 1;
    }
    proof {
        assert(lines.deep_view().subrange(0, n as int) =~= lines.deep_view());
    }
    write_config(&kept)
}

/// A config entry is still live: it names a directory, or its backup path
/// exists (the wrapped-state oracle).
pub open spec fn entry_live(m: Map<Seq<char>, FsNode>, p: Seq<char>) -> bool {
    (m.contains_key(p) && m[p] is Dir) || m.contains_key(backup_of(p))
}

/// The entries that are still live on the given filesystem, in order.
pub open spec fn live_lines(m: Map<Seq<char>, FsNode>, ls: Seq<Seq<char>>) -> Seq<Seq<char>>
    decreases ls.len(),
{
    if ls.len() == 0 {
        Seq::empty()
    } else {
        let rest = live_lines(m, ls.drop_last());
        if entry_live(m, ls.last()) {
            rest.push(ls.last())
        } else {
            rest
        }
    }
}

/// Validate a config text against the filesystem: keep exactly the
/// entries that name a directory or whose backup path exists; every
/// stale entry is dropped.
pub fn validate_config(fs: &SimFs, content: &str) -> (r: String)
    requires
        fs.wf(),
    ensures
        r@ == join_lines(live_lines(fs@, config_entries(content@))),
{
    let lines = read_config(content);
    let mut kept: Vec<String> = Vec::new();
    let n = lines.len();
    let mut i: usize = 0;
    proof {
        assert(lines.deep_view().subrange(0, 0) =~= Seq::<Seq<char>>::empty());
        assert(kept.deep_view() =~= Seq::<Seq<char>>::empty());
    }
    while i < n
        invariant
            fs.wf(),
            0 <= i <= n,
            n == lines@.len(),
            n == lines.deep_view().len(),
            forall|j: int| 0 <= j < n ==> lines.deep_view()[j] == (#[trigger] lines@[j])@,
            kept.deep_view() == live_lines(fs@, lines.deep_view().subrange(0, i as int)),
        decreases n - i,
    {
        let ghost dv = lines.deep_view();
        proof {
            assert(dv.subrange(0, i + 1).drop_last() =~= dv.subrange(0, i as int));
            assert(dv.subrange(0, i + 1).last() == dv[i as int]);
        }
        let entry = lines[i].as_str();
        let bak = backup_path(entry);
        if fs.is_dir(entry) || fs.path_exists(bak.as_str()) {
            let ghost kept_before = kept.deep_view();
            kept.push(String::from_str(entry));
            proof {
                assert(kept.deep_view() =~= kept_before.push(dv[i as int]));
            }
        }
        i += 1;
    }
    proof {
        assert(lines.deep_view().subrange(0, n as int) =~= lines.deep_view());
    }
    write_config(&kept)
}

} // verus!
