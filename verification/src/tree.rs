//! The file-level model of a tree: the regular-file entries of a commit's
//! hierarchy, kept strictly ordered by path and viewed as a map from path to
//! file content.
//!
//! Only regular-file entries are tracked; directory, symlink and conflicted
//! entries stay outside the map, which is exactly the portion of a tree the
//! change-tracking of this engine reads and rewrites.

use vstd::prelude::*;

use crate::repo::{FileId, PathId};

verus! {

/// The content a tree holds at one path.
#[derive(Clone, Copy, Debug, PartialEq, Eq, Structural)]
pub struct FileValue {
    /// The file's content id.
    pub file_id: FileId,
    /// The file's executable bit.
    pub executable: bool,
}

/// One regular-file entry of a tree.
#[derive(Clone, Copy, Debug, PartialEq, Eq, Structural)]
pub struct TreeEntry {
    /// The entry's path.
    pub path: PathId,
    /// The file's content id.
    pub file_id: FileId,
    /// The file's executable bit.
    pub executable: bool,
}

/// The value an entry carries.
pub open spec fn entry_value(e: TreeEntry) -> FileValue {
    FileValue { file_id: e.file_id, executable: e.executable }
}

/// The map a sequence of entries denotes (later entries would win, but a
/// well-formed tree holds each path once).
pub open spec fn entries_map(s: Seq<TreeEntry>) -> Map<PathId, FileValue>
    decreases s.len(),
{
    if s.len() == 0 {
        Map::empty()
    } else {
        entries_map(s.drop_last()).insert(s.last().path, entry_value(s.last()))
    }
}

/// A tree's tracked file entries, strictly ordered by path.
#[derive(Debug)]
pub struct Tree {
    /// The entries, with strictly increasing paths.
    pub entries: Vec<TreeEntry>,
}

impl View for Tree {
    type V = Map<PathId, FileValue>;

    open spec fn view(&self) -> Map<PathId, FileValue> {
        entries_map(self.entries@)
    }
}

impl Tree {
    /// Well-formedness: paths strictly increase, so each path occurs once.
    pub open spec fn wf(self) -> bool {
        forall|i: int, j: int|
            0 <= i < j < self.entries@.len() ==> self.entries@[i].path < self.entries@[j].path
    }

    /// An empty tree.
    pub fn empty() -> (r: Tree)
        ensures
            r.wf(),
            r@ == Map::<PathId, FileValue>::empty(),
    {
        Tree { entries: Vec::new() }
    }

    /// A copy of this tree.
    pub fn duplicate(&self) -> (r: Tree)
        ensures
            r.entries@ == self.entries@,
            r@ == self@,
            self.wf() ==> r.wf(),
    {
        let mut entries: Vec<TreeEntry> = Vec::new();
        let mut i: usize = 0;
        while i < self.entries.len()
            invariant
                i <= self.entries@.len(),
                entries@ =~= self.entries@.take(i as int),
            decreases self.entries@.len() - i,
        {
            entries.push(self.entries[i]);
            i = i + 1;
        }
        proof {
            assert(entries@ =~= self.entries@);
        }
        Tree { entries }
    }
}

/// A sequence of entries holds a path exactly when its map does.
pub proof fn lemma_entries_map_contains(s: Seq<TreeEntry>, p: PathId)
    ensures
        entries_map(s).contains_key(p) <==> exists|i: int| 0 <= i < s.len() && s[i].path == p,
    decreases s.len(),
{
    if s.len() > 0 {
        lemma_entries_map_contains(s.drop_last(), p);
        if s.last().path == p {
            assert(s[s.len() - 1].path == p);
        } else {
            if exists|i: int| 0 <= i < s.drop_last().len() && s.drop_last()[i].path == p {
                let i = choose|i: int| 0 <= i < s.drop_last().len() && s.drop_last()[i].path == p;
                assert(s[i].path == p);
            }
            if exists|i: int| 0 <= i < s.len() && s[i].path == p {
                let i = choose|i: int| 0 <= i < s.len() && s[i].path == p;
                assert(s.drop_last()[i].path == p);
            }
        }
    }
}

/// With pairwise distinct paths, each entry gives its path's value.
pub proof fn lemma_entries_map_value(s: Seq<TreeEntry>, i: int)
    requires
        forall|i1: int, i2: int| 0 <= i1 < i2 < s.len() ==> s[i1].path != s[i2].path,
        0 <= i < s.len(),
    ensures
        entries_map(s).contains_key(s[i].path),
        entries_map(s)[s[i].path] == entry_value(s[i]),
    decreases s.len(),
{
    lemma_entries_map_contains(s, s[i].path);
    if i == s.len() - 1 {
    } else {
        assert(s.drop_last()[i] == s[i]);
        lemma_entries_map_value(s.drop_last(), i);
        assert(s.last().path != s[i].path);
    }
}

/// What a map holds at a path, as an option.
pub open spec fn tree_at(m: Map<PathId, FileValue>, p: PathId) -> Option<FileValue> {
    if m.contains_key(p) {
        Some(m[p])
    } else {
        None
    }
}

impl Tree {
    /// The file at `p`, if the tree tracks one there.
    pub fn lookup(&self, p: PathId) -> (r: Option<FileValue>)
        requires
            self.wf(),
        ensures
            r == tree_at(self@, p),
    {
        let mut i: usize = 0;
        while i < self.entries.len()
            invariant
                self.wf(),
                i <= self.entries@.len(),
                forall|k: int| 0 <= k < i ==> self.entries@[k].path != p,
            decreases self.entries@.len() - i,
        {
            if self.entries[i].path == p {
                proof {
                    lemma_entries_map_value(self.entries@, i as int);
                }
                return Some(
                    FileValue {
                        file_id: self.entries[i].file_id,
                        executable: self.entries[i].executable,
                    },
                );
            }
            i = i + 1;
        }
        proof {
            lemma_entries_map_contains(self.entries@, p);
        }
        None
    }
}

proof fn lemma_entries_map_replace(s: Seq<TreeEntry>, i: int, e: TreeEntry)
    requires
        forall|i1: int, i2: int| 0 <= i1 < i2 < s.len() ==> s[i1].path != s[i2].path,
        0 <= i < s.len(),
        s[i].path == e.path,
    ensures
        entries_map(s.update(i, e)) =~= entries_map(s).insert(e.path, entry_value(e)),
    decreases s.len(),
{
    let su = s.update(i, e);
    if i == s.len() - 1 {
        assert(su.drop_last() =~= s.drop_last());
    } else {
        assert(su.drop_last() =~= s.drop_last().update(i, e));
        lemma_entries_map_replace(s.drop_last(), i, e);
        assert(su.last() == s.last());
        assert(s.last().path != e.path);
    }
}

proof fn lemma_entries_map_insert(s: Seq<TreeEntry>, i: int, e: TreeEntry)
    requires
        forall|j: int| 0 <= j < s.len() ==> s[j].path != e.path,
        0 <= i <= s.len(),
    ensures
        entries_map(s.insert(i, e)) =~= entries_map(s).insert(e.path, entry_value(e)),
    decreases s.len(),
{
    let su = s.insert(i, e);
    if i == s.len() {
        assert(su.drop_last() =~= s);
        assert(su.last() == e);
    } else {
        assert(su.drop_last() =~= s.drop_last().insert(i, e));
        assert(su.last() == s.last());
        assert forall|j: int| 0 <= j < s.drop_last().len() implies s.drop_last()[j].path
            != e.path by {
            assert(s.drop_last()[j] == s[j]);
        }
        lemma_entries_map_insert(s.drop_last(), i, e);
        assert(s.last().path != e.path);
    }
}

impl Tree {
    /// Sets the file at `p` to `v`, keeping the entries strictly ordered.
    pub fn set_entry(&mut self, p: PathId, v: FileValue)
        requires
            old(self).wf(),
        ensures
            final(self).wf(),
            final(self)@ == old(self)@.insert(p, v),
    {
        let e = TreeEntry { path: p, file_id: v.file_id, executable: v.executable };
        let n = self.entries.len();
        let mut i: usize = 0;
        while i < n
            invariant
                i <= n,
                n == self.entries@.len(),
                self.entries@ == old(self).entries@,
                old(self).wf(),
                e == (TreeEntry { path: p, file_id: v.file_id, executable: v.executable }),
                entry_value(e) == v,
                forall|k: int| 0 <= k < i ==> self.entries@[k].path < p,
            decreases n - i,
        {
            if self.entries[i].path == p {
                let ghost s0 = self.entries@;
                self.entries.set(i, e);
                proof {
                    lemma_entries_map_replace(s0, i as int, e);
                    assert forall|i1: int, i2: int|
                        0 <= i1 < i2 < self.entries@.len() implies self.entries@[i1].path
                        < self.entries@[i2].path by {
                        assert(s0[i1].path < s0[i2].path);
                    }
                }
                return ;
            }
            if self.entries[i].path > p {
                let ghost s0 = self.entries@;
                self.entries.insert(i, e);
                proof {
                    assert forall|j: int| 0 <= j < s0.len() implies s0[j].path != p by {
                        if j >= i {
                            assert(s0[i as int].path <= s0[j].path);
                        }
                    }
                    lemma_entries_map_insert(s0, i as int, e);
                    assert(forall|k: int| 0 <= k < i ==> self.entries@[k] == s0[k]);
                    assert(self.entries@[i as int] == e);
                    assert(forall|k: int|
                        i < k < self.entries@.len() ==> self.entries@[k] == s0[k - 1]);
                    assert forall|i1: int, i2: int|
                        0 <= i1 < i2 < self.entries@.len() implies self.entries@[i1].path
                        < self.entries@[i2].path by {
                        if i1 < i as int && i2 > i as int {
                            assert(s0[i as int].path <= s0[i2 - 1].path);
                        } else if i1 == i as int && i2 > i as int {
                            assert(s0[i as int].path <= s0[i2 - 1].path);
                        }
                    }
                }
                return ;
            }
            i = i + 1;
        }
        let ghost s0 = self.entries@;
        self.entries.push(e);
        proof {
            assert(self.entries@ =~= s0.insert(s0.len() as int, e));
            lemma_entries_map_insert(s0, s0.len() as int, e);
            assert forall|i1: int, i2: int|
                0 <= i1 < i2 < self.entries@.len() implies self.entries@[i1].path
                < self.entries@[i2].path by {
                if i2 == self.entries@.len() - 1 {
                    assert(s0[i1].path < p);
                }
            }
        }
    }
}

} // verus!
