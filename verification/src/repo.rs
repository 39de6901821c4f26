//! The model of the repository's content-addressed store: immutable commits
//! and trees identified by plain numeric ids.
//!
//! Commits and trees are never mutated; "rewriting" always appends a new
//! object and updates graph references. Tree ids are content-addressed in the
//! model by deduplication: writing an already-stored tree returns the id it
//! already has, and distinct ids always hold distinct content. Commit ids are
//! never reused: a new commit always gets a fresh id, linked to its
//! predecessor for provenance. The host owns the mapping between these ids
//! and the real store's hashes.

use vstd::prelude::*;

use crate::fingerprint::{MergedTreeId, TreeId};
use crate::tree::{
    entries_map, entry_value, lemma_entries_map_contains, lemma_entries_map_value, tree_at, FileValue, Tree,
    TreeEntry,
};

verus! {

/// Identifier of a commit.
pub type CommitId = u64;

/// Identifier of a file's content (a content-derived blob id).
pub type FileId = u64;

/// An interned repository path.
pub type PathId = u64;

/// One immutable commit: parent links, a tree reference, the rest of its
/// content (description, signatures and the like) stood for by a payload
/// word, and the commit it was rewritten from, if any.
#[derive(Debug)]
pub struct CommitData {
    /// The parent commit ids, in order.
    pub parents: Vec<CommitId>,
    /// The commit's tree reference.
    pub tree_id: MergedTreeId,
    /// Stands for the rest of the commit's content.
    pub payload: u64,
    /// The commit this one was rewritten from, for provenance.
    pub predecessor: Option<CommitId>,
}

/// The repository model: append-only tables of trees and commits, indexed by
/// their ids.
#[derive(Debug)]
pub struct RepoModel {
    /// All stored trees; a `TreeId` is an index into this table.
    pub trees: Vec<Tree>,
    /// All stored commits; a `CommitId` is an index into this table.
    pub commits: Vec<CommitData>,
}

/// Whether a tree reference only names stored trees.
pub open spec fn tree_id_valid(repo: RepoModel, id: MergedTreeId) -> bool {
    match id {
        MergedTreeId::Legacy(t) => t < repo.trees@.len(),
        MergedTreeId::Merge(ids) => forall|i: int|
            0 <= i < ids@.len() ==> #[trigger] ids@[i] < repo.trees@.len(),
    }
}

impl RepoModel {
    /// The store's invariant: every tree well formed and stored once, every
    /// commit's references resolving to objects stored before it (parents
    /// strictly precede children, so the graph is acyclic by construction).
    pub open spec fn wf(self) -> bool {
        &&& forall|t: int| 0 <= t < self.trees@.len() ==> (#[trigger] self.trees@[t]).wf()
        &&& forall|t1: int, t2: int|
            0 <= t1 < t2 < self.trees@.len() ==> self.trees@[t1].entries@
                != self.trees@[t2].entries@
        &&& forall|c: int, k: int|
            0 <= c < self.commits@.len() && 0 <= k < self.commits@[c].parents@.len()
                ==> #[trigger] self.commits@[c].parents@[k] < c
        &&& forall|c: int|
            0 <= c < self.commits@.len() ==> tree_id_valid(self, (#[trigger] self.commits@[c]).tree_id)
    }

    /// An empty repository.
    pub fn new() -> (r: RepoModel)
        ensures
            r.wf(),
            r.trees@.len() == 0,
            r.commits@.len() == 0,
    {
        RepoModel { trees: Vec::new(), commits: Vec::new() }
    }

    /// Writes a tree to the content-addressed store and returns its id:
    /// the id it already has when equal content is stored, a fresh id
    /// otherwise. Nothing already stored ever changes.
    pub fn write_tree(&mut self, t: Tree) -> (r: TreeId)
        requires
            old(self).wf(),
            t.wf(),
            old(self).trees@.len() < u64::MAX as int,
        ensures
            final(self).wf(),
            final(self).commits@ == old(self).commits@,
            final(self).trees@.len() >= old(self).trees@.len(),
            final(self).trees@.len() <= old(self).trees@.len() + 1,
            forall|i: int|
                0 <= i < old(self).trees@.len() ==> final(self).trees@[i] == old(self).trees@[i],
            r < final(self).trees@.len(),
            final(self).trees@[r as int].entries@ == t.entries@,
            final(self).trees@[r as int]@ == t@,
    {
        let n = self.trees.len();
        let mut i: usize = 0;
        while i < n
            invariant
                i <= n,
                n == self.trees@.len(),
                self.trees@ == old(self).trees@,
                self.commits@ == old(self).commits@,
                old(self).wf(),
                forall|k: int| 0 <= k < i ==> self.trees@[k].entries@ != t.entries@,
            decreases n - i,
        {
            if same_entries(&self.trees[i], &t) {
                return i as u64;
            }
            i = i + 1;
        }
        self.trees.push(t);
        proof {
            assert forall|c: int|
                0 <= c < self.commits@.len() implies tree_id_valid(
                *self,
                (#[trigger] self.commits@[c]).tree_id,
            ) by {
                assert(tree_id_valid(*old(self), self.commits@[c].tree_id));
                match self.commits@[c].tree_id {
                    MergedTreeId::Legacy(tt) => {},
                    MergedTreeId::Merge(ids) => {
                        assert(forall|k: int|
                            0 <= k < ids@.len() ==> #[trigger] ids@[k]
                                < old(self).trees@.len());
                    },
                }
            }
        }
        n as u64
    }

    /// Appends a new commit and returns its id, which is always fresh: no
    /// stored commit's id is ever reused for different content.
    pub fn add_commit(&mut self, data: CommitData) -> (r: CommitId)
        requires
            old(self).wf(),
            old(self).commits@.len() < u64::MAX as int,
            forall|k: int|
                0 <= k < data.parents@.len() ==> #[trigger] data.parents@[k]
                    < old(self).commits@.len(),
            tree_id_valid(*old(self), data.tree_id),
        ensures
            final(self).wf(),
            final(self).trees@ == old(self).trees@,
            final(self).commits@ == old(self).commits@.push(data),
            r as int == old(self).commits@.len(),
    {
        let r = self.commits.len() as u64;
        self.commits.push(data);
        proof {
            assert forall|c: int|
                0 <= c < self.commits@.len() implies tree_id_valid(
                *self,
                (#[trigger] self.commits@[c]).tree_id,
            ) by {
                if c < old(self).commits@.len() {
                    assert(tree_id_valid(*old(self), self.commits@[c].tree_id));
                    match self.commits@[c].tree_id {
                        MergedTreeId::Legacy(tt) => {},
                        MergedTreeId::Merge(ids) => {
                            assert(forall|k: int|
                                0 <= k < ids@.len() ==> #[trigger] ids@[k]
                                    < old(self).trees@.len());
                        },
                    }
                } else {
                    assert(self.commits@[c] == data);
                    match data.tree_id {
                        MergedTreeId::Legacy(tt) => {},
                        MergedTreeId::Merge(ids) => {
                            assert(forall|k: int|
                                0 <= k < ids@.len() ==> #[trigger] ids@[k]
                                    < old(self).trees@.len());
                        },
                    }
                }
            }
        }
        r
    }
}

/// Whether two trees hold exactly the same entries.
pub fn same_entries(a: &Tree, b: &Tree) -> (r: bool)
    ensures
        r == (a.entries@ == b.entries@),
{
    if a.entries.len() != b.entries.len() {
        return false;
    }
    let mut i: usize = 0;
    while i < a.entries.len()
        invariant
            i <= a.entries@.len(),
            a.entries@.len() == b.entries@.len(),
            forall|k: int| 0 <= k < i ==> a.entries@[k] == b.entries@[k],
        decreases a.entries@.len() - i,
    {
        let x = a.entries[i];
        let y = b.entries[i];
        if x.path != y.path || x.file_id != y.file_id || x.executable != y.executable {
            return false;
        }
        i = i + 1;
    }
    proof {
        assert(a.entries@ =~= b.entries@);
    }
    true
}

/// The paths two file maps agree on, with the agreed value: the resolved
/// portion of a merge. A path the sides disagree on is conflicted and stays
/// outside the tracked file map.
pub open spec fn agree2(a: Map<PathId, FileValue>, b: Map<PathId, FileValue>) -> Map<
    PathId,
    FileValue,
> {
    Map::new(|p: PathId| a.contains_key(p) && b.contains_key(p) && a[p] == b[p], |p: PathId| a[p])
}

/// The agreement of a whole sequence of file maps, folded left; empty for an
/// empty sequence.
pub open spec fn agree_fold(maps: Seq<Map<PathId, FileValue>>) -> Map<PathId, FileValue>
    decreases maps.len(),
{
    if maps.len() == 0 {
        Map::empty()
    } else if maps.len() == 1 {
        maps[0]
    } else {
        agree2(agree_fold(maps.drop_last()), maps.last())
    }
}

/// A path in the agreement lies in every side, with the same value
/// everywhere.
pub proof fn lemma_agree_fold_contains(maps: Seq<Map<PathId, FileValue>>, p: PathId)
    requires
        agree_fold(maps).contains_key(p),
    ensures
        forall|i: int|
            0 <= i < maps.len() ==> (#[trigger] maps[i]).contains_key(p) && maps[i][p]
                == agree_fold(maps)[p],
    decreases maps.len(),
{
    if maps.len() > 1 {
        lemma_agree_fold_contains(maps.drop_last(), p);
        assert forall|i: int|
            0 <= i < maps.len() implies (#[trigger] maps[i]).contains_key(p) && maps[i][p]
            == agree_fold(maps)[p] by {
            if i < maps.len() - 1 {
                assert(maps.drop_last()[i] == maps[i]);
            }
        }
    }
}

/// The file map a tree reference resolves to: a single tree's map, or the
/// agreement of the merge's sides.
pub open spec fn effective_map(repo: RepoModel, id: MergedTreeId) -> Map<PathId, FileValue> {
    match id {
        MergedTreeId::Legacy(t) => repo.trees@[t as int]@,
        MergedTreeId::Merge(ids) => agree_fold(
            ids@.map_values(|t: TreeId| repo.trees@[t as int]@),
        ),
    }
}

/// The file map of a commit's own tree.
pub open spec fn commit_map(repo: RepoModel, c: CommitId) -> Map<PathId, FileValue> {
    effective_map(repo, repo.commits@[c as int].tree_id)
}

/// The file map of a commit's merged parent tree: the agreement of all the
/// parents' maps; empty for a commit without parents.
pub open spec fn parents_map(repo: RepoModel, c: CommitId) -> Map<PathId, FileValue> {
    agree_fold(
        repo.commits@[c as int].parents@.map_values(|pa: CommitId| commit_map(repo, pa)),
    )
}

/// The entries of `s` whose path `bm` agrees on (same file, same bit).
pub open spec fn agree_entries(s: Seq<TreeEntry>, bm: Map<PathId, FileValue>) -> Seq<TreeEntry>
    decreases s.len(),
{
    if s.len() == 0 {
        Seq::empty()
    } else {
        let pre = agree_entries(s.drop_last(), bm);
        if tree_at(bm, s.last().path) == Some(entry_value(s.last())) {
            pre.push(s.last())
        } else {
            pre
        }
    }
}

proof fn lemma_agree_entries_sorted(s: Seq<TreeEntry>, bm: Map<PathId, FileValue>)
    requires
        forall|i1: int, i2: int| 0 <= i1 < i2 < s.len() ==> s[i1].path < s[i2].path,
    ensures
        forall|j: int|
            0 <= j < agree_entries(s, bm).len() ==> exists|k: int|
                0 <= k < s.len() && #[trigger] agree_entries(s, bm)[j] == s[k],
        forall|j1: int, j2: int|
            0 <= j1 < j2 < agree_entries(s, bm).len() ==> agree_entries(s, bm)[j1].path
                < agree_entries(s, bm)[j2].path,
    decreases s.len(),
{
    if s.len() > 0 {
        let pre = agree_entries(s.drop_last(), bm);
        let res = agree_entries(s, bm);
        assert forall|i1: int, i2: int|
            0 <= i1 < i2 < s.drop_last().len() implies s.drop_last()[i1].path
            < s.drop_last()[i2].path by {
            assert(s.drop_last()[i1] == s[i1] && s.drop_last()[i2] == s[i2]);
        }
        lemma_agree_entries_sorted(s.drop_last(), bm);
        if tree_at(bm, s.last().path) == Some(entry_value(s.last())) {
            assert forall|j: int| 0 <= j < res.len() implies exists|k: int|
                0 <= k < s.len() && #[trigger] res[j] == s[k] by {
                if j < pre.len() {
                    let k = choose|k: int| 0 <= k < s.drop_last().len() && pre[j] == s.drop_last()[k];
                    assert(res[j] == s[k]);
                } else {
                    assert(res[j] == s[s.len() - 1]);
                }
            }
            assert forall|j1: int, j2: int| 0 <= j1 < j2 < res.len() implies res[j1].path
                < res[j2].path by {
                if j2 == res.len() - 1 {
                    let k = choose|k: int|
                        0 <= k < s.drop_last().len() && pre[j1] == s.drop_last()[k];
                    assert(s[k].path < s.last().path);
                }
            }
        } else {
            assert forall|j: int| 0 <= j < res.len() implies exists|k: int|
                0 <= k < s.len() && #[trigger] res[j] == s[k] by {
                let k = choose|k: int| 0 <= k < s.drop_last().len() && pre[j] == s.drop_last()[k];
                assert(res[j] == s[k]);
            }
        }
    }
}

proof fn lemma_agree_entries_map(s: Seq<TreeEntry>, bm: Map<PathId, FileValue>)
    requires
        forall|i1: int, i2: int| 0 <= i1 < i2 < s.len() ==> s[i1].path < s[i2].path,
    ensures
        entries_map(agree_entries(s, bm)) =~= agree2(entries_map(s), bm),
    decreases s.len(),
{
    if s.len() == 0 {
        assert(entries_map(agree_entries(s, bm)) =~= agree2(entries_map(s), bm));
    } else {
        let last = s.last();
        assert forall|i1: int, i2: int|
            0 <= i1 < i2 < s.drop_last().len() implies s.drop_last()[i1].path
            < s.drop_last()[i2].path by {
            assert(s.drop_last()[i1] == s[i1] && s.drop_last()[i2] == s[i2]);
        }
        lemma_agree_entries_map(s.drop_last(), bm);
        lemma_entries_map_contains(s.drop_last(), last.path);
        assert forall|k: int| 0 <= k < s.drop_last().len() implies s.drop_last()[k].path
            != last.path by {
            assert(s[k].path < last.path);
        }
        assert(!entries_map(s.drop_last()).contains_key(last.path));
        if tree_at(bm, last.path) == Some(entry_value(last)) {
            let res = agree_entries(s, bm);
            assert(res == agree_entries(s.drop_last(), bm).push(last));
            assert(res.drop_last() =~= agree_entries(s.drop_last(), bm));
            assert(res.last() == last);
            assert(entries_map(res) == entries_map(agree_entries(s.drop_last(), bm)).insert(
                last.path,
                entry_value(last),
            ));
            assert(entries_map(agree_entries(s, bm)) =~= agree2(entries_map(s), bm));
        } else {
            assert(entries_map(agree_entries(s, bm)) =~= agree2(entries_map(s), bm));
        }
    }
}

/// Computes the tree of the paths `a` and `b` agree on.
pub fn agree2_tree(a: &Tree, b: &Tree) -> (r: Tree)
    requires
        a.wf(),
        b.wf(),
    ensures
        r.wf(),
        r@ == agree2(a@, b@),
{
    let mut entries: Vec<TreeEntry> = Vec::new();
    let mut i: usize = 0;
    while i < a.entries.len()
        invariant
            a.wf(),
            b.wf(),
            i <= a.entries@.len(),
            entries@ == agree_entries(a.entries@.take(i as int), b@),
        decreases a.entries@.len() - i,
    {
        let e = a.entries[i];
        let bv = b.lookup(e.path);
        let keep = match bv {
            Some(v) => v.file_id == e.file_id && v.executable == e.executable,
            None => false,
        };
        proof {
            let pre = a.entries@.take(i as int);
            let cur = a.entries@.take(i + 1);
            assert(cur.drop_last() =~= pre);
            assert(cur.last() == a.entries@[i as int]);
            assert(keep == (tree_at(b@, e.path) == Some(entry_value(e))));
        }
        if keep {
            entries.push(e);
        }
        i = i + 1;
    }
    proof {
        assert(a.entries@.take(a.entries@.len() as int) =~= a.entries@);
        lemma_agree_entries_sorted(a.entries@, b@);
        lemma_agree_entries_map(a.entries@, b@);
    }
    Tree { entries }
}


/// Computes the file tree a tree reference resolves to: a copy of the single
/// tree, or the agreement of the merge's sides (empty for an empty merge).
pub fn effective_tree(repo: &RepoModel, id: &MergedTreeId) -> (r: Tree)
    requires
        repo.wf(),
        tree_id_valid(*repo, *id),
    ensures
        r.wf(),
        r@ == effective_map(*repo, *id),
{
    match id {
        MergedTreeId::Legacy(t) => {
            let nt = repo.trees.len();
            proof {
                assert(*t < nt);
                assert(((*t as usize) as int) == *t as int);
            }
            let r = repo.trees[*t as usize].duplicate();
            proof {
                assert(repo.trees@[*t as int].wf());
                assert(*id is Legacy);
                assert(effective_map(*repo, *id) == repo.trees@[*t as int]@);
            }
            r
        },
        MergedTreeId::Merge(ids) => {
            let r = agree_tree_of_ids(repo, ids);
            proof {
                assert(*id is Merge);
                assert(effective_map(*repo, *id) == agree_fold(
                    ids@.map_values(|t: TreeId| repo.trees@[t as int]@),
                ));
            }
            r
        },
    }
}

/// Computes the agreement tree of the listed stored trees.
fn agree_tree_of_ids(repo: &RepoModel, ids: &Vec<TreeId>) -> (r: Tree)
    requires
        repo.wf(),
        forall|i: int| 0 <= i < ids@.len() ==> #[trigger] ids@[i] < repo.trees@.len(),
    ensures
        r.wf(),
        r@ == agree_fold(ids@.map_values(|t: TreeId| repo.trees@[t as int]@)),
{
    let ghost maps = ids@.map_values(|t: TreeId| repo.trees@[t as int]@);
    if ids.len() == 0 {
        let r = Tree::empty();
        proof {
            assert(agree_fold(maps) =~= Map::<PathId, FileValue>::empty());
        }
        return r;
    }
    let nt = repo.trees.len();
    proof {
        assert(ids@[0] < nt);
        assert(((ids@[0] as usize) as int) == ids@[0] as int);
    }
    let mut acc = repo.trees[ids[0] as usize].duplicate();
    let _ = nt;
    proof {
        assert(repo.trees@[ids@[0] as int].wf());
        assert(maps.take(1).len() == 1);
        assert(maps.take(1)[0] == maps[0]);
        assert(acc@ == agree_fold(maps.take(1)));
    }
    let mut i: usize = 1;
    while i < ids.len()
        invariant
            repo.wf(),
            forall|k: int| 0 <= k < ids@.len() ==> #[trigger] ids@[k] < repo.trees@.len(),
            nt as int == repo.trees@.len(),
            maps == ids@.map_values(|t: TreeId| repo.trees@[t as int]@),
            1 <= i <= ids@.len(),
            acc.wf(),
            acc@ == agree_fold(maps.take(i as int)),
        decreases ids@.len() - i,
    {
        proof {
            assert(ids@[i as int] < nt);
            assert(((ids@[i as int] as usize) as int) == ids@[i as int] as int);
        }
        let side = &repo.trees[ids[i] as usize];
        proof {
            assert(repo.trees@[ids@[i as int] as int].wf());
        }
        let next = agree2_tree(&acc, side);
        proof {
            let pre = maps.take(i as int);
            let cur = maps.take(i + 1);
            assert(cur.drop_last() =~= pre);
            assert(cur.last() == maps[i as int]);
            assert(maps[i as int] == repo.trees@[ids@[i as int] as int]@);
            assert(next@ == agree_fold(cur));
        }
        acc = next;
        i = i + 1;
    }
    proof {
        assert(maps.take(maps.len() as int) =~= maps);
    }
    acc
}

/// Computes the merged parent tree of a commit: the agreement of all the
/// parents' effective trees, empty for a commit without parents.
pub fn parents_tree(repo: &RepoModel, c: CommitId) -> (r: Tree)
    requires
        repo.wf(),
        c < repo.commits@.len(),
    ensures
        r.wf(),
        r@ == parents_map(*repo, c),
{
    let ghost maps = repo.commits@[c as int].parents@.map_values(
        |pa: CommitId| commit_map(*repo, pa),
    );
    let ncommits = repo.commits.len();
    proof {
        assert(c < ncommits);
        assert(((c as usize) as int) == c as int);
    }
    let parents = &repo.commits[c as usize].parents;
    if parents.len() == 0 {
        let r = Tree::empty();
        proof {
            assert(parents_map(*repo, c) =~= Map::<PathId, FileValue>::empty());
        }
        return r;
    }
    proof {
        assert(repo.commits@[c as int].parents@[0] < c);
        assert(((parents[0] as usize) as int) == parents@[0] as int);
    }
    let p0 = parents[0];
    let mut acc = effective_tree(repo, &repo.commits[p0 as usize].tree_id);
    proof {
        assert(maps.take(1).len() == 1);
        assert(maps.take(1)[0] == maps[0]);
        assert(maps[0] == commit_map(*repo, parents@[0]));
        assert(acc@ == agree_fold(maps.take(1)));
    }
    let mut i: usize = 1;
    while i < parents.len()
        invariant
            repo.wf(),
            c < repo.commits@.len(),
            ncommits as int == repo.commits@.len(),
            parents@ == repo.commits@[c as int].parents@,
            maps == repo.commits@[c as int].parents@.map_values(
                |pa: CommitId| commit_map(*repo, pa),
            ),
            1 <= i <= parents@.len(),
            acc.wf(),
            acc@ == agree_fold(maps.take(i as int)),
        decreases parents@.len() - i,
    {
        proof {
            assert(repo.commits@[c as int].parents@[i as int] < c);
            assert(parents@[i as int] < ncommits);
            assert(((parents@[i as int] as usize) as int) == parents@[i as int] as int);
        }
        let pi = parents[i];
        let side = effective_tree(repo, &repo.commits[pi as usize].tree_id);
        let next = agree2_tree(&acc, &side);
        proof {
            let pre = maps.take(i as int);
            let cur = maps.take(i + 1);
            assert(cur.drop_last() =~= pre);
            assert(cur.last() == maps[i as int]);
            assert(maps[i as int] == commit_map(*repo, parents@[i as int]));
            assert(next@ == agree_fold(cur));
        }
        acc = next;
        i = i + 1;
    }
    proof {
        assert(maps.take(maps.len() as int) =~= maps);
    }
    acc
}


/// Resolving a tree reference reads only the trees it names, so extending the
/// store never changes what an already-valid reference resolves to.
pub proof fn lemma_effective_map_stable(r0: RepoModel, r1: RepoModel, id: MergedTreeId)
    requires
        tree_id_valid(r0, id),
        r1.trees@.len() >= r0.trees@.len(),
        forall|i: int| 0 <= i < r0.trees@.len() ==> r1.trees@[i] == r0.trees@[i],
    ensures
        tree_id_valid(r1, id),
        effective_map(r1, id) == effective_map(r0, id),
{
    match id {
        MergedTreeId::Legacy(t) => {
            assert(r1.trees@[t as int] == r0.trees@[t as int]);
        },
        MergedTreeId::Merge(ids) => {
            let m0 = ids@.map_values(|t: TreeId| r0.trees@[t as int]@);
            let m1 = ids@.map_values(|t: TreeId| r1.trees@[t as int]@);
            assert forall|i: int| 0 <= i < ids@.len() implies m0[i] == m1[i] by {
                assert(ids@[i] < r0.trees@.len());
                assert(r1.trees@[ids@[i] as int] == r0.trees@[ids@[i] as int]);
            }
            assert(m0 =~= m1);
        },
    }
}

} // verus!


