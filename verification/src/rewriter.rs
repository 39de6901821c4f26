//! The history rewrite: walks the batch's commits in descendant order inside
//! one transaction, rebuilds each commit's tree from the recorded changes,
//! reparents it onto the already-rewritten versions of its in-batch parents,
//! and writes the new objects.
//!
//! A commit with no resulting tree edit and no rewritten ancestor is left
//! byte-identical: no new object is created for it. Every change produces a
//! fresh commit id linked to its predecessor; old ids are never reused.

use vstd::prelude::*;

use crate::changes::{lemma_changes_map_contains, lemma_changes_map_value, ChangeSet};
use crate::fingerprint::MergedTreeId;
use crate::repo::{
    commit_map, effective_map, effective_tree, lemma_effective_map_stable, tree_id_valid,
    CommitData, CommitId, PathId, RepoModel,
};
use crate::tree::{FileValue, Tree};

verus! {

/// The outcome of one commit's rewrite: the id it had, and the id that now
/// stands for it (the same id when nothing about it changed).
#[derive(Clone, Copy, Debug, PartialEq, Eq, Structural)]
pub struct RewriteResult {
    /// The commit's id before the rewrite.
    pub old_id: CommitId,
    /// Its id afterwards; equal to `old_id` exactly when it was left alone.
    pub new_id: CommitId,
}

/// A commit's file map after its recorded changes apply: each recorded path
/// that currently holds a file takes the recorded content; every other path
/// keeps its value. No path is added or removed.
pub open spec fn rewritten_map(
    old_map: Map<PathId, FileValue>,
    csm: Map<(PathId, CommitId), FileValue>,
    c: CommitId,
) -> Map<PathId, FileValue> {
    Map::new(
        |p: PathId| old_map.contains_key(p),
        |p: PathId|
            if csm.contains_key((p, c)) {
                csm[(p, c)]
            } else {
                old_map[p]
            },
    )
}

/// Whether some recorded change actually edits the commit's tree: a recorded
/// path that currently holds a file with a different value.
pub open spec fn has_effective_edit(
    old_map: Map<PathId, FileValue>,
    csm: Map<(PathId, CommitId), FileValue>,
    c: CommitId,
) -> bool {
    exists|p: PathId|
        #![trigger csm.contains_key((p, c))]
        old_map.contains_key(p) && csm.contains_key((p, c)) && csm[(p, c)] != old_map[p]
}

/// Whether some in-batch parent of `c` was rewritten among the first `k`
/// results.
pub open spec fn parent_rewritten(
    repo0: RepoModel,
    results: Seq<RewriteResult>,
    k: int,
    c: CommitId,
) -> bool {
    exists|j: int, t: int|
        0 <= j < k && 0 <= t < repo0.commits@[c as int].parents@.len() && (#[trigger] results[j]).old_id
            == #[trigger] repo0.commits@[c as int].parents@[t] && results[j].new_id
            != results[j].old_id
}

/// The id a parent link points at after the rewrite: the parent's rewritten
/// id when it lies among the first `k` results, else the parent itself.
pub open spec fn mapped_parent(results: Seq<RewriteResult>, k: int, pa: CommitId) -> CommitId {
    if exists|j: int| 0 <= j < k && (#[trigger] results[j]).old_id == pa {
        let j = choose|j: int| 0 <= j < k && (#[trigger] results[j]).old_id == pa;
        results[j].new_id
    } else {
        pa
    }
}

/// Whether two tree references name the same trees.
pub open spec fn same_tree_ref(a: MergedTreeId, b: MergedTreeId) -> bool {
    match a {
        MergedTreeId::Legacy(x) => b matches MergedTreeId::Legacy(y) && x == y,
        MergedTreeId::Merge(xs) => b matches MergedTreeId::Merge(ys) && xs@ == ys@,
    }
}

/// What the rewrite guarantees of the batch's `k`-th commit: identity exactly
/// when nothing edits its tree and no in-batch parent was rewritten;
/// otherwise a fresh commit whose tree carries the recorded changes (or the
/// old tree, when only the parents moved), reparented onto the rewritten
/// parents, with its predecessor link set.
pub open spec fn result_ok(
    repo0: RepoModel,
    repo: RepoModel,
    batch: Seq<CommitId>,
    csm: Map<(PathId, CommitId), FileValue>,
    results: Seq<RewriteResult>,
    k: int,
) -> bool {
    let c = batch[k];
    let old_map = commit_map(repo0, c);
    let edited = has_effective_edit(old_map, csm, c);
    let unchanged = !edited && !parent_rewritten(repo0, results, k, c);
    &&& results[k].old_id == c
    &&& unchanged <==> results[k].new_id == c
    &&& !unchanged ==> {
        let nid = results[k].new_id as int;
        &&& repo0.commits@.len() <= nid < repo.commits@.len()
        &&& repo.commits@[nid].predecessor == Some(c)
        &&& repo.commits@[nid].payload == repo0.commits@[c as int].payload
        &&& repo.commits@[nid].parents@.len() == repo0.commits@[c as int].parents@.len()
        &&& forall|t: int|
            0 <= t < repo.commits@[nid].parents@.len() ==> #[trigger] repo.commits@[nid].parents@[t]
                == mapped_parent(results, k, repo0.commits@[c as int].parents@[t])
        &&& if edited {
            repo.commits@[nid].tree_id is Legacy && effective_map(repo, repo.commits@[nid].tree_id)
                == rewritten_map(old_map, csm, c)
        } else {
            same_tree_ref(repo.commits@[nid].tree_id, repo0.commits@[c as int].tree_id)
        }
    }
}

/// A copy of a tree reference, naming the same trees.
fn copy_tree_id(id: &MergedTreeId) -> (r: MergedTreeId)
    ensures
        same_tree_ref(r, *id),
{
    match id {
        MergedTreeId::Legacy(t) => MergedTreeId::Legacy(*t),
        MergedTreeId::Merge(ids) => {
            let mut v: Vec<u64> = Vec::new();
            let mut i: usize = 0;
            while i < ids.len()
                invariant
                    i <= ids@.len(),
                    v@ =~= ids@.take(i as int),
                decreases ids@.len() - i,
            {
                v.push(ids[i]);
                i = i + 1;
            }
            proof {
                assert(v@ =~= ids@);
            }
            MergedTreeId::Merge(v)
        },
    }
}

fn map_parent(results: &Vec<RewriteResult>, pa: CommitId) -> (r: CommitId)
    requires
        forall|j1: int, j2: int|
            0 <= j1 < j2 < results@.len() ==> results@[j1].old_id != results@[j2].old_id,
    ensures
        r == mapped_parent(results@, results@.len() as int, pa),
{
    let mut j: usize = 0;
    while j < results.len()
        invariant
            j <= results@.len(),
            forall|i: int| 0 <= i < j ==> (#[trigger] results@[i]).old_id != pa,
            forall|j1: int, j2: int|
                0 <= j1 < j2 < results@.len() ==> results@[j1].old_id != results@[j2].old_id,
        decreases results@.len() - j,
    {
        if results[j].old_id == pa {
            proof {
                assert((#[trigger] results@[j as int]).old_id == pa);
                let j2 = choose|j2: int|
                    0 <= j2 < results@.len() && (#[trigger] results@[j2]).old_id == pa;
                assert(j2 == j as int);
            }
            return results[j].new_id;
        }
        j = j + 1;
    }
    proof {
        assert(!exists|j2: int| 0 <= j2 < results@.len() && (#[trigger] results@[j2]).old_id == pa);
    }
    pa
}

proof fn lemma_mapped_parent_prefix(
    r1: Seq<RewriteResult>,
    r2: Seq<RewriteResult>,
    k: int,
    pa: CommitId,
)
    requires
        0 <= k <= r1.len(),
        k <= r2.len(),
        forall|j: int| 0 <= j < k ==> r1[j] == r2[j],
        forall|j1: int, j2: int| 0 <= j1 < j2 < k ==> r1[j1].old_id != r1[j2].old_id,
    ensures
        mapped_parent(r1, k, pa) == mapped_parent(r2, k, pa),
{
    if exists|j: int| 0 <= j < k && (#[trigger] r1[j]).old_id == pa {
        let j1 = choose|j: int| 0 <= j < k && (#[trigger] r1[j]).old_id == pa;
        assert(r2[j1].old_id == pa);
        let j2 = choose|j: int| 0 <= j < k && (#[trigger] r2[j]).old_id == pa;
        assert(r1[j2].old_id == pa);
        assert(j1 == j2);
    } else {
        if exists|j: int| 0 <= j < k && (#[trigger] r2[j]).old_id == pa {
            let j2 = choose|j: int| 0 <= j < k && (#[trigger] r2[j]).old_id == pa;
            assert(r1[j2].old_id == pa);
            assert(false);
        }
    }
}

proof fn lemma_parent_rewritten_prefix(
    repo0: RepoModel,
    r1: Seq<RewriteResult>,
    r2: Seq<RewriteResult>,
    k: int,
    c: CommitId,
)
    requires
        0 <= k <= r1.len(),
        k <= r2.len(),
        forall|j: int| 0 <= j < k ==> r1[j] == r2[j],
    ensures
        parent_rewritten(repo0, r1, k, c) == parent_rewritten(repo0, r2, k, c),
{
    if parent_rewritten(repo0, r1, k, c) {
        let (j, t) = choose|j: int, t: int|
            0 <= j < k && 0 <= t < repo0.commits@[c as int].parents@.len() && (#[trigger] r1[j]).old_id
                == #[trigger] repo0.commits@[c as int].parents@[t] && r1[j].new_id != r1[j].old_id;
        assert((#[trigger] r2[j]).old_id == repo0.commits@[c as int].parents@[t] && r2[j].new_id
            != r2[j].old_id);
    }
    if parent_rewritten(repo0, r2, k, c) {
        let (j, t) = choose|j: int, t: int|
            0 <= j < k && 0 <= t < repo0.commits@[c as int].parents@.len() && (#[trigger] r2[j]).old_id
                == #[trigger] repo0.commits@[c as int].parents@[t] && r2[j].new_id != r2[j].old_id;
        assert((#[trigger] r1[j]).old_id == repo0.commits@[c as int].parents@[t] && r1[j].new_id
            != r1[j].old_id);
    }
}

/// Applies the changes recorded for `c` to a copy of `base`, per the
/// set-or-remove rule: a recorded path is edited only while it currently
/// holds a file whose value differs. Also reports whether anything changed.
fn apply_changes(base: &Tree, cs: &ChangeSet, c: CommitId) -> (r: (Tree, bool))
    requires
        base.wf(),
        cs.wf(),
    ensures
        r.0.wf(),
        r.0@ == rewritten_map(base@, cs@, c),
        r.1 == has_effective_edit(base@, cs@, c),
{
    let mut tree = base.duplicate();
    let mut changed = false;
    let n = cs.entries.len();
    let mut i: usize = 0;
    while i < n
        invariant
            base.wf(),
            cs.wf(),
            tree.wf(),
            n == cs.entries@.len(),
            i <= n,
            forall|p: PathId|
                #![trigger tree@.contains_key(p)]
                tree@.contains_key(p) == base@.contains_key(p),
            forall|e: int|
                #![trigger cs.entries@[e]]
                0 <= e < i && cs.entries@[e].source == c && base@.contains_key(
                    cs.entries@[e].path,
                ) ==> tree@[cs.entries@[e].path] == cs.entries@[e].value,
            forall|p: PathId|
                #![trigger base@.contains_key(p)]
                base@.contains_key(p) && !(exists|e: int|
                    0 <= e < i && (#[trigger] cs.entries@[e]).source == c && cs.entries@[e].path
                        == p) ==> tree@[p] == base@[p],
            changed == exists|e: int|
                0 <= e < i && (#[trigger] cs.entries@[e]).source == c && base@.contains_key(
                    cs.entries@[e].path,
                ) && cs.entries@[e].value != base@[cs.entries@[e].path],
        decreases n - i,
    {
        let entry = cs.entries[i];
        if entry.source == c {
            let cur = tree.lookup(entry.path);
            match cur {
                Some(v) => {
                    proof {
                        // no earlier entry names this (path, source) key, so
                        // the path still holds its base value
                        assert forall|e: int|
                            0 <= e < i implies !((#[trigger] cs.entries@[e]).source == c
                            && cs.entries@[e].path == entry.path) by {}
                        assert(tree@[entry.path] == base@[entry.path]);
                    }
                    if v.file_id != entry.value.file_id || v.executable != entry.value.executable {
                        tree.set_entry(entry.path, entry.value);
                        changed = true;
                        proof {
                            assert((#[trigger] cs.entries@[i as int]).source == c
                                && base@.contains_key(cs.entries@[i as int].path)
                                && cs.entries@[i as int].value != base@[cs.entries@[i as int].path]);
                        }
                    } else {
                        proof {
                            assert(tree@[entry.path] == entry.value);
                        }
                    }
                },
                None => {},
            }
        }
        i = i + 1;
    }
    proof {
        assert forall|p: PathId|
            #![trigger rewritten_map(base@, cs@, c).contains_key(p)]
            #![trigger tree@.contains_key(p)]
            #![trigger tree@[p]]
            (tree@.contains_key(p) == rewritten_map(base@, cs@, c).contains_key(p)) && (tree@
                .contains_key(p) ==> tree@[p] == rewritten_map(base@, cs@, c)[p]) by {
            if base@.contains_key(p) {
                lemma_changes_map_contains(cs.entries@, p, c);
                if cs@.contains_key((p, c)) {
                    let e = choose|e: int|
                        0 <= e < cs.entries@.len() && cs.entries@[e].path == p
                            && cs.entries@[e].source == c;
                    lemma_changes_map_value(cs.entries@, e);
                    assert(tree@[p] == cs.entries@[e].value);
                } else {
                    assert(!(exists|e: int|
                        0 <= e < n && (#[trigger] cs.entries@[e]).source == c
                            && cs.entries@[e].path == p));
                }
            }
        }
        assert(tree@ =~= rewritten_map(base@, cs@, c));
        if changed {
            let e = choose|e: int|
                0 <= e < n && (#[trigger] cs.entries@[e]).source == c && base@.contains_key(
                    cs.entries@[e].path,
                ) && cs.entries@[e].value != base@[cs.entries@[e].path];
            lemma_changes_map_value(cs.entries@, e);
            assert(has_effective_edit(base@, cs@, c));
        } else {
            if has_effective_edit(base@, cs@, c) {
                let p = choose|p: PathId|
                    #![trigger cs@.contains_key((p, c))]
                    base@.contains_key(p) && cs@.contains_key((p, c)) && cs@[(p, c)] != base@[p];
                lemma_changes_map_contains(cs.entries@, p, c);
                let e = choose|e: int|
                    0 <= e < cs.entries@.len() && cs.entries@[e].path == p && cs.entries@[e].source
                        == c;
                lemma_changes_map_value(cs.entries@, e);
                assert((#[trigger] cs.entries@[e]).source == c && base@.contains_key(
                    cs.entries@[e].path,
                ) && cs.entries@[e].value != base@[cs.entries@[e].path]);
                assert(false);
            }
        }
    }
    (tree, changed)
}

/// Rewrites the whole batch, visited in the given (descendant) order, inside
/// the surrounding transaction: nothing already stored changes, and each
/// commit is either left byte-identical or superseded by one fresh commit.
#[verifier::rlimit(100)]
pub fn rewrite_batch(repo: &mut RepoModel, batch: &Vec<CommitId>, cs: &ChangeSet) -> (results: Vec<
    RewriteResult,
>)
    requires
        old(repo).wf(),
        cs.wf(),
        forall|k: int| 0 <= k < batch@.len() ==> #[trigger] batch@[k] < old(repo).commits@.len(),
        forall|k1: int, k2: int| 0 <= k1 < k2 < batch@.len() ==> batch@[k1] != batch@[k2],
        old(repo).commits@.len() + batch@.len() < u64::MAX as int,
        old(repo).trees@.len() + batch@.len() < u64::MAX as int,
    ensures
        final(repo).wf(),
        final(repo).commits@.len() >= old(repo).commits@.len(),
        final(repo).commits@.len() <= old(repo).commits@.len() + batch@.len(),
        forall|i: int|
            0 <= i < old(repo).commits@.len() ==> final(repo).commits@[i] == old(
                repo,
            ).commits@[i],
        final(repo).trees@.len() >= old(repo).trees@.len(),
        final(repo).trees@.len() <= old(repo).trees@.len() + batch@.len(),
        forall|i: int|
            0 <= i < old(repo).trees@.len() ==> final(repo).trees@[i] == old(repo).trees@[i],
        results@.len() == batch@.len(),
        forall|k: int|
            0 <= k < batch@.len() ==> result_ok(
                *old(repo),
                *final(repo),
                batch@,
                cs@,
                results@,
                k,
            ),
{
    let mut results: Vec<RewriteResult> = Vec::new();
    let n = batch.len();
    let mut k: usize = 0;
    while k < n
        invariant
            cs.wf(),
            n == batch@.len(),
            k <= n,
            old(repo).wf(),
            forall|j: int| 0 <= j < batch@.len() ==> #[trigger] batch@[j] < old(repo).commits@.len(),
            forall|k1: int, k2: int| 0 <= k1 < k2 < batch@.len() ==> batch@[k1] != batch@[k2],
            old(repo).commits@.len() + batch@.len() < u64::MAX as int,
            old(repo).trees@.len() + batch@.len() < u64::MAX as int,
            repo.wf(),
            repo.commits@.len() >= old(repo).commits@.len(),
            repo.commits@.len() <= old(repo).commits@.len() + k,
            forall|i: int|
                0 <= i < old(repo).commits@.len() ==> repo.commits@[i] == old(repo).commits@[i],
            repo.trees@.len() >= old(repo).trees@.len(),
            repo.trees@.len() <= old(repo).trees@.len() + k,
            forall|i: int|
                0 <= i < old(repo).trees@.len() ==> repo.trees@[i] == old(repo).trees@[i],
            results@.len() == k as int,
            forall|j: int| 0 <= j < k ==> (#[trigger] results@[j]).old_id == batch@[j],
            forall|j: int| 0 <= j < k ==> (#[trigger] results@[j]).new_id < repo.commits@.len(),
            forall|j: int|
                0 <= j < k ==> result_ok(*old(repo), *repo, batch@, cs@, results@, j),
        decreases n - k,
    {
        let c = batch[k];
        let ncommits = repo.commits.len();
        proof {
            assert(c < old(repo).commits@.len());
            assert(((c as usize) as int) == c as int);
            assert(repo.commits@[c as int] == old(repo).commits@[c as int]);
            lemma_effective_map_stable(*old(repo), *repo, old(repo).commits@[c as int].tree_id);
        }
        let base = effective_tree(repo, &repo.commits[c as usize].tree_id);
        proof {
            assert(base@ == commit_map(*old(repo), c));
        }
        let pair = apply_changes(&base, cs, c);
        let tree = pair.0;
        let edited = pair.1;
        // map the parents onto their rewritten versions
        let mut new_parents: Vec<CommitId> = Vec::new();
        let mut any_parent_changed = false;
        let np = repo.commits[c as usize].parents.len();
        let mut t: usize = 0;
        while t < np
            invariant
                t <= np,
                repo.wf(),
                c < repo.commits@.len(),
                c < ncommits,
                ncommits as int == repo.commits@.len(),
                np == repo.commits@[c as int].parents@.len(),
                results@.len() == k as int,
                k <= batch@.len(),
                n == batch@.len(),
                forall|j: int| 0 <= j < k ==> (#[trigger] results@[j]).old_id == batch@[j],
                forall|k1: int, k2: int| 0 <= k1 < k2 < batch@.len() ==> batch@[k1] != batch@[k2],
                forall|j: int|
                    0 <= j < k ==> (#[trigger] results@[j]).new_id < repo.commits@.len(),
                new_parents@.len() == t as int,
                forall|i: int|
                    0 <= i < t ==> #[trigger] new_parents@[i] == mapped_parent(
                        results@,
                        k as int,
                        repo.commits@[c as int].parents@[i],
                    ),
                forall|i: int| 0 <= i < t ==> #[trigger] new_parents@[i] < repo.commits@.len(),
                any_parent_changed == exists|j: int, i: int|
                    0 <= j < k && 0 <= i < t && (#[trigger] results@[j]).old_id
                        == #[trigger] repo.commits@[c as int].parents@[i] && results@[j].new_id
                        != results@[j].old_id,
            decreases np - t,
        {
            proof {
                assert(c < ncommits);
                assert(((c as usize) as int) == c as int);
            }
            let pa = repo.commits[c as usize].parents[t];
            proof {
                assert forall|j1: int, j2: int|
                    0 <= j1 < j2 < results@.len() implies results@[j1].old_id
                    != results@[j2].old_id by {
                    assert(results@[j1].old_id == batch@[j1]);
                    assert(results@[j2].old_id == batch@[j2]);
                }
            }
            let mapped = map_parent(&results, pa);
            let mut found_changed = false;
            let mut j: usize = 0;
            while j < results.len()
                invariant
                    j <= results@.len(),
                    results@.len() == k as int,
                    t < np,
                    c < repo.commits@.len(),
                    np == repo.commits@[c as int].parents@.len(),
                    pa == repo.commits@[c as int].parents@[t as int],
                    found_changed == exists|j2: int|
                        0 <= j2 < j && (#[trigger] results@[j2]).old_id == pa
                            && results@[j2].new_id != results@[j2].old_id,
                decreases results@.len() - j,
            {
                if results[j].old_id == pa && results[j].new_id != results[j].old_id {
                    proof {
                        assert((#[trigger] results@[j as int]).old_id == pa
                            && results@[j as int].new_id != results@[j as int].old_id);
                    }
                    found_changed = true;
                }
                j = j + 1;
            }
            if found_changed {
                any_parent_changed = true;
            }
            proof {
                if mapped >= repo.commits@.len() {
                    if exists|j2: int|
                        0 <= j2 < results@.len() && (#[trigger] results@[j2]).old_id == pa {
                        let j2 = choose|j2: int|
                            0 <= j2 < results@.len() && (#[trigger] results@[j2]).old_id == pa;
                        assert(results@[j2].new_id < repo.commits@.len());
                        assert(false);
                    } else {
                        assert(mapped == pa);
                        assert((#[trigger] repo.commits@[c as int].parents@[t as int]) < c);
                        assert(false);
                    }
                }
                if found_changed {
                    let j2 = choose|j2: int|
                        0 <= j2 < k && (#[trigger] results@[j2]).old_id == pa && results@[j2].new_id
                            != results@[j2].old_id;
                    assert(0 <= j2 < k && 0 <= t < t + 1 && results@[j2].old_id
                        == repo.commits@[c as int].parents@[t as int]);
                }
            }
            new_parents.push(mapped);
            t = t + 1;
        }
        proof {
            assert(parent_rewritten(*old(repo), results@, k as int, c) == any_parent_changed) by {
                assert(repo.commits@[c as int] == old(repo).commits@[c as int]);
                if any_parent_changed {
                    let (j, i) = choose|j: int, i: int|
                        0 <= j < k && 0 <= i < np && (#[trigger] results@[j]).old_id
                            == #[trigger] repo.commits@[c as int].parents@[i] && results@[j].new_id
                            != results@[j].old_id;
                    assert((#[trigger] results@[j]).old_id == (#[trigger] old(
                        repo,
                    ).commits@[c as int].parents@[i]) && results@[j].new_id
                        != results@[j].old_id);
                }
                if parent_rewritten(*old(repo), results@, k as int, c) {
                    let (j, i) = choose|j: int, i: int|
                        0 <= j < k && 0 <= i < old(repo).commits@[c as int].parents@.len() && (
                        #[trigger] results@[j]).old_id == #[trigger] old(
                            repo,
                        ).commits@[c as int].parents@[i] && results@[j].new_id
                            != results@[j].old_id;
                    assert((#[trigger] results@[j]).old_id
                        == (#[trigger] repo.commits@[c as int].parents@[i]) && results@[j].new_id
                        != results@[j].old_id);
                }
            }
        }
        let ghost repo_a = *repo;
        let ghost results0 = results@;
        let ghost new_tree_map = tree@;
        let ghost gtid: u64 = 0;
        let new_id: CommitId;
        if !edited && !any_parent_changed {
            new_id = c;
        } else {
            let tree_id: MergedTreeId;
            if edited {
                let tid = repo.write_tree(tree);
                tree_id = MergedTreeId::Legacy(tid);
                proof {
                    gtid = tid;
                    assert(repo.trees@[tid as int]@ == new_tree_map);
                    assert(tree_id_valid(*repo, tree_id));
                }
            } else {
                tree_id = copy_tree_id(&repo.commits[c as usize].tree_id);
                proof {
                    assert(tree_id_valid(*repo, repo.commits@[c as int].tree_id));
                    match &tree_id {
                        MergedTreeId::Legacy(x) => {},
                        MergedTreeId::Merge(xs) => {
                            match repo.commits@[c as int].tree_id {
                                MergedTreeId::Legacy(_) => {
                                    assert(false);
                                },
                                MergedTreeId::Merge(ys) => {
                                    assert(xs@ == ys@);
                                },
                            }
                        },
                    }
                    assert(tree_id_valid(*repo, tree_id));
                }
            }
            let payload = repo.commits[c as usize].payload;
            let data = CommitData {
                parents: new_parents,
                tree_id,
                payload,
                predecessor: Some(c),
            };
            new_id = repo.add_commit(data);
        }
        let res = RewriteResult { old_id: c, new_id };
        results.push(res);
        proof {
            let repo0 = *old(repo);
            let csm = cs@;
            // carried results stay valid: the store only grew and the new
            // result only extends the sequence
            assert forall|j: int|
                0 <= j < k + 1 implies result_ok(repo0, *repo, batch@, csm, results@, j) by {
                assert forall|j1: int, j2: int|
                    0 <= j1 < j2 < results0.len() implies results0[j1].old_id
                    != results0[j2].old_id by {
                    assert(results0[j1].old_id == batch@[j1]);
                    assert(results0[j2].old_id == batch@[j2]);
                }
                if j < k {
                    assert(result_ok(repo0, repo_a, batch@, csm, results0, j));
                    let cj = batch@[j];
                    lemma_parent_rewritten_prefix(repo0, results0, results@, j, cj);
                    assert(results@[j] == results0[j]);
                    if !(!has_effective_edit(commit_map(repo0, cj), csm, cj) && !parent_rewritten(
                        repo0,
                        results@,
                        j,
                        cj,
                    ))
                    {
                        let nid = results0[j].new_id as int;
                        assert(repo.commits@[nid] == repo_a.commits@[nid]);
                        assert forall|t2: int|
                            0 <= t2 < repo.commits@[nid].parents@.len() implies #[trigger] repo.commits@[nid].parents@[t2]
                            == mapped_parent(
                            results@,
                            j,
                            repo0.commits@[cj as int].parents@[t2],
                        ) by {
                            lemma_mapped_parent_prefix(
                                results0,
                                results@,
                                j,
                                repo0.commits@[cj as int].parents@[t2],
                            );
                        }
                        if has_effective_edit(commit_map(repo0, cj), csm, cj) {
                            assert(repo_a.wf());
                            assert(tree_id_valid(
                                repo_a,
                                (#[trigger] repo_a.commits@[nid]).tree_id,
                            ));
                            lemma_effective_map_stable(repo_a, *repo, repo_a.commits@[nid].tree_id);
                        }
                    }
                } else {
                    let cj = batch@[j];
                    assert(cj == c);
                    lemma_parent_rewritten_prefix(repo0, results0, results@, k as int, c);
                    assert(parent_rewritten(repo0, results@, k as int, c) == any_parent_changed);
                    if !edited && !any_parent_changed {
                        assert(results@[j].new_id == c);
                    } else {
                        let nid = results@[j].new_id as int;
                        assert(nid == repo_a.commits@.len());
                        assert(repo0.commits@.len() <= nid < repo.commits@.len());
                        assert(repo.commits@[nid].predecessor == Some(c));
                        assert(repo.commits@[nid].payload == repo0.commits@[c as int].payload);
                        assert forall|t2: int|
                            0 <= t2 < repo.commits@[nid].parents@.len() implies #[trigger] repo.commits@[nid].parents@[t2]
                            == mapped_parent(
                            results@,
                            k as int,
                            repo0.commits@[c as int].parents@[t2],
                        ) by {
                            lemma_mapped_parent_prefix(
                                results0,
                                results@,
                                k as int,
                                repo0.commits@[c as int].parents@[t2],
                            );
                        }
                        if edited {
                            assert(repo.commits@[nid].tree_id == MergedTreeId::Legacy(gtid));
                            assert(effective_map(*repo, repo.commits@[nid].tree_id)
                                == repo.trees@[gtid as int]@);
                            assert(repo.trees@[gtid as int]@ == new_tree_map);
                            assert(new_tree_map == rewritten_map(commit_map(repo0, c), csm, c));
                        }
                        // a fresh id is never the old id
                        assert(results@[j].new_id != c);
                    }
                }
            }
        }
        k = k + 1;
    }
    results
}

} // verus!
