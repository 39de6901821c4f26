//! Change collection: after a commit's job finishes, the content differences
//! between the commit's tree and its merged parent tree determine which paths
//! the commit itself touches; for each such path that currently holds a file,
//! the job's resulting content is recorded under (path, commit). Changed
//! paths recorded for in-set parents are inherited by the child for the paths
//! it does not itself touch, so a change introduced at an ancestor propagates
//! through descendants; a local change always wins over an inherited one.
//! Only file entries are tracked. A failed job records nothing.

use vstd::prelude::*;

use crate::changes::{ChangeEntry, ChangeSet};
use crate::jobs::{job_succeeded, FileWrite, JobOutcome};
use crate::repo::{CommitId, PathId};
use crate::tree::{
    entry_value, lemma_entries_map_contains, lemma_entries_map_value, tree_at, FileValue, Tree,
};

verus! {

/// Whether the commit itself touches `p`: its own file map and its merged
/// parent file map disagree there.
pub open spec fn changed_local(
    cm: Map<PathId, FileValue>,
    pm: Map<PathId, FileValue>,
    p: PathId,
) -> bool {
    tree_at(cm, p) != tree_at(pm, p)
}

/// The files a job's process left changed, empty when it never ran.
pub open spec fn outcome_writes(o: JobOutcome) -> Seq<FileWrite> {
    match o {
        JobOutcome::Exited { writes, .. } => writes@,
        JobOutcome::SpawnFailed => Seq::empty(),
    }
}

/// Whether a snapshot of writes names each path at most once.
pub open spec fn writes_wf(writes: Seq<FileWrite>) -> bool {
    forall|i: int, j: int| 0 <= i < j < writes.len() ==> writes[i].path != writes[j].path
}

/// The content recorded for a locally changed path: what the job wrote
/// there, or the path's current content when the job left it alone.
pub open spec fn write_value(
    writes: Seq<FileWrite>,
    cm: Map<PathId, FileValue>,
    p: PathId,
) -> FileValue {
    if exists|w: int| 0 <= w < writes.len() && writes[w].path == p {
        let w = choose|w: int| 0 <= w < writes.len() && writes[w].path == p;
        FileValue { file_id: writes[w].file_id, executable: writes[w].executable }
    } else {
        cm[p]
    }
}

/// Whether `cs_new` extends `cs_old` with entries for `c` alone, keeping
/// every already-recorded entry untouched (the change set is additive).
pub open spec fn changes_preserved(
    cs_old: Map<(PathId, CommitId), FileValue>,
    cs_new: Map<(PathId, CommitId), FileValue>,
    c: CommitId,
) -> bool {
    &&& forall|key: (PathId, CommitId)|
        #![trigger cs_old.contains_key(key)]
        cs_old.contains_key(key) ==> cs_new.contains_key(key) && cs_new[key] == cs_old[key]
    &&& forall|key: (PathId, CommitId)|
        #![trigger cs_new.contains_key(key)]
        cs_new.contains_key(key) ==> cs_old.contains_key(key) || key.1 == c
}

/// What collection records for one successful commit `c` with file map `cm`,
/// merged parent map `pm` and job writes `writes`:
/// an entry for every locally changed path that currently holds a file, with
/// the job's resulting content; an inherited entry for every other path some
/// parent recorded, carrying that parent's value; and nothing else.
pub open spec fn commit_changes_ok(
    cs_old: Map<(PathId, CommitId), FileValue>,
    cs_new: Map<(PathId, CommitId), FileValue>,
    cm: Map<PathId, FileValue>,
    pm: Map<PathId, FileValue>,
    writes: Seq<FileWrite>,
    c: CommitId,
    parents: Seq<CommitId>,
) -> bool {
    &&& forall|p: PathId|
        #![trigger cm.contains_key(p)]
        changed_local(cm, pm, p) && cm.contains_key(p) ==> cs_new.contains_key((p, c))
            && cs_new[(p, c)] == write_value(writes, cm, p)
    &&& forall|p: PathId|
        #![trigger cs_new.contains_key((p, c))]
        cs_new.contains_key((p, c)) && changed_local(cm, pm, p) ==> cm.contains_key(p)
            && cs_new[(p, c)] == write_value(writes, cm, p)
    &&& forall|p: PathId|
        #![trigger cs_new.contains_key((p, c))]
        cs_new.contains_key((p, c)) && !changed_local(cm, pm, p) ==> exists|t: int|
            0 <= t < parents.len() && cs_old.contains_key((p, #[trigger] parents[t]))
                && cs_new[(p, c)] == cs_old[(p, parents[t])]
    &&& forall|p: PathId, t: int|
        #![trigger cs_old.contains_key((p, parents[t]))]
        0 <= t < parents.len() && !changed_local(cm, pm, p) && cs_old.contains_key(
            (p, parents[t]),
        ) ==> cs_new.contains_key((p, c))
}

fn find_write(writes: &Vec<FileWrite>, p: PathId) -> (r: Option<FileValue>)
    ensures
        match r {
            Some(v) => exists|w: int|
                0 <= w < writes@.len() && (#[trigger] writes@[w]).path == p && v == (FileValue {
                    file_id: writes@[w].file_id,
                    executable: writes@[w].executable,
                }),
            None => forall|w: int| 0 <= w < writes@.len() ==> (#[trigger] writes@[w]).path != p,
        },
{
    let mut i: usize = 0;
    while i < writes.len()
        invariant
            i <= writes@.len(),
            forall|w: int| 0 <= w < i ==> (#[trigger] writes@[w]).path != p,
        decreases writes@.len() - i,
    {
        let w = writes[i];
        if w.path == p {
            proof {
                assert((#[trigger] writes@[i as int]).path == p);
            }
            return Some(FileValue { file_id: w.file_id, executable: w.executable });
        }
        i = i + 1;
    }
    None
}

/// Records everything §4.4 tracks for one commit whose job finished: local
/// changes first (they win), then the changed paths inherited from the
/// parents. A failed job records nothing and never aborts the batch.
#[verifier::rlimit(100)]
pub fn collect_for_commit(
    cs: &mut ChangeSet,
    cmap_tree: &Tree,
    pmap_tree: &Tree,
    c: CommitId,
    parents: &Vec<CommitId>,
    outcome: &JobOutcome,
)
    requires
        old(cs).wf(),
        cmap_tree.wf(),
        pmap_tree.wf(),
        forall|j: int| 0 <= j < old(cs).entries@.len() ==> (#[trigger] old(cs).entries@[j]).source != c,
        writes_wf(outcome_writes(*outcome)),
        forall|t: int| 0 <= t < parents@.len() ==> #[trigger] parents@[t] != c,
    ensures
        final(cs).wf(),
        final(cs).entries@.len() >= old(cs).entries@.len(),
        forall|j: int|
            0 <= j < old(cs).entries@.len() ==> final(cs).entries@[j] == old(cs).entries@[j],
        forall|j: int|
            old(cs).entries@.len() <= j < final(cs).entries@.len()
                ==> (#[trigger] final(cs).entries@[j]).source == c,
        changes_preserved(old(cs)@, final(cs)@, c),
        !job_succeeded(*outcome) ==> final(cs)@ == old(cs)@ && final(cs).entries@ == old(
            cs,
        ).entries@,
        job_succeeded(*outcome) ==> commit_changes_ok(
            old(cs)@,
            final(cs)@,
            cmap_tree@,
            pmap_tree@,
            outcome_writes(*outcome),
            c,
            parents@,
        ),
{
    let writes: &Vec<FileWrite> = match outcome {
        JobOutcome::Exited { code, writes } => {
            if *code != 0 {
                return ;
            }
            writes
        },
        JobOutcome::SpawnFailed => {
            return ;
        },
    };
    proof {
        assert(writes@ == outcome_writes(*outcome));
        assert forall|i1: int, i2: int|
            0 <= i1 < i2 < cmap_tree.entries@.len() implies cmap_tree.entries@[i1].path
            != cmap_tree.entries@[i2].path by {}
        assert forall|p: PathId| #![trigger cs@.contains_key((p, c))] !cs@.contains_key(
            (p, c),
        ) by {
            crate::changes::lemma_changes_map_contains(cs.entries@, p, c);
            if cs@.contains_key((p, c)) {
                let j = choose|j: int|
                    0 <= j < cs.entries@.len() && cs.entries@[j].path == p && cs.entries@[j].source
                        == c;
                assert((#[trigger] old(cs).entries@[j]).source != c);
                assert(false);
            }
        }
    }
    let n = cmap_tree.entries.len();
    let mut i: usize = 0;
    while i < n
        invariant
            cmap_tree.wf(),
            pmap_tree.wf(),
            n == cmap_tree.entries@.len(),
            i <= n,
            cs.wf(),
            old(cs).wf(),
            writes_wf(writes@),
            cs.entries@.len() >= old(cs).entries@.len(),
            forall|j: int|
                0 <= j < old(cs).entries@.len() ==> cs.entries@[j] == old(cs).entries@[j],
            forall|j: int|
                old(cs).entries@.len() <= j < cs.entries@.len()
                    ==> (#[trigger] cs.entries@[j]).source == c,
            forall|j: int|
                0 <= j < old(cs).entries@.len() ==> (#[trigger] old(cs).entries@[j]).source != c,
            changes_preserved(old(cs)@, cs@, c),
            forall|k: int|
                #![trigger cmap_tree.entries@[k]]
                0 <= k < i && tree_at(pmap_tree@, cmap_tree.entries@[k].path) != Some(
                    entry_value(cmap_tree.entries@[k]),
                ) ==> cs@.contains_key((cmap_tree.entries@[k].path, c)) && cs@[(
                    cmap_tree.entries@[k].path,
                    c,
                )] == write_value(writes@, cmap_tree@, cmap_tree.entries@[k].path),
            forall|p: PathId|
                #![trigger cs@.contains_key((p, c))]
                cs@.contains_key((p, c)) ==> exists|k: int|
                    0 <= k < i && (#[trigger] cmap_tree.entries@[k]).path == p && tree_at(
                        pmap_tree@,
                        cmap_tree.entries@[k].path,
                    ) != Some(entry_value(cmap_tree.entries@[k])),
        decreases n - i,
    {
        let e = cmap_tree.entries[i];
        proof {
            assert forall|i1: int, i2: int|
                0 <= i1 < i2 < cmap_tree.entries@.len() implies cmap_tree.entries@[i1].path
                != cmap_tree.entries@[i2].path by {}
            lemma_entries_map_value(cmap_tree.entries@, i as int);
        }
        let pv = pmap_tree.lookup(e.path);
        let same = match pv {
            Some(v) => v.file_id == e.file_id && v.executable == e.executable,
            None => false,
        };
        if !same {
            let found = find_write(writes, e.path);
            let val = match found {
                Some(v) => v,
                None => FileValue { file_id: e.file_id, executable: e.executable },
            };
            proof {
                match found {
                    Some(v) => {
                        let w = choose|w: int|
                            0 <= w < writes@.len() && (#[trigger] writes@[w]).path == e.path && v
                                == (FileValue {
                                file_id: writes@[w].file_id,
                                executable: writes@[w].executable,
                            });
                        let w2 = choose|w2: int|
                            0 <= w2 < writes@.len() && writes@[w2].path == e.path;
                        assert(w == w2);
                        assert(val == write_value(writes@, cmap_tree@, e.path));
                    },
                    None => {
                        assert(!exists|w: int|
                            0 <= w < writes@.len() && writes@[w].path == e.path);
                        assert(cmap_tree@[e.path] == entry_value(e));
                        assert(val == write_value(writes@, cmap_tree@, e.path));
                    },
                }
                if cs@.contains_key((e.path, c)) {
                    let k = choose|k: int|
                        0 <= k < i && (#[trigger] cmap_tree.entries@[k]).path == e.path && tree_at(
                            pmap_tree@,
                            cmap_tree.entries@[k].path,
                        ) != Some(entry_value(cmap_tree.entries@[k]));
                    assert(cmap_tree.entries@[k].path < cmap_tree.entries@[i as int].path);
                    assert(false);
                }
            }
            let ghost cs0 = cs@;
            cs.push_entry(ChangeEntry { path: e.path, source: c, value: val });
            proof {
                assert(cs@ == cs0.insert((e.path, c), val));
                assert forall|p: PathId|
                    #![trigger cs@.contains_key((p, c))]
                    cs@.contains_key((p, c)) implies exists|k: int|
                    0 <= k < i + 1 && (#[trigger] cmap_tree.entries@[k]).path == p && tree_at(
                        pmap_tree@,
                        cmap_tree.entries@[k].path,
                    ) != Some(entry_value(cmap_tree.entries@[k])) by {
                    if p == e.path {
                        assert(cmap_tree.entries@[i as int].path == p);
                    } else {
                        assert(cs0.contains_key((p, c)));
                        let k = choose|k: int|
                            0 <= k < i && (#[trigger] cmap_tree.entries@[k]).path == p && tree_at(
                                pmap_tree@,
                                cmap_tree.entries@[k].path,
                            ) != Some(entry_value(cmap_tree.entries@[k]));
                        assert(0 <= k < i + 1 && cmap_tree.entries@[k].path == p);
                    }
                }
            }
        }
        i = i + 1;
    }
    // local phase done: exactly the commit's own changed file paths are
    // recorded, each with the job's resulting content
    proof {
        assert forall|p: PathId|
            #![trigger cmap_tree@.contains_key(p)]
            changed_local(cmap_tree@, pmap_tree@, p) && cmap_tree@.contains_key(p) implies cs@
            .contains_key((p, c)) && cs@[(p, c)] == write_value(writes@, cmap_tree@, p) by {
            lemma_entries_map_contains(cmap_tree.entries@, p);
            let k = choose|k: int|
                0 <= k < cmap_tree.entries@.len() && cmap_tree.entries@[k].path == p;
            assert forall|i1: int, i2: int|
                0 <= i1 < i2 < cmap_tree.entries@.len() implies cmap_tree.entries@[i1].path
                != cmap_tree.entries@[i2].path by {}
            lemma_entries_map_value(cmap_tree.entries@, k);
            assert(tree_at(cmap_tree@, p) == Some(entry_value(cmap_tree.entries@[k])));
            assert(tree_at(pmap_tree@, cmap_tree.entries@[k].path) != Some(
                entry_value(cmap_tree.entries@[k]),
            ));
        }
        assert forall|p: PathId|
            #![trigger cs@.contains_key((p, c))]
            cs@.contains_key((p, c)) && changed_local(cmap_tree@, pmap_tree@, p) implies cmap_tree@
            .contains_key(p) && cs@[(p, c)] == write_value(writes@, cmap_tree@, p) by {
            let k = choose|k: int|
                0 <= k < n && (#[trigger] cmap_tree.entries@[k]).path == p && tree_at(
                    pmap_tree@,
                    cmap_tree.entries@[k].path,
                ) != Some(entry_value(cmap_tree.entries@[k]));
            assert forall|i1: int, i2: int|
                0 <= i1 < i2 < cmap_tree.entries@.len() implies cmap_tree.entries@[i1].path
                != cmap_tree.entries@[i2].path by {}
            lemma_entries_map_value(cmap_tree.entries@, k);
        }
        assert forall|p: PathId|
            #![trigger cs@.contains_key((p, c))]
            cs@.contains_key((p, c)) && !changed_local(cmap_tree@, pmap_tree@, p) implies exists|
                tt: int,
            |
                0 <= tt < parents@.len() && old(cs)@.contains_key((p, #[trigger] parents@[tt]))
                    && cs@[(p, c)] == old(cs)@[(p, parents@[tt])] by {
            let k = choose|k: int|
                0 <= k < n && (#[trigger] cmap_tree.entries@[k]).path == p && tree_at(
                    pmap_tree@,
                    cmap_tree.entries@[k].path,
                ) != Some(entry_value(cmap_tree.entries@[k]));
            assert forall|i1: int, i2: int|
                0 <= i1 < i2 < cmap_tree.entries@.len() implies cmap_tree.entries@[i1].path
                != cmap_tree.entries@[i2].path by {}
            lemma_entries_map_value(cmap_tree.entries@, k);
            assert(tree_at(cmap_tree@, p) == Some(entry_value(cmap_tree.entries@[k])));
            assert(changed_local(cmap_tree@, pmap_tree@, p));
            assert(false);
        }
    }
    let m0 = cs.entries.len();
    let mut t: usize = 0;
    while t < parents.len()
        invariant
            cmap_tree.wf(),
            pmap_tree.wf(),
            t <= parents@.len(),
            cs.wf(),
            old(cs).wf(),
            writes_wf(writes@),
            m0 as int <= cs.entries@.len(),
            forall|j: int|
                0 <= j < old(cs).entries@.len() ==> cs.entries@[j] == old(cs).entries@[j],
            old(cs).entries@.len() <= m0 as int,
            forall|j: int|
                old(cs).entries@.len() <= j < cs.entries@.len()
                    ==> (#[trigger] cs.entries@[j]).source == c,
            forall|j: int|
                0 <= j < old(cs).entries@.len() ==> (#[trigger] old(cs).entries@[j]).source != c,
            forall|tt: int| 0 <= tt < parents@.len() ==> #[trigger] parents@[tt] != c,
            changes_preserved(old(cs)@, cs@, c),
            // local clauses stay in force
            forall|p: PathId|
                #![trigger cmap_tree@.contains_key(p)]
                changed_local(cmap_tree@, pmap_tree@, p) && cmap_tree@.contains_key(p) ==> cs@
                    .contains_key((p, c)) && cs@[(p, c)] == write_value(writes@, cmap_tree@, p),
            forall|p: PathId|
                #![trigger cs@.contains_key((p, c))]
                cs@.contains_key((p, c)) && changed_local(cmap_tree@, pmap_tree@, p)
                    ==> cmap_tree@.contains_key(p) && cs@[(p, c)] == write_value(
                    writes@,
                    cmap_tree@,
                    p,
                ),
            // inherited entries justified by a parent
            forall|p: PathId|
                #![trigger cs@.contains_key((p, c))]
                cs@.contains_key((p, c)) && !changed_local(cmap_tree@, pmap_tree@, p)
                    ==> exists|tt: int|
                    0 <= tt < parents@.len() && old(cs)@.contains_key(
                        (p, #[trigger] parents@[tt]),
                    ) && cs@[(p, c)] == old(cs)@[(p, parents@[tt])],
            // parents processed so far fully inherited
            forall|p: PathId, tt: int|
                #![trigger old(cs)@.contains_key((p, parents@[tt]))]
                0 <= tt < t && !changed_local(cmap_tree@, pmap_tree@, p) && old(cs)@.contains_key(
                    (p, parents@[tt]),
                ) ==> cs@.contains_key((p, c)),
        decreases parents@.len() - t,
    {
        let pa = parents[t];
        let mut idx: usize = 0;
        while idx < m0
            invariant
                cmap_tree.wf(),
                pmap_tree.wf(),
                t < parents@.len(),
                pa == parents@[t as int],
                pa != c,
                idx <= m0,
                cs.wf(),
                old(cs).wf(),
                writes_wf(writes@),
                m0 as int <= cs.entries@.len(),
                forall|j: int|
                    0 <= j < old(cs).entries@.len() ==> cs.entries@[j] == old(cs).entries@[j],
                old(cs).entries@.len() <= m0 as int,
                forall|j: int|
                    old(cs).entries@.len() <= j < cs.entries@.len()
                        ==> (#[trigger] cs.entries@[j]).source == c,
                forall|j: int|
                    0 <= j < old(cs).entries@.len() ==> (#[trigger] old(
                        cs,
                    ).entries@[j]).source != c,
                changes_preserved(old(cs)@, cs@, c),
                forall|p: PathId|
                    #![trigger cmap_tree@.contains_key(p)]
                    changed_local(cmap_tree@, pmap_tree@, p) && cmap_tree@.contains_key(p) ==> cs@
                        .contains_key((p, c)) && cs@[(p, c)] == write_value(
                        writes@,
                        cmap_tree@,
                        p,
                    ),
                forall|p: PathId|
                    #![trigger cs@.contains_key((p, c))]
                    cs@.contains_key((p, c)) && changed_local(cmap_tree@, pmap_tree@, p)
                        ==> cmap_tree@.contains_key(p) && cs@[(p, c)] == write_value(
                        writes@,
                        cmap_tree@,
                        p,
                    ),
                forall|p: PathId|
                    #![trigger cs@.contains_key((p, c))]
                    cs@.contains_key((p, c)) && !changed_local(cmap_tree@, pmap_tree@, p)
                        ==> exists|tt: int|
                        0 <= tt < parents@.len() && old(cs)@.contains_key(
                            (p, #[trigger] parents@[tt]),
                        ) && cs@[(p, c)] == old(cs)@[(p, parents@[tt])],
                forall|p: PathId, tt: int|
                    #![trigger old(cs)@.contains_key((p, parents@[tt]))]
                    0 <= tt < t && !changed_local(cmap_tree@, pmap_tree@, p) && old(
                        cs,
                    )@.contains_key((p, parents@[tt])) ==> cs@.contains_key((p, c)),
                // entries of this parent scanned so far are covered
                forall|j: int|
                    #![trigger old(cs).entries@[j]]
                    0 <= j < idx && j < old(cs).entries@.len() && old(cs).entries@[j].source == pa
                        && !changed_local(cmap_tree@, pmap_tree@, old(cs).entries@[j].path)
                        ==> cs@.contains_key((old(cs).entries@[j].path, c)),
            decreases m0 - idx,
        {
            let entry = cs.entries[idx];
            if entry.source == pa {
                proof {
                    if idx >= old(cs).entries@.len() {
                        assert(cs.entries@[idx as int].source == c);
                        assert(false);
                    }
                    assert(entry == old(cs).entries@[idx as int]);
                    crate::changes::lemma_changes_map_value(old(cs).entries@, idx as int);
                }
                let p = entry.path;
                let cv = cmap_tree.lookup(p);
                let pv = pmap_tree.lookup(p);
                let unchanged = match (cv, pv) {
                    (Some(a), Some(b)) => a.file_id == b.file_id && a.executable == b.executable,
                    (None, None) => true,
                    _ => false,
                };
                if unchanged {
                    proof {
                        assert(!changed_local(cmap_tree@, pmap_tree@, p));
                    }
                    let existing = cs.lookup(p, c);
                    match existing {
                        Some(_) => {},
                        None => {
                            let ghost cs0 = cs@;
                            cs.push_entry(ChangeEntry { path: p, source: c, value: entry.value });
                            proof {
                                assert(cs@ == cs0.insert((p, c), entry.value));
                                assert(old(cs)@.contains_key((p, parents@[t as int])));
                                assert(cs@[(p, c)] == old(cs)@[(p, parents@[t as int])]);
                            }
                        },
                    }
                }
            }
            idx = idx + 1;
        }
        proof {
            assert forall|p: PathId, tt: int|
                #![trigger old(cs)@.contains_key((p, parents@[tt]))]
                0 <= tt < t + 1 && !changed_local(cmap_tree@, pmap_tree@, p) && old(
                    cs,
                )@.contains_key((p, parents@[tt])) implies cs@.contains_key((p, c)) by {
                if tt == t as int {
                    crate::changes::lemma_changes_map_contains(old(cs).entries@, p, parents@[tt]);
                    let j = choose|j: int|
                        0 <= j < old(cs).entries@.len() && old(cs).entries@[j].path == p && old(
                            cs,
                        ).entries@[j].source == parents@[tt];
                    assert((#[trigger] old(cs).entries@[j]).source == pa);
                }
            }
        }
        t = t + 1;
    }
}

} // verus!
