//! Fingerprints, the working-copy store and the job pool, on concrete values.

use revrun::cli::{resolve_jobs, Direction, ScriptArgs};
use revrun::fingerprint::{to_fingerprint, MergedTreeId};
use revrun::jobs::{JobPool, JobStatus};
use revrun::repo::{CommitData, RepoModel};
use revrun::scheduler::{topo_sort, CommitNode};
use revrun::store::{InMemoryWorkingCopyStore, WorkingCopyStore, WorkingCopyStoreError};
use revrun::tree::Tree;

fn repo_with_trees(trees: &[u64]) -> (RepoModel, Vec<u64>) {
    // one root commit per requested payload; commits listed in `trees` with
    // equal values share one tree
    let mut repo = RepoModel::new();
    let mut ids: Vec<u64> = Vec::new();
    for (i, &t) in trees.iter().enumerate() {
        let mut tree = Tree::empty();
        tree.set_entry(1, revrun::tree::FileValue { file_id: t, executable: false });
        let tid = repo.write_tree(tree);
        let c = repo.add_commit(CommitData {
            parents: vec![],
            tree_id: MergedTreeId::Legacy(tid),
            payload: i as u64,
            predecessor: None,
        });
        ids.push(c);
    }
    (repo, ids)
}

#[test]
fn fingerprint_of_single_tree_is_fixed_width_hex() {
    let fp = to_fingerprint(&MergedTreeId::Legacy(255));
    assert_eq!(fp, "00000000000000ff");
    let fp = to_fingerprint(&MergedTreeId::Legacy(0));
    assert_eq!(fp, "0000000000000000");
    let fp = to_fingerprint(&MergedTreeId::Legacy(0x123456789abcdef0));
    assert_eq!(fp, "123456789abcdef0");
}

#[test]
fn fingerprint_is_deterministic() {
    let a = MergedTreeId::Merge(vec![1, 2, 3]);
    let b = MergedTreeId::Merge(vec![1, 2, 3]);
    assert_eq!(to_fingerprint(&a), to_fingerprint(&b));
    assert_eq!(to_fingerprint(&a), to_fingerprint(&a));
}

#[test]
fn distinct_single_trees_have_distinct_fingerprints() {
    let a = to_fingerprint(&MergedTreeId::Legacy(7));
    let b = to_fingerprint(&MergedTreeId::Legacy(8));
    assert_ne!(a, b);
}

#[test]
fn short_merge_fingerprint_is_exact_concatenation() {
    // below the 255-character ceiling: each side's hex plus its parity
    // suffix, with no truncation
    let fp = to_fingerprint(&MergedTreeId::Merge(vec![1, 2]));
    assert_eq!(fp, "0000000000000001+0000000000000002-");
    let fp3 = to_fingerprint(&MergedTreeId::Merge(vec![1, 2, 3]));
    assert_eq!(fp3, "0000000000000001+0000000000000002-0000000000000003+");
}

#[test]
fn long_merge_fingerprint_is_truncated() {
    // fifteen sides reach 255 characters, so the name is cut to 200
    let ids: Vec<u64> = (0..15).collect();
    let fp = to_fingerprint(&MergedTreeId::Merge(ids));
    let full: String = (0..15u64)
        .map(|i| format!("{:016x}{}", i, if i % 2 == 0 { "+" } else { "-" }))
        .collect();
    assert_eq!(full.len(), 255);
    assert_eq!(fp.len(), 200);
    assert_eq!(fp, &full[..200]);
}

#[test]
fn shared_trees_are_materialized_once() {
    // two commits share one tree; a second concurrent-style request reuses
    // the entry instead of failing to create it again
    let (repo, ids) = repo_with_trees(&[5, 5, 6]);
    let mut store = InMemoryWorkingCopyStore::new();
    let h1 = store.get_or_create_working_copies(&repo, &ids).unwrap();
    assert_eq!(h1.len(), 3);
    assert_eq!(store.len(), 2);
    assert_eq!(h1[0], h1[1]);
    let h2 = store.get_or_create_working_copies(&repo, &ids).unwrap();
    assert_eq!(store.len(), 2);
    assert_eq!(h1, h2);
}

#[test]
fn materialization_locations_derive_from_the_fingerprint() {
    let (repo, ids) = repo_with_trees(&[5]);
    let mut store = InMemoryWorkingCopyStore::new();
    let h = store.get_or_create_working_copies(&repo, &ids).unwrap();
    let m = &store.mats[h[0]];
    let fp = m.fingerprint.clone();
    assert_eq!(m.output_dir, format!("{}/output", fp));
    assert_eq!(m.working_copy_dir, format!("{}/working_copy", fp));
    assert_eq!(m.state_dir, format!("{}/state", fp));
    assert_eq!(store.name(), "in-memory");
}

#[test]
fn updating_an_unknown_key_names_it() {
    let (repo, ids) = repo_with_trees(&[5]);
    let mut store = InMemoryWorkingCopyStore::new();
    let r = store.update_single(&repo, ids[0]);
    match r {
        Err(WorkingCopyStoreError::TreeUpdate(path)) => {
            assert_eq!(path, to_fingerprint(&repo.commits[ids[0] as usize].tree_id));
        }
        _ => panic!("updating before materializing must fail naming the key"),
    }
    let h = store.get_or_create_working_copies(&repo, &ids).unwrap();
    assert!(store.update_single(&repo, ids[0]).is_ok());
    assert!(store.update_working_copies(&repo, &ids).is_ok());
    assert_eq!(store.mats[h[0]].source_commit, ids[0]);
}

#[test]
fn resolve_jobs_precedence() {
    assert_eq!(resolve_jobs(Some(4), Some(8)).unwrap(), 4);
    assert_eq!(resolve_jobs(None, Some(8)).unwrap(), 8);
    assert_eq!(resolve_jobs(None, None).unwrap(), 1);
    assert!(resolve_jobs(Some(0), Some(8)).is_err());
}

#[test]
fn pool_respects_the_bound_and_the_barrier() {
    let mut pool = JobPool::new(2, 3);
    assert_eq!(pool.task_count(), 3);
    assert!(pool.has_free_slot());
    let first = pool.next_pending().unwrap();
    pool.spawn(first);
    let second = pool.next_pending().unwrap();
    pool.spawn(second);
    assert!(!pool.has_free_slot());
    assert!(!pool.all_done());
    pool.complete(first, JobStatus::Exited(0));
    assert!(pool.has_free_slot());
    let third = pool.next_pending().unwrap();
    pool.spawn(third);
    pool.complete(second, JobStatus::Exited(1));
    pool.complete(third, JobStatus::SpawnFailed);
    assert!(pool.all_done());
    let statuses = pool.statuses();
    assert_eq!(statuses.len(), 3);
    assert_eq!(statuses[first], JobStatus::Exited(0));
    assert_eq!(statuses[second], JobStatus::Exited(1));
    assert_eq!(statuses[third], JobStatus::SpawnFailed);
}

#[test]
fn a_cycle_is_reported_with_its_members() {
    let nodes = vec![
        CommitNode { id: 1, parents: vec![2] },
        CommitNode { id: 2, parents: vec![1] },
        CommitNode { id: 3, parents: vec![] },
    ];
    match topo_sort(&nodes) {
        Ok(_) => panic!("a cyclic set cannot be ordered"),
        Err(w) => {
            assert!(!w.ids.is_empty());
            assert!(w.ids.contains(&1));
            assert!(w.ids.contains(&2));
        }
    }
}

#[test]
fn auxiliary_argument_types_carry_their_fields() {
    let s = ScriptArgs { repl: true };
    assert!(s.repl);
    let d = Direction::Ancestors;
    assert!(matches!(d, Direction::Ancestors));
    assert!(matches!(Direction::Descendants, Direction::Descendants));
}
