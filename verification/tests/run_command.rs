//! End-to-end runs of the engine over small in-memory repositories.

use revrun::cli::RunArgs;
use revrun::engine::{integrate_outcomes, plan_run, RunError};
use revrun::fingerprint::MergedTreeId;
use revrun::jobs::{FileWrite, JobOutcome};
use revrun::repo::{effective_tree, CommitData, RepoModel};
use revrun::store::InMemoryWorkingCopyStore;
use revrun::tree::{FileValue, Tree};

fn make_tree(entries: &[(u64, u64, bool)]) -> Tree {
    let mut t = Tree::empty();
    for &(path, file_id, executable) in entries {
        t.set_entry(path, FileValue { file_id, executable });
    }
    t
}

/// A linear history: a <- b <- c, where path 1 stands for `file.txt`.
fn linear_repo() -> (RepoModel, Vec<u64>) {
    let mut repo = RepoModel::new();
    let ta = repo.write_tree(make_tree(&[(1, 10, false)]));
    let tb = repo.write_tree(make_tree(&[(1, 11, false), (2, 20, false)]));
    let tc = repo.write_tree(make_tree(&[(1, 11, false), (2, 21, false)]));
    let a = repo.add_commit(CommitData {
        parents: vec![],
        tree_id: MergedTreeId::Legacy(ta),
        payload: 1,
        predecessor: None,
    });
    let b = repo.add_commit(CommitData {
        parents: vec![a],
        tree_id: MergedTreeId::Legacy(tb),
        payload: 2,
        predecessor: None,
    });
    let c = repo.add_commit(CommitData {
        parents: vec![b],
        tree_id: MergedTreeId::Legacy(tc),
        payload: 3,
        predecessor: None,
    });
    (repo, vec![a, b, c])
}

fn run_args() -> RunArgs {
    RunArgs {
        shell_command: "'fake-formatter --uppercase'".to_string(),
        revisions: "'mutable()..@'".to_string(),
        unused_command: false,
        jobs: None,
    }
}

#[test]
fn test_simple_run_invocation() {
    let (mut repo, revisions) = linear_repo();
    let mut store = InMemoryWorkingCopyStore::new();
    let args = run_args();
    let plan = plan_run(&args, Some(4), &repo, &revisions, &mut store).unwrap();
    assert_eq!(plan.batch.len(), 3);
    assert!(plan.jobs >= 1);
    // the uppercase formatter rewrites the first file of every commit
    let mut outcomes: Vec<JobOutcome> = Vec::new();
    for (i, _) in plan.batch.iter().enumerate() {
        outcomes.push(JobOutcome::Exited {
            code: 0,
            writes: vec![FileWrite { path: 1, file_id: 100 + i as u64, executable: false }],
        });
    }
    let outcome = integrate_outcomes(&mut repo, &plan.batch, &outcomes);
    assert_eq!(outcome.failures, 0);
    assert_eq!(outcome.results.len(), 3);
    for r in outcome.results.iter() {
        assert_ne!(r.new_id, r.old_id);
    }
}

#[test]
fn test_run_on_immutable() {
    // the engine itself accepts any resolved set; immutability is the
    // revision-set evaluator's concern, so a run over the whole history
    // behaves like any other
    let (mut repo, revisions) = linear_repo();
    let mut store = InMemoryWorkingCopyStore::new();
    let args = run_args();
    let plan = plan_run(&args, Some(4), &repo, &revisions, &mut store).unwrap();
    let outcomes: Vec<JobOutcome> = plan
        .batch
        .iter()
        .map(|_| JobOutcome::Exited { code: 0, writes: vec![] })
        .collect();
    let outcome = integrate_outcomes(&mut repo, &plan.batch, &outcomes);
    assert_eq!(outcome.failures, 0);
    assert_eq!(outcome.results.len(), 3);
}

#[test]
fn test_run_noop() {
    // a command that exits 0 and writes nothing leaves every commit's
    // commit id and tree id unchanged
    let (mut repo, revisions) = linear_repo();
    let mut store = InMemoryWorkingCopyStore::new();
    let args = run_args();
    let plan = plan_run(&args, Some(2), &repo, &revisions, &mut store).unwrap();
    let outcomes: Vec<JobOutcome> = plan
        .batch
        .iter()
        .map(|_| JobOutcome::Exited { code: 0, writes: vec![] })
        .collect();
    let commits_before = repo.commits.len();
    let outcome = integrate_outcomes(&mut repo, &plan.batch, &outcomes);
    assert_eq!(outcome.failures, 0);
    for r in outcome.results.iter() {
        assert_eq!(r.new_id, r.old_id);
    }
    assert_eq!(repo.commits.len(), commits_before);
}

#[test]
fn zero_jobs_is_rejected_before_any_materialization() {
    let (repo, revisions) = linear_repo();
    let mut store = InMemoryWorkingCopyStore::new();
    let mut args = run_args();
    args.jobs = Some(0);
    let r = plan_run(&args, Some(4), &repo, &revisions, &mut store);
    match r {
        Err(RunError::Usage(e)) => {
            assert_eq!(e.message(), "must pass at least one job");
        }
        _ => panic!("a zero job count must be a usage error"),
    }
    assert_eq!(store.len(), 0);
}

#[test]
fn scheduler_places_parents_first() {
    // requested in reverse order, the batch still lists a before b before c
    let (repo, revisions) = linear_repo();
    let reversed = vec![revisions[2], revisions[1], revisions[0]];
    let mut store = InMemoryWorkingCopyStore::new();
    let args = run_args();
    let plan = plan_run(&args, None, &repo, &reversed, &mut store).unwrap();
    let pos = |id: u64| plan.batch.iter().position(|&x| x == id).unwrap();
    assert!(pos(revisions[0]) < pos(revisions[1]));
    assert!(pos(revisions[1]) < pos(revisions[2]));
}

#[test]
fn child_rewrite_keeps_unrelated_paths() {
    // two linear commits; only the child touches file.txt (path 1); the
    // command uppercases the child's copy of it
    let mut repo = RepoModel::new();
    let tp = repo.write_tree(make_tree(&[(1, 10, false), (2, 20, false)]));
    let tc = repo.write_tree(make_tree(&[(1, 11, false), (2, 20, false)]));
    let parent = repo.add_commit(CommitData {
        parents: vec![],
        tree_id: MergedTreeId::Legacy(tp),
        payload: 1,
        predecessor: None,
    });
    let child = repo.add_commit(CommitData {
        parents: vec![parent],
        tree_id: MergedTreeId::Legacy(tc),
        payload: 2,
        predecessor: None,
    });
    let revisions = vec![parent, child];
    let mut store = InMemoryWorkingCopyStore::new();
    let args = run_args();
    let plan = plan_run(&args, Some(2), &repo, &revisions, &mut store).unwrap();
    let mut outcomes: Vec<JobOutcome> = Vec::new();
    for &id in plan.batch.iter() {
        if id == child {
            // the formatter rewrote file.txt in the child's working copy
            outcomes.push(JobOutcome::Exited {
                code: 0,
                writes: vec![FileWrite { path: 1, file_id: 99, executable: false }],
            });
        } else {
            // the parent's copy came out byte-identical
            outcomes.push(JobOutcome::Exited { code: 0, writes: vec![] });
        }
    }
    let outcome = integrate_outcomes(&mut repo, &plan.batch, &outcomes);
    let parent_res = outcome.results.iter().find(|r| r.old_id == parent).unwrap();
    let child_res = outcome.results.iter().find(|r| r.old_id == child).unwrap();
    // the parent commit is unchanged, tree id included
    assert_eq!(parent_res.new_id, parent);
    // the child was rewritten: fresh id, file.txt's content id changed,
    // the unrelated path kept its prior content id, the tree id changed
    assert_ne!(child_res.new_id, child);
    let new_tree_id = match &repo.commits[child_res.new_id as usize].tree_id {
        MergedTreeId::Legacy(t) => *t,
        MergedTreeId::Merge(_) => panic!("a rewritten tree is a single tree"),
    };
    assert_ne!(new_tree_id, tc);
    let new_tree = effective_tree(&repo, &repo.commits[child_res.new_id as usize].tree_id);
    assert_eq!(new_tree.lookup(1), Some(FileValue { file_id: 99, executable: false }));
    assert_eq!(new_tree.lookup(2), Some(FileValue { file_id: 20, executable: false }));
    // the child is reparented onto the unchanged parent, with provenance
    assert_eq!(repo.commits[child_res.new_id as usize].parents, vec![parent]);
    assert_eq!(repo.commits[child_res.new_id as usize].predecessor, Some(child));
}

#[test]
fn one_failure_does_not_abort_siblings() {
    // three independent commits; the middle job exits with status 1
    let mut repo = RepoModel::new();
    let mut revisions: Vec<u64> = Vec::new();
    for i in 0..3u64 {
        let t = repo.write_tree(make_tree(&[(1, 10 + i, false)]));
        let c = repo.add_commit(CommitData {
            parents: vec![],
            tree_id: MergedTreeId::Legacy(t),
            payload: i,
            predecessor: None,
        });
        revisions.push(c);
    }
    let mut store = InMemoryWorkingCopyStore::new();
    let args = run_args();
    let plan = plan_run(&args, Some(3), &repo, &revisions, &mut store).unwrap();
    let mut outcomes: Vec<JobOutcome> = Vec::new();
    for &id in plan.batch.iter() {
        if id == revisions[1] {
            outcomes.push(JobOutcome::Exited { code: 1, writes: vec![] });
        } else {
            outcomes.push(JobOutcome::Exited {
                code: 0,
                writes: vec![FileWrite { path: 1, file_id: 90 + id, executable: false }],
            });
        }
    }
    let outcome = integrate_outcomes(&mut repo, &plan.batch, &outcomes);
    // one failure and two successes are reported
    assert_eq!(outcome.failures, 1);
    assert_eq!(outcome.results.len(), 3);
    // the two successful commits were still rewritten
    for r in outcome.results.iter() {
        if r.old_id == revisions[1] {
            assert_eq!(r.new_id, r.old_id);
        } else {
            assert_ne!(r.new_id, r.old_id);
        }
    }
}

#[test]
fn noop_run_is_idempotent_over_any_set() {
    // a second no-op run over an already-run set changes nothing either
    let (mut repo, revisions) = linear_repo();
    let mut store = InMemoryWorkingCopyStore::new();
    let args = run_args();
    for _ in 0..2 {
        let plan = plan_run(&args, Some(1), &repo, &revisions, &mut store).unwrap();
        let outcomes: Vec<JobOutcome> = plan
            .batch
            .iter()
            .map(|_| JobOutcome::Exited { code: 0, writes: vec![] })
            .collect();
        let commits_before = repo.commits.len();
        let trees_before = repo.trees.len();
        let outcome = integrate_outcomes(&mut repo, &plan.batch, &outcomes);
        for r in outcome.results.iter() {
            assert_eq!(r.new_id, r.old_id);
        }
        assert_eq!(repo.commits.len(), commits_before);
        assert_eq!(repo.trees.len(), trees_before);
    }
}

#[test]
fn spawn_failure_counts_as_failure() {
    let (mut repo, revisions) = linear_repo();
    let mut store = InMemoryWorkingCopyStore::new();
    let args = run_args();
    let plan = plan_run(&args, Some(2), &repo, &revisions, &mut store).unwrap();
    let outcomes: Vec<JobOutcome> =
        plan.batch.iter().map(|_| JobOutcome::SpawnFailed).collect();
    let outcome = integrate_outcomes(&mut repo, &plan.batch, &outcomes);
    assert_eq!(outcome.failures, 3);
    for r in outcome.results.iter() {
        assert_eq!(r.new_id, r.old_id);
    }
}
