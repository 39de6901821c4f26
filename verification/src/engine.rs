//! The run pipeline: resolve the parallelism bound, order the resolved
//! commits, materialize their working copies, and — once every job has
//! finished — fold the collected changes back into rewritten commits.
//!
//! The host performs the revision-set evaluation and the actual process
//! spawning; it hands this engine the resolved commit ids and, behind the
//! batch barrier, one outcome per commit in batch order.

use vstd::prelude::*;

use crate::changes::ChangeSet;
use crate::cli::{resolve_jobs, RunArgs, UsageError};
use crate::collector::{
    changes_preserved, collect_for_commit, commit_changes_ok, outcome_writes, writes_wf,
};
use crate::jobs::{job_succeeded, JobOutcome};
use crate::repo::{
    commit_map, effective_tree, lemma_agree_fold_contains, parents_map, parents_tree, CommitId,
    PathId, RepoModel,
};
use crate::rewriter::{
    has_effective_edit, parent_rewritten, result_ok, rewrite_batch, RewriteResult,
};
use crate::scheduler::{is_topo_order, topo_sort, CommitNode, CycleWitness};
use crate::store::WorkingCopyStore;
use crate::tree::FileValue;

verus! {

/// Why a run stopped before or during execution.
#[derive(Debug)]
pub enum RunError {
    /// Invalid command-line arguments; nothing was materialized or executed.
    Usage(UsageError),
    /// The resolved set could not be ordered: an internal invariant
    /// violation, impossible for a well-formed commit graph.
    InternalCycle(CycleWitness),
    /// The working-copy store failed.
    Store(crate::store::WorkingCopyStoreError),
}

/// The prepared batch: the resolved parallelism bound, the commits in
/// materialization order, and one working-copy handle per commit.
#[derive(Debug)]
pub struct RunPlan {
    /// The resolved parallelism bound.
    pub jobs: usize,
    /// The batch: the requested commits, every in-set parent first.
    pub batch: Vec<CommitId>,
    /// One store handle per batch commit, in batch order.
    pub handles: Vec<usize>,
}

/// Whether `batch` lists exactly the requested commits, each once, with
/// every requested parent placed before its child.
pub open spec fn batch_ok(repo: RepoModel, revisions: Seq<CommitId>, batch: Seq<CommitId>) -> bool {
    &&& batch.len() == revisions.len()
    &&& forall|j: int| 0 <= j < batch.len() ==> revisions.contains(#[trigger] batch[j])
    &&& forall|i: int| 0 <= i < revisions.len() ==> batch.contains(#[trigger] revisions[i])
    &&& forall|j1: int, j2: int| 0 <= j1 < j2 < batch.len() ==> batch[j1] != batch[j2]
    &&& forall|j: int, t: int|
        0 <= j < batch.len() && 0 <= t < repo.commits@[batch[j] as int].parents@.len()
            && revisions.contains(#[trigger] repo.commits@[batch[j] as int].parents@[t])
            ==> exists|i: int| 0 <= i < j && batch[i] == repo.commits@[batch[j] as int].parents@[t]
}

/// Prepares one run: resolves the parallelism bound (rejecting a zero job
/// count before anything is created), orders the commits so that every in-set
/// parent precedes its children, and materializes one working copy per
/// distinct tree, coalescing duplicates.
#[verifier::rlimit(100)]
pub fn plan_run<S: WorkingCopyStore>(
    args: &RunArgs,
    host_parallelism: Option<usize>,
    repo: &RepoModel,
    revisions: &Vec<CommitId>,
    store: &mut S,
) -> (r: Result<RunPlan, RunError>)
    requires
        repo.wf(),
        old(store).inv(),
        host_parallelism matches Some(h) ==> h >= 1,
        forall|k: int|
            0 <= k < revisions@.len() ==> #[trigger] revisions@[k] < repo.commits@.len(),
        forall|k1: int, k2: int|
            0 <= k1 < k2 < revisions@.len() ==> revisions@[k1] != revisions@[k2],
    ensures
        final(store).inv(),
        args.jobs == Some(0usize) ==> (r is Err && *final(store) == *old(store)),
        // whenever the store is consulted, its keys evolve as the store
        // contract says: existing keys kept in place, one entry per key, and
        // new keys only for requested commits' trees
        args.jobs != Some(0usize) ==> {
            &&& crate::store::keys_kept(
                old(store).spec_fingerprints(),
                final(store).spec_fingerprints(),
            )
            &&& crate::store::keys_unique(final(store).spec_fingerprints())
            &&& crate::store::new_keys_requested(
                old(store).spec_fingerprints(),
                final(store).spec_fingerprints(),
                *repo,
                revisions@,
            )
        },
        match r {
            Err(e) => {
                &&& (e is Usage <==> args.jobs == Some(0usize))
                &&& !(e is InternalCycle)
            },
            Ok(plan) => {
                &&& plan.jobs >= 1
                &&& (args.jobs matches Some(j) ==> plan.jobs == j)
                &&& (args.jobs is None ==> (match host_parallelism {
                    Some(h) => plan.jobs == h,
                    None => plan.jobs == 1,
                }))
                &&& batch_ok(*repo, revisions@, plan.batch@)
                &&& crate::store::handles_ok(
                    final(store).spec_fingerprints(),
                    *repo,
                    plan.batch@,
                    plan.handles@,
                )
            },
        },
{
    // jobs are resolved first: a zero job count is rejected before any
    // directory or process is created
    let jobs = match resolve_jobs(args.jobs, host_parallelism) {
        Ok(jobs) => jobs,
        Err(e) => {
            return Err(RunError::Usage(e));
        },
    };
    // order the commits so every in-set parent comes first
    let mut nodes: Vec<CommitNode> = Vec::new();
    let mut i: usize = 0;
    let ncommits = repo.commits.len();
    while i < revisions.len()
        invariant
            repo.wf(),
            ncommits as int == repo.commits@.len(),
            forall|k: int|
                0 <= k < revisions@.len() ==> #[trigger] revisions@[k] < repo.commits@.len(),
            forall|k1: int, k2: int|
                0 <= k1 < k2 < revisions@.len() ==> revisions@[k1] != revisions@[k2],
            i <= revisions@.len(),
            nodes@.len() == i as int,
            forall|k: int|
                0 <= k < i ==> (#[trigger] nodes@[k]).id == revisions@[k] && nodes@[k].parents@
                    == repo.commits@[revisions@[k] as int].parents@,
        decreases revisions@.len() - i,
    {
        let c = revisions[i];
        proof {
            assert(c < ncommits);
            assert(((c as usize) as int) == c as int);
        }
        let src = &repo.commits[c as usize].parents;
        let mut parents: Vec<CommitId> = Vec::new();
        let mut t: usize = 0;
        while t < src.len()
            invariant
                t <= src@.len(),
                parents@ =~= src@.take(t as int),
            decreases src@.len() - t,
        {
            parents.push(src[t]);
            t = t + 1;
        }
        proof {
            assert(parents@ =~= src@);
        }
        nodes.push(CommitNode { id: c, parents });
        i = i + 1;
    }
    proof {
        assert forall|k1: int, k2: int| 0 <= k1 < k2 < nodes@.len() implies nodes@[k1].id
            != nodes@[k2].id by {
            assert(nodes@[k1].id == revisions@[k1]);
            assert(nodes@[k2].id == revisions@[k2]);
        }
    }
    let order = match topo_sort(&nodes) {
        Ok(order) => order,
        Err(w) => {
            // unreachable: in a well-formed repository every parent id lies
            // strictly below its child's, so the witness family's smallest
            // member could not have a parent inside the family
            proof {
                let ids = w.ids@;
                lemma_seq_min(ids);
                let tmin = choose|t: int| 0 <= t < ids.len() && #[trigger] ids[t] == seq_min(ids);
                let (i2, k2) = choose|i2: int, k2: int|
                    0 <= i2 < nodes@.len() && nodes@[i2].id == ids[tmin] && 0 <= k2
                        < nodes@[i2].parents@.len() && ids.contains(nodes@[i2].parents@[k2]);
                let p = nodes@[i2].parents@[k2];
                assert(nodes@[i2].parents@ == repo.commits@[revisions@[i2] as int].parents@);
                assert((#[trigger] repo.commits@[revisions@[i2] as int].parents@[k2])
                    < revisions@[i2]);
                assert(nodes@[i2].id == revisions@[i2]);
                assert(p < ids[tmin]);
                let u = choose|u: int| 0 <= u < ids.len() && ids[u] == p;
                assert(ids[u] >= seq_min(ids));
                assert(false);
            }
            return Err(RunError::InternalCycle(w));
        },
    };
    let mut batch: Vec<CommitId> = Vec::new();
    let mut j: usize = 0;
    while j < order.len()
        invariant
            j <= order@.len(),
            nodes@.len() == revisions@.len(),
            forall|k: int| 0 <= k < order@.len() ==> #[trigger] order@[k] < nodes@.len(),
            batch@.len() == j as int,
            forall|k: int| 0 <= k < j ==> #[trigger] batch@[k] == nodes@[order@[k] as int].id,
        decreases order@.len() - j,
    {
        batch.push(nodes[order[j]].id);
        j = j + 1;
    }
    proof {
        let rv = revisions@;
        let nd = nodes@;
        let od = order@;
        let bt = batch@;
        assert forall|jx: int| 0 <= jx < bt.len() implies rv.contains(#[trigger] bt[jx]) by {
            assert(bt[jx] == nd[od[jx] as int].id);
            assert(nd[od[jx] as int].id == rv[od[jx] as int]);
        }
        assert forall|ix: int| 0 <= ix < rv.len() implies bt.contains(#[trigger] rv[ix]) by {
            // the order is a permutation of the indices, so index ix appears
            assert(is_topo_order(nd, od));
            assert(crate::scheduler::appears(od, ix as usize));
            let jx = choose|jx: int| 0 <= jx < od.len() && od[jx] == ix as usize;
            assert(bt[jx] == nd[ix].id);
            assert(nd[ix].id == rv[ix]);
        }
        assert forall|j1: int, j2: int| 0 <= j1 < j2 < bt.len() implies bt[j1] != bt[j2] by {
            assert(od[j1] != od[j2]);
            assert(bt[j1] == rv[od[j1] as int] && bt[j2] == rv[od[j2] as int]);
        }
        assert forall|jx: int, t: int|
            0 <= jx < bt.len() && 0 <= t < repo.commits@[bt[jx] as int].parents@.len()
                && rv.contains(#[trigger] repo.commits@[bt[jx] as int].parents@[t]) implies exists|
            ix: int,
        | 0 <= ix < jx && bt[ix] == repo.commits@[bt[jx] as int].parents@[t] by {
            let p = repo.commits@[bt[jx] as int].parents@[t];
            assert(nd[od[jx] as int].parents@ == repo.commits@[bt[jx] as int].parents@);
            assert(nd[od[jx] as int].parents@[t] == p);
            let ir = choose|ir: int| 0 <= ir < rv.len() && rv[ir] == p;
            assert(nd[ir].id == p);
            assert(crate::scheduler::id_in(nd, p));
            assert(is_topo_order(nd, od));
            let ix = choose|ix: int| 0 <= ix < jx && nd[od[ix] as int].id == nd[od[jx] as int].parents@[t];
            assert(bt[ix] == p);
        }
    }
    // materialize, in batch order, coalescing per fingerprint
    proof {
        assert forall|k: int| 0 <= k < batch@.len() implies #[trigger] batch@[k]
            < repo.commits@.len() by {
            assert(revisions@.contains(batch@[k]));
            let ix = choose|ix: int| 0 <= ix < revisions@.len() && revisions@[ix] == batch@[k];
            assert(revisions@[ix] < repo.commits@.len());
        }
    }
    let gocr = store.get_or_create_working_copies(repo, &batch);
    proof {
        // lift the store's new-keys guarantee from the batch (a permutation)
        // to the requested set
        assert forall|j: int|
            old(store).spec_fingerprints().len() <= j < store.spec_fingerprints().len() implies crate::store::requested_fingerprints(
            *repo,
            revisions@,
        ).contains(#[trigger] store.spec_fingerprints()[j]) by {
            assert(crate::store::requested_fingerprints(*repo, batch@).contains(
                store.spec_fingerprints()[j],
            ));
            let kb = choose|kb: int|
                0 <= kb < crate::store::requested_fingerprints(*repo, batch@).len()
                    && crate::store::requested_fingerprints(*repo, batch@)[kb]
                    == store.spec_fingerprints()[j];
            assert(crate::store::requested_fingerprints(*repo, batch@)[kb]
                == crate::fingerprint::spec_fingerprint(
                repo.commits@[batch@[kb] as int].tree_id,
            ));
            assert(revisions@.contains(batch@[kb]));
            let ix = choose|ix: int| 0 <= ix < revisions@.len() && revisions@[ix] == batch@[kb];
            assert(crate::store::requested_fingerprints(*repo, revisions@)[ix]
                == store.spec_fingerprints()[j]);
        }
        assert(crate::store::new_keys_requested(
            old(store).spec_fingerprints(),
            store.spec_fingerprints(),
            *repo,
            revisions@,
        ));
    }
    let handles = match gocr {
        Ok(handles) => handles,
        Err(e) => {
            return Err(RunError::Store(e));
        },
    };
    Ok(RunPlan { jobs, batch, handles })
}

/// Whether every job ran as a no-op: exited with status zero having written
/// nothing.
pub open spec fn noop_outcomes(outcomes: Seq<JobOutcome>) -> bool {
    forall|k: int|
        0 <= k < outcomes.len() ==> job_succeeded(#[trigger] outcomes[k]) && outcome_writes(
            outcomes[k],
        ).len() == 0
}

/// How many of the batch's jobs failed.
pub open spec fn count_failures(outcomes: Seq<JobOutcome>) -> int
    decreases outcomes.len(),
{
    if outcomes.len() == 0 {
        0
    } else {
        count_failures(outcomes.drop_last()) + if job_succeeded(outcomes.last()) {
            0int
        } else {
            1int
        }
    }
}


proof fn lemma_identity_chain(
    repo0: RepoModel,
    repo1: RepoModel,
    batch: Seq<CommitId>,
    csm: Map<(PathId, CommitId), FileValue>,
    results: Seq<RewriteResult>,
    k: int,
)
    requires
        0 <= k < batch.len(),
        results.len() == batch.len(),
        forall|j: int| 0 <= j < batch.len() ==> result_ok(repo0, repo1, batch, csm, results, j),
        forall|j: int|
            0 <= j < batch.len() ==> !has_effective_edit(
                commit_map(repo0, #[trigger] batch[j]),
                csm,
                batch[j],
            ),
    ensures
        forall|j: int| 0 <= j <= k ==> (#[trigger] results[j]).new_id == results[j].old_id,
    decreases k,
{
    if k > 0 {
        lemma_identity_chain(repo0, repo1, batch, csm, results, k - 1);
    }
    assert(result_ok(repo0, repo1, batch, csm, results, k));
    if parent_rewritten(repo0, results, k, batch[k]) {
        let (j, t) = choose|j: int, t: int|
            0 <= j < k && 0 <= t < repo0.commits@[batch[k] as int].parents@.len() && (
            #[trigger] results[j]).old_id == #[trigger] repo0.commits@[batch[k] as int].parents@[t]
                && results[j].new_id != results[j].old_id;
        assert(results[j].new_id == results[j].old_id);
        assert(false);
    }
    assert(results[k].new_id == batch[k]);
    assert(results[k].old_id == batch[k]);
}

/// Whether each of the first `upto` steps of the change-set history `ms` is
/// correct: a successful job's step records exactly its commit's changes
/// (local diff with the job's content, inherited parent paths) while keeping
/// every already-recorded entry, and a failed job's step records nothing.
pub open spec fn changes_chain_steps(
    repo: RepoModel,
    batch: Seq<CommitId>,
    outcomes: Seq<JobOutcome>,
    ms: Seq<Map<(PathId, CommitId), FileValue>>,
    upto: int,
) -> bool {
    forall|k: int|
        #![trigger ms[k]]
        0 <= k < upto ==> if job_succeeded(outcomes[k]) {
            commit_changes_ok(
                ms[k],
                ms[k + 1],
                commit_map(repo, batch[k]),
                parents_map(repo, batch[k]),
                outcome_writes(outcomes[k]),
                batch[k],
                repo.commits@[batch[k] as int].parents@,
            ) && changes_preserved(ms[k], ms[k + 1], batch[k])
        } else {
            ms[k + 1] == ms[k]
        }
}

/// Whether `ms` is the batch's full change-set history: empty at the start,
/// every step correct.
pub open spec fn changes_chain_ok(
    repo: RepoModel,
    batch: Seq<CommitId>,
    outcomes: Seq<JobOutcome>,
    ms: Seq<Map<(PathId, CommitId), FileValue>>,
) -> bool {
    &&& ms.len() == batch.len() + 1
    &&& ms[0] == Map::<(PathId, CommitId), FileValue>::empty()
    &&& changes_chain_steps(repo, batch, outcomes, ms, batch.len() as int)
}

/// The smallest value of a nonempty sequence (zero for an empty one).
spec fn seq_min(s: Seq<u64>) -> u64
    decreases s.len(),
{
    if s.len() == 0 {
        0
    } else if s.len() == 1 {
        s[0]
    } else if s.last() < seq_min(s.drop_last()) {
        s.last()
    } else {
        seq_min(s.drop_last())
    }
}

proof fn lemma_seq_min(s: Seq<u64>)
    requires
        s.len() > 0,
    ensures
        exists|t: int| 0 <= t < s.len() && #[trigger] s[t] == seq_min(s),
        forall|u: int| 0 <= u < s.len() ==> #[trigger] s[u] >= seq_min(s),
    decreases s.len(),
{
    if s.len() == 1 {
        assert(s[0] == seq_min(s));
    } else {
        lemma_seq_min(s.drop_last());
        if s.last() < seq_min(s.drop_last()) {
            assert(s[s.len() - 1] == seq_min(s));
        } else {
            let t = choose|t: int|
                0 <= t < s.drop_last().len() && #[trigger] s.drop_last()[t] == seq_min(
                    s.drop_last(),
                );
            assert(s[t] == s.drop_last()[t]);
            assert(s[t] == seq_min(s));
        }
        assert forall|u: int| 0 <= u < s.len() implies #[trigger] s[u] >= seq_min(s) by {
            if u < s.len() - 1 {
                assert(s.drop_last()[u] == s[u]);
                assert(s.drop_last()[u] >= seq_min(s.drop_last()));
            }
        }
    }
}

/// The aggregate result of one run: one rewrite result per batch commit, the
/// consumed change set, and the failure tally (any failure makes the whole
/// run report a non-zero exit, without aborting sibling jobs).
#[derive(Debug)]
pub struct RunOutcome {
    /// One result per batch commit, in batch order.
    pub results: Vec<RewriteResult>,
    /// The change set the rewrite consumed.
    pub changes: ChangeSet,
    /// How many jobs failed (non-zero exit or spawn failure).
    pub failures: usize,
}

/// Integrates the batch's outcomes behind the barrier: builds the change set
/// in batch (descendant) order and rewrites the whole batch inside the
/// surrounding transaction.
///
/// The returned change set is exactly the accumulated record of the jobs, as
/// the change-set history in the contract states: commit by commit, each
/// successful job contributes precisely its commit's changes, additively. A
/// failed job only excludes its own commit from the change set; every other
/// job's changes are still collected and rewritten. When every job was a
/// no-op (exit status zero, no file written), every commit keeps its commit
/// id — and with it its tree id — unchanged.
#[verifier::rlimit(100)]
pub fn integrate_outcomes(
    repo: &mut RepoModel,
    batch: &Vec<CommitId>,
    outcomes: &Vec<JobOutcome>,
) -> (r: RunOutcome)
    requires
        old(repo).wf(),
        forall|k: int| 0 <= k < batch@.len() ==> #[trigger] batch@[k] < old(repo).commits@.len(),
        forall|k1: int, k2: int| 0 <= k1 < k2 < batch@.len() ==> batch@[k1] != batch@[k2],
        outcomes@.len() == batch@.len(),
        forall|k: int|
            0 <= k < outcomes@.len() ==> writes_wf(outcome_writes(#[trigger] outcomes@[k])),
        old(repo).commits@.len() + batch@.len() < u64::MAX as int,
        old(repo).trees@.len() + batch@.len() < u64::MAX as int,
    ensures
        final(repo).wf(),
        final(repo).commits@.len() >= old(repo).commits@.len(),
        final(repo).commits@.len() <= old(repo).commits@.len() + batch@.len(),
        forall|i: int|
            0 <= i < old(repo).commits@.len() ==> final(repo).commits@[i] == old(
                repo,
            ).commits@[i],
        final(repo).trees@.len() >= old(repo).trees@.len(),
        final(repo).trees@.len() <= old(repo).trees@.len() + batch@.len(),
        forall|i: int|
            0 <= i < old(repo).trees@.len() ==> final(repo).trees@[i] == old(repo).trees@[i],
        r.results@.len() == batch@.len(),
        r.changes.wf(),
        // the change set is exactly what the jobs produced, commit by commit
        exists|ms: Seq<Map<(PathId, CommitId), FileValue>>|
            changes_chain_ok(*old(repo), batch@, outcomes@, ms) && ms[batch@.len() as int]
                == r.changes@,
        forall|k: int|
            0 <= k < batch@.len() ==> result_ok(
                *old(repo),
                *final(repo),
                batch@,
                r.changes@,
                r.results@,
                k,
            ),
        forall|k: int, p: PathId|
            #![trigger r.changes@.contains_key((p, batch@[k]))]
            0 <= k < batch@.len() && !job_succeeded(outcomes@[k]) ==> !r.changes@.contains_key(
                (p, batch@[k]),
            ),
        r.failures as int == count_failures(outcomes@),
        noop_outcomes(outcomes@) ==> forall|k: int|
            0 <= k < batch@.len() ==> (#[trigger] r.results@[k]).new_id == r.results@[k].old_id,
{
    let mut cs = ChangeSet::new();
    let ghost mut ms: Seq<Map<(PathId, CommitId), FileValue>> = seq![
        Map::<(PathId, CommitId), FileValue>::empty(),
    ];
    let n = batch.len();
    let ncommits = repo.commits.len();
    let mut k: usize = 0;
    while k < n
        invariant
            repo.wf(),
            *repo == *old(repo),
            ms.len() == k + 1,
            ms[0] == Map::<(PathId, CommitId), FileValue>::empty(),
            ms[k as int] == cs@,
            changes_chain_steps(*old(repo), batch@, outcomes@, ms, k as int),
            ncommits as int == repo.commits@.len(),
            n == batch@.len(),
            k <= n,
            forall|k2: int|
                0 <= k2 < batch@.len() ==> #[trigger] batch@[k2] < repo.commits@.len(),
            forall|k1: int, k2: int| 0 <= k1 < k2 < batch@.len() ==> batch@[k1] != batch@[k2],
            outcomes@.len() == batch@.len(),
            forall|k2: int|
                0 <= k2 < outcomes@.len() ==> writes_wf(outcome_writes(#[trigger] outcomes@[k2])),
            cs.wf(),
            forall|j: int|
                0 <= j < cs.entries@.len() ==> exists|k2: int|
                    0 <= k2 < k && (#[trigger] cs.entries@[j]).source == batch@[k2]
                        && job_succeeded(outcomes@[k2]),
            noop_outcomes(outcomes@) ==> forall|p: PathId, cc: CommitId|
                #![trigger cs@.contains_key((p, cc))]
                cs@.contains_key((p, cc)) ==> (cc < repo.commits@.len() && (commit_map(
                    *repo,
                    cc,
                ).contains_key(p) ==> cs@[(p, cc)] == commit_map(*repo, cc)[p])),
        decreases n - k,
    {
        let c = batch[k];
        proof {
            assert(c < ncommits);
            assert(((c as usize) as int) == c as int);
        }
        let base = effective_tree(repo, &repo.commits[c as usize].tree_id);
        let ptree = parents_tree(repo, c);
        proof {
            assert(base@ == commit_map(*repo, c));
            assert(ptree@ == parents_map(*repo, c));
            assert forall|j: int|
                0 <= j < cs.entries@.len() implies (#[trigger] cs.entries@[j]).source != c by {
                let k2 = choose|k2: int|
                    0 <= k2 < k && cs.entries@[j].source == batch@[k2] && job_succeeded(
                        outcomes@[k2],
                    );
                assert(batch@[k2] != batch@[k as int]);
            }
            assert forall|t: int|
                0 <= t < repo.commits@[c as int].parents@.len() implies (
            #[trigger] repo.commits@[c as int].parents@[t]) != c by {
                assert(repo.commits@[c as int].parents@[t] < c);
            }
        }
        let ghost cs0 = cs@;
        let ghost cs0_entries = cs.entries@;
        collect_for_commit(
            &mut cs,
            &base,
            &ptree,
            c,
            &repo.commits[c as usize].parents,
            &outcomes[k],
        );
        proof {
            let ghost ms0 = ms;
            ms = ms.push(cs@);
            assert(changes_chain_steps(*old(repo), batch@, outcomes@, ms, k + 1)) by {
                assert forall|k2: int| #![trigger ms[k2]] 0 <= k2 < k + 1 implies (if job_succeeded(
                    outcomes@[k2],
                ) {
                    commit_changes_ok(
                        ms[k2],
                        ms[k2 + 1],
                        commit_map(*old(repo), batch@[k2]),
                        parents_map(*old(repo), batch@[k2]),
                        outcome_writes(outcomes@[k2]),
                        batch@[k2],
                        old(repo).commits@[batch@[k2] as int].parents@,
                    ) && changes_preserved(ms[k2], ms[k2 + 1], batch@[k2])
                } else {
                    ms[k2 + 1] == ms[k2]
                }) by {
                    if k2 < k {
                        assert(ms[k2] == ms0[k2] && ms[k2 + 1] == ms0[k2 + 1]);
                    } else {
                        assert(ms[k2] == cs0 && ms[k2 + 1] == cs@);
                    }
                }
            }
            assert forall|j: int| 0 <= j < cs.entries@.len() implies exists|k2: int|
                0 <= k2 < k + 1 && (#[trigger] cs.entries@[j]).source == batch@[k2]
                    && job_succeeded(outcomes@[k2]) by {
                if j < cs0_entries.len() {
                    assert(cs.entries@[j] == cs0_entries[j]);
                    let k2 = choose|k2: int|
                        0 <= k2 < k && (#[trigger] cs0_entries[j]).source == batch@[k2]
                            && job_succeeded(outcomes@[k2]);
                    assert(0 <= k2 < k + 1 && cs.entries@[j].source == batch@[k2]
                        && job_succeeded(outcomes@[k2]));
                } else {
                    assert(cs.entries@[j].source == c);
                    assert(job_succeeded(outcomes@[k as int]));
                    assert(0 <= (k as int) && (k as int) < k + 1 && cs.entries@[j].source
                        == batch@[k as int] && job_succeeded(outcomes@[k as int]));
                }
            }
            if noop_outcomes(outcomes@) {
                assert(job_succeeded(outcomes@[k as int]));
                assert(outcome_writes(outcomes@[k as int]).len() == 0);
                let cm = base@;
                let pm = ptree@;
                let wrts = outcome_writes(outcomes@[k as int]);
                let prs = repo.commits@[c as int].parents@;
                assert(commit_changes_ok(cs0, cs@, cm, pm, wrts, c, prs));
                assert forall|p: PathId, cc: CommitId|
                    #![trigger cs@.contains_key((p, cc))]
                    cs@.contains_key((p, cc)) implies (cc < repo.commits@.len() && (commit_map(
                    *repo,
                    cc,
                ).contains_key(p) ==> cs@[(p, cc)] == commit_map(*repo, cc)[p])) by {
                    if cs0.contains_key((p, cc)) {
                        assert(cs@[(p, cc)] == cs0[(p, cc)]);
                    } else {
                        assert(cc == c);
                        if crate::collector::changed_local(cm, pm, p) {
                            if cm.contains_key(p) {
                                assert(cs@[(p, c)] == crate::collector::write_value(wrts, cm, p));
                                assert(!exists|w: int| 0 <= w < wrts.len() && wrts[w].path == p);
                                assert(cs@[(p, c)] == cm[p]);
                            }
                        } else {
                            if commit_map(*repo, c).contains_key(p) {
                                let t = choose|t: int|
                                    0 <= t < prs.len() && cs0.contains_key((p, #[trigger] prs[t]))
                                        && cs@[(p, c)] == cs0[(p, prs[t])];
                                assert(crate::tree::tree_at(cm, p) == crate::tree::tree_at(pm, p));
                                assert(pm.contains_key(p));
                                let maps = prs.map_values(|pa: CommitId| commit_map(*repo, pa));
                                lemma_agree_fold_contains(maps, p);
                                assert(maps[t].contains_key(p) && maps[t][p] == pm[p]);
                                assert(maps[t] == commit_map(*repo, prs[t]));
                                assert(cs0[(p, prs[t])] == commit_map(*repo, prs[t])[p]);
                                assert(cs@[(p, c)] == pm[p]);
                                assert(commit_map(*repo, c)[p] == cm[p]);
                                assert(cm[p] == pm[p]);
                            }
                        }
                    }
                }
            }
        }
        k = k + 1;
    }
    // the barrier has been crossed: every outcome is in hand, so the batch
    // can be folded into history in one transactional step
    proof {
        assert(changes_chain_ok(*old(repo), batch@, outcomes@, ms) && ms[batch@.len() as int]
            == cs@);
        if noop_outcomes(outcomes@) {
            assert forall|k2: int| 0 <= k2 < batch@.len() implies !has_effective_edit(
                commit_map(*repo, #[trigger] batch@[k2]),
                cs@,
                batch@[k2],
            ) by {
                let c2 = batch@[k2];
                if has_effective_edit(commit_map(*repo, c2), cs@, c2) {
                    let p = choose|p: PathId|
                        #![trigger cs@.contains_key((p, c2))]
                        commit_map(*repo, c2).contains_key(p) && cs@.contains_key((p, c2)) && cs@[(
                            p,
                            c2,
                        )] != commit_map(*repo, c2)[p];
                    assert(false);
                }
            }
        }
    }
    let ghost repo0 = *repo;
    let results = rewrite_batch(repo, batch, &cs);
    proof {
        if noop_outcomes(outcomes@) && batch@.len() > 0 {
            lemma_identity_chain(repo0, *repo, batch@, cs@, results@, batch@.len() - 1);
        }
        // a failed commit never reaches the change set
        assert forall|k2: int, p: PathId|
            #![trigger cs@.contains_key((p, batch@[k2]))]
            0 <= k2 < batch@.len() && !job_succeeded(outcomes@[k2]) implies !cs@.contains_key(
            (p, batch@[k2]),
        ) by {
            crate::changes::lemma_changes_map_contains(cs.entries@, p, batch@[k2]);
            if cs@.contains_key((p, batch@[k2])) {
                let j = choose|j: int|
                    0 <= j < cs.entries@.len() && cs.entries@[j].path == p && cs.entries@[j].source
                        == batch@[k2];
                let k3 = choose|k3: int|
                    0 <= k3 < n && (#[trigger] cs.entries@[j]).source == batch@[k3]
                        && job_succeeded(outcomes@[k3]);
                assert(batch@[k3] == batch@[k2]);
                if k3 != k2 {
                    assert(batch@[k3] != batch@[k2]);
                }
                assert(false);
            }
        }
    }
    let mut failures: usize = 0;
    let mut i2: usize = 0;
    while i2 < outcomes.len()
        invariant
            i2 <= outcomes@.len(),
            failures as int == count_failures(outcomes@.take(i2 as int)),
            failures <= i2,
        decreases outcomes@.len() - i2,
    {
        proof {
            assert(outcomes@.take(i2 + 1).drop_last() =~= outcomes@.take(i2 as int));
            assert(outcomes@.take(i2 + 1).last() == outcomes@[i2 as int]);
        }
        let failed = match &outcomes[i2] {
            JobOutcome::Exited { code, .. } => *code != 0,
            JobOutcome::SpawnFailed => true,
        };
        if failed {
            failures = failures + 1;
        }
        i2 = i2 + 1;
    }
    proof {
        assert(outcomes@.take(outcomes@.len() as int) =~= outcomes@);
    }
    RunOutcome { results, changes: cs, failures }
}

} // verus!
