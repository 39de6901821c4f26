//! The working-copy store: a cache registry mapping a tree's content
//! fingerprint to a materialized working copy.
//!
//! Requests for the same content coalesce: at most one materialization ever
//! exists per distinct fingerprint, and a request for an already-cached
//! fingerprint reuses the existing entry. Entries live until an explicit
//! cleanup, which is a separate maintenance operation outside this engine.
//! The backend is chosen once at startup; an in-memory model backend is
//! provided, and a host may add virtual-filesystem ones.

use vstd::prelude::*;

use crate::fingerprint::{spec_fingerprint, to_fingerprint};
use crate::repo::{CommitId, RepoModel};

verus! {

/// An error from the working-copy cache.
#[derive(Debug)]
pub enum WorkingCopyStoreError {
    /// The store or an underlying working copy could not be initialized
    /// (directory or output-file creation failed).
    Initialization(String),
    /// A working copy could not be synchronized; names the path at fault.
    TreeUpdate(String),
    /// The backing store failed internally.
    Backend(String),
    /// Any internal error, not to be shown to the user.
    Internal(String),
    /// Revision-set evaluation failed.
    Revset(String),
}

/// One live cache entry: the on-disk (or virtual) locations holding a
/// materialized tree, plus which commit's content is currently checked out.
/// The two output-capture files for the entry's job live inside the output
/// directory; the host opens them.
#[derive(Debug)]
pub struct Materialization {
    /// The cache key: the fingerprint of the materialized tree.
    pub fingerprint: String,
    /// Where the job's captured output lands.
    pub output_dir: String,
    /// The checked-out file contents.
    pub working_copy_dir: String,
    /// Working-copy bookkeeping.
    pub state_dir: String,
    /// The commit whose tree the entry currently holds.
    pub source_commit: CommitId,
}

/// The output directory's name under a fingerprint.
pub open spec fn output_dir_of(fp: Seq<char>) -> Seq<char> {
    fp + "/output"@
}

/// The working-copy directory's name under a fingerprint.
pub open spec fn working_copy_dir_of(fp: Seq<char>) -> Seq<char> {
    fp + "/working_copy"@
}

/// The state directory's name under a fingerprint.
pub open spec fn state_dir_of(fp: Seq<char>) -> Seq<char> {
    fp + "/state"@
}

impl Materialization {
    /// A fresh entry for `fingerprint`, holding `source_commit`'s tree, with
    /// its three locations derived from the fingerprint.
    pub fn new(fingerprint: String, source_commit: CommitId) -> (r: Materialization)
        ensures
            r.fingerprint@ == fingerprint@,
            r.output_dir@ == output_dir_of(fingerprint@),
            r.working_copy_dir@ == working_copy_dir_of(fingerprint@),
            r.state_dir@ == state_dir_of(fingerprint@),
            r.source_commit == source_commit,
    {
        let output_dir = fingerprint.clone().concat("/output");
        let working_copy_dir = fingerprint.clone().concat("/working_copy");
        let state_dir = fingerprint.clone().concat("/state");
        Materialization { fingerprint, output_dir, working_copy_dir, state_dir, source_commit }
    }
}

/// Whether `handles` ties every requested commit to a live materialization
/// with its tree's fingerprint.
pub open spec fn handles_ok(
    fps: Seq<Seq<char>>,
    repo: RepoModel,
    revisions: Seq<CommitId>,
    handles: Seq<usize>,
) -> bool {
    &&& handles.len() == revisions.len()
    &&& forall|k: int|
        0 <= k < handles.len() ==> (((#[trigger] handles[k]) as int) < fps.len() && fps[
            handles[k] as int
        ] == spec_fingerprint(repo.commits@[revisions[k] as int].tree_id))
}

/// The working-copy names of the requested commits' trees, in request order.
pub open spec fn requested_fingerprints(repo: RepoModel, revisions: Seq<CommitId>) -> Seq<
    Seq<char>,
> {
    revisions.map_values(|c: CommitId| spec_fingerprint(repo.commits@[c as int].tree_id))
}

/// Whether every key in `fps_new` beyond `fps_old` belongs to a requested
/// commit's tree.
pub open spec fn new_keys_requested(
    fps_old: Seq<Seq<char>>,
    fps_new: Seq<Seq<char>>,
    repo: RepoModel,
    revisions: Seq<CommitId>,
) -> bool {
    forall|j: int|
        fps_old.len() <= j < fps_new.len() ==> requested_fingerprints(repo, revisions).contains(
            #[trigger] fps_new[j],
        )
}

/// Whether `fps_new` keeps every key of `fps_old`, in place.
pub open spec fn keys_kept(fps_old: Seq<Seq<char>>, fps_new: Seq<Seq<char>>) -> bool {
    &&& fps_new.len() >= fps_old.len()
    &&& forall|i: int| 0 <= i < fps_old.len() ==> fps_new[i] == fps_old[i]
}

/// Whether all keys are pairwise distinct: at most one materialization per
/// fingerprint.
pub open spec fn keys_unique(fps: Seq<Seq<char>>) -> bool {
    forall|i: int, j: int| 0 <= i < j < fps.len() ==> fps[i] != fps[j]
}

/// Whether the entry keyed by `c`'s tree fingerprint now holds one of the
/// `replacements` with that same tree fingerprint: its content was refreshed
/// to a (possibly rewritten) commit of the same tree.
pub open spec fn entry_refreshed(
    fps: Seq<Seq<char>>,
    sources: Seq<CommitId>,
    repo: RepoModel,
    replacements: Seq<CommitId>,
    c: CommitId,
) -> bool {
    exists|i: int|
        0 <= i < fps.len() && i < sources.len() && #[trigger] fps[i] == spec_fingerprint(
            repo.commits@[c as int].tree_id,
        ) && (exists|k2: int|
            0 <= k2 < replacements.len() && sources[i] == #[trigger] replacements[k2]
                && spec_fingerprint(repo.commits@[replacements[k2] as int].tree_id) == fps[i])
}

/// Whether every entry either kept the commit it holds or was refreshed to a
/// replacement whose tree it is keyed by: an update never rebinds an entry
/// to unrelated content.
pub open spec fn sources_kept_or_refreshed(
    fps: Seq<Seq<char>>,
    sources_old: Seq<CommitId>,
    sources_new: Seq<CommitId>,
    repo: RepoModel,
    replacements: Seq<CommitId>,
) -> bool {
    forall|i: int|
        0 <= i < sources_new.len() && i < sources_old.len() && i < fps.len() ==> (
        #[trigger] sources_new[i] == sources_old[i] || exists|k2: int|
            0 <= k2 < replacements.len() && sources_new[i] == #[trigger] replacements[k2]
                && spec_fingerprint(repo.commits@[replacements[k2] as int].tree_id) == fps[i])
}

proof fn lift_kept_or_refreshed(
    mats_old: Seq<Materialization>,
    mats_new: Seq<Materialization>,
    repo: RepoModel,
    replacements: Seq<CommitId>,
)
    requires
        mats_new.len() == mats_old.len(),
        forall|i: int|
            0 <= i < mats_new.len() ==> ((#[trigger] mats_new[i]).source_commit
                == mats_old[i].source_commit || exists|k2: int|
                0 <= k2 < replacements.len() && mats_new[i].source_commit == (
                #[trigger] replacements[k2]) && spec_fingerprint(
                    repo.commits@[replacements[k2] as int].tree_id,
                ) == mats_new[i].fingerprint@),
    ensures
        sources_kept_or_refreshed(
            mats_new.map_values(|m: Materialization| m.fingerprint@),
            mats_old.map_values(|m: Materialization| m.source_commit),
            mats_new.map_values(|m: Materialization| m.source_commit),
            repo,
            replacements,
        ),
{
    let fps = mats_new.map_values(|m: Materialization| m.fingerprint@);
    let so = mats_old.map_values(|m: Materialization| m.source_commit);
    let sn = mats_new.map_values(|m: Materialization| m.source_commit);
    assert forall|i: int|
        0 <= i < sn.len() && i < so.len() && i < fps.len() implies (#[trigger] sn[i] == so[i]
        || exists|k2: int|
        0 <= k2 < replacements.len() && sn[i] == #[trigger] replacements[k2]
            && spec_fingerprint(repo.commits@[replacements[k2] as int].tree_id) == fps[i]) by {
        assert(sn[i] == (#[trigger] mats_new[i]).source_commit);
        assert(so[i] == mats_old[i].source_commit);
        assert(fps[i] == mats_new[i].fingerprint@);
        if mats_new[i].source_commit == mats_old[i].source_commit {
        } else {
            let k2 = choose|k2: int|
                0 <= k2 < replacements.len() && mats_new[i].source_commit == (
                #[trigger] replacements[k2]) && spec_fingerprint(
                    repo.commits@[replacements[k2] as int].tree_id,
                ) == mats_new[i].fingerprint@;
            assert(sn[i] == replacements[k2] && spec_fingerprint(
                repo.commits@[replacements[k2] as int].tree_id,
            ) == fps[i]);
        }
    }
}

/// A working-copy cache backend. Clients request working copies for a set of
/// commits and the backend coalesces the requests: one materialization per
/// distinct tree fingerprint, reused across requests for its lifetime.
pub trait WorkingCopyStore: Sized {
    /// The fingerprints of the live materializations, in creation order.
    spec fn spec_fingerprints(&self) -> Seq<Seq<char>>;

    /// The commit each live materialization currently holds, in the same
    /// order as the fingerprints.
    spec fn spec_sources(&self) -> Seq<CommitId>;

    /// The backend's invariant.
    spec fn inv(&self) -> bool;

    /// The name of the backend, for diagnostics and backend-specific fast
    /// paths.
    fn name(&self) -> (r: &'static str);

    /// Gets or creates materializations for `revisions`: an existing entry is
    /// reused for every commit whose tree fingerprint is already live, and at
    /// most one entry is ever created per distinct fingerprint. Returns one
    /// handle (an index into the store's entries) per requested commit.
    fn get_or_create_working_copies(&mut self, repo: &RepoModel, revisions: &Vec<CommitId>) -> (r:
        Result<Vec<usize>, WorkingCopyStoreError>)
        requires
            old(self).inv(),
            repo.wf(),
            forall|k: int|
                0 <= k < revisions@.len() ==> #[trigger] revisions@[k] < repo.commits@.len(),
        ensures
            final(self).inv(),
            keys_kept(old(self).spec_fingerprints(), final(self).spec_fingerprints()),
            keys_unique(final(self).spec_fingerprints()),
            new_keys_requested(
                old(self).spec_fingerprints(),
                final(self).spec_fingerprints(),
                *repo,
                revisions@,
            ),
            match r {
                Ok(handles) => handles_ok(
                    final(self).spec_fingerprints(),
                    *repo,
                    revisions@,
                    handles@,
                ),
                Err(_) => true,
            },
    ;

    /// Refreshes the entries keyed by the given commits' tree fingerprints to
    /// hold those (possibly rewritten) commits, akin to a batch update. Fails
    /// with a `TreeUpdate` error naming the key that has no live entry. Never
    /// creates or drops entries: cache keys are stable.
    fn update_working_copies(&mut self, repo: &RepoModel, replacements: &Vec<CommitId>) -> (r:
        Result<(), WorkingCopyStoreError>)
        requires
            old(self).inv(),
            repo.wf(),
            forall|k: int|
                0 <= k < replacements@.len() ==> #[trigger] replacements@[k]
                    < repo.commits@.len(),
        ensures
            final(self).inv(),
            final(self).spec_fingerprints() == old(self).spec_fingerprints(),
            final(self).spec_sources().len() == final(self).spec_fingerprints().len(),
            final(self).spec_sources().len() == old(self).spec_sources().len(),
            sources_kept_or_refreshed(
                final(self).spec_fingerprints(),
                old(self).spec_sources(),
                final(self).spec_sources(),
                *repo,
                replacements@,
            ),
            r matches Ok(_) ==> forall|k: int|
                0 <= k < replacements@.len() ==> entry_refreshed(
                    final(self).spec_fingerprints(),
                    final(self).spec_sources(),
                    *repo,
                    replacements@,
                    #[trigger] replacements@[k],
                ),
    ;

    /// Refreshes the single entry keyed by `new_commit`'s tree fingerprint.
    fn update_single(&mut self, repo: &RepoModel, new_commit: CommitId) -> (r: Result<
        (),
        WorkingCopyStoreError,
    >)
        requires
            old(self).inv(),
            repo.wf(),
            new_commit < repo.commits@.len(),
        ensures
            final(self).inv(),
            final(self).spec_fingerprints() == old(self).spec_fingerprints(),
            final(self).spec_sources().len() == final(self).spec_fingerprints().len(),
            final(self).spec_sources().len() == old(self).spec_sources().len(),
            sources_kept_or_refreshed(
                final(self).spec_fingerprints(),
                old(self).spec_sources(),
                final(self).spec_sources(),
                *repo,
                seq![new_commit],
            ),
            match r {
                Ok(_) => entry_refreshed(
                    final(self).spec_fingerprints(),
                    final(self).spec_sources(),
                    *repo,
                    seq![new_commit],
                    new_commit,
                ),
                Err(_) => final(self).spec_sources() == old(self).spec_sources() && (forall|
                    i: int,
                |
                    0 <= i < final(self).spec_fingerprints().len()
                        ==> #[trigger] final(self).spec_fingerprints()[i] != spec_fingerprint(
                        repo.commits@[new_commit as int].tree_id,
                    )),
            },
    ;
}

/// The in-memory model backend: the registry alone, with the on-disk
/// locations carried as derived names for the host to realize.
#[derive(Debug)]
pub struct InMemoryWorkingCopyStore {
    /// The live entries, in creation order; a handle is an index here.
    pub mats: Vec<Materialization>,
}

impl InMemoryWorkingCopyStore {
    /// An empty store.
    pub fn new() -> (r: InMemoryWorkingCopyStore)
        ensures
            r.inv(),
            r.spec_fingerprints().len() == 0,
    {
        InMemoryWorkingCopyStore { mats: Vec::new() }
    }

    /// How many materializations are live.
    pub fn len(&self) -> (r: usize)
        ensures
            r as int == self.spec_fingerprints().len(),
    {
        self.mats.len()
    }

    fn find_fingerprint(&self, fp: &String) -> (r: Option<usize>)
        ensures
            match r {
                Some(i) => i < self.mats@.len() && self.mats@[i as int].fingerprint@ == fp@,
                None => forall|i: int|
                    0 <= i < self.mats@.len() ==> (#[trigger] self.mats@[i]).fingerprint@ != fp@,
            },
    {
        let mut i: usize = 0;
        while i < self.mats.len()
            invariant
                i <= self.mats@.len(),
                forall|k: int| 0 <= k < i ==> (#[trigger] self.mats@[k]).fingerprint@ != fp@,
            decreases self.mats@.len() - i,
        {
            if self.mats[i].fingerprint.eq(fp) {
                return Some(i);
            }
            i = i + 1;
        }
        None
    }
}

impl WorkingCopyStore for InMemoryWorkingCopyStore {
    open spec fn spec_fingerprints(&self) -> Seq<Seq<char>> {
        self.mats@.map_values(|m: Materialization| m.fingerprint@)
    }

    open spec fn spec_sources(&self) -> Seq<CommitId> {
        self.mats@.map_values(|m: Materialization| m.source_commit)
    }

    open spec fn inv(&self) -> bool {
        forall|i: int, j: int|
            0 <= i < j < self.mats@.len() ==> self.mats@[i].fingerprint@
                != self.mats@[j].fingerprint@
    }

    fn name(&self) -> (r: &'static str) {
        "in-memory"
    }

    fn get_or_create_working_copies(&mut self, repo: &RepoModel, revisions: &Vec<CommitId>) -> (r:
        Result<Vec<usize>, WorkingCopyStoreError>) {
        let mut handles: Vec<usize> = Vec::new();
        let mut k: usize = 0;
        let ghost n0 = self.mats@.len();
        let ghost mut srcs: Seq<int> = Seq::empty();
        while k < revisions.len()
            invariant
                repo.wf(),
                forall|t: int|
                    0 <= t < revisions@.len() ==> #[trigger] revisions@[t] < repo.commits@.len(),
                k <= revisions@.len(),
                self.inv(),
                n0 == old(self).mats@.len(),
                self.mats@.len() >= n0,
                forall|i: int| 0 <= i < n0 ==> self.mats@[i] == old(self).mats@[i],
                srcs.len() == self.mats@.len() - n0,
                forall|j: int|
                    #![trigger srcs[j]]
                    0 <= j < srcs.len() ==> 0 <= srcs[j] < revisions@.len() && self.mats@[n0
                        + j].fingerprint@ == spec_fingerprint(
                        repo.commits@[revisions@[srcs[j]] as int].tree_id,
                    ),
                handles@.len() == k as int,
                forall|t: int|
                    0 <= t < k ==> (((#[trigger] handles@[t]) as int) < self.mats@.len()
                        && self.mats@[handles@[t] as int].fingerprint@ == spec_fingerprint(
                        repo.commits@[revisions@[t] as int].tree_id,
                    )),
            decreases revisions@.len() - k,
        {
            let c = revisions[k];
            let ncommits = repo.commits.len();
            proof {
                assert(c < ncommits);
                assert(((c as usize) as int) == c as int);
            }
            let fp = to_fingerprint(&repo.commits[c as usize].tree_id);
            let found = self.find_fingerprint(&fp);
            match found {
                Some(i) => {
                    handles.push(i);
                },
                None => {
                    let ghost mats0 = self.mats@;
                    let i = self.mats.len();
                    let m = Materialization::new(fp, c);
                    self.mats.push(m);
                    handles.push(i);
                    proof {
                        srcs = srcs.push(k as int);
                        assert forall|i1: int, j1: int|
                            0 <= i1 < j1 < self.mats@.len() implies self.mats@[i1].fingerprint@
                            != self.mats@[j1].fingerprint@ by {
                            if j1 == self.mats@.len() - 1 {
                                assert(self.mats@[i1] == mats0[i1]);
                            }
                        }
                        assert(self.mats@[self.mats@.len() - 1].fingerprint@ == spec_fingerprint(
                            repo.commits@[c as int].tree_id,
                        ));
                        assert forall|j: int| #![trigger srcs[j]] 0 <= j < srcs.len() implies 0
                            <= srcs[j] < revisions@.len() && self.mats@[n0 + j].fingerprint@
                            == spec_fingerprint(
                            repo.commits@[revisions@[srcs[j]] as int].tree_id,
                        ) by {
                            if j < srcs.len() - 1 {
                                assert(self.mats@[n0 + j] == mats0[n0 + j]);
                            } else {
                                assert(srcs[j] == k as int);
                            }
                        }
                    }
                },
            }
            k = k + 1;
        }
        proof {
            let fps_old = old(self).spec_fingerprints();
            let fps_new = self.spec_fingerprints();
            assert(fps_old.len() == n0);
            assert forall|j: int|
                fps_old.len() <= j < fps_new.len() implies requested_fingerprints(
                *repo,
                revisions@,
            ).contains(#[trigger] fps_new[j]) by {
                let t = srcs[j - n0];
                assert(fps_new[j] == self.mats@[j].fingerprint@);
                assert(requested_fingerprints(*repo, revisions@)[t] == fps_new[j]);
            }
            assert(new_keys_requested(fps_old, fps_new, *repo, revisions@));
        }
        Ok(handles)
    }

    #[verifier::rlimit(100)]
    fn update_working_copies(&mut self, repo: &RepoModel, replacements: &Vec<CommitId>) -> (r:
        Result<(), WorkingCopyStoreError>) {
        let mut k: usize = 0;
        while k < replacements.len()
            invariant
                repo.wf(),
                forall|t: int|
                    0 <= t < replacements@.len() ==> #[trigger] replacements@[t]
                        < repo.commits@.len(),
                k <= replacements@.len(),
                self.inv(),
                self.mats@.len() == old(self).mats@.len(),
                forall|i: int|
                    0 <= i < self.mats@.len() ==> (#[trigger] self.mats@[i]).fingerprint@ == old(
                        self,
                    ).mats@[i].fingerprint@,
                forall|i: int|
                    0 <= i < self.mats@.len() ==> ((#[trigger] self.mats@[i]).source_commit == old(
                        self,
                    ).mats@[i].source_commit || exists|k2: int|
                        0 <= k2 < replacements@.len() && self.mats@[i].source_commit == (
                        #[trigger] replacements@[k2]) && spec_fingerprint(
                            repo.commits@[replacements@[k2] as int].tree_id,
                        ) == self.mats@[i].fingerprint@),
                forall|k2: int|
                    0 <= k2 < k ==> exists|i: int|
                        0 <= i < self.mats@.len() && (#[trigger] self.mats@[i]).fingerprint@
                            == spec_fingerprint(
                            repo.commits@[(#[trigger] replacements@[k2]) as int].tree_id,
                        ) && (exists|k3: int|
                            0 <= k3 < replacements@.len() && self.mats@[i].source_commit == (
                            #[trigger] replacements@[k3]) && spec_fingerprint(
                                repo.commits@[replacements@[k3] as int].tree_id,
                            ) == self.mats@[i].fingerprint@),
            decreases replacements@.len() - k,
        {
            let c = replacements[k];
            let ghost mats_a = self.mats@;
            match self.update_single_inner(repo, c) {
                Ok(()) => {},
                Err(e) => {
                    proof {
                        lift_kept_or_refreshed(old(self).mats@, self.mats@, *repo, replacements@);
                        assert(self.spec_fingerprints() =~= old(self).spec_fingerprints());
                    }
                    return Err(e);
                },
            }
            proof {
                let key = spec_fingerprint(repo.commits@[c as int].tree_id);
                assert forall|i: int|
                    0 <= i < self.mats@.len() implies ((#[trigger] self.mats@[i]).source_commit
                    == old(self).mats@[i].source_commit || exists|k2: int|
                    0 <= k2 < replacements@.len() && self.mats@[i].source_commit == (
                    #[trigger] replacements@[k2]) && spec_fingerprint(
                        repo.commits@[replacements@[k2] as int].tree_id,
                    ) == self.mats@[i].fingerprint@) by {
                    if self.mats@[i].fingerprint@ != key {
                        assert(self.mats@[i] == mats_a[i]);
                    } else {
                        let i2 = choose|i2: int|
                            0 <= i2 < self.mats@.len() && (#[trigger] self.mats@[i2]).fingerprint@
                                == key && self.mats@[i2].source_commit == c;
                        if i2 != i {
                            assert(self.mats@[i2].fingerprint@ != self.mats@[i].fingerprint@);
                            assert(false);
                        }
                        assert(self.mats@[i].source_commit == replacements@[k as int]);
                        assert(spec_fingerprint(
                            repo.commits@[replacements@[k as int] as int].tree_id,
                        ) == self.mats@[i].fingerprint@);
                    }
                }
                assert forall|k2: int| 0 <= k2 < k + 1 implies exists|i: int|
                    0 <= i < self.mats@.len() && (#[trigger] self.mats@[i]).fingerprint@
                        == spec_fingerprint(
                        repo.commits@[(#[trigger] replacements@[k2]) as int].tree_id,
                    ) && (exists|k3: int|
                        0 <= k3 < replacements@.len() && self.mats@[i].source_commit == (
                        #[trigger] replacements@[k3]) && spec_fingerprint(
                            repo.commits@[replacements@[k3] as int].tree_id,
                        ) == self.mats@[i].fingerprint@) by {
                    if k2 < k {
                        let i = choose|i: int|
                            0 <= i < mats_a.len() && (#[trigger] mats_a[i]).fingerprint@
                                == spec_fingerprint(
                                repo.commits@[replacements@[k2] as int].tree_id,
                            ) && (exists|k3: int|
                                0 <= k3 < replacements@.len() && mats_a[i].source_commit == (
                                #[trigger] replacements@[k3]) && spec_fingerprint(
                                    repo.commits@[replacements@[k3] as int].tree_id,
                                ) == mats_a[i].fingerprint@);
                        assert(self.mats@[i].fingerprint@ == mats_a[i].fingerprint@);
                        if self.mats@[i].fingerprint@ != key {
                            assert(self.mats@[i] == mats_a[i]);
                            let k3 = choose|k3: int|
                                0 <= k3 < replacements@.len() && mats_a[i].source_commit == (
                                #[trigger] replacements@[k3]) && spec_fingerprint(
                                    repo.commits@[replacements@[k3] as int].tree_id,
                                ) == mats_a[i].fingerprint@;
                            assert(self.mats@[i].source_commit == replacements@[k3]);
                        } else {
                            let i2 = choose|i2: int|
                                0 <= i2 < self.mats@.len() && (
                                #[trigger] self.mats@[i2]).fingerprint@ == key
                                    && self.mats@[i2].source_commit == c;
                            if i2 != i {
                                assert(self.mats@[i2].fingerprint@
                                    != self.mats@[i].fingerprint@);
                                assert(false);
                            }
                            assert(self.mats@[i].source_commit == replacements@[k as int]);
                        }
                    } else {
                        let i2 = choose|i2: int|
                            0 <= i2 < self.mats@.len() && (#[trigger] self.mats@[i2]).fingerprint@
                                == key && self.mats@[i2].source_commit == c;
                        assert(self.mats@[i2].source_commit == replacements@[k as int]);
                        assert(spec_fingerprint(
                            repo.commits@[replacements@[k as int] as int].tree_id,
                        ) == self.mats@[i2].fingerprint@);
                    }
                }
            }
            k = k + 1;
        }
        proof {
            lift_kept_or_refreshed(old(self).mats@, self.mats@, *repo, replacements@);
            assert(self.spec_fingerprints() =~= old(self).spec_fingerprints());
            assert forall|k2: int| 0 <= k2 < replacements@.len() implies entry_refreshed(
                self.spec_fingerprints(),
                self.spec_sources(),
                *repo,
                replacements@,
                #[trigger] replacements@[k2],
            ) by {
                let i = choose|i: int|
                    0 <= i < self.mats@.len() && (#[trigger] self.mats@[i]).fingerprint@
                        == spec_fingerprint(repo.commits@[replacements@[k2] as int].tree_id) && (
                    exists|k3: int|
                        0 <= k3 < replacements@.len() && self.mats@[i].source_commit == (
                        #[trigger] replacements@[k3]) && spec_fingerprint(
                            repo.commits@[replacements@[k3] as int].tree_id,
                        ) == self.mats@[i].fingerprint@);
                let k3 = choose|k3: int|
                    0 <= k3 < replacements@.len() && self.mats@[i].source_commit == (
                    #[trigger] replacements@[k3]) && spec_fingerprint(
                        repo.commits@[replacements@[k3] as int].tree_id,
                    ) == self.mats@[i].fingerprint@;
                assert(self.spec_fingerprints()[i] == self.mats@[i].fingerprint@);
                assert(self.spec_sources()[i] == self.mats@[i].source_commit);
                assert(self.spec_sources()[i] == replacements@[k3] && spec_fingerprint(
                    repo.commits@[replacements@[k3] as int].tree_id,
                ) == self.spec_fingerprints()[i]);
            }
        }
        Ok(())
    }

    fn update_single(&mut self, repo: &RepoModel, new_commit: CommitId) -> (r: Result<
        (),
        WorkingCopyStoreError,
    >) {
        let r = self.update_single_inner(repo, new_commit);
        proof {
            assert(self.spec_fingerprints() =~= old(self).spec_fingerprints());
            let key = spec_fingerprint(repo.commits@[new_commit as int].tree_id);
            let repl = seq![new_commit];
            assert(repl[0] == new_commit);
            assert forall|i: int|
                0 <= i < self.spec_sources().len() && i < old(self).spec_sources().len() && i
                    < self.spec_fingerprints().len() implies (#[trigger] self.spec_sources()[i]
                == old(self).spec_sources()[i] || exists|k2: int|
                0 <= k2 < repl.len() && self.spec_sources()[i] == #[trigger] repl[k2]
                    && spec_fingerprint(repo.commits@[repl[k2] as int].tree_id)
                    == self.spec_fingerprints()[i]) by {
                assert(self.spec_sources()[i] == self.mats@[i].source_commit);
                assert(old(self).spec_sources()[i] == old(self).mats@[i].source_commit);
                assert(self.spec_fingerprints()[i] == self.mats@[i].fingerprint@);
                if (#[trigger] self.mats@[i]).fingerprint@ != key {
                    assert(self.mats@[i] == old(self).mats@[i]);
                } else {
                    match r {
                        Ok(_) => {
                            let i2 = choose|i2: int|
                                0 <= i2 < self.mats@.len() && (
                                #[trigger] self.mats@[i2]).fingerprint@ == key
                                    && self.mats@[i2].source_commit == new_commit;
                            if i2 != i {
                                assert(self.mats@[i2].fingerprint@ != self.mats@[i].fingerprint@);
                                assert(false);
                            }
                            assert(self.spec_sources()[i] == repl[0]);
                            assert(spec_fingerprint(repo.commits@[repl[0] as int].tree_id)
                                == self.spec_fingerprints()[i]);
                        },
                        Err(_) => {
                            assert(self.mats@[i] == old(self).mats@[i]);
                        },
                    }
                }
            }
            assert(sources_kept_or_refreshed(
                self.spec_fingerprints(),
                old(self).spec_sources(),
                self.spec_sources(),
                *repo,
                repl,
            ));
            match r {
                Ok(_) => {
                    let i2 = choose|i2: int|
                        0 <= i2 < self.mats@.len() && (#[trigger] self.mats@[i2]).fingerprint@
                            == key && self.mats@[i2].source_commit == new_commit;
                    assert(self.spec_fingerprints()[i2] == key);
                    assert(self.spec_sources()[i2] == repl[0]);
                    assert(spec_fingerprint(repo.commits@[repl[0] as int].tree_id) == key);
                    assert(entry_refreshed(
                        self.spec_fingerprints(),
                        self.spec_sources(),
                        *repo,
                        repl,
                        new_commit,
                    ));
                },
                Err(_) => {
                    assert(self.spec_sources() =~= old(self).spec_sources());
                    assert forall|i: int|
                        0 <= i < self.spec_fingerprints().len() implies #[trigger] self.spec_fingerprints()[i]
                        != key by {
                        assert(self.spec_fingerprints()[i] == (
                        #[trigger] self.mats@[i]).fingerprint@);
                    }
                },
            }
        }
        r
    }
}

impl InMemoryWorkingCopyStore {
    /// Refreshes the entry keyed by `new_commit`'s tree fingerprint so that
    /// it holds `new_commit`; fails naming the key when no such entry lives.
    fn update_single_inner(&mut self, repo: &RepoModel, new_commit: CommitId) -> (r: Result<
        (),
        WorkingCopyStoreError,
    >)
        requires
            old(self).inv(),
            repo.wf(),
            new_commit < repo.commits@.len(),
        ensures
            final(self).inv(),
            final(self).mats@.len() == old(self).mats@.len(),
            forall|i: int|
                0 <= i < final(self).mats@.len()
                    ==> (#[trigger] final(self).mats@[i]).fingerprint@
                    == old(self).mats@[i].fingerprint@,
            forall|i: int|
                0 <= i < final(self).mats@.len() && (#[trigger] final(self).mats@[i]).fingerprint@
                    != spec_fingerprint(repo.commits@[new_commit as int].tree_id)
                    ==> final(self).mats@[i] == old(self).mats@[i],
            r matches Ok(_) ==> exists|i: int|
                0 <= i < final(self).mats@.len() && (#[trigger] final(self).mats@[i]).fingerprint@
                    == spec_fingerprint(repo.commits@[new_commit as int].tree_id)
                    && final(self).mats@[i].source_commit == new_commit,
            r matches Err(_) ==> final(self).mats@ == old(self).mats@ && (forall|i: int|
                0 <= i < final(self).mats@.len()
                    ==> (#[trigger] final(self).mats@[i]).fingerprint@ != spec_fingerprint(
                    repo.commits@[new_commit as int].tree_id,
                )),
    {
        let ncommits = repo.commits.len();
        proof {
            assert(new_commit < ncommits);
            assert(((new_commit as usize) as int) == new_commit as int);
        }
        let fp = to_fingerprint(&repo.commits[new_commit as usize].tree_id);
        let found = self.find_fingerprint(&fp);
        match found {
            Some(i) => {
                let ghost mats0 = self.mats@;
                let old_m = &self.mats[i];
                let m = Materialization {
                    fingerprint: old_m.fingerprint.clone(),
                    output_dir: old_m.output_dir.clone(),
                    working_copy_dir: old_m.working_copy_dir.clone(),
                    state_dir: old_m.state_dir.clone(),
                    source_commit: new_commit,
                };
                self.mats.set(i, m);
                proof {
                    assert forall|i1: int, j1: int|
                        0 <= i1 < j1 < self.mats@.len() implies self.mats@[i1].fingerprint@
                        != self.mats@[j1].fingerprint@ by {
                        assert(mats0[i1].fingerprint@ != mats0[j1].fingerprint@);
                        assert(self.mats@[i1].fingerprint@ == mats0[i1].fingerprint@);
                        assert(self.mats@[j1].fingerprint@ == mats0[j1].fingerprint@);
                    }
                    assert((#[trigger] self.mats@[i as int]).fingerprint@ == spec_fingerprint(
                        repo.commits@[new_commit as int].tree_id,
                    ));
                }
                Ok(())
            },
            None => Err(WorkingCopyStoreError::TreeUpdate(fp)),
        }
    }
}

/// Coalescing makes repeated materialization idempotent: when every requested
/// fingerprint is already live (as after a first identical request), a
/// request creates nothing, so two requests for one set of commits, however
/// they interleave per key, leave exactly one materialization per distinct
/// fingerprint, and the second request cannot fail creating anything.
///
/// `fps1` are the store's cache keys after the first request, `fps2` after
/// the second; `requested` are the requested fingerprints.
pub proof fn lemma_materialization_coalesced(
    fps1: Seq<Seq<char>>,
    fps2: Seq<Seq<char>>,
    requested: Seq<Seq<char>>,
)
    requires
        // the first request left every requested fingerprint live
        forall|k: int|
            0 <= k < requested.len() ==> exists|i: int|
                0 <= i < fps1.len() && fps1[i] == #[trigger] requested[k],
        // the second request keeps existing keys
        fps2.len() >= fps1.len(),
        forall|i: int| 0 <= i < fps1.len() ==> fps2[i] == fps1[i],
        // and creates entries only for requested fingerprints, each key once
        forall|j: int|
            #![trigger fps2[j]]
            fps1.len() <= j < fps2.len() ==> exists|k: int|
                0 <= k < requested.len() && fps2[j] == #[trigger] requested[k],
        forall|i: int, j: int| 0 <= i < j < fps2.len() ==> fps2[i] != fps2[j],
    ensures
        fps2 == fps1,
{
    if fps2.len() > fps1.len() {
        let j = fps1.len() as int;
        let k = choose|k: int| 0 <= k < requested.len() && fps2[j] == requested[k];
        let i = choose|i: int| 0 <= i < fps1.len() && fps1[i] == requested[k];
        assert(fps2[i] == fps2[j]);
        assert(false);
    }
    assert(fps2 =~= fps1);
}

} // verus!
