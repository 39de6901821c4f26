//! Bounded-concurrency accounting for the external jobs, and the per-job
//! outcomes the host hands back.
//!
//! One task runs per materialized commit. The pool never lets more tasks run
//! at once than the resolved bound, and the batch's results become readable
//! only once every task has finished (or failed to start): that barrier is
//! what lets the rewrite phase assume a complete change set. Completion order
//! across tasks is unspecified; a task's failure never aborts its siblings.

use vstd::prelude::*;

use crate::repo::{FileId, PathId};

verus! {

/// How one external process ended.
#[derive(Clone, Copy, Debug, PartialEq, Eq, Structural)]
pub enum JobStatus {
    /// The process ran to completion with this exit code.
    Exited(i32),
    /// The process could not be started.
    SpawnFailed,
}

/// One file the external process left changed in its working copy: the
/// snapshot the host takes after the process exits.
#[derive(Clone, Copy, Debug, PartialEq, Eq, Structural)]
pub struct FileWrite {
    /// The repository path the process wrote.
    pub path: PathId,
    /// The content id of what it wrote there.
    pub file_id: FileId,
    /// The written file's executable bit.
    pub executable: bool,
}

/// What one job handed back: its termination status and, when it ran, the
/// files it left changed.
#[derive(Debug)]
pub enum JobOutcome {
    /// The process exited with `code`, having written `writes`.
    Exited { code: i32, writes: Vec<FileWrite> },
    /// The process never started.
    SpawnFailed,
}

/// A job counts as successful exactly when its process exited with status
/// zero. Everything else is a per-commit failure: recorded, excluded from the
/// change set, and never fatal to the batch.
pub open spec fn job_succeeded(o: JobOutcome) -> bool {
    o matches JobOutcome::Exited { code, .. } && code == 0
}

/// The scheduling state of one task.
#[derive(Clone, Copy, Debug)]
pub enum TaskState {
    /// Not started yet.
    Pending,
    /// Currently occupying a pool slot.
    Running,
    /// Finished, with the process's termination status.
    Done(JobStatus),
}

/// How many tasks of `s` are running.
pub closed spec fn running_count(s: Seq<TaskState>) -> int
    decreases s.len(),
{
    if s.len() == 0 {
        0
    } else {
        running_count(s.drop_last()) + if s.last() is Running {
            1int
        } else {
            0int
        }
    }
}

proof fn lemma_running_count_le(s: Seq<TaskState>)
    ensures
        0 <= running_count(s) <= s.len(),
    decreases s.len(),
{
    if s.len() > 0 {
        lemma_running_count_le(s.drop_last());
    }
}

proof fn lemma_running_count_push(s: Seq<TaskState>, t: TaskState)
    ensures
        running_count(s.push(t)) == running_count(s) + if t is Running {
            1int
        } else {
            0int
        },
{
    assert(s.push(t).drop_last() =~= s);
}

proof fn lemma_running_count_update(s: Seq<TaskState>, i: int, t: TaskState)
    requires
        0 <= i < s.len(),
    ensures
        running_count(s.update(i, t)) == running_count(s) + (if t is Running {
            1int
        } else {
            0int
        }) - (if s[i] is Running {
            1int
        } else {
            0int
        }),
    decreases s.len(),
{
    let su = s.update(i, t);
    if i == s.len() - 1 {
        assert(su.drop_last() =~= s.drop_last());
    } else {
        assert(su.drop_last() =~= s.drop_last().update(i, t));
        lemma_running_count_update(s.drop_last(), i, t);
        assert(su.last() == s.last());
    }
}

/// The bounded worker pool for one batch: one task per materialized commit,
/// at most `limit` of them running at once.
pub struct JobPool {
    /// The resolved parallelism bound.
    limit: usize,
    /// Each task's state, in batch order.
    states: Vec<TaskState>,
}

impl JobPool {
    /// The pool's parallelism bound.
    pub closed spec fn spec_limit(self) -> int {
        self.limit as int
    }

    /// Each task's state, in batch order.
    pub closed spec fn spec_states(self) -> Seq<TaskState> {
        self.states@
    }

    /// The pool's invariant: a positive bound that the running tasks never
    /// exceed.
    pub open spec fn wf(self) -> bool {
        &&& self.spec_limit() >= 1
        &&& running_count(self.spec_states()) <= self.spec_limit()
    }

    /// A fresh pool for `tasks` jobs, none of them started.
    pub fn new(limit: usize, tasks: usize) -> (r: JobPool)
        requires
            limit >= 1,
        ensures
            r.wf(),
            r.spec_limit() == limit as int,
            r.spec_states().len() == tasks as int,
            forall|i: int| 0 <= i < tasks as int ==> r.spec_states()[i] is Pending,
    {
        let mut states: Vec<TaskState> = Vec::new();
        let mut i: usize = 0;
        while i < tasks
            invariant
                i <= tasks,
                states@.len() == i as int,
                running_count(states@) == 0,
                forall|k: int| 0 <= k < i ==> states@[k] is Pending,
            decreases tasks - i,
        {
            proof {
                lemma_running_count_push(states@, TaskState::Pending);
            }
            states.push(TaskState::Pending);
            i = i + 1;
        }
        JobPool { limit, states }
    }

    /// How many tasks the pool tracks.
    pub fn task_count(&self) -> (r: usize)
        ensures
            r as int == self.spec_states().len(),
    {
        self.states.len()
    }

    /// Whether a free slot is available.
    pub fn has_free_slot(&self) -> (r: bool)
        requires
            self.wf(),
        ensures
            r == (running_count(self.spec_states()) < self.spec_limit()),
    {
        let mut i: usize = 0;
        let mut running: usize = 0;
        while i < self.states.len()
            invariant
                i <= self.states@.len(),
                running as int == running_count(self.states@.subrange(0, i as int)),
                running as int <= i as int,
            decreases self.states@.len() - i,
        {
            proof {
                assert(self.states@.subrange(0, i + 1).drop_last() =~= self.states@.subrange(
                    0,
                    i as int,
                ));
                lemma_running_count_le(self.states@.subrange(0, i as int));
            }
            let is_running = match self.states[i] {
                TaskState::Running => true,
                _ => false,
            };
            if is_running {
                running = running + 1;
            }
            i = i + 1;
        }
        proof {
            assert(self.states@.subrange(0, self.states@.len() as int) =~= self.states@);
        }
        running < self.limit
    }

    /// The first task that has not started yet, if any is left.
    pub fn next_pending(&self) -> (r: Option<usize>)
        ensures
            match r {
                Some(i) => i < self.spec_states().len() && self.spec_states()[i as int] is Pending,
                None => forall|i: int|
                    0 <= i < self.spec_states().len() ==> !(self.spec_states()[i] is Pending),
            },
    {
        let mut i: usize = 0;
        while i < self.states.len()
            invariant
                i <= self.states@.len(),
                forall|k: int| 0 <= k < i ==> !(self.states@[k] is Pending),
            decreases self.states@.len() - i,
        {
            let pending = match self.states[i] {
                TaskState::Pending => true,
                _ => false,
            };
            if pending {
                return Some(i);
            }
            i = i + 1;
        }
        None
    }

    /// Starts task `i`: takes one of the free slots. A task can start only
    /// while the running tasks stay under the bound.
    pub fn spawn(&mut self, i: usize)
        requires
            old(self).wf(),
            i < old(self).spec_states().len(),
            old(self).spec_states()[i as int] is Pending,
            running_count(old(self).spec_states()) < old(self).spec_limit(),
        ensures
            final(self).wf(),
            final(self).spec_limit() == old(self).spec_limit(),
            final(self).spec_states() == old(self).spec_states().update(
                i as int,
                TaskState::Running,
            ),
            running_count(final(self).spec_states()) == running_count(old(self).spec_states()) + 1,
    {
        proof {
            lemma_running_count_update(self.states@, i as int, TaskState::Running);
        }
        self.states.set(i, TaskState::Running);
    }

    /// Records that task `i`'s process finished with `status`, freeing its
    /// slot. A failed task frees its slot like any other: it never aborts its
    /// siblings.
    pub fn complete(&mut self, i: usize, status: JobStatus)
        requires
            old(self).wf(),
            i < old(self).spec_states().len(),
            old(self).spec_states()[i as int] is Running,
        ensures
            final(self).wf(),
            final(self).spec_limit() == old(self).spec_limit(),
            final(self).spec_states() == old(self).spec_states().update(
                i as int,
                TaskState::Done(status),
            ),
            running_count(final(self).spec_states()) == running_count(old(self).spec_states()) - 1,
    {
        proof {
            lemma_running_count_update(self.states@, i as int, TaskState::Done(status));
            lemma_running_count_le(self.states@);
        }
        self.states.set(i, TaskState::Done(status));
    }

    /// Whether every task has finished: the batch barrier. No commit is
    /// integrated into history until this holds.
    pub fn all_done(&self) -> (r: bool)
        ensures
            r == forall|i: int|
                0 <= i < self.spec_states().len() ==> self.spec_states()[i] is Done,
    {
        let mut i: usize = 0;
        while i < self.states.len()
            invariant
                i <= self.states@.len(),
                forall|k: int| 0 <= k < i ==> self.states@[k] is Done,
            decreases self.states@.len() - i,
        {
            let done = match self.states[i] {
                TaskState::Done(_) => true,
                _ => false,
            };
            if !done {
                return false;
            }
            i = i + 1;
        }
        true
    }

    /// Every task's termination status, in batch order. Readable only behind
    /// the barrier: the whole batch must have finished first.
    pub fn statuses(&self) -> (r: Vec<JobStatus>)
        requires
            forall|i: int| 0 <= i < self.spec_states().len() ==> self.spec_states()[i] is Done,
        ensures
            r@.len() == self.spec_states().len(),
            forall|i: int|
                0 <= i < r@.len() ==> self.spec_states()[i] == TaskState::Done(#[trigger] r@[i]),
    {
        let mut out: Vec<JobStatus> = Vec::new();
        let mut i: usize = 0;
        while i < self.states.len()
            invariant
                i <= self.states@.len(),
                out@.len() == i as int,
                forall|k: int| 0 <= k < self.states@.len() ==> self.states@[k] is Done,
                forall|k: int|
                    0 <= k < i ==> self.states@[k] == TaskState::Done(#[trigger] out@[k]),
            decreases self.states@.len() - i,
        {
            let status = match self.states[i] {
                TaskState::Done(s) => s,
                _ => JobStatus::SpawnFailed,
            };
            out.push(status);
            i = i + 1;
        }
        out
    }
}

} // verus!
