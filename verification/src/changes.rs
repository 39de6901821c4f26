//! The batch's change set: a mapping from (repository path, source commit) to
//! the new file content recorded for that path by that commit's job.
//!
//! The set is accumulated across the whole batch, additively: an entry, once
//! recorded, is never overwritten, so a more specific (commit-local) change
//! always beats one inherited from a parent. The history rewriter consumes it
//! exactly once.

use vstd::prelude::*;

use crate::repo::{CommitId, PathId};
use crate::tree::FileValue;

verus! {

/// One recorded change: at `path`, originating at commit `source`, the file
/// now holds `value`.
#[derive(Clone, Copy, Debug, PartialEq, Eq, Structural)]
pub struct ChangeEntry {
    /// The changed repository path.
    pub path: PathId,
    /// The commit whose job produced the change.
    pub source: CommitId,
    /// The new file content and executable bit.
    pub value: FileValue,
}

/// The map a sequence of change entries denotes, keyed by (path, source).
pub open spec fn changes_map(s: Seq<ChangeEntry>) -> Map<(PathId, CommitId), FileValue>
    decreases s.len(),
{
    if s.len() == 0 {
        Map::empty()
    } else {
        changes_map(s.drop_last()).insert((s.last().path, s.last().source), s.last().value)
    }
}

/// A sequence of change entries holds a key exactly when its map does.
pub proof fn lemma_changes_map_contains(s: Seq<ChangeEntry>, p: PathId, c: CommitId)
    ensures
        changes_map(s).contains_key((p, c)) <==> exists|i: int|
            0 <= i < s.len() && s[i].path == p && s[i].source == c,
    decreases s.len(),
{
    if s.len() > 0 {
        lemma_changes_map_contains(s.drop_last(), p, c);
        if s.last().path == p && s.last().source == c {
            assert(s[s.len() - 1].path == p && s[s.len() - 1].source == c);
        } else {
            if exists|i: int|
                0 <= i < s.drop_last().len() && s.drop_last()[i].path == p && s.drop_last()[i].source
                    == c {
                let i = choose|i: int|
                    0 <= i < s.drop_last().len() && s.drop_last()[i].path == p
                        && s.drop_last()[i].source == c;
                assert(s[i].path == p && s[i].source == c);
            }
            if exists|i: int| 0 <= i < s.len() && s[i].path == p && s[i].source == c {
                let i = choose|i: int| 0 <= i < s.len() && s[i].path == p && s[i].source == c;
                assert(s.drop_last()[i].path == p && s.drop_last()[i].source == c);
            }
        }
    }
}

/// With pairwise distinct keys, each entry gives its key's value.
pub proof fn lemma_changes_map_value(s: Seq<ChangeEntry>, i: int)
    requires
        forall|i1: int, i2: int|
            0 <= i1 < i2 < s.len() ==> !(s[i1].path == s[i2].path && s[i1].source == s[i2].source),
        0 <= i < s.len(),
    ensures
        changes_map(s).contains_key((s[i].path, s[i].source)),
        changes_map(s)[(s[i].path, s[i].source)] == s[i].value,
    decreases s.len(),
{
    lemma_changes_map_contains(s, s[i].path, s[i].source);
    if i == s.len() - 1 {
    } else {
        assert(s.drop_last()[i] == s[i]);
        lemma_changes_map_value(s.drop_last(), i);
        assert(!(s.last().path == s[i].path && s.last().source == s[i].source));
    }
}

/// What the change set records at (path, source), as an option.
pub open spec fn change_at(
    m: Map<(PathId, CommitId), FileValue>,
    p: PathId,
    c: CommitId,
) -> Option<FileValue> {
    if m.contains_key((p, c)) {
        Some(m[(p, c)])
    } else {
        None
    }
}

/// The accumulated change set of one batch.
#[derive(Debug)]
pub struct ChangeSet {
    /// The recorded changes, in recording order.
    pub entries: Vec<ChangeEntry>,
}

impl View for ChangeSet {
    type V = Map<(PathId, CommitId), FileValue>;

    open spec fn view(&self) -> Map<(PathId, CommitId), FileValue> {
        changes_map(self.entries@)
    }
}

impl ChangeSet {
    /// Well-formedness: each (path, source) key is recorded at most once.
    pub open spec fn wf(self) -> bool {
        forall|i1: int, i2: int|
            0 <= i1 < i2 < self.entries@.len() ==> !(self.entries@[i1].path
                == self.entries@[i2].path && self.entries@[i1].source
                == self.entries@[i2].source)
    }

    /// An empty change set.
    pub fn new() -> (r: ChangeSet)
        ensures
            r.wf(),
            r@ == Map::<(PathId, CommitId), FileValue>::empty(),
            r.entries@.len() == 0,
    {
        ChangeSet { entries: Vec::new() }
    }

    /// What is recorded at (path, source), if anything.
    pub fn lookup(&self, p: PathId, c: CommitId) -> (r: Option<FileValue>)
        requires
            self.wf(),
        ensures
            r == change_at(self@, p, c),
    {
        let mut i: usize = 0;
        while i < self.entries.len()
            invariant
                self.wf(),
                i <= self.entries@.len(),
                forall|k: int|
                    0 <= k < i ==> !((#[trigger] self.entries@[k]).path == p
                        && self.entries@[k].source == c),
            decreases self.entries@.len() - i,
        {
            let e = self.entries[i];
            if e.path == p && e.source == c {
                proof {
                    lemma_changes_map_value(self.entries@, i as int);
                }
                return Some(e.value);
            }
            i = i + 1;
        }
        proof {
            lemma_changes_map_contains(self.entries@, p, c);
        }
        None
    }

    /// Records one change. A change is only ever added, never overwritten:
    /// the caller records the more specific change first.
    pub fn push_entry(&mut self, e: ChangeEntry)
        requires
            old(self).wf(),
            !old(self)@.contains_key((e.path, e.source)),
        ensures
            final(self).wf(),
            final(self).entries@ == old(self).entries@.push(e),
            final(self)@ == old(self)@.insert((e.path, e.source), e.value),
    {
        proof {
            lemma_changes_map_contains(self.entries@, e.path, e.source);
        }
        self.entries.push(e);
        proof {
            assert(self.entries@.drop_last() =~= old(self).entries@);
            assert forall|i1: int, i2: int|
                0 <= i1 < i2 < self.entries@.len() implies !(self.entries@[i1].path
                == self.entries@[i2].path && self.entries@[i1].source
                == self.entries@[i2].source) by {
                if i2 == self.entries@.len() - 1 {
                    assert(self.entries@[i1] == old(self).entries@[i1]);
                    if self.entries@[i1].path == e.path && self.entries@[i1].source == e.source {
                        assert(false);
                    }
                }
            }
        }
    }
}

} // verus!
