//! Ordering of a batch of commits so that every commit comes after all of its
//! in-set parents.
//!
//! The order constrains materialization and feeding only; execution of the
//! jobs themselves is unordered. Commits with no in-set parent may appear in
//! any relative order. Ordering can fail only when the requested set contains
//! a cycle through parent links restricted to the set, which a well-formed
//! commit graph never produces: callers treat that as an internal invariant
//! violation.

use vstd::prelude::*;

use crate::repo::CommitId;

verus! {

/// One commit as the scheduler sees it: its own id and its parents' ids.
#[derive(Debug)]
pub struct CommitNode {
    /// The commit's id.
    pub id: CommitId,
    /// The commit's parent ids, in the commit's own parent order.
    pub parents: Vec<CommitId>,
}

/// Whether some commit in `s` has id `id`.
pub open spec fn id_in(s: Seq<CommitNode>, id: CommitId) -> bool {
    exists|i: int| 0 <= i < s.len() && s[i].id == id
}

/// Whether all the commits of `s` have pairwise distinct ids.
pub open spec fn unique_ids(s: Seq<CommitNode>) -> bool {
    forall|i: int, j: int| 0 <= i < j < s.len() ==> s[i].id != s[j].id
}

/// Whether some already placed commit (an `order` entry, read as an index
/// into `input`) has id `id`.
pub open spec fn placed_id_in(input: Seq<CommitNode>, order: Seq<usize>, id: CommitId) -> bool {
    exists|i: int| 0 <= i < order.len() && input[order[i] as int].id == id
}

/// Whether index `t` appears in `order`.
pub open spec fn appears(order: Seq<usize>, t: usize) -> bool {
    exists|j: int| 0 <= j < order.len() && order[j] == t
}

/// Whether `order` holds each index below `n` exactly once.
pub open spec fn is_index_permutation(n: int, order: Seq<usize>) -> bool {
    &&& order.len() == n
    &&& forall|j: int| 0 <= j < order.len() ==> order[j] < n
    &&& forall|j1: int, j2: int| 0 <= j1 < j2 < order.len() ==> order[j1] != order[j2]
    &&& forall|t: usize| #![trigger appears(order, t)] t < n ==> appears(order, t)
}

/// Whether every parent of `c` that lies in the requested set `input` is
/// already placed.
pub open spec fn ready(c: CommitNode, input: Seq<CommitNode>, order: Seq<usize>) -> bool {
    forall|k: int|
        0 <= k < c.parents@.len() ==> (id_in(input, #[trigger] c.parents@[k]) ==> placed_id_in(
            input,
            order,
            c.parents@[k],
        ))
}

/// Whether every in-set parent precedes its child in the order.
pub open spec fn parents_first(input: Seq<CommitNode>, order: Seq<usize>) -> bool {
    forall|j: int, k: int|
        0 <= j < order.len() && order[j] < input.len() && 0 <= k
            < input[order[j] as int].parents@.len() && id_in(
            input,
            #[trigger] input[order[j] as int].parents@[k],
        ) ==> exists|i: int|
            0 <= i < j && input[order[i] as int].id == input[order[j] as int].parents@[k]
}

/// Whether `order` is a forward topological order of `input`: every index
/// exactly once, with every in-set parent placed before its child.
pub open spec fn is_topo_order(input: Seq<CommitNode>, order: Seq<usize>) -> bool {
    &&& is_index_permutation(input.len() as int, order)
    &&& parents_first(input, order)
}

/// How many entries of `s` are true.
pub closed spec fn count_true(s: Seq<bool>) -> int
    decreases s.len(),
{
    if s.len() == 0 {
        0
    } else {
        count_true(s.drop_last()) + if s.last() {
            1int
        } else {
            0int
        }
    }
}

proof fn lemma_count_true_le(s: Seq<bool>)
    ensures
        0 <= count_true(s) <= s.len(),
    decreases s.len(),
{
    if s.len() > 0 {
        lemma_count_true_le(s.drop_last());
    }
}

proof fn lemma_count_true_push_false(s: Seq<bool>)
    ensures
        count_true(s.push(false)) == count_true(s),
{
    assert(s.push(false).drop_last() =~= s);
}

proof fn lemma_count_true_update(s: Seq<bool>, i: int)
    requires
        0 <= i < s.len(),
        !s[i],
    ensures
        count_true(s.update(i, true)) == count_true(s) + 1,
    decreases s.len(),
{
    let su = s.update(i, true);
    if i == s.len() - 1 {
        assert(su.drop_last() =~= s.drop_last());
    } else {
        assert(su.drop_last() =~= s.drop_last().update(i, true));
        lemma_count_true_update(s.drop_last(), i);
        assert(su.last() == s.last());
    }
}

proof fn lemma_count_true_all_set(s: Seq<bool>)
    requires
        count_true(s) == s.len(),
    ensures
        forall|i: int| 0 <= i < s.len() ==> s[i],
    decreases s.len(),
{
    if s.len() > 0 {
        lemma_count_true_le(s.drop_last());
        if !s.last() {
            assert(false);
        }
        lemma_count_true_all_set(s.drop_last());
        assert forall|i: int| 0 <= i < s.len() implies s[i] by {
            if i < s.len() - 1 {
                assert(s.drop_last()[i] == s[i]);
            }
        }
    }
}

proof fn lemma_count_true_missing(s: Seq<bool>)
    requires
        count_true(s) < s.len(),
    ensures
        exists|i: int| 0 <= i < s.len() && !s[i],
    decreases s.len(),
{
    if s.len() > 0 {
        if s.last() {
            lemma_count_true_missing(s.drop_last());
            let i = choose|i: int| 0 <= i < s.drop_last().len() && !s.drop_last()[i];
            assert(!s[i]);
        } else {
            assert(!s[s.len() - 1]);
        }
    }
}

/// Whether every id of `w` names an input commit that is still unplaced.
pub open spec fn all_unplaced(input: Seq<CommitNode>, used: Seq<bool>, w: Seq<CommitId>) -> bool {
    forall|j: int|
        0 <= j < w.len() ==> exists|u: int|
            0 <= u < input.len() && !used[u] && input[u].id == #[trigger] w[j]
}

/// A witness that the requested set could not be ordered: a nonempty family
/// of requested commits each of which has a parent inside the family.
#[derive(Debug)]
pub struct CycleWitness {
    /// The ids of the commits that could never become ready.
    pub ids: Vec<CommitId>,
}

fn contains_id(v: &Vec<CommitNode>, id: CommitId) -> (r: bool)
    ensures
        r == id_in(v@, id),
{
    let mut i: usize = 0;
    while i < v.len()
        invariant
            i <= v@.len(),
            forall|k: int| 0 <= k < i ==> v@[k].id != id,
        decreases v@.len() - i,
    {
        if v[i].id == id {
            proof {
                assert(v@[i as int].id == id);
            }
            return true;
        }
        i = i + 1;
    }
    false
}

fn contains_placed_id(input: &Vec<CommitNode>, order: &Vec<usize>, id: CommitId) -> (r: bool)
    requires
        forall|j: int| 0 <= j < order@.len() ==> order@[j] < input@.len(),
    ensures
        r == placed_id_in(input@, order@, id),
{
    let mut i: usize = 0;
    while i < order.len()
        invariant
            i <= order@.len(),
            forall|j: int| 0 <= j < order@.len() ==> order@[j] < input@.len(),
            forall|k: int| 0 <= k < i ==> input@[order@[k] as int].id != id,
        decreases order@.len() - i,
    {
        if input[order[i]].id == id {
            proof {
                assert(input@[order@[i as int] as int].id == id);
            }
            return true;
        }
        i = i + 1;
    }
    false
}

fn is_ready(c: &CommitNode, input: &Vec<CommitNode>, order: &Vec<usize>) -> (r: bool)
    requires
        forall|j: int| 0 <= j < order@.len() ==> order@[j] < input@.len(),
    ensures
        r == ready(*c, input@, order@),
{
    let mut k: usize = 0;
    while k < c.parents.len()
        invariant
            k <= c.parents@.len(),
            forall|j: int| 0 <= j < order@.len() ==> order@[j] < input@.len(),
            forall|t: int|
                0 <= t < k ==> (id_in(input@, #[trigger] c.parents@[t]) ==> placed_id_in(
                    input@,
                    order@,
                    c.parents@[t],
                )),
        decreases c.parents@.len() - k,
    {
        let p = c.parents[k];
        if contains_id(input, p) && !contains_placed_id(input, order, p) {
            proof {
                assert(id_in(input@, c.parents@[k as int]) && !placed_id_in(
                    input@,
                    order@,
                    c.parents@[k as int],
                ));
            }
            return false;
        }
        k = k + 1;
    }
    true
}

/// Orders the requested commits so that every commit appears after all of its
/// in-set parents (a forward topological order over the induced subgraph).
/// The result lists positions into `input`.
///
/// Returns the order whenever one exists, that is whenever the parent links
/// restricted to the set are acyclic; otherwise it returns a witness set in
/// which every member has a parent that is also a member, which only a cycle
/// can produce.
#[verifier::rlimit(50)]
pub fn topo_sort(input: &Vec<CommitNode>) -> (r: Result<Vec<usize>, CycleWitness>)
    requires
        unique_ids(input@),
    ensures
        match r {
            Ok(order) => is_topo_order(input@, order@),
            Err(w) => {
                &&& w.ids@.len() > 0
                &&& forall|t: int| 0 <= t < w.ids@.len() ==> id_in(input@, #[trigger] w.ids@[t])
                &&& forall|t: int|
                    0 <= t < w.ids@.len() ==> exists|i: int, k: int|
                        0 <= i < input@.len() && input@[i].id == #[trigger] w.ids@[t] && 0 <= k
                            < input@[i].parents@.len() && w.ids@.contains(input@[i].parents@[k])
            },
        },
{
    let n = input.len();
    let mut used: Vec<bool> = Vec::new();
    let mut i0: usize = 0;
    while i0 < n
        invariant
            i0 <= n,
            used@.len() == i0 as int,
            count_true(used@) == 0,
            forall|t: int| 0 <= t < i0 ==> !used@[t],
        decreases n - i0,
    {
        proof {
            lemma_count_true_push_false(used@);
        }
        used.push(false);
        i0 = i0 + 1;
    }
    let mut order: Vec<usize> = Vec::new();
    while order.len() < n
        invariant
            n == input@.len(),
            unique_ids(input@),
            used@.len() == n as int,
            order@.len() <= n,
            order@.len() == count_true(used@),
            forall|j: int| 0 <= j < order@.len() ==> order@[j] < n && used@[order@[j] as int],
            forall|t: int|
                0 <= t < n && used@[t] ==> exists|j: int| 0 <= j < order@.len() && order@[j] == t,
            forall|j1: int, j2: int| 0 <= j1 < j2 < order@.len() ==> order@[j1] != order@[j2],
            parents_first(input@, order@),
        decreases n - order@.len(),
    {
        let mut pick: usize = n;
        let mut i: usize = 0;
        while i < n
            invariant
                i <= n,
                n == input@.len(),
                used@.len() == n as int,
                forall|j: int| 0 <= j < order@.len() ==> order@[j] < n,
                pick == n || (pick < n && !used@[pick as int] && ready(
                    input@[pick as int],
                    input@,
                    order@,
                )),
                pick == n ==> forall|t: int|
                    0 <= t < i ==> used@[t] || !ready(input@[t], input@, order@),
            decreases n - i,
        {
            if pick == n && !used[i] {
                if is_ready(&input[i], input, &order) {
                    pick = i;
                }
            }
            i = i + 1;
        }
        if pick == n {
            let mut w: Vec<CommitId> = Vec::new();
            let mut t: usize = 0;
            while t < n
                invariant
                    t <= n,
                    n == input@.len(),
                    used@.len() == n as int,
                    forall|u: int| 0 <= u < t && !used@[u] ==> w@.contains(input@[u].id),
                    all_unplaced(input@, used@, w@),
                decreases n - t,
            {
                if !used[t] {
                    let ghost w0 = w@;
                    w.push(input[t].id);
                    proof {
                        assert(w@[w@.len() - 1] == input@[t as int].id);
                        assert forall|u: int| 0 <= u < t + 1 && !used@[u] implies w@.contains(
                            input@[u].id,
                        ) by {
                            if u < t {
                                let j = choose|j: int| 0 <= j < w0.len() && w0[j] == input@[u].id;
                                assert(w@[j] == input@[u].id);
                            } else {
                                assert(w@[w@.len() - 1] == input@[u].id);
                            }
                        }
                        assert(all_unplaced(input@, used@, w@)) by {
                            assert forall|j: int| 0 <= j < w@.len() implies exists|u: int|
                                0 <= u < input@.len() && !used@[u] && input@[u].id
                                    == #[trigger] w@[j] by {
                                if j < w0.len() {
                                    assert(all_unplaced(input@, used@, w0));
                                    let u = choose|u: int|
                                        0 <= u < input@.len() && !used@[u] && input@[u].id
                                            == w0[j];
                                    assert(input@[u].id == w@[j]);
                                } else {
                                    assert(!used@[t as int] && input@[t as int].id == w@[j]);
                                }
                            }
                        }
                    }
                }
                t = t + 1;
            }
            proof {
                lemma_count_true_missing(used@);
                let m = choose|m: int| 0 <= m < used@.len() && !used@[m];
                assert(w@.contains(input@[m].id));
                assert(w@.len() > 0);
                assert forall|j: int| 0 <= j < w@.len() implies id_in(input@, #[trigger] w@[j]) by {
                    let u = choose|u: int| 0 <= u < n && !used@[u] && input@[u].id == w@[j];
                    assert(input@[u].id == w@[j]);
                }
                assert forall|j: int| 0 <= j < w@.len() implies exists|i2: int, k: int|
                    0 <= i2 < input@.len() && input@[i2].id == #[trigger] w@[j] && 0 <= k
                        < input@[i2].parents@.len() && w@.contains(input@[i2].parents@[k]) by {
                    let u = choose|u: int| 0 <= u < n && !used@[u] && input@[u].id == w@[j];
                    assert(!ready(input@[u], input@, order@));
                    let k = choose|k: int|
                        0 <= k < input@[u].parents@.len() && id_in(input@, input@[u].parents@[k])
                            && !placed_id_in(input@, order@, input@[u].parents@[k]);
                    let p = input@[u].parents@[k];
                    let m2 = choose|m2: int| 0 <= m2 < input@.len() && input@[m2].id == p;
                    if used@[m2] {
                        let j2 = choose|j2: int| 0 <= j2 < order@.len() && order@[j2] == m2;
                        assert(input@[order@[j2] as int].id == p);
                        assert(placed_id_in(input@, order@, p));
                        assert(false);
                    }
                    assert(w@.contains(input@[m2].id));
                    assert(0 <= u < input@.len() && input@[u].id == w@[j] && 0 <= k
                        < input@[u].parents@.len() && w@.contains(input@[u].parents@[k]));
                }
            }
            return Err(CycleWitness { ids: w });
        }
        let ghost used0 = used@;
        let ghost order0 = order@;
        used.set(pick, true);
        order.push(pick);
        proof {
            lemma_count_true_update(used0, pick as int);
            assert(order@[order@.len() - 1] == pick as usize);
            assert forall|t: int| 0 <= t < n && used@[t] implies exists|j: int|
                0 <= j < order@.len() && order@[j] == t by {
                if t == pick as int {
                    assert(order@[order@.len() - 1] == t);
                } else {
                    assert(used0[t]);
                    let j = choose|j: int| 0 <= j < order0.len() && order0[j] == t;
                    assert(order@[j] == t);
                }
            }
            assert forall|j: int| 0 <= j < order@.len() implies order@[j] < n && used@[order@[j] as int] by {
                if j < order0.len() {
                    assert(order@[j] == order0[j]);
                    assert(used0[order0[j] as int]);
                }
            }
            assert forall|j1: int, j2: int| 0 <= j1 < j2 < order@.len() implies order@[j1]
                != order@[j2] by {
                if j2 == order@.len() - 1 {
                    assert(order@[j1] == order0[j1]);
                    assert(used0[order0[j1] as int]);
                    assert(!used0[pick as int]);
                }
            }
            assert forall|j: int, k: int|
                0 <= j < order@.len() && order@[j] < input@.len() && 0 <= k
                    < input@[order@[j] as int].parents@.len() && id_in(
                    input@,
                    #[trigger] input@[order@[j] as int].parents@[k],
                ) implies exists|i2: int|
                0 <= i2 < j && input@[order@[i2] as int].id
                    == input@[order@[j] as int].parents@[k] by {
                if j < order0.len() {
                    assert(order@[j] == order0[j]);
                    let i2 = choose|i2: int|
                        0 <= i2 < j && input@[order0[i2] as int].id
                            == input@[order0[j] as int].parents@[k];
                    assert(input@[order@[i2] as int].id == input@[order@[j] as int].parents@[k]);
                } else {
                    assert(ready(input@[pick as int], input@, order0));
                    assert(placed_id_in(input@, order0, input@[order@[j] as int].parents@[k]));
                    let i2 = choose|i2: int|
                        0 <= i2 < order0.len() && input@[order0[i2] as int].id
                            == input@[order@[j] as int].parents@[k];
                    assert(input@[order@[i2] as int].id == input@[order@[j] as int].parents@[k]);
                }
            }
        }
    }
    proof {
        lemma_count_true_all_set(used@);
        assert forall|t: usize| #![trigger appears(order@, t)] t < n implies appears(
            order@,
            t,
        ) by {
            assert(used@[t as int]);
            let j = choose|j: int| 0 <= j < order@.len() && order@[j] == t as int;
            assert(order@[j] == t);
        }
    }
    Ok(order)
}

} // verus!
