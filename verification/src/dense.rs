//! Dense identifiers: `n` identifiers that are exactly 0, 1, .., n - 1 in some
//! order, and the order that arranges them.

use vstd::prelude::*;

verus! {

/// Whether the identifiers are pairwise distinct and all below their number,
/// so that each of 0, 1, .., n - 1 occurs once.
pub open spec fn dense_ids(ids: Seq<u32>) -> bool {
    &&& forall|j: int| 0 <= j < ids.len() ==> #[trigger] ids[j] < ids.len()
    &&& forall|j: int, k: int| 0 <= j < k < ids.len() ==> ids[j] != ids[k]
}

/// Whether `order` gives, for each identifier, the place where it stands.
pub open spec fn arranges(order: Seq<usize>, ids: Seq<u32>) -> bool {
    &&& order.len() == ids.len()
    &&& forall|i: int|
        0 <= i < order.len() ==> (#[trigger] order[i]) < ids.len() && ids[order[i] as int] == i
}

/// The place at which a given identifier stands.
pub open spec fn place_of(ids: Seq<u32>, id: int) -> int {
    choose|j: int| 0 <= j < ids.len() && ids[j] == id
}

/// How many places of a partial order are taken: those that hold a value
/// below `n`.
pub open spec fn taken(order: Seq<usize>, n: nat) -> nat
    decreases order.len(),
{
    if order.len() == 0 {
        0
    } else {
        taken(order.drop_last(), n) + if order.last() < n {
            1nat
        } else {
            0nat
        }
    }
}

/// Taking a free place raises the number of places taken by one.
proof fn lemma_taken_update(order: Seq<usize>, n: nat, i: int, v: usize)
    requires
        0 <= i < order.len(),
        order[i] >= n,
        v < n,
    ensures
        taken(order.update(i, v), n) == taken(order, n) + 1,
    decreases order.len(),
{
    let after = order.update(i, v);
    if i == order.len() - 1 {
        assert(after.drop_last() =~= order.drop_last());
    } else {
        assert(after.drop_last() =~= order.drop_last().update(i, v));
        lemma_taken_update(order.drop_last(), n, i, v);
    }
}

/// No more places are taken than there are, and where as many are taken as
/// there are, every place is.
proof fn lemma_taken_all(order: Seq<usize>, n: nat)
    ensures
        taken(order, n) <= order.len(),
        taken(order, n) == order.len() ==> forall|i: int| 0 <= i < order.len() ==> order[i] < n,
    decreases order.len(),
{
    if order.len() > 0 {
        lemma_taken_all(order.drop_last(), n);
        if taken(order, n) == order.len() {
            assert forall|i: int| 0 <= i < order.len() implies order[i] < n by {
                if i < order.len() - 1 {
                    assert(order.drop_last()[i] == order[i]);
                }
            }
        }
    }
}

/// No place of a fresh partial order is taken.
proof fn lemma_taken_none(order: Seq<usize>, n: nat)
    requires
        forall|i: int| 0 <= i < order.len() ==> order[i] >= n,
    ensures
        taken(order, n) == 0,
    decreases order.len(),
{
    if order.len() > 0 {
        assert forall|i: int| 0 <= i < order.drop_last().len() implies order.drop_last()[i] >= n by {
            assert(order.drop_last()[i] == order[i]);
        }
        lemma_taken_none(order.drop_last(), n);
    }
}

/// Finds the place of each identifier, where the identifiers are dense.
pub fn arrange(ids: &Vec<u32>) -> (r: Option<Vec<usize>>)
    ensures
        match r {
            Some(order) => dense_ids(ids@) && arranges(order@, ids@),
            None => !dense_ids(ids@),
        },
{
    let n = ids.len();
    let mut order: Vec<usize> = Vec::new();
    let mut i: usize = 0;
    while i < n
        invariant
            i <= n,
            order@.len() == i,
            forall|k: int| 0 <= k < i ==> order@[k] == n,
        decreases n - i,
    {
        order.push(n);
        i += 1;
    }
    proof {
        lemma_taken_none(order@, n as nat);
    }
    let mut j: usize = 0;
    while j < n
        invariant
            j <= n,
            n == ids@.len(),
            order@.len() == n,
            taken(order@, n as nat) == j,
            forall|i: int|
                0 <= i < n && (#[trigger] order@[i]) < n ==> order@[i] < j && ids@[order@[i] as int] == i,
            forall|k: int| 0 <= k < j ==> (#[trigger] ids@[k]) < n && order@[ids@[k] as int] == k,
        decreases n - j,
    {
        let id = ids[j] as usize;
        if id >= n {
            return None;
        }
        if order[id] < n {
            proof {
                let k = order@[id as int] as int;
                assert(ids@[k] == ids@[j as int]);
            }
            return None;
        }
        proof {
            lemma_taken_update(order@, n as nat, id as int, j);
        }
        let ghost before = order@;
        order.set(id, j);
        proof {
            assert forall|k: int| 0 <= k < j + 1 implies (#[trigger] ids@[k]) < n && order@[ids@[k] as int]
                == k by {
                if k < j {
                    assert(before[ids@[k] as int] == k);
                }
            }
        }
        j += 1;
    }
    proof {
        lemma_taken_all(order@, n as nat);
        assert forall|a: int, b: int| 0 <= a < b < ids@.len() implies ids@[a] != ids@[b] by {
            assert(order@[ids@[a] as int] == a);
            assert(order@[ids@[b] as int] == b);
        }
    }
    Some(order)
}

} // verus!
