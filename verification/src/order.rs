//! Arranging the items of a sequence by a rank.

use vstd::prelude::*;

verus! {

/// The index `i` stands somewhere in `order`.
pub open spec fn placed(order: Seq<usize>, i: int) -> bool {
    exists|p: int| 0 <= p < order.len() && order[p] == i
}

/// `order` holds each index below `len` once.
pub open spec fn is_arrangement(len: int, order: Seq<usize>) -> bool {
    &&& order.len() == len
    &&& forall|p: int| 0 <= p < order.len() ==> (#[trigger] order[p]) < len
    &&& forall|p: int, q: int| 0 <= p < q < order.len() ==> order[p] != order[q]
    &&& forall|i: int| 0 <= i < len ==> #[trigger] placed(order, i)
}

/// The ranks of the indices never fall along `order`, and indices of the
/// same rank rise.
pub open spec fn sorted_by(ranks: Seq<u128>, order: Seq<usize>) -> bool {
    forall|p: int, q: int|
        0 <= p < q < order.len() ==> ranks[order[p] as int] < ranks[order[q] as int] || (
        ranks[order[p] as int] == ranks[order[q] as int] && order[p] < order[q])
}

/// The indices of `ranks`, arranged so that the ranks never fall; indices
/// of the same rank keep their order.
pub fn order_by(ranks: &Vec<u128>) -> (order: Vec<usize>)
    ensures
        is_arrangement(ranks@.len() as int, order@),
        sorted_by(ranks@, order@),
{
    let mut order: Vec<usize> = Vec::new();
    let mut i: usize = 0;
    while i < ranks.len()
        invariant
            i <= ranks.len(),
            is_arrangement(i as int, order@),
            sorted_by(ranks@, order@),
        decreases ranks.len() - i,
    {
        let mut q: usize = 0;
        while q < order.len() && ranks[order[q]] <= ranks[i]
            invariant
                q <= order.len(),
                i < ranks.len(),
                is_arrangement(i as int, order@),
                forall|p: int| 0 <= p < q ==> ranks@[order@[p] as int] <= ranks@[i as int],
            decreases order.len() - q,
        {
            q += 1;
        }
        let ghost before = order@;
        order.insert(q, i);
        proof {
            let after = order@;
            assert(after == before.insert(q as int, i));
            assert forall|p: int| 0 <= p < after.len() implies (#[trigger] after[p]) < i + 1 by {
                if p < q {
                    assert(after[p] == before[p]);
                } else if p > q {
                    assert(after[p] == before[p - 1]);
                }
            }
            assert forall|p: int, r: int| 0 <= p < r < after.len() implies after[p] != after[r] by {
                if p < q {
                    assert(after[p] == before[p]);
                } else if p > q {
                    assert(after[p] == before[p - 1]);
                }
                if r < q {
                    assert(after[r] == before[r]);
                } else if r > q {
                    assert(after[r] == before[r - 1]);
                }
            }
            assert forall|j: int| 0 <= j < i + 1 implies #[trigger] placed(after, j) by {
                if j == i {
                    assert(after[q as int] == j);
                } else {
                    assert(placed(before, j));
                    let p = choose|p: int| 0 <= p < before.len() && before[p] == j;
                    if p < q {
                        assert(after[p] == j);
                    } else {
                        assert(after[p + 1] == before[p]);
                    }
                }
            }
            assert forall|p: int, r: int| 0 <= p < r < after.len() implies ranks@[after[p] as int]
                < ranks@[after[r] as int] || (ranks@[after[p] as int] == ranks@[after[r] as int]
                && after[p] < after[r]) by {
                if p < q {
                    assert(after[p] == before[p]);
                } else if p > q {
                    assert(after[p] == before[p - 1]);
                }
                if r < q {
                    assert(after[r] == before[r]);
                } else if r > q {
                    assert(after[r] == before[r - 1]);
                    if q < r - 1 {
                        assert(ranks@[before[q as int] as int] <= ranks@[before[r - 1] as int]);
                    }
                }
            }
        }
        i += 1;
    }
    order
}

} // verus!
