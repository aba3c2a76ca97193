//! The order in which a load generator walks a range of indices: the middle
//! first, then the lower half, then the upper half, each in the same way.
//! Keys inserted in this order leave an unbalanced search tree balanced.

use vstd::prelude::*;

verus! {

/// The integers from `low` to `high`, in the order of bisection.
pub open spec fn midpoints(low: int, high: int) -> Seq<int>
    decreases high - low + 1,
{
    if low > high {
        Seq::empty()
    } else {
        let mid: int = (low + high) / 2;
        seq![mid] + midpoints(low, mid - 1) + midpoints(mid + 1, high)
    }
}

/// The integers that a list of indices stands for, in the list's order.
pub open spec fn as_ints(indices: Seq<u64>) -> Seq<int> {
    indices.map_values(|i: u64| i as int)
}

/// The order of bisection lists every integer from `low` to `high`, each of
/// them once, and nothing else.
pub proof fn lemma_midpoints_enumerate(low: int, high: int)
    ensures
        midpoints(low, high).len() == if low <= high {
            high - low + 1
        } else {
            0
        },
        midpoints(low, high).no_duplicates(),
        forall|i: int| midpoints(low, high).contains(i) <==> low <= i <= high,
    decreases high - low + 1,
{
    if low <= high {
        let mid: int = (low + high) / 2;
        let head = seq![mid];
        let lower = midpoints(low, mid - 1);
        let upper = midpoints(mid + 1, high);
        lemma_midpoints_enumerate(low, mid - 1);
        lemma_midpoints_enumerate(mid + 1, high);
        assert forall|i: int| (head + lower).contains(i) <==> low <= i <= mid by {
            if (head + lower).contains(i) {
                let k = choose|k: int| 0 <= k < (head + lower).len() && (head + lower)[k] == i;
                if k > 0 {
                    assert(lower[k - 1] == i);
                    assert(lower.contains(i));
                }
            }
            if low <= i < mid {
                assert(lower.contains(i));
                let k = choose|k: int| 0 <= k < lower.len() && lower[k] == i;
                assert((head + lower)[k + 1] == i);
            }
            if i == mid {
                assert((head + lower)[0] == i);
            }
        }
        assert forall|j: int, k: int| 0 <= j < head.len() && 0 <= k < lower.len() implies head[j]
            != lower[k] by {
            assert(lower.contains(lower[k]));
        }
        vstd::seq_lib::lemma_no_dup_in_concat(head, lower);
        assert forall|j: int, k: int|
            0 <= j < (head + lower).len() && 0 <= k < upper.len() implies (head + lower)[j]
            != upper[k] by {
            assert((head + lower).contains((head + lower)[j]));
            assert(upper.contains(upper[k]));
        }
        vstd::seq_lib::lemma_no_dup_in_concat(head + lower, upper);
        assert forall|i: int| midpoints(low, high).contains(i) <==> low <= i <= high by {
            let all = head + lower + upper;
            if all.contains(i) {
                let k = choose|k: int| 0 <= k < all.len() && all[k] == i;
                if k < (head + lower).len() {
                    assert((head + lower).contains(i));
                } else {
                    assert(upper.contains(i));
                }
            }
            if low <= i <= mid {
                let k = choose|k: int| 0 <= k < (head + lower).len() && (head + lower)[k] == i;
                assert(all[k] == i);
            }
            if mid < i <= high {
                assert(upper.contains(i));
                let k = choose|k: int| 0 <= k < upper.len() && upper[k] == i;
                assert(all[(head + lower).len() + k] == i);
            }
        }
    }
}

/// Appends to `indices` the integers from `low` to `high` in the order of
/// bisection.
pub fn generate_indices(low: u64, high: u64, indices: &mut Vec<u64>)
    ensures
        as_ints(final(indices)@) == as_ints(old(indices)@) + midpoints(low as int, high as int),
    decreases high - low + 1,
{
    if low > high {
        return ;
    }
    let mid: u64 = low + (high - low) / 2;
    indices.push(mid);
    proof {
        assert(as_ints(indices@) =~= as_ints(old(indices)@) + seq![mid as int]);
    }
    let ghost after_mid = as_ints(indices@);
    if mid > low {
        generate_indices(low, mid - 1, indices);
    }
    let ghost after_lower = as_ints(indices@);
    if mid < high {
        generate_indices(mid + 1, high, indices);
    }
    proof {
        let lower = midpoints(low as int, mid - 1);
        let upper = midpoints(mid + 1, high as int);
        assert(after_lower =~= after_mid + lower);
        assert(as_ints(indices@) =~= after_lower + upper);
        assert(as_ints(indices@) =~= as_ints(old(indices)@) + (seq![mid as int] + lower + upper));
    }
}

} // verus!
