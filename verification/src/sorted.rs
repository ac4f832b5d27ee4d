//! Ascending lists without repetition.

use vstd::prelude::*;

verus! {

/// Strictly ascending.
pub open spec fn ascending(list: Seq<u32>) -> bool {
    forall|i: int, j: int| 0 <= i < j < list.len() ==> #[trigger] list[i] < #[trigger] list[j]
}

/// Adds `v` to an ascending list that does not hold it.
pub fn insert_ascending(list: &mut Vec<u32>, v: u32)
    requires
        ascending(old(list)@),
        !old(list)@.contains(v),
    ensures
        ascending(final(list)@),
        forall|k: u32| #[trigger] final(list)@.contains(k) <==> old(list)@.contains(k) || k == v,
{
    let mut at: usize = 0;
    while at < list.len() && list[at] < v
        invariant
            at <= list@.len(),
            *list == *old(list),
            forall|k: int| 0 <= k < at ==> #[trigger] list@[k] < v,
        decreases list@.len() - at,
    {
        at += 1;
    }
    let ghost before = list@;
    proof {
        if at < before.len() {
            assert(before.contains(before[at as int]));
        }
    }
    list.insert(at, v);
    proof {
        let after = list@;
        assert forall|i: int, j: int| 0 <= i < j < after.len() implies #[trigger] after[i]
            < #[trigger] after[j] by {
            let bi = if i < at { i } else { i - 1 };
            let bj = if j < at { j } else { j - 1 };
            if i != at {
                assert(after[i] == before[bi]);
            }
            if j != at {
                assert(after[j] == before[bj]);
            }
            if j > at {
                assert(before[at as int] <= before[bj]);
            }
        }
        assert forall|k: u32| #[trigger] after.contains(k) <==> before.contains(k) || k == v by {
            if after.contains(k) {
                let i = choose|i: int| 0 <= i < after.len() && after[i] == k;
                if i < at {
                    assert(before[i] == k);
                } else if i > at {
                    assert(before[i - 1] == k);
                }
            }
            if before.contains(k) {
                let i = choose|i: int| 0 <= i < before.len() && before[i] == k;
                assert(after[if i < at { i } else { i + 1 }] == k);
            }
            assert(after[at as int] == v);
        }
    }
}

} // verus!
