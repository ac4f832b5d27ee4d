//! A slab of order slots with a free list.

use vstd::prelude::*;

use crate::order::Order;
use crate::types::Qty;

verus! {

/// Number of orders in `slots` with something left to fill.
pub open spec fn live_count(slots: Seq<Order>) -> nat
    decreases slots.len(),
{
    if slots.len() == 0 {
        0
    } else {
        live_count(slots.drop_last()) + if slots.last().remaining > 0 {
            1nat
        } else {
            0nat
        }
    }
}

proof fn lemma_count_update(slots: Seq<Order>, i: int, order: Order)
    requires
        0 <= i < slots.len(),
    ensures
        live_count(slots.update(i, order)) + (if slots[i].remaining > 0 {
            1int
        } else {
            0int
        }) == live_count(slots) + (if order.remaining > 0 {
            1int
        } else {
            0int
        }),
    decreases slots.len(),
{
    let next = slots.update(i, order);
    if i == slots.len() - 1 {
        assert(next.drop_last() =~= slots.drop_last());
    } else {
        lemma_count_update(slots.drop_last(), i, order);
        assert(next.drop_last() =~= slots.drop_last().update(i, order));
    }
}

proof fn lemma_count_bound(slots: Seq<Order>)
    ensures
        live_count(slots) <= slots.len(),
    decreases slots.len(),
{
    if slots.len() > 0 {
        lemma_count_bound(slots.drop_last());
    }
}

proof fn lemma_count_dead(slots: Seq<Order>, i: int)
    requires
        0 <= i < slots.len(),
        slots[i].remaining == 0,
    ensures
        live_count(slots) < slots.len(),
    decreases slots.len(),
{
    if i == slots.len() - 1 {
        lemma_count_bound(slots.drop_last());
    } else {
        lemma_count_dead(slots.drop_last(), i);
    }
}

/// A slab of order slots. A slot holds a live order exactly when something is
/// left to fill in it; freed slots are reused before the slab grows.
pub struct OrderPool {
    slots: Vec<Order>,
    free: Vec<usize>,
    reserved: usize,
    live: usize,
}

impl OrderPool {
    /// The slots, live and dead.
    pub closed spec fn slots(self) -> Seq<Order> {
        self.slots@
    }

    /// Slots ready for reuse.
    pub closed spec fn free(self) -> Seq<usize> {
        self.free@
    }

    /// Slots reserved at construction.
    pub closed spec fn budget(self) -> usize {
        self.reserved
    }

    /// Free slots are distinct dead slots, and the live counter is exact.
    pub closed spec fn wf(self) -> bool {
        &&& self.free@.no_duplicates()
        &&& forall|k: int| #![trigger self.free@[k]]
            0 <= k < self.free@.len() ==> self.free@[k] < self.slots@.len()
                && self.slots@[self.free@[k] as int].remaining == 0
        &&& self.live == live_count(self.slots@)
    }

    /// A free slot lies in the slab and is dead.
    pub proof fn lemma_free(&self, i: usize)
        requires
            self.wf(),
            self.free().contains(i),
        ensures
            i < self.slots().len(),
            self.slots()[i as int].remaining == 0,
    {
        let k = choose|k: int| 0 <= k < self.free@.len() && self.free@[k] == i;
        assert(self.free@[k] == i);
    }

    /// Reserves `capacity` slots. With `prefault` every reserved slot is
    /// written once, so first use never faults a page in.
    pub fn with_capacity(capacity: usize, prefault: bool) -> (r: OrderPool)
        ensures
            r.wf(),
            r.slots() == Seq::<Order>::empty(),
            r.free() == Seq::<usize>::empty(),
            r.budget() == capacity,
    {
        let mut slots: Vec<Order> = Vec::with_capacity(capacity);
        if prefault {
            let blank = Order::limit(
                crate::types::OrderId(0),
                crate::types::Side::Buy,
                0,
                0,
            );
            slots.resize(capacity, blank);
            slots.clear();
        }
        OrderPool { slots, free: Vec::with_capacity(1024), reserved: capacity, live: 0 }
    }

    /// Bytes one order slot occupies.
    pub fn slot_bytes() -> (r: usize)
        ensures
            r == vstd::layout::size_of::<Order>(),
    {
        std::mem::size_of::<Order>()
    }

    /// Slots reserved so far; grows only when the initial budget is exceeded.
    pub fn capacity(&self) -> (r: usize)
        ensures
            r == if self.slots().len() > self.budget() {
                self.slots().len()
            } else {
                self.budget() as nat
            },
    {
        if self.slots.len() > self.reserved {
            self.slots.len()
        } else {
            self.reserved
        }
    }

    /// Slots holding live orders.
    pub fn in_use(&self) -> (r: usize)
        requires
            self.wf(),
        ensures
            r == live_count(self.slots()),
    {
        self.live
    }

    /// Number of slots, live and dead.
    pub fn len(&self) -> (r: usize)
        ensures
            r == self.slots().len(),
    {
        self.slots.len()
    }

    /// Stores a live order in a free slot, or in a new one when none is free.
    pub fn store(&mut self, order: Order) -> (r: usize)
        requires
            old(self).wf(),
            order.remaining > 0,
        ensures
            final(self).wf(),
            final(self).budget() == old(self).budget(),
            old(self).free().contains(r) || r == old(self).slots().len(),
            r < final(self).slots().len(),
            final(self).slots() == if r < old(self).slots().len() {
                old(self).slots().update(r as int, order)
            } else {
                old(self).slots().push(order)
            },
            forall|i: usize| #[trigger]
                final(self).free().contains(i) <==> old(self).free().contains(i) && i != r,
    {
        match self.free.pop() {
            Some(i) => {
                proof {
                    let last = old(self).free@.len() - 1;
                    assert(old(self).free@[last] == i);
                    lemma_count_update(self.slots@, i as int, order);
                    lemma_count_dead(self.slots@, i as int);
                    assert(self.free@ =~= old(self).free@.drop_last());
                    assert forall|j: usize| #[trigger] self.free@.contains(j) <==> old(
                        self,
                    ).free@.contains(j) && j != i by {
                        if self.free@.contains(j) {
                            let k = choose|k: int|
                                0 <= k < self.free@.len() && self.free@[k] == j;
                            assert(old(self).free@[k] == j);
                        }
                        if old(self).free@.contains(j) && j != i {
                            let k = choose|k: int|
                                0 <= k < old(self).free@.len() && old(self).free@[k] == j;
                            assert(self.free@[k] == j);
                        }
                    }
                    assert forall|k: int| 0 <= k < self.free@.len() implies #[trigger] self.free@[k]
                        != i by {
                        assert(old(self).free@[k] == self.free@[k]);
                    }
                    assert(old(self).free@.contains(i));
                }
                let n: usize = self.slots.len();
                assert(self.live < n);
                self.slots.set(i, order);
                self.live = self.live + 1;
                i
            },
            None => {
                proof {
                    lemma_count_bound(self.slots@);
                    assert(self.slots@.push(order).drop_last() =~= self.slots@);
                }
                self.slots.push(order);
                let n: usize = self.slots.len();
                assert(n == old(self).slots@.len() + 1);
                self.live = self.live + 1;
                n - 1
            },
        }
    }

    /// Sets what is left of the live order in slot `i`; nothing left makes the
    /// slot dead.
    pub fn set_remaining(&mut self, i: usize, left: Qty)
        requires
            old(self).wf(),
            i < old(self).slots().len(),
            old(self).slots()[i as int].remaining > 0,
        ensures
            final(self).wf(),
            final(self).budget() == old(self).budget(),
            final(self).free() == old(self).free(),
            final(self).slots() == old(self).slots().update(
                i as int,
                Order { remaining: left, ..old(self).slots()[i as int] },
            ),
    {
        let mut order = self.slots[i];
        order.remaining = left;
        proof {
            lemma_count_update(self.slots@, i as int, order);
        }
        self.slots.set(i, order);
        if left == 0 {
            self.live = self.live - 1;
        }
        proof {
            assert forall|k: int| 0 <= k < self.free@.len() implies #[trigger] self.free@[k]
                < self.slots@.len() && self.slots@[self.free@[k] as int].remaining == 0 by {
                assert(old(self).free@[k] == self.free@[k]);
            }
        }
    }

    /// Hands a dead slot back for reuse.
    pub fn release(&mut self, i: usize)
        requires
            old(self).wf(),
            i < old(self).slots().len(),
            old(self).slots()[i as int].remaining == 0,
            !old(self).free().contains(i),
        ensures
            final(self).wf(),
            final(self).budget() == old(self).budget(),
            final(self).slots() == old(self).slots(),
            final(self).free() == old(self).free().push(i),
            forall|j: usize| #[trigger]
                final(self).free().contains(j) <==> old(self).free().contains(j) || j == i,
    {
        self.free.push(i);
        proof {
            let f = old(self).free@;
            assert(self.free@ == f.push(i));
            assert forall|j: usize| #[trigger] self.free@.contains(j) <==> f.contains(j) || j
                == i by {
                if f.contains(j) {
                    let k = choose|k: int| 0 <= k < f.len() && f[k] == j;
                    assert(self.free@[k] == j);
                }
                assert(self.free@[f.len() as int] == i);
                if self.free@.contains(j) && j != i {
                    let k = choose|k: int| 0 <= k < self.free@.len() && self.free@[k] == j;
                    assert(f[k] == j);
                }
            }
            assert forall|a: int, b: int|
                0 <= a < self.free@.len() && 0 <= b < self.free@.len() && a
                    != b implies self.free@[a] != self.free@[b] by {
                if a == f.len() {
                    assert(f.contains(f[b]));
                } else if b == f.len() {
                    assert(f.contains(f[a]));
                }
            }
        }
    }

    /// The order in slot `i`.
    pub fn get(&self, i: usize) -> (r: &Order)
        requires
            i < self.slots().len(),
        ensures
            *r == self.slots()[i as int],
    {
        &self.slots[i]
    }
}

} // verus!
