//! A bounded first-in-first-out queue.

use std::collections::VecDeque;

use vstd::prelude::*;

verus! {

/// `n` is a power of two.
pub open spec fn is_power_of_two(n: int) -> bool {
    exists|k: nat| n == vstd::arithmetic::power2::pow2(k)
}

/// A queue asked to hold `capacity` items has room for `bound`: the smallest power
/// of two that suffices, and at least 2.
pub open spec fn rounded(capacity: nat, bound: nat) -> bool {
    &&& bound >= capacity
    &&& bound >= 2
    &&& is_power_of_two(bound as int)
    &&& bound > 2 ==> bound / 2 < capacity
}

/// A bounded queue with room for a power of two of items.
pub struct Ring<T> {
    items: VecDeque<T>,
    capacity: usize,
}

impl<T> View for Ring<T> {
    type V = Seq<T>;

    /// The queued items, the next one first.
    closed spec fn view(&self) -> Seq<T> {
        self.items@
    }
}

/// The smallest power of two that is at least `n`, and at least 2.
fn round_up(n: usize) -> (r: usize)
    requires
        n <= usize::MAX / 2 + 1,
    ensures
        rounded(n as nat, r as nat),
{
    let mut cap: usize = 2;
    let ghost mut k: nat = 1;
    proof {
        vstd::arithmetic::power2::lemma2_to64();
    }
    while cap < n
        invariant
            cap >= 2,
            cap == vstd::arithmetic::power2::pow2(k),
            n <= usize::MAX / 2 + 1,
            cap > 2 ==> cap / 2 < n,
        decreases 2 * n - cap,
    {
        proof {
            vstd::arithmetic::power2::lemma_pow2_unfold((k + 1) as nat);
            k = (k + 1) as nat;
        }
        cap = cap * 2;
    }
    cap
}

/// A queue for at least `capacity` items; the capacity is rounded up to a power
/// of two, 2 at least.
pub fn channel<T>(capacity: usize) -> (r: Ring<T>)
    requires
        capacity <= usize::MAX / 2 + 1,
    ensures
        r.wf(),
        r@ == Seq::<T>::empty(),
        rounded(capacity as nat, r.bound()),
{
    Ring { items: VecDeque::new(), capacity: round_up(capacity) }
}

impl<T> Ring<T> {
    /// How many items there is room for.
    pub closed spec fn bound(self) -> nat {
        self.capacity as nat
    }

    /// The queue's invariant.
    pub closed spec fn wf(self) -> bool {
        self.items@.len() <= self.capacity
    }

    /// The queue never holds more than there is room for.
    pub proof fn law_bounded(&self)
        requires
            self.wf(),
        ensures
            self@.len() <= self.bound(),
    {
    }

    /// Enqueues `item`; hands it back if the queue is full.
    pub fn push(&mut self, item: T) -> (r: Result<(), T>)
        requires
            old(self).wf(),
        ensures
            final(self).wf(),
            final(self).bound() == old(self).bound(),
            match r {
                Ok(()) => old(self)@.len() < old(self).bound() && final(self)@ == old(self)@.push(
                    item,
                ),
                Err(back) => old(self)@.len() == old(self).bound() && back == item && final(self)@
                    == old(self)@,
            },
    {
        if self.items.len() >= self.capacity {
            return Err(item);
        }
        self.items.push_back(item);
        Ok(())
    }

    /// Dequeues the oldest item.
    pub fn pop(&mut self) -> (r: Option<T>)
        requires
            old(self).wf(),
        ensures
            final(self).wf(),
            final(self).bound() == old(self).bound(),
            match r {
                Some(item) => old(self)@.len() > 0 && item == old(self)@[0] && final(self)@
                    == old(self)@.skip(1),
                None => old(self)@.len() == 0 && final(self)@ == old(self)@,
            },
    {
        let r = self.items.pop_front();
        proof {
            if old(self)@.len() > 0 {
                assert(self@ =~= old(self)@.skip(1));
            }
        }
        r
    }

    /// Number of queued items.
    pub fn len(&self) -> (r: usize)
        ensures
            r == self@.len(),
    {
        self.items.len()
    }

    /// Whether nothing is queued.
    pub fn is_empty(&self) -> (r: bool)
        ensures
            r == (self@.len() == 0),
    {
        self.items.len() == 0
    }
}

} // verus!
