//! Intra-level allocation: how an incoming quantity is shared among the orders
//! resting at one price.

use vstd::prelude::*;

use crate::types::{OrderId, Qty, Timestamp};

verus! {

/// What a strategy sees of a resting order.
#[derive(Clone, Copy, Debug, PartialEq, Eq, Structural)]
pub struct RestingOrder {
    pub id: OrderId,
    pub remaining: Qty,
    pub timestamp: Timestamp,
    pub user: u64,
}

/// A share of the incoming quantity given to one resting order.
#[derive(Clone, Copy, Debug, PartialEq, Eq, Structural)]
pub struct Allocation {
    pub id: OrderId,
    pub qty: Qty,
}

/// The orders of one level: distinct ids, each with something left to fill.
pub open spec fn valid_level(level: Seq<RestingOrder>) -> bool {
    &&& forall|i: int| 0 <= i < level.len() ==> (#[trigger] level[i]).remaining > 0
    &&& forall|i: int, j: int| 0 <= i < j < level.len() ==> #[trigger] level[i].id
        != #[trigger] level[j].id
}

/// Sum of the allocated quantities.
pub open spec fn allocated(allocs: Seq<Allocation>) -> nat
    decreases allocs.len(),
{
    if allocs.len() == 0 {
        0
    } else {
        allocated(allocs.drop_last()) + allocs.last().qty as nat
    }
}

/// Sum of the quantities left on a level.
pub open spec fn offered(level: Seq<RestingOrder>) -> nat
    decreases level.len(),
{
    if level.len() == 0 {
        0
    } else {
        offered(level.drop_last()) + level.last().remaining as nat
    }
}

/// `alloc` goes to an order of the level and does not overfill it.
pub open spec fn fits(level: Seq<RestingOrder>, alloc: Allocation) -> bool {
    exists|i: int|
        0 <= i < level.len() && (#[trigger] level[i]).id == alloc.id && alloc.qty
            <= level[i].remaining
}

/// The allocation contract: each order of the level is filled at most once and
/// never beyond what it has left, and no more than `incoming` is handed out.
pub open spec fn valid_allocations(
    level: Seq<RestingOrder>,
    incoming: nat,
    allocs: Seq<Allocation>,
) -> bool {
    &&& allocated(allocs) <= incoming
    &&& forall|i: int| 0 <= i < allocs.len() ==> fits(level, #[trigger] allocs[i])
    &&& forall|i: int, j: int| 0 <= i < j < allocs.len() ==> #[trigger] allocs[i].id
        != #[trigger] allocs[j].id
}

/// A policy for sharing an incoming quantity among the orders of one level.
pub trait MatchingStrategy {
    /// The allocations made for `incoming` lots against `level`, oldest first.
    spec fn allocation(&self, level: Seq<RestingOrder>, incoming: nat) -> Seq<Allocation>;

    /// Whether the policy must see every order of the level.
    spec fn needs_full_level(&self) -> bool;

    /// The policy's name.
    spec fn title(&self) -> Seq<char>;

    /// The policy's name.
    fn name(&self) -> (r: &'static str)
        ensures
            r@ == self.title(),
    ;

    /// Whether the policy must see every order of the level; one that only ever
    /// consumes the front is handed just enough orders to cover the quantity.
    fn full_level_required(&self) -> (r: bool)
        ensures
            r == self.needs_full_level(),
    ;

    /// Appends the allocations for `incoming` lots against `level` to `out`.
    fn allocate_into(&self, level: &Vec<RestingOrder>, incoming: Qty, out: &mut Vec<Allocation>)
        requires
            valid_level(level@),
        ensures
            final(out)@ == old(out)@ + self.allocation(level@, incoming as nat),
            valid_allocations(level@, incoming as nat, self.allocation(level@, incoming as nat)),
    ;
}

/// The policy hands something out whenever there is something to hand out and an
/// order to take it.
pub open spec fn generous<S: MatchingStrategy>(strategy: S) -> bool {
    forall|level: Seq<RestingOrder>, incoming: nat|
        valid_level(level) && level.len() > 0 && 0 < incoming <= u64::MAX ==> allocated(
            #[trigger] strategy.allocation(level, incoming),
        ) > 0
}

/// Oldest order first, each filled completely before the next.
#[derive(Clone, Copy, Debug)]
pub struct PriceTimePriority;

/// First-in-first-out allocation.
pub open spec fn fifo(level: Seq<RestingOrder>, incoming: nat) -> Seq<Allocation>
    decreases level.len(),
{
    if level.len() == 0 || incoming == 0 {
        Seq::empty()
    } else {
        let first = level[0];
        let qty = if first.remaining <= incoming { first.remaining as nat } else { incoming };
        seq![Allocation { id: first.id, qty: qty as u64 }] + fifo(
            level.skip(1),
            (incoming - qty) as nat,
        )
    }
}

proof fn lemma_offered_front(level: Seq<RestingOrder>)
    requires
        level.len() > 0,
    ensures
        offered(level) == level[0].remaining + offered(level.skip(1)),
    decreases level.len(),
{
    if level.len() == 1 {
        assert(level.drop_last() =~= Seq::<RestingOrder>::empty());
        assert(level.skip(1) =~= Seq::<RestingOrder>::empty());
    } else {
        lemma_offered_front(level.drop_last());
        assert(level.drop_last().skip(1) =~= level.skip(1).drop_last());
    }
}

proof fn lemma_allocated_front(allocs: Seq<Allocation>)
    requires
        allocs.len() > 0,
    ensures
        allocated(allocs) == allocs[0].qty + allocated(allocs.skip(1)),
    decreases allocs.len(),
{
    if allocs.len() == 1 {
        assert(allocs.drop_last() =~= Seq::<Allocation>::empty());
        assert(allocs.skip(1) =~= Seq::<Allocation>::empty());
    } else {
        lemma_allocated_front(allocs.drop_last());
        assert(allocs.drop_last().skip(1) =~= allocs.skip(1).drop_last());
    }
}

/// First-in-first-out allocation fills the orders of a prefix of the level,
/// hands out all of `incoming` that the level can take, and only its last
/// allocation may leave an order partly filled.
pub proof fn lemma_fifo(level: Seq<RestingOrder>, incoming: nat)
    requires
        valid_level(level),
        incoming <= u64::MAX,
    ensures
        valid_allocations(level, incoming, fifo(level, incoming)),
        allocated(fifo(level, incoming)) == if offered(level) <= incoming {
            offered(level)
        } else {
            incoming
        },
        fifo(level, incoming).len() <= level.len(),
        forall|i: int|
            0 <= i < fifo(level, incoming).len() ==> {
                &&& (#[trigger] fifo(level, incoming)[i]).id == level[i].id
                &&& 0 < fifo(level, incoming)[i].qty <= level[i].remaining
                &&& i + 1 < fifo(level, incoming).len() ==> fifo(level, incoming)[i].qty
                    == level[i].remaining
            },
        incoming > 0 && level.len() > 0 ==> fifo(level, incoming).len() > 0,
    decreases level.len(),
{
    let out = fifo(level, incoming);
    if level.len() > 0 && incoming > 0 {
        let first = level[0];
        let qty: nat = if first.remaining <= incoming { first.remaining as nat } else { incoming };
        let rest = level.skip(1);
        let left = (incoming - qty) as nat;
        lemma_fifo(rest, left);
        let tail = fifo(rest, left);
        assert(out.skip(1) =~= tail);
        lemma_allocated_front(out);
        lemma_offered_front(level);
        assert forall|i: int| 0 <= i < out.len() implies {
            &&& (#[trigger] out[i]).id == level[i].id
            &&& 0 < out[i].qty <= level[i].remaining
            &&& i + 1 < out.len() ==> out[i].qty == level[i].remaining
        } by {
            if i > 0 {
                assert(out[i] == tail[i - 1]);
                assert(level[i] == rest[i - 1]);
            } else if out.len() > 1 {
                assert(tail.len() > 0);
            }
        }
        assert forall|i: int| 0 <= i < out.len() implies fits(level, #[trigger] out[i]) by {
            assert(level[i].id == out[i].id);
        }
        assert forall|i: int, j: int| 0 <= i < j < out.len() implies #[trigger] out[i].id
            != #[trigger] out[j].id by {
            assert(level[i].id != level[j].id);
        }
    } else if level.len() > 0 {
        assert(offered(level) > 0) by {
            lemma_offered_front(level);
        }
    }
}

impl MatchingStrategy for PriceTimePriority {
    open spec fn allocation(&self, level: Seq<RestingOrder>, incoming: nat) -> Seq<Allocation> {
        fifo(level, incoming)
    }

    open spec fn needs_full_level(&self) -> bool {
        false
    }

    open spec fn title(&self) -> Seq<char> {
        "price-time"@
    }

    fn name(&self) -> (r: &'static str) {
        "price-time"
    }

    fn full_level_required(&self) -> (r: bool) {
        false
    }

    fn allocate_into(&self, level: &Vec<RestingOrder>, incoming: Qty, out: &mut Vec<Allocation>) {
        let mut left: Qty = incoming;
        let mut i: usize = 0;
        proof {
            lemma_fifo(level@, incoming as nat);
            assert(level@.skip(0) =~= level@);
        }
        while i < level.len() && left > 0
            invariant
                i <= level@.len(),
                old(out)@ + fifo(level@, incoming as nat) == out@ + fifo(
                    level@.skip(i as int),
                    left as nat,
                ),
            decreases level@.len() - i,
        {
            let first = level[i];
            let qty: Qty = if first.remaining <= left {
                first.remaining
            } else {
                left
            };
            let ghost rest = fifo(level@.skip(i as int + 1), (left - qty) as nat);
            proof {
                assert(level@.skip(i as int).skip(1) =~= level@.skip(i as int + 1));
                let a = Allocation { id: first.id, qty };
                assert(fifo(level@.skip(i as int), left as nat) =~= seq![a] + rest);
                assert(out@ + (seq![a] + rest) =~= out@.push(a) + rest);
            }
            out.push(Allocation { id: first.id, qty });
            left = left - qty;
            i = i + 1;
        }
        assert(fifo(level@.skip(i as int), left as nat) =~= Seq::<Allocation>::empty());
        assert(out@ + Seq::<Allocation>::empty() =~= out@);
    }
}

/// Price-time priority hands out all that the level can take.
pub proof fn law_price_time_is_generous(strategy: PriceTimePriority)
    ensures
        generous(strategy),
{
    assert forall|level: Seq<RestingOrder>, incoming: nat|
        valid_level(level) && level.len() > 0 && 0 < incoming <= u64::MAX implies allocated(
        #[trigger] strategy.allocation(level, incoming),
    ) > 0 by {
        lemma_fifo(level, incoming);
        lemma_offered_front(level);
        assert(level[0].remaining > 0);
    }
}

} // verus!
