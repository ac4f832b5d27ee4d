//! Laws of submitting an order, told by its trades and by the books before and after:
//! whom it trades with and at what price, that no lot is lost, when it stops, and what
//! becomes of what is left.

use vstd::prelude::*;

use crate::book::{agree, filled, levels_ok, queue_ok, BookView};
use crate::budget::{
    covered, lemma_covered_goes_on, lemma_covered_step, lemma_sweep_at_most, lemma_sweep_best,
};
use crate::crossing::{
    advance, affordable, alloc_listed, crossed, fair_trade, fills_of, lemma_crossed_end,
    lemma_crossed_step, lemma_fills, lemma_filled, lemma_own, lemma_pull, lemma_shown,
    lemma_traded_concat, lemma_traded_fills, opening, own, prepared, pull, reachable, self_trade,
    shown, submission, timely, traded, trades_of, unfillable, view_lists, Crossing, SelfTradePolicy, Taker,
};
use crate::ladder::{
    better, crossable, crosses, is_best, lemma_reduced_others, reduced, resting_of, set_level,
    settle, sweep_cost, total, without,
};
use crate::matching_laws::{
    law_price_time_is_lawful, lawful, lemma_end, lemma_fills_positive, lemma_step,
};
use crate::order::Order;
use crate::priority::{law_best_price_first, law_oldest_first_at_a_price};
use crate::strategy::{
    allocated, fits, generous, valid_allocations, Allocation, MatchingStrategy, PriceTimePriority,
};
use crate::trade::{OrderStatus, Trade};
use crate::types::{OrderId, OrderType, Qty, Side, TimeInForce};

verus! {

/// Lots that `trades` take from the resting order `id`.
pub open spec fn taken_from(trades: Seq<Trade>, id: OrderId) -> nat
    decreases trades.len(),
{
    if trades.len() == 0 {
        0
    } else {
        taken_from(trades.drop_last(), id) + if trades.last().maker == id {
            trades.last().quantity as nat
        } else {
            0
        }
    }
}

/// What all of `trades` are worth.
pub open spec fn worth(trades: Seq<Trade>) -> nat
    decreases trades.len(),
{
    if trades.len() == 0 {
        0
    } else {
        (worth(trades.drop_last()) + trades.last().price * trades.last().quantity) as nat
    }
}

proof fn lemma_taken_concat(a: Seq<Trade>, b: Seq<Trade>, id: OrderId)
    ensures
        taken_from(a + b, id) == taken_from(a, id) + taken_from(b, id),
    decreases b.len(),
{
    if b.len() == 0 {
        assert(a + b =~= a);
    } else {
        lemma_taken_concat(a, b.drop_last(), id);
        assert((a + b).drop_last() =~= a + b.drop_last());
    }
}

proof fn lemma_worth_concat(a: Seq<Trade>, b: Seq<Trade>)
    ensures
        worth(a + b) == worth(a) + worth(b),
    decreases b.len(),
{
    if b.len() == 0 {
        assert(a + b =~= a);
    } else {
        lemma_worth_concat(a, b.drop_last());
        assert((a + b).drop_last() =~= a + b.drop_last());
        let last = b.last();
        assert(last.price * last.quantity >= 0) by (nonlinear_arith)
            requires
                last.price >= 0,
                last.quantity >= 0,
        ;
    }
}

/// Nothing is taken from an order that no trade names.
proof fn lemma_not_taken(trades: Seq<Trade>, id: OrderId)
    requires
        forall|i: int| 0 <= i < trades.len() ==> (#[trigger] trades[i]).maker != id,
    ensures
        taken_from(trades, id) == 0,
    decreases trades.len(),
{
    if trades.len() > 0 {
        let front = trades.drop_last();
        assert forall|i: int| 0 <= i < front.len() implies (#[trigger] front[i]).maker != id by {
            assert(front[i] == trades[i]);
        }
        lemma_not_taken(front, id);
        assert(trades[trades.len() - 1] == trades.last());
    }
}

/// Trades at one price are worth that price for each lot.
proof fn lemma_worth_fills(taker: Taker, px: u64, orders: Map<u64, Order>, allocs: Seq<Allocation>)
    ensures
        worth(trades_of(taker, px, orders, fills_of(allocs))) == allocated(allocs) * px,
    decreases allocs.len(),
{
    let fills = fills_of(allocs);
    let trades = trades_of(taker, px, orders, fills);
    if allocs.len() > 0 {
        let front = allocs.drop_last();
        lemma_worth_fills(taker, px, orders, front);
        let n = allocated(front);
        let q = allocs.last().qty;
        assert((n + q) * px == n * px + px * q && px * q >= 0) by (nonlinear_arith)
            requires
                px >= 0,
                q >= 0,
        ;
        if q > 0 {
            assert(trades.drop_last() =~= trades_of(taker, px, orders, fills_of(front)));
        } else {
            assert(px * q == 0) by (nonlinear_arith)
                requires
                    q == 0,
            ;
        }
    } else {
        assert(allocated(allocs) * px == 0) by (nonlinear_arith)
            requires
                allocated(allocs) == 0,
        ;
    }
}

/// Fills take from an order what their trades say, and it is gone when that is all.
proof fn lemma_filled_taken(
    taker: Taker,
    px: u64,
    makers: Map<u64, Order>,
    orders: Map<u64, Order>,
    fills: Seq<(OrderId, Qty)>,
    x: u64,
)
    requires
        orders.contains_key(x),
        orders[x].remaining > 0,
        forall|k: int|
            0 <= k < fills.len() && (#[trigger] fills[k]).0.0 == x ==> fills[k].1
                <= orders[x].remaining,
        forall|j: int, k: int| 0 <= j < k < fills.len() ==> #[trigger] fills[j].0
            != #[trigger] fills[k].0,
    ensures
        ({
            let n = taken_from(trades_of(taker, px, makers, fills), OrderId(x));
            let after = filled(orders, fills);
            &&& n <= orders[x].remaining
            &&& after.contains_key(x) <==> n < orders[x].remaining
            &&& after.contains_key(x) ==> after[x] == (Order {
                remaining: (orders[x].remaining - n) as u64,
                ..orders[x]
            })
        }),
    decreases fills.len(),
{
    let trades = trades_of(taker, px, makers, fills);
    if fills.len() > 0 {
        let front = fills.drop_last();
        let last = fills[fills.len() - 1];
        assert forall|k: int| 0 <= k < front.len() && (#[trigger] front[k]).0.0 == x implies front[k].1
            <= orders[x].remaining by {
            assert(front[k] == fills[k]);
        }
        assert forall|j: int, k: int| 0 <= j < k < front.len() implies #[trigger] front[j].0
            != #[trigger] front[k].0 by {
            assert(fills[j].0 != fills[k].0);
        }
        lemma_filled_taken(taker, px, makers, orders, front, x);
        assert(trades.drop_last() =~= trades_of(taker, px, makers, front));
        assert(trades.last().maker == last.0);
        if last.0.0 == x {
            let before = trades_of(taker, px, makers, front);
            assert forall|i: int| 0 <= i < before.len() implies (#[trigger] before[i]).maker
                != OrderId(x) by {
                assert(fills[i].0 != fills[fills.len() - 1].0);
            }
            lemma_not_taken(before, OrderId(x));
        }
    }
}

/// Cancelling takes away exactly the orders it lists.
proof fn lemma_pull_exact(s: Crossing, px: u64, ids: Seq<OrderId>)
    ensures
        pull(s, px, ids).cancelled == s.cancelled + ids,
        forall|x: u64| #[trigger]
            pull(s, px, ids).orders.contains_key(x) <==> s.orders.contains_key(x) && !ids.contains(
                OrderId(x),
            ),
    decreases ids.len(),
{
    if ids.len() == 0 {
        assert(s.cancelled + ids =~= s.cancelled);
    } else {
        let front = ids.drop_last();
        lemma_pull_exact(s, px, front);
        assert((s.cancelled + front).push(ids.last()) =~= s.cancelled + ids);
        let after = pull(s, px, ids);
        assert forall|x: u64| #[trigger] after.orders.contains_key(x) <==> s.orders.contains_key(x)
            && !ids.contains(OrderId(x)) by {
            assert(pull(s, px, front).orders.contains_key(x) <==> s.orders.contains_key(x)
                && !front.contains(OrderId(x)));
            if front.contains(OrderId(x)) {
                let k = choose|k: int| 0 <= k < front.len() && front[k] == OrderId(x);
                assert(ids[k] == OrderId(x));
            }
            if ids.contains(OrderId(x)) {
                let k = choose|k: int| 0 <= k < ids.len() && ids[k] == OrderId(x);
                if k < front.len() {
                    assert(front[k] == ids[k]);
                }
            }
            assert(ids[ids.len() - 1] == ids.last());
        }
    }
}

/// A resting order of the taker's user on the other side that was cancelled.
spec fn pulled_own(taker: Taker, start: Crossing, s: Crossing, id: OrderId) -> bool {
    &&& start.orders.contains_key(id.0)
    &&& start.orders[id.0].user == taker.order.user
    &&& taker.order.user != 0
    &&& start.orders[id.0].side == taker.order.side.spec_opposite()
    &&& !s.orders.contains_key(id.0)
    &&& taken_from(s.trades, id) == 0
}

/// The crossing from `start` to `s` is accounted for, lot by lot.
spec fn tallied(taker: Taker, start: Crossing, s: Crossing) -> bool {
    &&& traded(s.trades) + s.remaining == start.remaining
    &&& worth(s.trades) + s.budget == start.budget
    &&& forall|i: int|
        0 <= i < s.trades.len() ==> fair_trade(taker, start.orders, #[trigger] s.trades[i])
    &&& forall|x: u64| #[trigger]
        s.orders.contains_key(x) ==> {
            &&& start.orders.contains_key(x)
            &&& start.orders[x].id == OrderId(x)
            &&& s.orders[x] == (Order { remaining: s.orders[x].remaining, ..start.orders[x] })
            &&& s.orders[x].remaining > 0
            &&& s.orders[x].remaining + taken_from(s.trades, OrderId(x))
                == start.orders[x].remaining
        }
    &&& forall|x: u64| #[trigger]
        start.orders.contains_key(x) ==> s.orders.contains_key(x) || s.cancelled.contains(
            OrderId(x),
        ) || taken_from(s.trades, OrderId(x)) == start.orders[x].remaining
    &&& forall|k: int|
        0 <= k < s.cancelled.len() ==> pulled_own(taker, start, s, #[trigger] s.cancelled[k])
    &&& taker.stp is Allow || taker.stp is CancelTaker ==> s.cancelled.len() == 0
    &&& s.stopped ==> {
        &&& taker.stp is CancelTaker || taker.stp is CancelBoth
        &&& s.remaining > 0
        &&& rests_opposite(taker.order, start.orders)
    }
    &&& forall|x: u64| #[trigger]
        s.orders.contains_key(x) && s.orders[x].side == taker.order.side.spec_opposite()
            ==> s.levels.contains_key(s.orders[x].price) && s.levels[s.orders[x].price].contains(
            s.orders[x],
        )
}

/// The order's user has an order resting on the other side.
pub open spec fn rests_opposite(order: Order, resting: Map<u64, Order>) -> bool {
    exists|x: u64| #[trigger]
        resting.contains_key(x) && resting[x].user == order.user && resting[x].side != order.side
            && order.user != 0
}

/// An order of a queue from which fewer lots are taken than it has stays, with the rest.
proof fn lemma_reduced_self(queue: Seq<Order>, o: Order, by: nat)
    requires
        queue.contains(o),
        by < o.remaining,
    ensures
        reduced(queue, o.id, by).contains(
            Order { remaining: (o.remaining - by) as u64, ..o },
        ),
    decreases queue.len(),
{
    let k = choose|k: int| 0 <= k < queue.len() && queue[k] == o;
    let front = queue.drop_last();
    let r = reduced(queue, o.id, by);
    let rf = reduced(front, o.id, by);
    let left = Order { remaining: (o.remaining - by) as u64, ..o };
    if k == queue.len() - 1 {
        assert(r[r.len() - 1] == left);
    } else {
        assert(front[k] == o);
        lemma_reduced_self(front, o, by);
        let j = choose|j: int| 0 <= j < rf.len() && rf[j] == left;
        assert(r[j] == left);
    }
}

/// An order of a queue that is not filled completely stays in it, with the rest.
proof fn lemma_settled_keeps(
    taker: Taker,
    px: u64,
    makers: Map<u64, Order>,
    queue: Seq<Order>,
    fills: Seq<(OrderId, Qty)>,
    o: Order,
)
    requires
        queue.contains(o),
        forall|j: int, k: int| 0 <= j < k < fills.len() ==> #[trigger] fills[j].0
            != #[trigger] fills[k].0,
        taken_from(trades_of(taker, px, makers, fills), o.id) < o.remaining,
    ensures
        settle(queue, fills).contains(
            Order {
                remaining: (o.remaining - taken_from(
                    trades_of(taker, px, makers, fills),
                    o.id,
                )) as u64,
                ..o
            },
        ),
    decreases fills.len(),
{
    let trades = trades_of(taker, px, makers, fills);
    if fills.len() > 0 {
        let front = fills.drop_last();
        let last = fills[fills.len() - 1];
        let before = trades_of(taker, px, makers, front);
        assert(trades.drop_last() =~= before);
        assert(trades.last().maker == last.0);
        assert forall|j: int, k: int| 0 <= j < k < front.len() implies #[trigger] front[j].0
            != #[trigger] front[k].0 by {
            assert(fills[j].0 != fills[k].0);
        }
        lemma_settled_keeps(taker, px, makers, queue, front, o);
        let q = settle(queue, front);
        let was = Order { remaining: (o.remaining - taken_from(before, o.id)) as u64, ..o };
        if last.0 == o.id {
            assert forall|i: int| 0 <= i < before.len() implies (#[trigger] before[i]).maker
                != o.id by {
                assert(fills[i].0 != fills[fills.len() - 1].0);
            }
            lemma_not_taken(before, o.id);
            assert(was == o);
            lemma_reduced_self(q, o, last.1 as nat);
        } else {
            let k = choose|k: int| 0 <= k < q.len() && q[k] == was;
            lemma_reduced_others(q, last.0, last.1 as nat);
            assert(q[k].id != last.0);
        }
    }
}

/// An order that is not among those cancelled at a price stays in its queue.
proof fn lemma_pulled_keeps(s: Crossing, px: u64, ids: Seq<OrderId>, o: Order)
    requires
        s.levels.contains_key(o.price),
        s.levels[o.price].contains(o),
        !ids.contains(o.id),
    ensures
        pull(s, px, ids).levels.contains_key(o.price),
        pull(s, px, ids).levels[o.price].contains(o),
    decreases ids.len(),
{
    if ids.len() > 0 {
        let front = ids.drop_last();
        assert(ids[ids.len() - 1] == ids.last());
        assert(!front.contains(o.id)) by {
            if front.contains(o.id) {
                let k = choose|k: int| 0 <= k < front.len() && front[k] == o.id;
                assert(ids[k] == o.id);
            }
        }
        lemma_pulled_keeps(s, px, front, o);
        let before = pull(s, px, front);
        if o.price == px {
            let q = before.levels[px];
            lemma_reduced_others(q, ids.last(), u64::MAX as nat);
            let k = choose|k: int| 0 <= k < q.len() && q[k] == o;
            assert(q[k].id != ids.last());
            assert(without(q, ids.last()).contains(o));
        }
    }
}

/// Cancelling the user's own orders keeps the tally.
proof fn lemma_tally_pull(taker: Taker, start: Crossing, s: Crossing, px: u64, ids: Seq<OrderId>)
    requires
        tallied(taker, start, s),
        s.orders.dom().finite(),
        taker.stp is CancelMaker || taker.stp is CancelBoth,
        taker.order.user != 0,
        forall|k: int|
            0 <= k < ids.len() ==> s.orders.contains_key((#[trigger] ids[k]).0)
                && s.orders[ids[k].0].user == taker.order.user && s.orders[ids[k].0].side
                == taker.order.side.spec_opposite(),
    ensures
        tallied(taker, start, pull(s, px, ids)),
{
    let t = pull(s, px, ids);
    lemma_pull(s, px, ids);
    lemma_pull_exact(s, px, ids);
    assert forall|k: int| 0 <= k < t.cancelled.len() implies pulled_own(
        taker,
        start,
        t,
        #[trigger] t.cancelled[k],
    ) by {
        let id = t.cancelled[k];
        if k < s.cancelled.len() {
            assert(id == s.cancelled[k]);
            assert(pulled_own(taker, start, s, s.cancelled[k]));
        } else {
            assert(id == ids[k - s.cancelled.len()]);
            assert(ids.contains(id));
            assert(id == OrderId(id.0));
            assert forall|i: int| 0 <= i < s.trades.len() implies (#[trigger] s.trades[i]).maker
                != id by {
                assert(fair_trade(taker, start.orders, s.trades[i]));
            }
            lemma_not_taken(s.trades, id);
        }
    }
    assert forall|x: u64| #[trigger] start.orders.contains_key(x) implies t.orders.contains_key(x)
        || t.cancelled.contains(OrderId(x)) || taken_from(t.trades, OrderId(x))
        == start.orders[x].remaining by {
        if s.cancelled.contains(OrderId(x)) {
            let k = choose|k: int| 0 <= k < s.cancelled.len() && s.cancelled[k] == OrderId(x);
            assert(t.cancelled[k] == OrderId(x));
        }
        if s.orders.contains_key(x) && !t.orders.contains_key(x) {
            let k = choose|k: int| 0 <= k < ids.len() && ids[k] == OrderId(x);
            assert(t.cancelled[s.cancelled.len() + k] == OrderId(x));
        }
    }
    assert forall|x: u64| #[trigger]
        t.orders.contains_key(x) && t.orders[x].side
            == taker.order.side.spec_opposite() implies t.levels.contains_key(t.orders[x].price)
        && t.levels[t.orders[x].price].contains(t.orders[x]) by {
        let o = s.orders[x];
        assert(s.orders.contains_key(x));
        assert(o.id == start.orders[x].id);
        assert(start.orders[x].id == OrderId(x));
        lemma_pulled_keeps(s, px, ids, o);
    }
}

/// Trading at one price keeps the tally.
proof fn lemma_tally_fill<S: MatchingStrategy>(
    strategy: S,
    taker: Taker,
    start: Crossing,
    s: Crossing,
    px: u64,
)
    requires
        lawful(strategy),
        tallied(taker, start, s),
        s.orders.dom().finite(),
        levels_ok(s.orders, s.levels, taker.order.side.spec_opposite()),
        s.remaining <= u64::MAX,
        reachable(taker, s) == Some(px),
        !self_trade(taker, shown(strategy, s, px)),
        advance(strategy, taker, s) is Some,
    ensures
        tallied(taker, start, advance(strategy, taker, s)->0),
{
    let side = taker.order.side.spec_opposite();
    assert(is_best(s.levels, side, px));
    let queue = s.levels[px];
    assert(queue_ok(s.orders, queue, side, px));
    lemma_shown(strategy, taker, s, px);
    let view = shown(strategy, s, px);
    let room = affordable(s, px);
    let allocs = strategy.allocation(view, room);
    let fills = fills_of(allocs);
    assert(room <= s.remaining);
    assert(valid_allocations(view, room, allocs));
    lemma_fills(queue, view, room, allocs);
    lemma_fills_positive(allocs);
    let t = advance(strategy, taker, s)->0;
    let made = trades_of(taker, px, s.orders, fills);
    assert(t.trades == s.trades + made);
    lemma_traded_concat(s.trades, made);
    lemma_traded_fills(taker, px, s.orders, allocs);
    lemma_worth_concat(s.trades, made);
    lemma_worth_fills(taker, px, s.orders, allocs);
    let n = allocated(allocs);
    assert(n * px <= s.budget) by {
        if px == 0 {
            assert(n * px == 0) by (nonlinear_arith)
                requires
                    px == 0,
            ;
        } else {
            let lots = s.budget / px as nat;
            assert(n * px <= s.budget) by (nonlinear_arith)
                requires
                    n <= lots,
                    lots == s.budget / px as nat,
                    px > 0,
            ;
        }
    }
    lemma_own(view, taker.order.user);
    assert forall|i: int| 0 <= i < t.trades.len() implies fair_trade(
        taker,
        start.orders,
        #[trigger] t.trades[i],
    ) by {
        if i < s.trades.len() {
            assert(t.trades[i] == s.trades[i]);
        } else {
            let j = i - s.trades.len();
            assert(t.trades[i] == made[j]);
            assert(alloc_listed(allocs, fills[j]));
            let c = choose|c: int|
                0 <= c < allocs.len() && (#[trigger] allocs[c]).id == fills[j].0 && allocs[c].qty
                    == fills[j].1;
            assert(fits(view, allocs[c]));
            let w = choose|w: int|
                0 <= w < view.len() && (#[trigger] view[w]).id == allocs[c].id && allocs[c].qty
                    <= view[w].remaining;
            assert(view[w] == resting_of(queue[w]));
            assert(s.orders.contains_key(queue[w].id.0));
            assert(fills[j].1 > 0);
        }
    }
    assert forall|k: int| 0 <= k < fills.len() implies s.orders.contains_key(
        (#[trigger] fills[k]).0.0,
    ) && fills[k].1 <= s.orders[fills[k].0.0].remaining by {
        assert(crate::ladder::fillable(queue, fills[k]));
        let w = choose|w: int|
            0 <= w < queue.len() && (#[trigger] queue[w]).id == fills[k].0 && fills[k].1
                <= queue[w].remaining;
        assert(s.orders[queue[w].id.0] == queue[w]);
    }
    lemma_filled(s.orders, fills);
    assert forall|x: u64| #[trigger] s.orders.contains_key(x) implies {
        let more = taken_from(made, OrderId(x));
        &&& taken_from(t.trades, OrderId(x)) == taken_from(s.trades, OrderId(x)) + more
        &&& more <= s.orders[x].remaining
        &&& t.orders.contains_key(x) <==> more < s.orders[x].remaining
        &&& t.orders.contains_key(x) ==> t.orders[x] == (Order {
            remaining: (s.orders[x].remaining - more) as u64,
            ..s.orders[x]
        })
    } by {
        lemma_taken_concat(s.trades, made, OrderId(x));
        lemma_filled_taken(taker, px, s.orders, s.orders, fills, x);
    }
    assert forall|x: u64| #[trigger] t.orders.contains_key(x) implies s.orders.contains_key(x) by {
    }
    assert forall|x: u64| start.orders.contains_key(x) && !s.orders.contains_key(x) implies
        #[trigger] taken_from(t.trades, OrderId(x)) == taken_from(s.trades, OrderId(x)) by {
        lemma_taken_concat(s.trades, made, OrderId(x));
        assert forall|i: int| 0 <= i < made.len() implies (#[trigger] made[i]).maker != OrderId(
            x,
        ) by {
            assert(s.orders.contains_key(fills[i].0.0));
        }
        lemma_not_taken(made, OrderId(x));
    }
    assert forall|k: int| 0 <= k < t.cancelled.len() implies pulled_own(
        taker,
        start,
        t,
        #[trigger] t.cancelled[k],
    ) by {
        let id = t.cancelled[k];
        assert(pulled_own(taker, start, s, s.cancelled[k]));
        assert(id == OrderId(id.0));
        assert(taken_from(t.trades, OrderId(id.0)) == taken_from(s.trades, OrderId(id.0)));
    }
    assert forall|x: u64| #[trigger] start.orders.contains_key(x) implies t.orders.contains_key(x)
        || t.cancelled.contains(OrderId(x)) || taken_from(t.trades, OrderId(x))
        == start.orders[x].remaining by {
        if !s.orders.contains_key(x) {
            assert(taken_from(t.trades, OrderId(x)) == taken_from(s.trades, OrderId(x)));
        }
    }
    assert forall|x: u64| #[trigger]
        t.orders.contains_key(x) && t.orders[x].side == side implies t.levels.contains_key(
        t.orders[x].price,
    ) && t.levels[t.orders[x].price].contains(t.orders[x]) by {
        let o = s.orders[x];
        assert(s.orders.contains_key(x));
        if o.price == px {
            lemma_settled_keeps(taker, px, s.orders, queue, fills, o);
        } else {
            let more = taken_from(made, OrderId(x));
            assert forall|i: int| 0 <= i < made.len() implies (#[trigger] made[i]).maker != OrderId(
                x,
            ) by {
                assert(fair_trade(taker, start.orders, t.trades[s.trades.len() + i]));
            }
            lemma_not_taken(made, OrderId(x));
            assert(t.orders[x] == o);
        }
    }
}

/// A crossing is accounted for to its end.
proof fn lemma_tally<S: MatchingStrategy>(strategy: S, taker: Taker, start: Crossing, s: Crossing)
    requires
        lawful(strategy),
        tallied(taker, start, s),
        s.orders.dom().finite(),
        levels_ok(s.orders, s.levels, taker.order.side.spec_opposite()),
        s.remaining <= u64::MAX,
    ensures
        tallied(taker, start, crossed(strategy, taker, s)),
    decreases s.measure(),
{
    lemma_step(strategy, taker, s);
    match advance(strategy, taker, s) {
        None => {
            lemma_crossed_end(strategy, taker, s);
        },
        Some(t) => {
            let side = taker.order.side.spec_opposite();
            let px = reachable(taker, s)->0;
            assert(is_best(s.levels, side, px));
            let queue = s.levels[px];
            assert(queue_ok(s.orders, queue, side, px));
            lemma_shown(strategy, taker, s, px);
            let view = shown(strategy, s, px);
            if self_trade(taker, view) {
                let ids = own(view, taker.order.user);
                lemma_own(view, taker.order.user);
                assert forall|k: int| 0 <= k < ids.len() implies s.orders.contains_key(
                    (#[trigger] ids[k]).0,
                ) && s.orders[ids[k].0].user == taker.order.user && s.orders[ids[k].0].side
                    == taker.order.side.spec_opposite() by {
                    assert(view_lists(view, taker.order.user, ids[k]));
                    let c = choose|c: int|
                        0 <= c < view.len() && (#[trigger] view[c]).id == ids[k] && view[c].user
                            == taker.order.user;
                    assert(view[c] == resting_of(queue[c]));
                    assert(s.orders.contains_key(queue[c].id.0));
                }
                assert(rests_opposite(taker.order, start.orders)) by {
                    let x = ids[0].0;
                    assert(s.orders.contains_key(x));
                    assert(start.orders.contains_key(x));
                }
                if taker.stp is CancelMaker || taker.stp is CancelBoth {
                    lemma_tally_pull(taker, start, s, px, ids);
                    lemma_pull(s, px, ids);
                    let p = pull(s, px, ids);
                    assert forall|k: int| 0 <= k < t.cancelled.len() implies pulled_own(
                        taker,
                        start,
                        t,
                        #[trigger] t.cancelled[k],
                    ) by {
                        assert(pulled_own(taker, start, p, p.cancelled[k]));
                    }
                } else {
                    assert forall|k: int| 0 <= k < t.cancelled.len() implies pulled_own(
                        taker,
                        start,
                        t,
                        #[trigger] t.cancelled[k],
                    ) by {
                        assert(pulled_own(taker, start, s, s.cancelled[k]));
                    }
                }
                assert(tallied(taker, start, t));
            } else {
                lemma_tally_fill(strategy, taker, start, s, px);
            }
            lemma_crossed_step(strategy, taker, s, t);
            lemma_tally(strategy, taker, start, t);
        },
    }
}

/// A generous strategy goes on while it can: what is left on the other side is beyond
/// the order's limit or its budget.
proof fn lemma_done<S: MatchingStrategy>(strategy: S, taker: Taker, s: Crossing, p: u64)
    requires
        levels_ok(s.orders, s.levels, taker.order.side.spec_opposite()),
        generous(strategy),
        advance(strategy, taker, s) is None,
        !s.stopped,
        0 < s.remaining <= u64::MAX,
        s.levels.contains_key(p),
        taker.order.side is Sell ==> s.budget >= u64::MAX,
    ensures
        (taker.order.order_type is Limit && match taker.order.side {
            Side::Buy => p > taker.order.price,
            Side::Sell => p < taker.order.price,
        }) || s.budget < p || s.budget == 0,
{
    let side = taker.order.side.spec_opposite();
    crate::ladder::lemma_some_best(s.levels, side, p);
    let px = crate::ladder::best_price(s.levels, side)->0;
    assert(is_best(s.levels, side, px));
    assert(!better(side, p, px));
    let price: nat = if px == 0 {
        1
    } else {
        px as nat
    };
    if affordable(s, px) == 0 {
        assert(s.budget < price) by (nonlinear_arith)
            requires
                s.budget / price == 0,
                price > 0,
        ;
    } else if !(taker.order.order_type is Limit && !crosses(
        taker.order.side,
        taker.order.price,
        px,
    )) {
        assert(reachable(taker, s) == Some(px));
        assert(queue_ok(s.orders, s.levels[px], side, px));
        lemma_shown(strategy, taker, s, px);
        let view = shown(strategy, s, px);
        let allocs = strategy.allocation(view, affordable(s, px));
        assert(affordable(s, px) <= s.remaining);
        assert(allocated(allocs) > 0);
        crate::crossing::lemma_handed(allocs);
        assert(fills_of(allocs).len() > 0);
    }
}

/// An order that is not rejected crosses the book, and the crossing is accounted for.
proof fn lemma_outcome<S: MatchingStrategy>(
    strategy: S,
    stp: SelfTradePolicy,
    book: BookView,
    order: Order,
    seq: u64,
)
    requires
        lawful(strategy),
        book.orders.dom().finite(),
        agree(book.orders, book.bids, book.asks),
    ensures
        ({
            let (ready, budget) = prepared(order, seq);
            let taker = Taker { order: ready, stp, seq };
            let start = opening(book, ready, budget);
            let end = crossed(strategy, taker, start);
            &&& tallied(taker, start, end)
            &&& advance(strategy, taker, end) is None
            &&& levels_ok(end.orders, end.levels, order.side.spec_opposite())
            &&& start.remaining == order.quantity
            &&& start.orders == book.orders
            &&& end.remaining <= order.quantity
            &&& budget == u128::MAX ==> end.budget >= u64::MAX
        }),
{
    let (ready, budget) = prepared(order, seq);
    let taker = Taker { order: ready, stp, seq };
    let start = opening(book, ready, budget);
    assert(tallied(taker, start, start)) by {
        assert forall|x: u64| #[trigger] start.orders.contains_key(x) implies start.orders[x].id
            == OrderId(x) by {}
    }
    lemma_tally(strategy, taker, start, start);
    lemma_end(strategy, taker, start);
    let end = crossed(strategy, taker, start);
    let n = start.remaining - end.remaining;
    assert(n * u64::MAX <= u64::MAX * u64::MAX) by (nonlinear_arith)
        requires
            0 <= n <= u64::MAX,
    ;
}

/// Every trade of an order is with an order that rested on the other side when it came
/// in, at that order's price, for no more than that order had left, and within the limit
/// of the incoming order. A sell with a budget takes no price at which all of it would
/// bring in less.
pub proof fn law_trades_meet_resting_orders<S: MatchingStrategy>(
    strategy: S,
    stp: SelfTradePolicy,
    book: BookView,
    order: Order,
    seq: u64,
)
    requires
        lawful(strategy),
        book.orders.dom().finite(),
        agree(book.orders, book.bids, book.asks),
    ensures
        ({
            let sub = submission(strategy, stp, book, order, seq);
            let budgeted = order.tif == TimeInForce::IocBudget || order.tif
                == TimeInForce::FokBudget;
            forall|i: int|
                0 <= i < sub.trades.len() ==> {
                    let t = #[trigger] sub.trades[i];
                    let maker = book.orders[t.maker.0];
                    &&& book.orders.contains_key(t.maker.0)
                    &&& maker.side != order.side
                    &&& t.price == maker.price
                    &&& 0 < t.quantity <= maker.remaining
                    &&& t.taker == order.id
                    &&& t.taker_user == order.user
                    &&& t.maker_user == maker.user
                    &&& t.aggressor == order.side
                    &&& t.timestamp == seq
                    &&& order.order_type == OrderType::Limit && !budgeted && order.side == Side::Buy
                        ==> t.price <= order.price
                    &&& order.order_type == OrderType::Limit && !budgeted && order.side
                        == Side::Sell ==> t.price >= order.price
                    &&& order.order_type == OrderType::Limit && budgeted && order.side == Side::Sell
                        && order.quantity > 0 ==> t.price * order.quantity >= order.price
                }
        }),
{
    lemma_outcome(strategy, stp, book, order, seq);
    let sub = submission(strategy, stp, book, order, seq);
    let (ready, budget) = prepared(order, seq);
    let taker = Taker { order: ready, stp, seq };
    assert forall|i: int| 0 <= i < sub.trades.len() implies fair_trade(
        taker,
        book.orders,
        #[trigger] sub.trades[i],
    ) by {}
    assert forall|i: int|
        0 <= i < sub.trades.len() && order.quantity > 0 && (#[trigger] sub.trades[i]).price
            >= crate::crossing::floor_price(order) implies sub.trades[i].price * order.quantity
        >= order.price by {
        lemma_floor(order, sub.trades[i].price);
    }
}

/// The floor of a sell with a budget is the lowest price at which all of it brings the
/// budget in.
proof fn lemma_floor(order: Order, p: u64)
    requires
        order.quantity > 0,
    ensures
        p >= crate::crossing::floor_price(order) <==> p * order.quantity >= order.price,
{
    let q = order.quantity as int;
    let b = order.price as int;
    let f = (b + q - 1) / q;
    assert(f * q >= b && (f - 1) * q < b && 0 <= f <= b) by (nonlinear_arith)
        requires
            f == (b + q - 1) / q,
            q > 0,
            b >= 0,
    ;
    assert(p >= f ==> p * q >= f * q) by (nonlinear_arith)
        requires
            q > 0,
    ;
    assert(p < f ==> p * q <= (f - 1) * q) by (nonlinear_arith)
        requires
            q > 0,
    ;
}

/// No lot is lost or made up: an order is filled by what its trades exchange, each
/// resting order has lost what the trades took from it and nothing else, it is gone
/// exactly if that was all, and no order rests that did not rest before but the incoming
/// one.
pub proof fn law_no_lot_is_lost<S: MatchingStrategy>(
    strategy: S,
    stp: SelfTradePolicy,
    book: BookView,
    order: Order,
    seq: u64,
)
    requires
        lawful(strategy),
        book.orders.dom().finite(),
        agree(book.orders, book.bids, book.asks),
    ensures
        ({
            let sub = submission(strategy, stp, book, order, seq);
            &&& traded(sub.trades) == sub.filled
            &&& sub.filled <= order.quantity
            &&& forall|x: u64| #[trigger]
                book.orders.contains_key(x) && !(sub.resting && x == order.id.0)
                    && !sub.cancelled.contains(OrderId(x)) ==> {
                    let n = taken_from(sub.trades, OrderId(x));
                    let before = book.orders[x];
                    &&& n <= before.remaining
                    &&& sub.book.orders.contains_key(x) <==> n < before.remaining
                    &&& n < before.remaining ==> sub.book.orders[x] == (Order {
                        remaining: (before.remaining - n) as u64,
                        ..before
                    })
                }
            &&& forall|x: u64| #[trigger]
                sub.book.orders.contains_key(x) ==> book.orders.contains_key(x) || (sub.resting && x
                    == order.id.0)
        }),
{
    lemma_outcome(strategy, stp, book, order, seq);
    let sub = submission(strategy, stp, book, order, seq);
    let (ready, budget) = prepared(order, seq);
    let end = crossed(strategy, Taker { order: ready, stp, seq }, opening(book, ready, budget));
    if !unfillable(book, order, seq) {
        assert forall|x: u64| #[trigger]
            book.orders.contains_key(x) && !(sub.resting && x == order.id.0)
                && !sub.cancelled.contains(OrderId(x)) implies {
            let n = taken_from(sub.trades, OrderId(x));
            let before = book.orders[x];
            &&& n <= before.remaining
            &&& sub.book.orders.contains_key(x) <==> n < before.remaining
            &&& n < before.remaining ==> sub.book.orders[x] == (Order {
                remaining: (before.remaining - n) as u64,
                ..before
            })
        } by {
            assert(sub.book.orders.contains_key(x) == end.orders.contains_key(x));
            if end.orders.contains_key(x) {
                assert(sub.book.orders[x] == end.orders[x]);
            }
        }
    } else {
        assert forall|x: u64| #[trigger] book.orders.contains_key(x) implies taken_from(
            sub.trades,
            OrderId(x),
        ) == 0 by {}
    }
}

/// An order goes on while it may: where something of it is left, and prevention does not
/// stop it, no order is left on the other side that it may still trade with. A market
/// order leaves none, a limit order those beyond its limit; a sell with a budget leaves
/// those at prices that bring in too little, and a buy with a budget those of which it
/// cannot pay one more lot.
pub proof fn law_orders_go_on_while_they_may<S: MatchingStrategy>(
    strategy: S,
    stp: SelfTradePolicy,
    book: BookView,
    order: Order,
    seq: u64,
)
    requires
        lawful(strategy),
        generous(strategy),
        book.orders.dom().finite(),
        agree(book.orders, book.bids, book.asks),
        stp == SelfTradePolicy::Allow || stp == SelfTradePolicy::CancelMaker || !rests_opposite(
            order,
            book.orders,
        ),
    ensures
        ({
            let sub = submission(strategy, stp, book, order, seq);
            let budgeted = order.tif == TimeInForce::IocBudget || order.tif
                == TimeInForce::FokBudget;
            !(sub.status is Rejected) && sub.filled < order.quantity ==> forall|x: u64| #[trigger]
                sub.book.orders.contains_key(x) && sub.book.orders[x].side != order.side ==> {
                    let p = sub.book.orders[x].price;
                    if budgeted && order.side == Side::Buy {
                        worth(sub.trades) + p > order.price || worth(sub.trades) == order.price
                    } else if order.order_type == OrderType::Market {
                        false
                    } else if budgeted {
                        p * order.quantity < order.price
                    } else if order.side == Side::Buy {
                        p > order.price
                    } else {
                        p < order.price
                    }
                }
        }),
{
    lemma_outcome(strategy, stp, book, order, seq);
    let sub = submission(strategy, stp, book, order, seq);
    let (ready, budget) = prepared(order, seq);
    let taker = Taker { order: ready, stp, seq };
    let end = crossed(strategy, taker, opening(book, ready, budget));
    let budgeted = order.tif == TimeInForce::IocBudget || order.tif == TimeInForce::FokBudget;
    if !unfillable(book, order, seq) && sub.filled < order.quantity {
        assert(ready.user == order.user && ready.side == order.side);
        assert(!end.stopped);
        assert forall|x: u64| #[trigger]
            sub.book.orders.contains_key(x) && sub.book.orders[x].side != order.side implies {
            let p = sub.book.orders[x].price;
            if budgeted && order.side == Side::Buy {
                worth(sub.trades) + p > order.price || worth(sub.trades) == order.price
            } else if order.order_type == OrderType::Market {
                false
            } else if budgeted {
                p * order.quantity < order.price
            } else if order.side == Side::Buy {
                p > order.price
            } else {
                p < order.price
            }
        } by {
            let p = sub.book.orders[x].price;
            assert(end.orders.contains_key(x));
            lemma_done(strategy, taker, end, p);
            if budgeted && order.side == Side::Sell {
                lemma_floor(order, p);
            }
        }
    }
}

/// The status tells how much of an order was filled: all, some or nothing, and in the
/// last case whether it rests. An order that is turned away, which only happens to those
/// that ask for all or nothing, leaves everything as it was.
pub proof fn law_status_tells_the_fill<S: MatchingStrategy>(
    strategy: S,
    stp: SelfTradePolicy,
    book: BookView,
    order: Order,
    seq: u64,
)
    requires
        lawful(strategy),
        book.orders.dom().finite(),
        agree(book.orders, book.bids, book.asks),
    ensures
        ({
            let sub = submission(strategy, stp, book, order, seq);
            let turned_away = sub.status == OrderStatus::Rejected;
            &&& turned_away ==> {
                &&& order.tif == TimeInForce::Fok || order.tif == TimeInForce::FokBudget
                &&& sub.filled == 0
                &&& sub.trades.len() == 0
                &&& sub.cancelled.len() == 0
                &&& !sub.resting
                &&& sub.book == book
            }
            &&& !turned_away && sub.filled == order.quantity ==> sub.status == OrderStatus::Filled
                && !sub.resting
            &&& !turned_away && 0 < sub.filled < order.quantity ==> sub.status
                == OrderStatus::PartiallyFilled
            &&& !turned_away && sub.filled == 0 && order.quantity > 0 && sub.resting ==> sub.status
                == OrderStatus::Resting
            &&& !turned_away && sub.filled == 0 && order.quantity > 0 && !sub.resting
                ==> sub.status == OrderStatus::Cancelled
        }),
{
    lemma_outcome(strategy, stp, book, order, seq);
}

/// What is left of a good-till-cancelled limit order comes to rest, unless prevention
/// stops it, and nothing else does: behind the orders at its price on its own side, with
/// the time of its submission. The order's own side of the book is else as it was.
pub proof fn law_what_is_left_rests<S: MatchingStrategy>(
    strategy: S,
    stp: SelfTradePolicy,
    book: BookView,
    order: Order,
    seq: u64,
)
    requires
        lawful(strategy),
        book.orders.dom().finite(),
        agree(book.orders, book.bids, book.asks),
    ensures
        ({
            let sub = submission(strategy, stp, book, order, seq);
            let lasting = order.order_type == OrderType::Limit && order.tif == TimeInForce::Gtc;
            let free = stp == SelfTradePolicy::Allow || stp == SelfTradePolicy::CancelMaker
                || !rests_opposite(order, book.orders);
            let rest = Order {
                remaining: (order.quantity - sub.filled) as u64,
                timestamp: seq,
                ..order
            };
            let (before, after) = if order.side == Side::Buy {
                (book.bids, sub.book.bids)
            } else {
                (book.asks, sub.book.asks)
            };
            &&& sub.resting ==> lasting && sub.filled < order.quantity
            &&& free && lasting && sub.filled < order.quantity ==> sub.resting
            &&& sub.resting ==> {
                &&& sub.book.orders.contains_key(order.id.0)
                &&& sub.book.orders[order.id.0] == rest
                &&& after.contains_key(order.price)
                &&& after[order.price] == (if before.contains_key(order.price) {
                    before[order.price].push(rest)
                } else {
                    seq![rest]
                })
                &&& after.remove(order.price) == before.remove(order.price)
            }
            &&& !sub.resting ==> after == before
        }),
{
    lemma_outcome(strategy, stp, book, order, seq);
    let sub = submission(strategy, stp, book, order, seq);
    let (before, after) = if order.side == Side::Buy {
        (book.bids, sub.book.bids)
    } else {
        (book.asks, sub.book.asks)
    };
    assert(prepared(order, seq).0.user == order.user && prepared(order, seq).0.side == order.side);
    if sub.resting {
        assert(after.remove(order.price) =~= before.remove(order.price));
        if !before.contains_key(order.price) {
            assert(after[order.price] =~= seq![
                Order {
                    remaining: (order.quantity - sub.filled) as u64,
                    timestamp: seq,
                    ..order
                },
            ]);
        }
    }
}

/// A buy with a budget spends no more than the budget.
pub proof fn law_a_budget_is_not_overspent<S: MatchingStrategy>(
    strategy: S,
    stp: SelfTradePolicy,
    book: BookView,
    order: Order,
    seq: u64,
)
    requires
        lawful(strategy),
        book.orders.dom().finite(),
        agree(book.orders, book.bids, book.asks),
        order.tif == TimeInForce::IocBudget || order.tif == TimeInForce::FokBudget,
        order.side == Side::Buy,
    ensures
        worth(submission(strategy, stp, book, order, seq).trades) <= order.price,
{
    lemma_outcome(strategy, stp, book, order, seq);
}

/// Self-trade prevention: no order trades with one of its own user, and the resting
/// orders that are cancelled for it are that user's, on the other side, and gone without
/// having traded. The incoming order alone gives way under one policy, and nobody where
/// nothing is prevented.
pub proof fn law_no_user_trades_with_themselves<S: MatchingStrategy>(
    strategy: S,
    stp: SelfTradePolicy,
    book: BookView,
    order: Order,
    seq: u64,
)
    requires
        lawful(strategy),
        book.orders.dom().finite(),
        agree(book.orders, book.bids, book.asks),
    ensures
        ({
            let sub = submission(strategy, stp, book, order, seq);
            &&& stp != SelfTradePolicy::Allow && order.user != 0 ==> forall|i: int|
                0 <= i < sub.trades.len() ==> book.orders[(
                #[trigger] sub.trades[i]).maker.0].user != order.user
            &&& stp == SelfTradePolicy::Allow || stp == SelfTradePolicy::CancelTaker
                ==> sub.cancelled.len() == 0
            &&& forall|k: int|
                0 <= k < sub.cancelled.len() ==> {
                    let id = #[trigger] sub.cancelled[k];
                    &&& book.orders.contains_key(id.0)
                    &&& book.orders[id.0].user == order.user
                    &&& book.orders[id.0].side != order.side
                    &&& taken_from(sub.trades, id) == 0
                    &&& sub.book.orders.contains_key(id.0) ==> sub.resting && id == order.id
                }
        }),
{
    lemma_outcome(strategy, stp, book, order, seq);
    let sub = submission(strategy, stp, book, order, seq);
    let (ready, budget) = prepared(order, seq);
    let taker = Taker { order: ready, stp, seq };
    let start = opening(book, ready, budget);
    let end = crossed(strategy, taker, start);
    assert(ready.user == order.user && ready.side == order.side);
    if !unfillable(book, order, seq) {
        assert forall|i: int| 0 <= i < sub.trades.len() implies fair_trade(
            taker,
            book.orders,
            #[trigger] sub.trades[i],
        ) by {}
        assert forall|k: int| 0 <= k < sub.cancelled.len() implies pulled_own(
            taker,
            start,
            end,
            #[trigger] sub.cancelled[k],
        ) by {}
    }
}

/// Two takers that differ only in how long they stay in force cross alike.
proof fn lemma_in_force<S: MatchingStrategy>(
    strategy: S,
    taker: Taker,
    tif: TimeInForce,
    s: Crossing,
)
    ensures
        crossed(strategy, taker, s) == crossed(
            strategy,
            Taker { order: Order { tif, ..taker.order }, ..taker },
            s,
        ),
    decreases s.measure(),
{
    reveal(crossed);
    let other = Taker { order: Order { tif, ..taker.order }, ..taker };
    assert(reachable(taker, s) == reachable(other, s));
    if let Some(px) = reachable(taker, s) {
        let view = shown(strategy, s, px);
        assert(self_trade(taker, view) == self_trade(other, view));
        let fills = fills_of(strategy.allocation(view, affordable(s, px)));
        assert(trades_of(taker, px, s.orders, fills) =~= trades_of(other, px, s.orders, fills));
    }
    assert(advance(strategy, taker, s) == advance(strategy, other, s));
    if let Some(t) = advance(strategy, taker, s) {
        if t.measure() < s.measure() {
            lemma_in_force(strategy, taker, tif, t);
        }
    }
}

/// What an order takes is what it could reach, less what it can still reach.
proof fn lemma_reach<S: MatchingStrategy>(strategy: S, taker: Taker, s: Crossing)
    requires
        lawful(strategy),
        taker.stp is Allow,
        taker.order.order_type is Limit,
        s.orders.dom().finite(),
        levels_ok(s.orders, s.levels, taker.order.side.spec_opposite()),
        s.remaining <= u64::MAX,
    ensures
        ({
            let end = crossed(strategy, taker, s);
            &&& end.remaining <= s.remaining
            &&& crossable(end.levels, taker.order.side, taker.order.price) + (s.remaining
                - end.remaining) == crossable(s.levels, taker.order.side, taker.order.price)
        }),
    decreases s.measure(),
{
    lemma_step(strategy, taker, s);
    match advance(strategy, taker, s) {
        None => {
            lemma_crossed_end(strategy, taker, s);
        },
        Some(t) => {
            let side = taker.order.side.spec_opposite();
            let px = reachable(taker, s)->0;
            assert(is_best(s.levels, side, px));
            assert(queue_ok(s.orders, s.levels[px], side, px));
            lemma_shown(strategy, taker, s, px);
            assert(affordable(s, px) <= s.remaining);
            crate::crossing::lemma_reach_step(strategy, taker, s, t, px);
            lemma_crossed_step(strategy, taker, s, t);
            lemma_reach(strategy, taker, t);
        },
    }
}

/// An order that asks for all or nothing does what the order does that takes what it
/// gets, if that one is filled completely, and is turned away if not.
pub proof fn law_fill_or_kill_is_all_or_nothing<S: MatchingStrategy>(
    strategy: S,
    book: BookView,
    order: Order,
    seq: u64,
)
    requires
        lawful(strategy),
        generous(strategy),
        book.orders.dom().finite(),
        agree(book.orders, book.bids, book.asks),
        order.order_type == OrderType::Limit,
        order.tif == TimeInForce::Fok || order.tif == TimeInForce::FokBudget && order.side
            == Side::Sell,
    ensures
        ({
            let lenient = if order.tif == TimeInForce::Fok {
                TimeInForce::Ioc
            } else {
                TimeInForce::IocBudget
            };
            let fok = submission(strategy, SelfTradePolicy::Allow, book, order, seq);
            let ioc = submission(
                strategy,
                SelfTradePolicy::Allow,
                book,
                Order { tif: lenient, ..order },
                seq,
            );
            &&& ioc.filled == order.quantity ==> {
                &&& fok.status == OrderStatus::Filled
                &&& fok.filled == order.quantity
                &&& fok.trades == ioc.trades
                &&& fok.book == ioc.book
            }
            &&& ioc.filled < order.quantity ==> fok.status == OrderStatus::Rejected
        }),
{
    let stp = SelfTradePolicy::Allow;
    let lenient = if order.tif == TimeInForce::Fok {
        TimeInForce::Ioc
    } else {
        TimeInForce::IocBudget
    };
    let eased = Order { tif: lenient, ..order };
    lemma_outcome(strategy, stp, book, order, seq);
    lemma_outcome(strategy, stp, book, eased, seq);
    let (a, most) = prepared(order, seq);
    let (b, _) = prepared(eased, seq);
    assert(crate::crossing::floor_price(order) == crate::crossing::floor_price(eased));
    assert(b == (Order { tif: TimeInForce::Ioc, ..a }));
    let strict = Taker { order: a, stp, seq };
    let start = opening(book, a, most);
    assert(start == opening(book, b, most));
    lemma_in_force(strategy, strict, TimeInForce::Ioc, start);
    lemma_reach(strategy, strict, start);
    let end = crossed(strategy, strict, start);
    if end.remaining > 0 {
        crate::crossing::lemma_nothing_left(strategy, strict, end);
        crate::ladder::lemma_nothing_crossable(end.levels, a.side, a.price);
    }
}

/// Lots left of the resting orders `ids`.
pub open spec fn lots_of(resting: Map<u64, Order>, ids: Seq<OrderId>) -> nat
    decreases ids.len(),
{
    if ids.len() == 0 {
        0
    } else {
        lots_of(resting, ids.drop_last()) + resting[ids.last().0].remaining as nat
    }
}

/// Lots that `trades` take from the orders `ids`.
spec fn taken_from_all(trades: Seq<Trade>, ids: Seq<OrderId>) -> nat
    decreases ids.len(),
{
    if ids.len() == 0 {
        0
    } else {
        taken_from_all(trades, ids.drop_last()) + taken_from(trades, ids.last())
    }
}

proof fn lemma_taken_more(trades: Seq<Trade>, ids: Seq<OrderId>)
    requires
        trades.len() > 0,
        ids.no_duplicates(),
    ensures
        taken_from_all(trades, ids) <= taken_from_all(trades.drop_last(), ids)
            + trades.last().quantity,
        !ids.contains(trades.last().maker) ==> taken_from_all(trades, ids) == taken_from_all(
            trades.drop_last(),
            ids,
        ),
    decreases ids.len(),
{
    if ids.len() > 0 {
        let front = ids.drop_last();
        lemma_taken_more(trades, front);
        let maker = trades.last().maker;
        assert(ids[ids.len() - 1] == ids.last());
        if maker == ids.last() {
            if front.contains(maker) {
                let k = choose|k: int| 0 <= k < front.len() && front[k] == maker;
                assert(ids[k] == ids[ids.len() - 1]);
            }
        } else if front.contains(maker) {
            let k = choose|k: int| 0 <= k < front.len() && front[k] == maker;
            assert(ids[k] == maker);
        }
    }
}

/// Different orders together give no more than is traded.
proof fn lemma_taken_at_most(trades: Seq<Trade>, ids: Seq<OrderId>)
    requires
        ids.no_duplicates(),
    ensures
        taken_from_all(trades, ids) <= traded(trades),
    decreases trades.len(),
{
    if trades.len() == 0 {
        lemma_taken_nothing(trades, ids);
    } else {
        lemma_taken_at_most(trades.drop_last(), ids);
        lemma_taken_more(trades, ids);
    }
}

proof fn lemma_taken_nothing(trades: Seq<Trade>, ids: Seq<OrderId>)
    requires
        trades.len() == 0,
    ensures
        taken_from_all(trades, ids) == 0,
    decreases ids.len(),
{
    if ids.len() > 0 {
        lemma_taken_nothing(trades, ids.drop_last());
    }
}

proof fn lemma_all_taken(resting: Map<u64, Order>, trades: Seq<Trade>, ids: Seq<OrderId>)
    requires
        forall|k: int|
            0 <= k < ids.len() ==> taken_from(trades, #[trigger] ids[k])
                == resting[ids[k].0].remaining,
    ensures
        taken_from_all(trades, ids) == lots_of(resting, ids),
    decreases ids.len(),
{
    if ids.len() > 0 {
        let front = ids.drop_last();
        assert forall|k: int| 0 <= k < front.len() implies taken_from(trades, #[trigger] front[k])
            == resting[front[k].0].remaining by {
            assert(front[k] == ids[k]);
        }
        lemma_all_taken(resting, trades, front);
        assert(ids[ids.len() - 1] == ids.last());
    }
}

/// An order takes all that is within its limit, if it wants that much: whichever resting
/// orders are on the other side within the limit, it is filled by their lots or
/// completely.
pub proof fn law_all_within_the_limit_can_be_had<S: MatchingStrategy>(
    strategy: S,
    book: BookView,
    order: Order,
    seq: u64,
    ids: Seq<OrderId>,
)
    requires
        lawful(strategy),
        generous(strategy),
        book.orders.dom().finite(),
        agree(book.orders, book.bids, book.asks),
        order.tif == TimeInForce::Gtc || order.tif == TimeInForce::Ioc,
        ids.no_duplicates(),
        forall|k: int|
            0 <= k < ids.len() ==> {
                let maker = book.orders[(#[trigger] ids[k]).0];
                &&& book.orders.contains_key(ids[k].0)
                &&& maker.side != order.side
                &&& order.order_type == OrderType::Market || order.side == Side::Buy && maker.price
                    <= order.price || order.side == Side::Sell && maker.price >= order.price
            },
        order.tif == TimeInForce::Gtc ==> !book.orders.contains_key(order.id.0),
    ensures
        ({
            let sub = submission(strategy, SelfTradePolicy::Allow, book, order, seq);
            sub.filled == order.quantity || sub.filled >= lots_of(book.orders, ids)
        }),
{
    let stp = SelfTradePolicy::Allow;
    let sub = submission(strategy, stp, book, order, seq);
    law_no_lot_is_lost(strategy, stp, book, order, seq);
    law_orders_go_on_while_they_may(strategy, stp, book, order, seq);
    law_status_tells_the_fill(strategy, stp, book, order, seq);
    law_no_user_trades_with_themselves(strategy, stp, book, order, seq);
    if sub.filled < order.quantity {
        assert forall|k: int| 0 <= k < ids.len() implies taken_from(sub.trades, #[trigger] ids[k])
            == book.orders[ids[k].0].remaining by {
            let x = ids[k].0;
            assert(ids[k] == OrderId(x));
            assert(book.orders.contains_key(x));
            assert(!sub.cancelled.contains(OrderId(x)));
            if sub.book.orders.contains_key(x) {
                assert(sub.book.orders[x].price == book.orders[x].price);
                assert(sub.book.orders[x].side == book.orders[x].side);
            }
        }
        lemma_all_taken(book.orders, sub.trades, ids);
        lemma_taken_at_most(sub.trades, ids);
    }
}

/// A fill-or-kill order is filled completely whenever resting orders within its limit
/// hold as many lots as it wants.
pub proof fn law_fill_or_kill_is_filled_if_it_can_be<S: MatchingStrategy>(
    strategy: S,
    book: BookView,
    order: Order,
    seq: u64,
    ids: Seq<OrderId>,
)
    requires
        lawful(strategy),
        generous(strategy),
        book.orders.dom().finite(),
        agree(book.orders, book.bids, book.asks),
        order.order_type == OrderType::Limit,
        order.tif == TimeInForce::Fok,
        ids.no_duplicates(),
        forall|k: int|
            0 <= k < ids.len() ==> {
                let maker = book.orders[(#[trigger] ids[k]).0];
                &&& book.orders.contains_key(ids[k].0)
                &&& maker.side != order.side
                &&& order.side == Side::Buy && maker.price <= order.price || order.side
                    == Side::Sell && maker.price >= order.price
            },
        lots_of(book.orders, ids) >= order.quantity,
    ensures
        ({
            let sub = submission(strategy, SelfTradePolicy::Allow, book, order, seq);
            &&& sub.status == OrderStatus::Filled
            &&& sub.filled == order.quantity
            &&& traded(sub.trades) == order.quantity
        }),
{
    let eased = Order { tif: TimeInForce::Ioc, ..order };
    law_all_within_the_limit_can_be_had(strategy, book, eased, seq, ids);
    law_no_lot_is_lost(strategy, SelfTradePolicy::Allow, book, eased, seq);
    law_no_lot_is_lost(strategy, SelfTradePolicy::Allow, book, order, seq);
    law_fill_or_kill_is_all_or_nothing(strategy, book, order, seq);
}

/// A run without a limit takes what a sweep takes, at its cost.
proof fn lemma_sweep<S: MatchingStrategy>(strategy: S, taker: Taker, s: Crossing)
    requires
        lawful(strategy),
        generous(strategy),
        taker.stp is Allow,
        taker.order.order_type is Market,
        taker.order.side is Buy,
        s.orders.dom().finite(),
        levels_ok(s.orders, s.levels, Side::Sell),
        s.remaining <= u64::MAX,
        !s.stopped,
        s.budget >= u64::MAX + s.remaining * u64::MAX,
    ensures
        ({
            let end = crossed(strategy, taker, s);
            &&& end.remaining <= s.remaining
            &&& worth(end.trades) >= worth(s.trades)
            &&& sweep_cost(s.levels, Side::Buy, s.remaining) == (
                (s.remaining - end.remaining) as nat,
                (worth(end.trades) - worth(s.trades)) as nat,
            )
        }),
    decreases s.measure(),
{
    lemma_step(strategy, taker, s);
    crate::ladder::lemma_prices_finite(s.levels.dom());
    match advance(strategy, taker, s) {
        None => {
            lemma_crossed_end(strategy, taker, s);
            if s.remaining > 0 {
                if let Some(p) = crate::ladder::best_price(s.levels, Side::Sell) {
                    assert(is_best(s.levels, Side::Sell, p));
                    assert(s.remaining * u64::MAX >= 0) by (nonlinear_arith)
                        requires
                            s.remaining >= 0,
                    ;
                    lemma_done(strategy, taker, s, p);
                }
            }
        },
        Some(t) => {
            let px = reachable(taker, s)->0;
            assert(is_best(s.levels, Side::Sell, px));
            let queue = s.levels[px];
            assert(queue_ok(s.orders, queue, Side::Sell, px));
            lemma_shown(strategy, taker, s, px);
            let view = shown(strategy, s, px);
            let room = affordable(s, px);
            let allocs = strategy.allocation(view, room);
            let fills = fills_of(allocs);
            assert(room <= s.remaining);
            assert(valid_allocations(view, room, allocs));
            lemma_fills(queue, view, room, allocs);
            crate::crossing::lemma_handed(allocs);
            crate::ladder::lemma_settle_total(queue, fills);
            let n = allocated(allocs);
            let left = settle(queue, fills);
            lemma_worth_fills(taker, px, s.orders, allocs);
            lemma_worth_concat(s.trades, trades_of(taker, px, s.orders, fills));
            assert(set_level(s.levels, px, queue) =~= s.levels);
            lemma_sweep_best(s.levels, px, queue, s.remaining);
            lemma_sweep_best(s.levels, px, left, t.remaining);
            let here: nat = if total(queue) <= s.remaining {
                total(queue)
            } else {
                s.remaining
            };
            let there: nat = if total(left) <= t.remaining {
                total(left)
            } else {
                t.remaining
            };
            assert(there + n == here);
            assert(here * px == there * px + n * px) by (nonlinear_arith)
                requires
                    there + n == here,
            ;
            assert(n * px <= n * u64::MAX) by (nonlinear_arith)
                requires
                    px <= u64::MAX,
                    n >= 0,
            ;
            assert(s.remaining * u64::MAX == t.remaining * u64::MAX + n * u64::MAX)
                by (nonlinear_arith)
                requires
                    t.remaining + n == s.remaining,
            ;
            assert(t.remaining * u64::MAX >= 0) by (nonlinear_arith)
                requires
                    t.remaining >= 0,
            ;
            lemma_crossed_step(strategy, taker, s, t);
            lemma_sweep(strategy, taker, t);
        },
    }
}

/// A covered order is filled completely.
proof fn lemma_covered_end<S: MatchingStrategy>(strategy: S, taker: Taker, s: Crossing)
    requires
        lawful(strategy),
        generous(strategy),
        taker.stp is Allow,
        taker.order.side is Buy,
        taker.order.price == u64::MAX,
        s.orders.dom().finite(),
        levels_ok(s.orders, s.levels, Side::Sell),
        s.remaining <= u64::MAX,
        !s.stopped,
        covered(s),
    ensures
        crossed(strategy, taker, s).remaining == 0,
    decreases s.measure(),
{
    lemma_step(strategy, taker, s);
    match advance(strategy, taker, s) {
        None => {
            lemma_crossed_end(strategy, taker, s);
            if s.remaining > 0 {
                lemma_covered_goes_on(strategy, taker, s);
            }
        },
        Some(t) => {
            let px = reachable(taker, s)->0;
            assert(is_best(s.levels, Side::Sell, px));
            assert(queue_ok(s.orders, s.levels[px], Side::Sell, px));
            lemma_shown(strategy, taker, s, px);
            assert(affordable(s, px) <= s.remaining);
            lemma_covered_step(strategy, taker, s, t, px);
            lemma_crossed_step(strategy, taker, s, t);
            lemma_covered_end(strategy, taker, t);
        },
    }
}

/// A buy that asks for all or nothing within a budget is turned away exactly if a market
/// order of its size would not be filled completely or would cost more than the budget.
/// Else it is filled completely, where no lot is given away for nothing.
pub proof fn law_budgeted_buy_is_all_or_nothing<S: MatchingStrategy>(
    strategy: S,
    book: BookView,
    order: Order,
    seq: u64,
)
    requires
        lawful(strategy),
        generous(strategy),
        book.orders.dom().finite(),
        agree(book.orders, book.bids, book.asks),
        order.tif == TimeInForce::FokBudget,
        order.side == Side::Buy,
    ensures
        ({
            let sub = submission(strategy, SelfTradePolicy::Allow, book, order, seq);
            let market = submission(
                strategy,
                SelfTradePolicy::Allow,
                book,
                Order { order_type: OrderType::Market, tif: TimeInForce::Ioc, ..order },
                seq,
            );
            &&& sub.status == OrderStatus::Rejected <==> market.filled < order.quantity || worth(
                market.trades,
            ) > order.price
            &&& sub.status != OrderStatus::Rejected && !book.asks.contains_key(0) ==> sub.status
                == OrderStatus::Filled && sub.filled == order.quantity
        }),
{
    let stp = SelfTradePolicy::Allow;
    let plain = Order { order_type: OrderType::Market, tif: TimeInForce::Ioc, ..order };
    lemma_outcome(strategy, stp, book, order, seq);
    lemma_outcome(strategy, stp, book, plain, seq);
    let q = order.quantity;
    assert(u64::MAX + q * u64::MAX <= u128::MAX) by (nonlinear_arith)
        requires
            q <= u64::MAX,
    ;
    let (a, most) = prepared(plain, seq);
    lemma_sweep(strategy, Taker { order: a, stp, seq }, opening(book, a, most));
    let (b, budget) = prepared(order, seq);
    let start = opening(book, b, budget);
    if !unfillable(book, order, seq) && !book.asks.contains_key(0) {
        lemma_sweep_at_most(start.levels, q as nat);
        assert(covered(start));
        lemma_covered_end(strategy, Taker { order: b, stp, seq }, start);
    }
}

/// No order on the other side belongs to the taker's user.
spec fn clear_of_own(taker: Taker, orders: Map<u64, Order>) -> bool {
    forall|x: u64| #[trigger]
        orders.contains_key(x) && taker.order.user != 0 && orders[x].side
            == taker.order.side.spec_opposite() ==> orders[x].user != taker.order.user
}

/// Where the user has no order on the other side, prevention has nothing to do.
proof fn lemma_idle<S: MatchingStrategy>(strategy: S, taker: Taker, s: Crossing)
    requires
        lawful(strategy),
        clear_of_own(taker, s.orders),
        s.orders.dom().finite(),
        levels_ok(s.orders, s.levels, taker.order.side.spec_opposite()),
        s.remaining <= u64::MAX,
    ensures
        crossed(strategy, taker, s) == crossed(
            strategy,
            Taker { stp: SelfTradePolicy::Allow, ..taker },
            s,
        ),
    decreases s.measure(),
{
    let other = Taker { stp: SelfTradePolicy::Allow, ..taker };
    lemma_step(strategy, taker, s);
    assert(reachable(taker, s) == reachable(other, s));
    if let Some(px) = reachable(taker, s) {
        let side = taker.order.side.spec_opposite();
        assert(is_best(s.levels, side, px));
        let queue = s.levels[px];
        assert(queue_ok(s.orders, queue, side, px));
        lemma_shown(strategy, taker, s, px);
        let view = shown(strategy, s, px);
        lemma_own(view, taker.order.user);
        if taker.order.user != 0 {
            assert forall|i: int| 0 <= i < view.len() implies (#[trigger] view[i]).user
                != taker.order.user by {
                assert(view[i] == resting_of(queue[i]));
                assert(s.orders.contains_key(queue[i].id.0));
            }
        }
        assert(!self_trade(taker, view));
        let room = affordable(s, px);
        assert(room <= s.remaining);
        let allocs = strategy.allocation(view, room);
        assert(valid_allocations(view, room, allocs));
        let fills = fills_of(allocs);
        assert(trades_of(taker, px, s.orders, fills) =~= trades_of(other, px, s.orders, fills));
        lemma_fills(queue, view, room, allocs);
        assert forall|k: int| 0 <= k < fills.len() implies s.orders.contains_key(
            (#[trigger] fills[k]).0.0,
        ) by {
            assert(crate::ladder::fillable(queue, fills[k]));
        }
        lemma_filled(s.orders, fills);
    }
    assert(advance(strategy, taker, s) == advance(strategy, other, s));
    match advance(strategy, taker, s) {
        None => {
            lemma_crossed_end(strategy, taker, s);
            lemma_crossed_end(strategy, other, s);
        },
        Some(t) => {
            lemma_crossed_step(strategy, taker, s, t);
            lemma_crossed_step(strategy, other, s, t);
            lemma_idle(strategy, taker, t);
        },
    }
}

/// Prevention changes nothing for an order whose user has no order on the other side.
pub proof fn law_prevention_is_idle_without_own_orders<S: MatchingStrategy>(
    strategy: S,
    stp: SelfTradePolicy,
    book: BookView,
    order: Order,
    seq: u64,
)
    requires
        lawful(strategy),
        book.orders.dom().finite(),
        agree(book.orders, book.bids, book.asks),
        !rests_opposite(order, book.orders),
    ensures
        submission(strategy, stp, book, order, seq) == submission(
            strategy,
            SelfTradePolicy::Allow,
            book,
            order,
            seq,
        ),
{
    let (ready, budget) = prepared(order, seq);
    assert(ready.user == order.user && ready.side == order.side);
    lemma_idle(strategy, Taker { order: ready, stp, seq }, opening(book, ready, budget));
}

/// Best price first, and at one price the oldest first: an order's trades get worse for
/// it from one to the next, at one price the makers get younger, and nobody who is left
/// on the other side offers a better price, or the same price for longer, than one it
/// traded with.
pub proof fn law_best_price_and_oldest_first(
    stp: SelfTradePolicy,
    book: BookView,
    order: Order,
    seq: u64,
)
    requires
        book.orders.dom().finite(),
        agree(book.orders, book.bids, book.asks),
        timely(book, seq),
    ensures
        ({
            let sub = submission(PriceTimePriority, stp, book, order, seq);
            &&& forall|i: int, j: int|
                0 <= i < j < sub.trades.len() ==> {
                    let (a, b) = (#[trigger] sub.trades[i], #[trigger] sub.trades[j]);
                    &&& order.side == Side::Buy ==> a.price <= b.price
                    &&& order.side == Side::Sell ==> a.price >= b.price
                    &&& a.price == b.price ==> book.orders[a.maker.0].timestamp
                        <= book.orders[b.maker.0].timestamp
                }
            &&& forall|i: int, x: u64|
                0 <= i < sub.trades.len() && sub.book.orders.contains_key(x)
                    && sub.book.orders[x].side != order.side ==> {
                    let a = #[trigger] sub.trades[i];
                    let left = #[trigger] sub.book.orders[x];
                    &&& order.side == Side::Buy ==> a.price <= left.price
                    &&& order.side == Side::Sell ==> a.price >= left.price
                    &&& a.price == left.price ==> book.orders[a.maker.0].timestamp <= left.timestamp
                }
        }),
{
    let strategy = PriceTimePriority;
    law_price_time_is_lawful(strategy);
    lemma_outcome(strategy, stp, book, order, seq);
    law_best_price_first(strategy, stp, book, order, seq);
    law_oldest_first_at_a_price(stp, book, order, seq);
    let sub = submission(strategy, stp, book, order, seq);
    let (ready, budget) = prepared(order, seq);
    let taker = Taker { order: ready, stp, seq };
    let end = crossed(strategy, taker, opening(book, ready, budget));
    let other = order.side.spec_opposite();
    assert forall|i: int, j: int| 0 <= i < j < sub.trades.len() implies {
        let (a, b) = (#[trigger] sub.trades[i], #[trigger] sub.trades[j]);
        &&& order.side == Side::Buy ==> a.price <= b.price
        &&& order.side == Side::Sell ==> a.price >= b.price
        &&& a.price == b.price ==> book.orders[a.maker.0].timestamp
            <= book.orders[b.maker.0].timestamp
    } by {
        assert(!better(other, sub.trades[j].price, sub.trades[i].price));
    }
    assert forall|i: int, x: u64|
        0 <= i < sub.trades.len() && sub.book.orders.contains_key(x) && sub.book.orders[x].side
            != order.side implies {
        let a = #[trigger] sub.trades[i];
        let left = #[trigger] sub.book.orders[x];
        &&& order.side == Side::Buy ==> a.price <= left.price
        &&& order.side == Side::Sell ==> a.price >= left.price
        &&& a.price == left.price ==> book.orders[a.maker.0].timestamp <= left.timestamp
    } by {
        let left = sub.book.orders[x];
        let levels = sub.book.side(other);
        assert(end.orders.contains_key(x) && end.orders[x] == left);
        assert(levels == end.levels);
        assert(levels.contains_key(left.price));
        assert(!better(other, left.price, sub.trades[i].price));
        let k = choose|k: int| 0 <= k < levels[left.price].len() && levels[left.price][k] == left;
        if sub.trades[i].price == left.price {
            assert(levels[sub.trades[i].price][k] == left);
        }
    }
}

} // verus!
