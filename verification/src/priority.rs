//! Price-time priority: in which order an incoming order meets the resting ones.

use vstd::prelude::*;

use crate::book::{agree, levels_ok, queue_ok, BookView};
use crate::crossing::{
    advance, affordable, crossed, fills_of, in_time_order, lemma_capped, lemma_reduced_time,
    lemma_settle_time, opening, own, prepared, pull, reachable, self_trade, shown, submission,
    timely, trades_of, Crossing, SelfTradePolicy, Taker,
};
use crate::engine::requoted;
use crate::ladder::{better, is_best, level_at, reduced, settle};
use crate::order::Order;
use crate::strategy::{
    fifo, lemma_fifo, valid_level, Allocation, MatchingStrategy, PriceTimePriority,
};
use crate::trade::Trade;
use crate::types::{OrderId, Qty, Side};

verus! {

/// No execution is at a better price than one before it; `side` is the makers'.
pub open spec fn best_first(side: Side, trades: Seq<Trade>) -> bool {
    forall|i: int, j: int| 0 <= i < j < trades.len() ==> !better(
        side,
        (#[trigger] trades[j]).price,
        (#[trigger] trades[i]).price,
    )
}

/// The executions so far came best price first, and nothing better is left.
spec fn priced(side: Side, s: Crossing) -> bool {
    &&& best_first(side, s.trades)
    &&& forall|i: int, p: u64|
        0 <= i < s.trades.len() && #[trigger] s.levels.contains_key(p) ==> !better(
            side,
            p,
            (#[trigger] s.trades[i]).price,
        )
}

/// Cancelling at one price brings no new price and no execution.
proof fn lemma_pull_prices(s: Crossing, px: u64, ids: Seq<OrderId>)
    requires
        s.levels.contains_key(px),
    ensures
        pull(s, px, ids).trades == s.trades,
        forall|q: u64| #[trigger]
            pull(s, px, ids).levels.contains_key(q) ==> s.levels.contains_key(q),
    decreases ids.len(),
{
    if ids.len() > 0 {
        lemma_pull_prices(s, px, ids.drop_last());
    }
}

proof fn lemma_priced_step<S: MatchingStrategy>(strategy: S, taker: Taker, s: Crossing)
    requires
        priced(taker.order.side.spec_opposite(), s),
    ensures
        advance(strategy, taker, s) matches Some(t) ==> priced(
            taker.order.side.spec_opposite(),
            t,
        ),
{
    let side = taker.order.side.spec_opposite();
    if let Some(px) = reachable(taker, s) {
        assert(is_best(s.levels, side, px));
        let view = shown(strategy, s, px);
        lemma_pull_prices(s, px, own(view, taker.order.user));
        if let Some(t) = advance(strategy, taker, s) {
            if self_trade(taker, view) {
                assert(t.trades == s.trades);
            } else {
                let fills = fills_of(strategy.allocation(view, affordable(s, px)));
                let made = trades_of(taker, px, s.orders, fills);
                assert(t.trades == s.trades + made);
                assert forall|i: int| s.trades.len() <= i < t.trades.len() implies (
                #[trigger] t.trades[i]).price == px by {
                    assert(t.trades[i] == made[i - s.trades.len()]);
                }
                assert forall|i: int| 0 <= i < s.trades.len() implies #[trigger] t.trades[i]
                    == s.trades[i] by {}
            }
        }
    }
}

proof fn lemma_priced<S: MatchingStrategy>(strategy: S, taker: Taker, s: Crossing)
    requires
        priced(taker.order.side.spec_opposite(), s),
    ensures
        priced(taker.order.side.spec_opposite(), crossed(strategy, taker, s)),
    decreases s.measure(),
{
    reveal(crossed);
    lemma_priced_step(strategy, taker, s);
    if let Some(t) = advance(strategy, taker, s) {
        if t.measure() < s.measure() {
            lemma_priced(strategy, taker, t);
        }
    }
}

/// Price priority, whatever the strategy: an order trades at the best price first
/// and at no price while the other side has a better one.
pub proof fn law_best_price_first<S: MatchingStrategy>(
    strategy: S,
    stp: SelfTradePolicy,
    book: BookView,
    order: Order,
    seq: u64,
)
    ensures
        ({
            let sub = submission(strategy, stp, book, order, seq);
            let other = order.side.spec_opposite();
            &&& best_first(other, sub.trades)
            &&& forall|i: int, p: u64|
                0 <= i < sub.trades.len() && #[trigger] sub.book.side(other).contains_key(p)
                    ==> !better(other, p, (#[trigger] sub.trades[i]).price)
        }),
{
    let (ready, budget) = prepared(order, seq);
    lemma_priced(strategy, Taker { order: ready, stp, seq }, opening(book, ready, budget));
}

/// The orders of a queue have something left and carry the stamps that `resting`
/// gives them.
spec fn stamped(resting: Map<u64, Order>, queue: Seq<Order>) -> bool {
    forall|k: int|
        0 <= k < queue.len() ==> {
            &&& resting.contains_key((#[trigger] queue[k]).id.0)
            &&& resting[queue[k].id.0].timestamp == queue[k].timestamp
            &&& queue[k].remaining > 0
        }
}

/// No order of the queue is older than `stamp`.
spec fn none_older(queue: Seq<Order>, stamp: u64) -> bool {
    forall|k: int| 0 <= k < queue.len() ==> stamp <= (#[trigger] queue[k]).timestamp
}

/// The stamp of the order that an execution filled.
pub open spec fn maker_stamp(resting: Map<u64, Order>, t: Trade) -> u64 {
    resting[t.maker.0].timestamp
}

/// The queues are in time order, and at each price the makers came oldest first
/// and none older is left.
spec fn timed(resting: Map<u64, Order>, s: Crossing) -> bool {
    &&& forall|p: u64| #[trigger]
        s.levels.contains_key(p) ==> s.levels[p].len() > 0 && in_time_order(s.levels[p])
            && stamped(resting, s.levels[p])
    &&& forall|i: int, j: int|
        0 <= i < j < s.trades.len() && (#[trigger] s.trades[i]).price == (
        #[trigger] s.trades[j]).price ==> maker_stamp(resting, s.trades[i]) <= maker_stamp(
            resting,
            s.trades[j],
        )
    &&& forall|i: int|
        0 <= i < s.trades.len() && s.levels.contains_key((#[trigger] s.trades[i]).price)
            ==> none_older(s.levels[s.trades[i].price], maker_stamp(resting, s.trades[i]))
    &&& s.remaining <= u64::MAX
}

/// Two orders of a stamped queue in time order have different ids.
proof fn lemma_ids(resting: Map<u64, Order>, queue: Seq<Order>)
    requires
        in_time_order(queue),
        stamped(resting, queue),
    ensures
        forall|i: int, j: int| 0 <= i < j < queue.len() ==> #[trigger] queue[i].id
            != #[trigger] queue[j].id,
{
    assert forall|i: int, j: int| 0 <= i < j < queue.len() implies #[trigger] queue[i].id
        != #[trigger] queue[j].id by {
        assert(queue[i].timestamp < queue[j].timestamp);
    }
}

/// Taking lots from an order adds no order and keeps the stamps.
proof fn lemma_reduced_stamped(resting: Map<u64, Order>, queue: Seq<Order>, id: OrderId, by: nat)
    requires
        stamped(resting, queue),
    ensures
        stamped(resting, reduced(queue, id, by)),
        forall|stamp: u64| #[trigger]
            none_older(queue, stamp) ==> none_older(reduced(queue, id, by), stamp),
    decreases queue.len(),
{
    if queue.len() > 0 {
        let front = queue.drop_last();
        assert forall|k: int| 0 <= k < front.len() implies #[trigger] front[k] == queue[k] by {}
        lemma_reduced_stamped(resting, front, id, by);
        let rf = reduced(front, id, by);
        let r = reduced(queue, id, by);
        let last = queue[queue.len() - 1];
        assert forall|k: int| 0 <= k < r.len() implies #[trigger] r[k] == (if k < rf.len() {
            rf[k]
        } else {
            Order { remaining: r[k].remaining, ..last }
        }) by {}
        assert forall|stamp: u64| #[trigger] none_older(queue, stamp) implies none_older(
            r,
            stamp,
        ) by {
            assert(none_older(front, stamp));
            assert(stamp <= last.timestamp);
        }
    }
}

/// Taking all of the first order removes it.
proof fn lemma_reduced_first(queue: Seq<Order>, by: nat)
    requires
        queue.len() > 0,
        by >= queue[0].remaining,
        forall|i: int, j: int| 0 <= i < j < queue.len() ==> #[trigger] queue[i].id
            != #[trigger] queue[j].id,
    ensures
        reduced(queue, queue[0].id, by) == queue.skip(1),
    decreases queue.len(),
{
    let front = queue.drop_last();
    if queue.len() == 1 {
        assert(reduced(front, queue[0].id, by) == front);
        assert(queue.skip(1) =~= front);
    } else {
        assert forall|k: int| 0 <= k < front.len() implies #[trigger] front[k] == queue[k] by {}
        lemma_reduced_first(front, by);
        assert(queue[0].id != queue[queue.len() - 1].id);
        assert(front.skip(1).push(queue.last()) =~= queue.skip(1));
    }
}

/// Filling the front of a queue, all but the last order completely, leaves no
/// order that is older than the last one filled.
proof fn lemma_settle_front(resting: Map<u64, Order>, queue: Seq<Order>, fills: Seq<(OrderId, Qty)>)
    requires
        in_time_order(queue),
        stamped(resting, queue),
        0 < fills.len() <= queue.len(),
        forall|k: int|
            0 <= k < fills.len() ==> {
                &&& (#[trigger] fills[k]).0 == queue[k].id
                &&& k + 1 < fills.len() ==> fills[k].1 >= queue[k].remaining
            },
    ensures
        in_time_order(settle(queue, fills)),
        stamped(resting, settle(queue, fills)),
        none_older(settle(queue, fills), queue[fills.len() - 1].timestamp),
{
    lemma_settle_time(queue, fills);
    let n = fills.len() - 1;
    let rest = queue.skip(n);
    lemma_settle_skips(resting, queue, fills, n);
    assert(fills.drop_last() =~= fills.take(n));
    assert forall|k: int| 0 <= k < rest.len() implies #[trigger] rest[k] == queue[k + n] by {}
    assert(none_older(rest, queue[n].timestamp)) by {
        assert forall|k: int| 0 <= k < rest.len() implies queue[n].timestamp <= (
        #[trigger] rest[k]).timestamp by {
            if k > 0 {
                assert(queue[n].timestamp < queue[k + n].timestamp);
            }
        }
    }
    lemma_reduced_stamped(resting, rest, fills[n].0, fills[n].1 as nat);
}

proof fn lemma_settle_skips(
    resting: Map<u64, Order>,
    queue: Seq<Order>,
    fills: Seq<(OrderId, Qty)>,
    n: int,
)
    requires
        in_time_order(queue),
        stamped(resting, queue),
        0 <= n <= fills.len() <= queue.len(),
        forall|k: int|
            0 <= k < n ==> {
                &&& (#[trigger] fills[k]).0 == queue[k].id
                &&& fills[k].1 >= queue[k].remaining
            },
    ensures
        settle(queue, fills.take(n)) == queue.skip(n),
    decreases n,
{
    if n == 0 {
        assert(queue.skip(0) =~= queue);
    } else {
        lemma_settle_skips(resting, queue, fills, n - 1);
        lemma_ids(resting, queue);
        let rest = queue.skip(n - 1);
        assert forall|i: int, j: int| 0 <= i < j < rest.len() implies #[trigger] rest[i].id
            != #[trigger] rest[j].id by {
            assert(queue[i + n - 1].id != queue[j + n - 1].id);
        }
        let part = fills.take(n);
        assert(part.drop_last() =~= fills.take(n - 1));
        assert(part.last() == fills[n - 1]);
        assert(rest[0] == queue[n - 1]);
        lemma_reduced_first(rest, fills[n - 1].1 as nat);
        assert(rest.skip(1) =~= queue.skip(n));
    }
}

/// Allocations that all hand something out are the fills.
proof fn lemma_all_fill(allocs: Seq<Allocation>)
    requires
        forall|k: int| 0 <= k < allocs.len() ==> (#[trigger] allocs[k]).qty > 0,
    ensures
        fills_of(allocs).len() == allocs.len(),
        forall|k: int|
            0 <= k < allocs.len() ==> #[trigger] fills_of(allocs)[k] == (
                allocs[k].id,
                allocs[k].qty,
            ),
    decreases allocs.len(),
{
    if allocs.len() > 0 {
        let front = allocs.drop_last();
        assert forall|k: int| 0 <= k < front.len() implies #[trigger] front[k] == allocs[k] by {}
        lemma_all_fill(front);
        assert(allocs[allocs.len() - 1] == allocs.last());
    }
}

/// Cancelling orders at one price keeps the others' stamps and order.
proof fn lemma_pull_timed(resting: Map<u64, Order>, s: Crossing, px: u64, ids: Seq<OrderId>)
    requires
        timed(resting, s),
        s.levels.contains_key(px),
    ensures
        timed(resting, pull(s, px, ids)),
    decreases ids.len(),
{
    if ids.len() > 0 {
        let before = pull(s, px, ids.drop_last());
        let t = pull(s, px, ids);
        lemma_pull_timed(resting, s, px, ids.drop_last());
        let queue = level_at(before.levels, px);
        lemma_reduced_time(queue, ids.last(), u64::MAX as nat);
        lemma_reduced_stamped(resting, queue, ids.last(), u64::MAX as nat);
        assert(t.trades == before.trades);
        assert forall|i: int|
            0 <= i < t.trades.len() && t.levels.contains_key((#[trigger] t.trades[i]).price)
            implies none_older(
            t.levels[t.trades[i].price],
            maker_stamp(resting, t.trades[i]),
        ) by {
            let p = t.trades[i].price;
            if p == px {
                assert(before.levels.contains_key(px));
                assert(none_older(queue, maker_stamp(resting, before.trades[i])));
            } else {
                assert(before.levels.contains_key(p));
            }
        }
    }
}

/// First-in-first-out sharing fills a prefix of the queue it is shown, all but the
/// last order completely.
proof fn lemma_front_filled(
    resting: Map<u64, Order>,
    s: Crossing,
    px: u64,
)
    requires
        timed(resting, s),
        s.levels.contains_key(px),
    ensures
        ({
            let allocs = fifo(shown(PriceTimePriority, s, px), affordable(s, px));
            let fills = fills_of(allocs);
            let queue = s.levels[px];
            &&& crate::strategy::allocated(allocs) <= affordable(s, px)
            &&& fills.len() <= queue.len()
            &&& forall|k: int|
                0 <= k < fills.len() ==> {
                    &&& (#[trigger] fills[k]).0 == queue[k].id
                    &&& k + 1 < fills.len() ==> fills[k].1 >= queue[k].remaining
                }
        }),
{
    let queue = s.levels[px];
    let view = shown(PriceTimePriority, s, px);
    let room = affordable(s, px);
    lemma_capped(queue, room as int);
    lemma_ids(resting, queue);
    assert(valid_level(view)) by {
        assert forall|i: int, j: int| 0 <= i < j < view.len() implies #[trigger] view[i].id
            != #[trigger] view[j].id by {
            assert(queue[i].id != queue[j].id);
        }
        assert forall|i: int| 0 <= i < view.len() implies (#[trigger] view[i]).remaining > 0 by {
            assert(queue[i].remaining > 0);
        }
    }
    lemma_fifo(view, room);
    let allocs = fifo(view, room);
    lemma_all_fill(allocs);
    let fills = fills_of(allocs);
    assert forall|k: int| 0 <= k < fills.len() implies {
        &&& (#[trigger] fills[k]).0 == queue[k].id
        &&& k + 1 < fills.len() ==> fills[k].1 >= queue[k].remaining
    } by {
        assert(fills[k] == (allocs[k].id, allocs[k].qty));
        assert(allocs[k].id == view[k].id);
    }
}

proof fn lemma_timed_step(resting: Map<u64, Order>, taker: Taker, s: Crossing)
    requires
        timed(resting, s),
    ensures
        advance(PriceTimePriority, taker, s) matches Some(t) ==> timed(resting, t),
{
    let side = taker.order.side.spec_opposite();
    if let Some(px) = reachable(taker, s) {
        assert(is_best(s.levels, side, px));
        let view = shown(PriceTimePriority, s, px);
        lemma_pull_timed(resting, s, px, own(view, taker.order.user));
        if let Some(t) = advance(PriceTimePriority, taker, s) {
            if !self_trade(taker, view) {
                let queue = s.levels[px];
                let fills = fills_of(fifo(view, affordable(s, px)));
                lemma_front_filled(resting, s, px);
                lemma_settle_front(resting, queue, fills);
                lemma_timed_fills(resting, taker, s, t, px, fills);
            }
        }
    }
}

proof fn lemma_timed_fills(
    resting: Map<u64, Order>,
    taker: Taker,
    s: Crossing,
    t: Crossing,
    px: u64,
    fills: Seq<(OrderId, Qty)>,
)
    requires
        timed(resting, s),
        s.levels.contains_key(px),
        0 < fills.len() <= s.levels[px].len(),
        forall|k: int| 0 <= k < fills.len() ==> (#[trigger] fills[k]).0 == s.levels[px][k].id,
        in_time_order(settle(s.levels[px], fills)),
        stamped(resting, settle(s.levels[px], fills)),
        none_older(settle(s.levels[px], fills), s.levels[px][fills.len() - 1].timestamp),
        t.levels == crate::ladder::set_level(s.levels, px, settle(s.levels[px], fills)),
        t.trades == s.trades + trades_of(taker, px, s.orders, fills),
        t.remaining <= u64::MAX,
    ensures
        timed(resting, t),
{
    let queue = s.levels[px];
    let made = trades_of(taker, px, s.orders, fills);
    let old_len = s.trades.len();
    assert forall|i: int| 0 <= i < old_len implies #[trigger] t.trades[i] == s.trades[i] by {}
    assert forall|i: int| old_len <= i < t.trades.len() implies {
        &&& (#[trigger] t.trades[i]).price == px
        &&& maker_stamp(resting, t.trades[i]) == queue[i - old_len].timestamp
    } by {
        assert(t.trades[i] == made[i - old_len]);
        assert(fills[i - old_len].0 == queue[i - old_len].id);
    }
    assert forall|i: int, j: int|
        0 <= i < j < t.trades.len() && (#[trigger] t.trades[i]).price == (
        #[trigger] t.trades[j]).price implies maker_stamp(resting, t.trades[i]) <= maker_stamp(
        resting,
        t.trades[j],
    ) by {
        if j >= old_len {
            if i < old_len {
                assert(none_older(queue, maker_stamp(resting, s.trades[i])));
            } else {
                assert(queue[i - old_len].timestamp < queue[j - old_len].timestamp);
            }
        } else {
            assert(s.trades[i].price == s.trades[j].price);
        }
    }
    let last = queue[fills.len() - 1].timestamp;
    assert forall|i: int|
        0 <= i < t.trades.len() && t.levels.contains_key((#[trigger] t.trades[i]).price)
        implies none_older(t.levels[t.trades[i].price], maker_stamp(resting, t.trades[i])) by {
        if t.trades[i].price == px {
            assert(maker_stamp(resting, t.trades[i]) <= last) by {
                if i < old_len {
                    assert(none_older(queue, maker_stamp(resting, s.trades[i])));
                } else if i - old_len < fills.len() - 1 {
                    assert(queue[i - old_len].timestamp < queue[fills.len() - 1].timestamp);
                }
            }
        } else {
            assert(i < old_len);
            assert(s.levels.contains_key(s.trades[i].price));
        }
    }
}

proof fn lemma_timed(resting: Map<u64, Order>, taker: Taker, s: Crossing)
    requires
        timed(resting, s),
    ensures
        timed(resting, crossed(PriceTimePriority, taker, s)),
    decreases s.measure(),
{
    reveal(crossed);
    lemma_timed_step(resting, taker, s);
    if let Some(t) = advance(PriceTimePriority, taker, s) {
        if t.measure() < s.measure() {
            lemma_timed(resting, taker, t);
        }
    }
}

/// Time priority: at one price the oldest orders trade first, and whoever is left
/// there is no older than those that traded.
pub proof fn law_oldest_first_at_a_price(
    stp: SelfTradePolicy,
    book: BookView,
    order: Order,
    seq: u64,
)
    requires
        levels_ok(
            book.orders,
            book.side(order.side.spec_opposite()),
            order.side.spec_opposite(),
        ),
        timely(book, seq),
    ensures
        ({
            let sub = submission(PriceTimePriority, stp, book, order, seq);
            let left = sub.book.side(order.side.spec_opposite());
            &&& forall|i: int, j: int|
                0 <= i < j < sub.trades.len() && (#[trigger] sub.trades[i]).price == (
                #[trigger] sub.trades[j]).price ==> maker_stamp(book.orders, sub.trades[i])
                    <= maker_stamp(book.orders, sub.trades[j])
            &&& forall|i: int, k: int|
                0 <= i < sub.trades.len() && left.contains_key(sub.trades[i].price) && 0 <= k
                    < left[sub.trades[i].price].len() ==> maker_stamp(
                    book.orders,
                    #[trigger] sub.trades[i],
                ) <= (#[trigger] left[sub.trades[i].price][k]).timestamp
        }),
{
    let (ready, budget) = prepared(order, seq);
    let other = order.side.spec_opposite();
    let start = opening(book, ready, budget);
    let taker = Taker { order: ready, stp, seq };
    assert(timed(book.orders, start)) by {
        assert forall|p: u64| #[trigger] start.levels.contains_key(p) implies start.levels[p].len()
            > 0 && in_time_order(start.levels[p]) && stamped(book.orders, start.levels[p]) by {
            assert(queue_ok(book.orders, start.levels[p], other, p));
        }
    }
    lemma_timed(book.orders, taker, start);
    let end = crossed(PriceTimePriority, taker, start);
    let sub = submission(PriceTimePriority, stp, book, order, seq);
    let left = sub.book.side(other);
    assert forall|i: int, k: int|
        0 <= i < sub.trades.len() && left.contains_key(sub.trades[i].price) && 0 <= k
            < left[sub.trades[i].price].len() implies maker_stamp(
        book.orders,
        #[trigger] sub.trades[i],
    ) <= (#[trigger] left[sub.trades[i].price][k]).timestamp by {
        assert(left == end.levels);
        assert(none_older(
            end.levels[end.trades[i].price],
            maker_stamp(book.orders, end.trades[i]),
        ));
    }
}

/// Taking fewer lots than an order has leaves it and all others in their places.
proof fn lemma_reduced_places(queue: Seq<Order>, id: OrderId, by: nat)
    requires
        forall|k: int| 0 <= k < queue.len() && (#[trigger] queue[k]).id == id ==> by
            < queue[k].remaining,
    ensures
        reduced(queue, id, by).len() == queue.len(),
        forall|k: int|
            0 <= k < queue.len() ==> #[trigger] reduced(queue, id, by)[k] == if queue[k].id == id {
                Order { remaining: (queue[k].remaining - by) as u64, ..queue[k] }
            } else {
                queue[k]
            },
    decreases queue.len(),
{
    if queue.len() > 0 {
        let front = queue.drop_last();
        assert forall|k: int| 0 <= k < front.len() implies #[trigger] front[k] == queue[k] by {}
        lemma_reduced_places(front, id, by);
        assert(queue[queue.len() - 1] == queue.last());
    }
}

/// An order that is made smaller at its price keeps its place in the queue, as do
/// all others there.
pub proof fn law_reduction_keeps_the_place(book: BookView, id: OrderId, qty: u64)
    requires
        agree(book.orders, book.bids, book.asks),
        book.orders.contains_key(id.0),
        0 < qty <= book.orders[id.0].remaining,
    ensures
        ({
            let order = book.orders[id.0];
            let queue = level_at(book.side(order.side), order.price);
            let after = level_at(book.resized(id, qty).side(order.side), order.price);
            &&& after.len() == queue.len()
            &&& forall|k: int|
                0 <= k < queue.len() ==> #[trigger] after[k] == if queue[k].id == id {
                    Order { remaining: qty, ..order }
                } else {
                    queue[k]
                }
        }),
{
    let order = book.orders[id.0];
    let levels = book.side(order.side);
    let queue = level_at(levels, order.price);
    assert(levels.contains_key(order.price));
    assert(queue_ok(book.orders, queue, order.side, order.price));
    assert forall|k: int| 0 <= k < queue.len() && (#[trigger] queue[k]).id == id implies queue[k]
        == order by {
        assert(book.orders[queue[k].id.0] == queue[k]);
    }
    lemma_reduced_places(queue, id, (order.remaining - qty) as nat);
}

/// An order that is given another price or more lots, and comes to rest again,
/// stands at the back of its queue with a new stamp.
pub proof fn law_requote_goes_to_the_back<S: MatchingStrategy>(
    strategy: S,
    stp: SelfTradePolicy,
    book: BookView,
    id: OrderId,
    price: u64,
    qty: u64,
    seq: u64,
)
    requires
        agree(book.orders, book.bids, book.asks),
        book.orders.contains_key(id.0),
    ensures
        ({
            let order = book.orders[id.0];
            let sub = submission(
                strategy,
                stp,
                book.cancelled(id),
                requoted(order, price, qty),
                seq,
            );
            let queue = level_at(sub.book.side(order.side), price);
            sub.resting ==> queue.len() > 0 && queue.last().id == id && queue.last().timestamp
                == seq
        }),
{
}

} // verus!
