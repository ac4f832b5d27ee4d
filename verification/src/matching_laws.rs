//! Laws of matching that hold of every order and every book: a book is never left
//! crossed, an amendment keeps or forfeits its place, and a restored engine goes on as
//! the one that was exported.

use vstd::prelude::*;

use crate::book::{agree, filled, levels_ok, lists, queue_ok, BookView};
use crate::crossing::{
    advance, affordable, collides, crossed, fills_of, in_time_order, lemma_crossed_end,
    lemma_crossed_step, lemma_fills, lemma_nothing_left, lemma_own, lemma_progress, lemma_pull,
    lemma_reach_step, lemma_shown, opening, own, prepared, pull, reachable, self_trade, shown,
    submission, uncrossed, unfillable, view_lists, Crossing, SelfTradePolicy, Submission,
    Taker,
};
use crate::engine::{
    law_restore_undoes_export, lemma_uncrossed_inserted, modification, requoted, restorable, stacked,
    Amendment, MatchingEngine,
};
use crate::exchange::lemma_listing;
use crate::ladder::{
    is_best, lemma_reduced_distinct, level_at, reduced, set_level, settle, without, Levels,
};
use crate::order::Order;
use crate::strategy::{
    generous, law_price_time_is_generous, lemma_fifo, valid_allocations, valid_level,
    MatchingStrategy, PriceTimePriority, RestingOrder,
};
use crate::types::{OrderId, Qty, Side};

verus! {

/// The policy keeps the allocation contract on every level.
pub open spec fn lawful<S: MatchingStrategy>(strategy: S) -> bool {
    forall|level: Seq<RestingOrder>, incoming: nat|
        valid_level(level) && incoming <= u64::MAX ==> valid_allocations(
            level,
            incoming,
            #[trigger] strategy.allocation(level, incoming),
        )
}

/// Price-time priority keeps the allocation contract.
pub proof fn law_price_time_is_lawful(strategy: PriceTimePriority)
    ensures
        lawful(strategy),
{
    assert forall|level: Seq<RestingOrder>, incoming: nat|
        valid_level(level) && incoming <= u64::MAX implies valid_allocations(
        level,
        incoming,
        #[trigger] strategy.allocation(level, incoming),
    ) by {
        lemma_fifo(level, incoming);
    }
}

/// A queue of distinct resting orders of one side and price, or none.
spec fn sane(orders: Map<u64, Order>, queue: Seq<Order>, side: Side, p: u64) -> bool {
    queue.len() > 0 ==> queue_ok(orders, queue, side, p)
}

/// Where an order of a reduced queue comes from.
spec fn comes_from(queue: Seq<Order>, id: OrderId, by: nat, o: Order) -> bool {
    exists|k: int|
        0 <= k < queue.len() && (#[trigger] queue[k]).id == o.id && (queue[k].id != id ==> o
            == queue[k]) && (queue[k].id == id ==> by < queue[k].remaining && o == (Order {
            remaining: (queue[k].remaining - by) as u64,
            ..queue[k]
        }))
}

proof fn lemma_sources(queue: Seq<Order>, id: OrderId, by: nat)
    ensures
        forall|i: int|
            0 <= i < reduced(queue, id, by).len() ==> comes_from(
                queue,
                id,
                by,
                #[trigger] reduced(queue, id, by)[i],
            ),
    decreases queue.len(),
{
    if queue.len() > 0 {
        let front = queue.drop_last();
        lemma_sources(front, id, by);
        let r = reduced(queue, id, by);
        let rf = reduced(front, id, by);
        assert forall|i: int| 0 <= i < r.len() implies comes_from(queue, id, by, #[trigger] r[i]) by {
            if i < rf.len() {
                assert(r[i] == rf[i]);
                assert(comes_from(front, id, by, rf[i]));
                let k = choose|k: int|
                    0 <= k < front.len() && (#[trigger] front[k]).id == rf[i].id && (front[k].id
                        != id ==> rf[i] == front[k]) && (front[k].id == id ==> by
                        < front[k].remaining && rf[i] == (Order {
                        remaining: (front[k].remaining - by) as u64,
                        ..front[k]
                    }));
                assert(queue[k] == front[k]);
            } else {
                assert(queue[queue.len() - 1].id == r[i].id);
            }
        }
    }
}

/// The orders after lots were taken from one of them.
spec fn taken(orders: Map<u64, Order>, id: OrderId, by: nat) -> Map<u64, Order> {
    let order = orders[id.0];
    if order.remaining <= by {
        orders.remove(id.0)
    } else {
        orders.insert(id.0, Order { remaining: (order.remaining - by) as u64, ..order })
    }
}

proof fn lemma_reduced_sane(
    orders: Map<u64, Order>,
    queue: Seq<Order>,
    side: Side,
    p: u64,
    id: OrderId,
    by: nat,
)
    requires
        sane(orders, queue, side, p),
        by > 0,
    ensures
        sane(taken(orders, id, by), reduced(queue, id, by), side, p),
{
    let r = reduced(queue, id, by);
    let after = taken(orders, id, by);
    if queue.len() > 0 && r.len() > 0 {
        lemma_sources(queue, id, by);
        lemma_reduced_distinct(queue, id, by);
        assert forall|i: int| 0 <= i < r.len() implies {
            &&& after.contains_key((#[trigger] r[i]).id.0)
            &&& after[r[i].id.0] == r[i]
            &&& r[i].side == side
            &&& r[i].price == p
            &&& r[i].remaining > 0
        } by {
            assert(comes_from(queue, id, by, r[i]));
            let k = choose|k: int|
                0 <= k < queue.len() && (#[trigger] queue[k]).id == r[i].id && (queue[k].id != id
                    ==> r[i] == queue[k]) && (queue[k].id == id ==> by < queue[k].remaining && r[i]
                    == (Order { remaining: (queue[k].remaining - by) as u64, ..queue[k] }));
            assert(orders.contains_key(queue[k].id.0));
            if queue[k].id.0 == id.0 {
                assert(queue[k].id == id);
            }
        }
    }
}

/// Settling fills keeps a queue sane.
proof fn lemma_settle_sane(
    orders: Map<u64, Order>,
    queue: Seq<Order>,
    side: Side,
    p: u64,
    fills: Seq<(OrderId, Qty)>,
)
    requires
        sane(orders, queue, side, p),
        forall|k: int| 0 <= k < fills.len() ==> (#[trigger] fills[k]).1 > 0,
    ensures
        sane(filled(orders, fills), settle(queue, fills), side, p),
    decreases fills.len(),
{
    if fills.len() > 0 {
        let front = fills.drop_last();
        assert forall|k: int| 0 <= k < front.len() implies (#[trigger] front[k]).1 > 0 by {
            assert(front[k] == fills[k]);
        }
        lemma_settle_sane(orders, queue, side, p, front);
        assert(fills[fills.len() - 1] == fills.last());
        lemma_reduced_sane(
            filled(orders, front),
            settle(queue, front),
            side,
            p,
            fills.last().0,
            fills.last().1 as nat,
        );
        assert(taken(filled(orders, front), fills.last().0, fills.last().1 as nat) == filled(
            orders,
            fills,
        ));
    }
}

/// Fills leave an order that they do not name as it is.
proof fn lemma_unnamed(orders: Map<u64, Order>, fills: Seq<(OrderId, Qty)>, x: u64)
    requires
        orders.contains_key(x),
        forall|k: int| 0 <= k < fills.len() ==> (#[trigger] fills[k]).0.0 != x,
    ensures
        filled(orders, fills).contains_key(x),
        filled(orders, fills)[x] == orders[x],
    decreases fills.len(),
{
    if fills.len() > 0 {
        let front = fills.drop_last();
        assert forall|k: int| 0 <= k < front.len() implies (#[trigger] front[k]).0.0 != x by {
            assert(front[k] == fills[k]);
        }
        lemma_unnamed(orders, front, x);
        assert(fills[fills.len() - 1] == fills.last());
    }
}

/// Every fill of an allocation takes something.
pub proof fn lemma_fills_positive(allocs: Seq<crate::strategy::Allocation>)
    ensures
        forall|k: int| 0 <= k < fills_of(allocs).len() ==> (#[trigger] fills_of(allocs)[k]).1 > 0,
    decreases allocs.len(),
{
    if allocs.len() > 0 {
        let front = fills_of(allocs.drop_last());
        lemma_fills_positive(allocs.drop_last());
        assert forall|k: int| 0 <= k < fills_of(allocs).len() implies (#[trigger] fills_of(
            allocs,
        )[k]).1 > 0 by {
            if k < front.len() {
                assert(fills_of(allocs)[k] == front[k]);
            }
        }
    }
}

/// Levels stay well-formed when the queue of one of them changes with its orders.
proof fn lemma_level_changed(
    orders: Map<u64, Order>,
    after: Map<u64, Order>,
    levels: Levels,
    side: Side,
    px: u64,
    queue: Seq<Order>,
)
    requires
        levels_ok(orders, levels, side),
        sane(after, queue, side, px),
        forall|x: u64| #[trigger]
            orders.contains_key(x) && orders[x].price != px ==> after.contains_key(x) && after[x]
                == orders[x],
    ensures
        levels_ok(after, set_level(levels, px, queue), side),
{
    let now = set_level(levels, px, queue);
    assert forall|p: u64| #[trigger] now.contains_key(p) implies queue_ok(after, now[p], side, p) by {
        if p != px {
            assert(levels.contains_key(p));
            assert(queue_ok(orders, levels[p], side, p));
            assert forall|i: int| 0 <= i < levels[p].len() implies after.contains_key(
                (#[trigger] levels[p][i]).id.0,
            ) && after[levels[p][i].id.0] == levels[p][i] by {
                assert(orders.contains_key(levels[p][i].id.0));
            }
        }
    }
}

/// Cancelling orders of one level keeps the levels well-formed and adds none.
proof fn lemma_pull_ok(s: Crossing, side: Side, px: u64, ids: Seq<OrderId>)
    requires
        levels_ok(s.orders, s.levels, side),
        s.orders.dom().finite(),
        forall|k: int|
            0 <= k < ids.len() ==> s.orders.contains_key((#[trigger] ids[k]).0)
                && s.orders[ids[k].0].price == px,
    ensures
        levels_ok(pull(s, px, ids).orders, pull(s, px, ids).levels, side),
        forall|p: u64| #[trigger]
            pull(s, px, ids).levels.contains_key(p) ==> s.levels.contains_key(p),
    decreases ids.len(),
{
    if ids.len() > 0 {
        let front = ids.drop_last();
        let id = ids.last();
        assert forall|k: int| 0 <= k < front.len() implies s.orders.contains_key(
            (#[trigger] front[k]).0,
        ) && s.orders[front[k].0].price == px by {
            assert(front[k] == ids[k]);
        }
        assert(ids[ids.len() - 1] == id);
        lemma_pull_ok(s, side, px, front);
        lemma_pull(s, px, front);
        let before = pull(s, px, front);
        let queue = level_at(before.levels, px);
        let after = before.orders.remove(id.0);
        assert(sane(before.orders, queue, side, px));
        lemma_reduced_sane(before.orders, queue, side, px, id, u64::MAX as nat);
        assert(taken(before.orders, id, u64::MAX as nat) == after);
        assert forall|x: u64| #[trigger]
            before.orders.contains_key(x) && before.orders[x].price != px implies after.contains_key(
            x,
        ) && after[x] == before.orders[x] by {
            assert(s.orders[x] == before.orders[x]);
        }
        lemma_level_changed(before.orders, after, before.levels, side, px, without(queue, id));
        if queue.len() == 0 {
            assert(without(queue, id).len() == 0);
        }
    }
}

/// One step of a crossing keeps the levels well-formed, adds no price, and makes
/// progress.
pub proof fn lemma_step<S: MatchingStrategy>(strategy: S, taker: Taker, s: Crossing)
    requires
        lawful(strategy),
        s.orders.dom().finite(),
        levels_ok(s.orders, s.levels, taker.order.side.spec_opposite()),
        s.remaining <= u64::MAX,
    ensures
        advance(strategy, taker, s) matches Some(t) ==> {
            &&& t.measure() < s.measure()
            &&& t.orders.dom().finite()
            &&& levels_ok(t.orders, t.levels, taker.order.side.spec_opposite())
            &&& t.remaining <= s.remaining
            &&& t.budget + (s.remaining - t.remaining) * u64::MAX >= s.budget
            &&& forall|p: u64| #[trigger] t.levels.contains_key(p) ==> s.levels.contains_key(p)
        },
{
    let side = taker.order.side.spec_opposite();
    if let Some(px) = reachable(taker, s) {
        assert(is_best(s.levels, side, px));
        assert(s.levels.contains_key(px));
        let queue = s.levels[px];
        assert(queue_ok(s.orders, queue, side, px));
        lemma_shown(strategy, taker, s, px);
        let view = shown(strategy, s, px);
        assert(affordable(s, px) <= s.remaining);
        assert(valid_allocations(
            view,
            affordable(s, px),
            strategy.allocation(view, affordable(s, px)),
        ));
        lemma_progress(strategy, taker, s);
        if self_trade(taker, view) {
            let ids = own(view, taker.order.user);
            lemma_own(view, taker.order.user);
            assert forall|k: int| 0 <= k < ids.len() implies s.orders.contains_key(
                (#[trigger] ids[k]).0,
            ) && s.orders[ids[k].0].price == px by {
                assert(view_lists(view, taker.order.user, ids[k]));
                let c = choose|c: int|
                    0 <= c < view.len() && (#[trigger] view[c]).id == ids[k] && view[c].user
                        == taker.order.user;
                assert(view[c] == crate::ladder::resting_of(queue[c]));
                assert(s.orders.contains_key(queue[c].id.0));
            }
            lemma_pull_ok(s, side, px, ids);
            lemma_pull(s, px, ids);
        } else {
            let allocs = strategy.allocation(view, affordable(s, px));
            let fills = fills_of(allocs);
            lemma_fills(queue, view, affordable(s, px), allocs);
            lemma_fills_positive(allocs);
            if fills.len() > 0 {
                let t = advance(strategy, taker, s)->0;
                lemma_reach_step(strategy, taker, s, t, px);
                lemma_settle_sane(s.orders, queue, side, px, fills);
                assert forall|x: u64| #[trigger]
                    s.orders.contains_key(x) && s.orders[x].price != px implies t.orders.contains_key(
                    x,
                ) && t.orders[x] == s.orders[x] by {
                    assert forall|k: int| 0 <= k < fills.len() implies (#[trigger] fills[k]).0.0
                        != x by {
                        assert(crate::ladder::fillable(queue, fills[k]));
                        let i = choose|i: int|
                            0 <= i < queue.len() && (#[trigger] queue[i]).id == fills[k].0
                                && fills[k].1 <= queue[i].remaining;
                        assert(s.orders[queue[i].id.0] == queue[i]);
                    }
                    lemma_unnamed(s.orders, fills, x);
                }
                lemma_level_changed(
                    s.orders,
                    t.orders,
                    s.levels,
                    side,
                    px,
                    settle(queue, fills),
                );
            }
        }
    }
}

/// The end of a crossing: nothing more can happen, and no price was added.
pub proof fn lemma_end<S: MatchingStrategy>(strategy: S, taker: Taker, s: Crossing)
    requires
        lawful(strategy),
        s.orders.dom().finite(),
        levels_ok(s.orders, s.levels, taker.order.side.spec_opposite()),
        s.remaining <= u64::MAX,
    ensures
        ({
            let end = crossed(strategy, taker, s);
            &&& advance(strategy, taker, end) is None
            &&& levels_ok(end.orders, end.levels, taker.order.side.spec_opposite())
            &&& end.remaining <= s.remaining
            &&& end.budget + (s.remaining - end.remaining) * u64::MAX >= s.budget
            &&& forall|p: u64| #[trigger] end.levels.contains_key(p) ==> s.levels.contains_key(p)
        }),
    decreases s.measure(),
{
    lemma_step(strategy, taker, s);
    match advance(strategy, taker, s) {
        None => {
            lemma_crossed_end(strategy, taker, s);
        },
        Some(t) => {
            lemma_crossed_step(strategy, taker, s, t);
            lemma_end(strategy, taker, t);
            let end = crossed(strategy, taker, t);
            let a = s.remaining - t.remaining;
            let b = t.remaining - end.remaining;
            assert((a + b) * u64::MAX == a * u64::MAX + b * u64::MAX) by (nonlinear_arith);
        },
    }
}

proof fn lemma_submission_uncrossed<S: MatchingStrategy>(
    strategy: S,
    stp: SelfTradePolicy,
    book: BookView,
    order: Order,
    seq: u64,
)
    requires
        lawful(strategy),
        generous(strategy),
        book.orders.dom().finite(),
        levels_ok(
            book.orders,
            book.side(order.side.spec_opposite()),
            order.side.spec_opposite(),
        ),
        uncrossed(book),
    ensures
        uncrossed(submission(strategy, stp, book, order, seq).book),
{
    let (ready, budget) = prepared(order, seq);
    if !unfillable(book, order, seq) {
        let taker = Taker { order: ready, stp, seq };
        let start = opening(book, ready, budget);
        let end = crossed(strategy, taker, start);
        lemma_end(strategy, taker, start);
        let other = order.side.spec_opposite();
        let after = book.with_side(other, end.levels, end.orders);
        assert(uncrossed(after)) by {
            assert forall|b: u64, a: u64| #[trigger]
                after.bids.contains_key(b) && #[trigger] after.asks.contains_key(a) implies b < a by {
                assert(book.bids.contains_key(b));
                assert(book.asks.contains_key(a));
            }
        }
        let sub = submission(strategy, stp, book, order, seq);
        if sub.resting {
            let n = ready.remaining - end.remaining;
            assert(n * u64::MAX <= u64::MAX * u64::MAX) by (nonlinear_arith)
                requires
                    0 <= n <= u64::MAX,
            ;
            lemma_nothing_left(strategy, taker, end);
            let rest = Order { remaining: end.remaining as u64, ..ready };
            lemma_uncrossed_inserted(after, rest);
        }
    }
}

/// A book is never left crossed: after any order was submitted, every resting buy is
/// priced below every resting sell, if that was so before.
pub proof fn law_submit_never_leaves_a_crossed_book<S: MatchingStrategy>(
    strategy: S,
    stp: SelfTradePolicy,
    book: BookView,
    order: Order,
    seq: u64,
)
    requires
        lawful(strategy),
        generous(strategy),
        book.orders.dom().finite(),
        agree(book.orders, book.bids, book.asks),
        uncrossed(book),
    ensures
        uncrossed(submission(strategy, stp, book, order, seq).book),
{
    lemma_submission_uncrossed(strategy, stp, book, order, seq);
}

/// Under price-time priority no submission leaves a crossed book.
pub proof fn law_price_time_never_leaves_a_crossed_book(
    strategy: PriceTimePriority,
    stp: SelfTradePolicy,
    book: BookView,
    order: Order,
    seq: u64,
)
    requires
        book.orders.dom().finite(),
        agree(book.orders, book.bids, book.asks),
        uncrossed(book),
    ensures
        uncrossed(submission(strategy, stp, book, order, seq).book),
{
    law_price_time_is_lawful(strategy);
    law_price_time_is_generous(strategy);
    lemma_submission_uncrossed(strategy, stp, book, order, seq);
}

/// A change to one level that adds no level crosses no book.
proof fn lemma_level_uncrossed(
    book: BookView,
    side: Side,
    p: u64,
    queue: Seq<Order>,
    orders: Map<u64, Order>,
)
    requires
        uncrossed(book),
        book.side(side).contains_key(p),
    ensures
        uncrossed(book.with_side(side, set_level(book.side(side), p, queue), orders)),
{
    let after = book.with_side(side, set_level(book.side(side), p, queue), orders);
    assert forall|b: u64, a: u64| #[trigger]
        after.bids.contains_key(b) && #[trigger] after.asks.contains_key(a) implies b < a by {
        assert(book.bids.contains_key(b));
        assert(book.asks.contains_key(a));
    }
}

/// Cancelling an order leaves the other side well-formed.
proof fn lemma_other_side(book: BookView, id: OrderId)
    requires
        agree(book.orders, book.bids, book.asks),
        book.orders.contains_key(id.0),
    ensures
        ({
            let other = book.orders[id.0].side.spec_opposite();
            levels_ok(book.cancelled(id).orders, book.cancelled(id).side(other), other)
        }),
{
    let rest = book.cancelled(id);
    let other = book.orders[id.0].side.spec_opposite();
    assert forall|p: u64| #[trigger] rest.side(other).contains_key(p) implies queue_ok(
        rest.orders,
        rest.side(other)[p],
        other,
        p,
    ) by {
        assert(book.side(other).contains_key(p));
        let q = book.side(other)[p];
        assert(queue_ok(book.orders, q, other, p));
        assert forall|i: int| 0 <= i < q.len() implies rest.orders.contains_key(
            (#[trigger] q[i]).id.0,
        ) && rest.orders[q[i].id.0] == q[i] by {
            assert(book.orders[q[i].id.0] == q[i]);
        }
    }
}

/// An amendment never leaves a crossed book either.
pub proof fn law_modify_never_leaves_a_crossed_book<S: MatchingStrategy>(
    strategy: S,
    stp: SelfTradePolicy,
    book: BookView,
    seq: u64,
    id: OrderId,
    price: u64,
    qty: u64,
)
    requires
        lawful(strategy),
        generous(strategy),
        book.orders.dom().finite(),
        agree(book.orders, book.bids, book.asks),
        uncrossed(book),
    ensures
        uncrossed(modification(strategy, stp, book, seq, id, price, qty).book),
{
    if book.orders.contains_key(id.0) {
        let order = book.orders[id.0];
        let levels = book.side(order.side);
        let queue = level_at(levels, order.price);
        assert(levels.contains_key(order.price));
        lemma_level_uncrossed(
            book,
            order.side,
            order.price,
            without(queue, id),
            book.orders.remove(id.0),
        );
        lemma_level_uncrossed(
            book,
            order.side,
            order.price,
            reduced(queue, id, (order.remaining - qty) as nat),
            book.orders.insert(id.0, Order { remaining: qty, ..order }),
        );
        let rest = book.cancelled(id);
        lemma_other_side(book, id);
        lemma_submission_uncrossed(
            strategy,
            stp,
            rest,
            requoted(order, price, qty),
            (seq + 1) as u64,
        );
    }
}

proof fn lemma_reduced_in_place(queue: Seq<Order>, id: OrderId, by: nat)
    requires
        forall|i: int|
            0 <= i < queue.len() && (#[trigger] queue[i]).id == id ==> by < queue[i].remaining,
    ensures
        reduced(queue, id, by).len() == queue.len(),
        forall|i: int|
            0 <= i < queue.len() ==> #[trigger] reduced(queue, id, by)[i] == if queue[i].id != id {
                queue[i]
            } else {
                Order { remaining: (queue[i].remaining - by) as u64, ..queue[i] }
            },
    decreases queue.len(),
{
    if queue.len() > 0 {
        let front = queue.drop_last();
        assert forall|i: int| 0 <= i < front.len() && (#[trigger] front[i]).id == id implies by
            < front[i].remaining by {
            assert(queue[i] == front[i]);
        }
        lemma_reduced_in_place(front, id, by);
        assert(queue[queue.len() - 1] == queue.last());
        let r = reduced(queue, id, by);
        assert forall|i: int| 0 <= i < queue.len() implies #[trigger] r[i] == if queue[i].id != id {
            queue[i]
        } else {
            Order { remaining: (queue[i].remaining - by) as u64, ..queue[i] }
        } by {
            if i < front.len() {
                assert(r[i] == reduced(front, id, by)[i]);
                assert(front[i] == queue[i]);
            }
        }
    }
}

/// An amendment is one of four things. An order that does not rest is not found and
/// nothing changes. At its own price, a quantity of zero cancels it, and one that is not
/// larger than what is left reduces it: it stands where it stood, and every other order
/// is as before. Anything else is a cancellation followed by the submission of the order
/// with the new price and quantity: what is left of it then stands behind all the orders
/// at that price.
pub proof fn law_modify_keeps_or_forfeits_the_place<S: MatchingStrategy>(
    strategy: S,
    stp: SelfTradePolicy,
    book: BookView,
    seq: u64,
    id: OrderId,
    price: u64,
    qty: u64,
)
    requires
        lawful(strategy),
        book.orders.dom().finite(),
        agree(book.orders, book.bids, book.asks),
    ensures
        ({
            let m = modification(strategy, stp, book, seq, id, price, qty);
            let order = book.orders[id.0];
            let found = book.orders.contains_key(id.0);
            let reduces = found && price == order.price && 0 < qty <= order.remaining;
            let cancels = found && price == order.price && qty == 0;
            let sub = submission(
                strategy,
                stp,
                book.cancelled(id),
                requoted(order, price, qty),
                (seq + 1) as u64,
            );
            &&& !found ==> m.answer is NotFound && m.book == book && m.seq == seq
            &&& cancels ==> m.answer is Cancelled && m.book == book.cancelled(id) && m.seq == seq
            &&& reduces ==> {
                let before = book.side(order.side)[order.price];
                let after = m.book.side(order.side)[order.price];
                &&& m.answer == Amendment::Reduced(qty)
                &&& m.seq == seq
                &&& m.book.orders == book.orders.insert(id.0, Order { remaining: qty, ..order })
                &&& m.book.side(order.side) == book.side(order.side).insert(order.price, after)
                &&& m.book.side(order.side.spec_opposite()) == book.side(
                    order.side.spec_opposite(),
                )
                &&& after.len() == before.len()
                &&& forall|i: int|
                    0 <= i < before.len() ==> #[trigger] after[i] == if before[i].id == id {
                        Order { remaining: qty, ..before[i] }
                    } else {
                        before[i]
                    }
            }
            &&& found && !reduces && !cancels ==> {
                &&& m.answer == Amendment::Requoted(sub)
                &&& m.book == sub.book
                &&& m.seq == (seq + 1) as u64
                &&& sub.resting ==> m.book.side(order.side)[price] == level_at(
                    book.cancelled(id).side(order.side),
                    price,
                ).push(
                    Order {
                        remaining: (qty - sub.filled) as u64,
                        timestamp: (seq + 1) as u64,
                        ..requoted(order, price, qty)
                    },
                )
            }
        }),
{
    let order = book.orders[id.0];
    if book.orders.contains_key(id.0) {
        let levels = book.side(order.side);
        let queue = level_at(levels, order.price);
        assert(levels.contains_key(order.price));
        assert(queue_ok(book.orders, queue, order.side, order.price));
        if price == order.price && 0 < qty <= order.remaining {
            let by = (order.remaining - qty) as nat;
            assert forall|i: int| 0 <= i < queue.len() && (#[trigger] queue[i]).id == id implies by
                < queue[i].remaining && queue[i] == order by {
                assert(book.orders[queue[i].id.0] == queue[i]);
            }
            lemma_reduced_in_place(queue, id, by);
            let m = modification(strategy, stp, book, seq, id, price, qty);
            assert(m.book.side(order.side) =~= levels.insert(order.price, reduced(queue, id, by)));
            assert forall|i: int| 0 <= i < queue.len() implies #[trigger] m.book.side(
                order.side,
            )[order.price][i] == if queue[i].id == id {
                Order { remaining: qty, ..queue[i] }
            } else {
                queue[i]
            } by {
                assert(reduced(queue, id, by)[i] == if queue[i].id != id {
                    queue[i]
                } else {
                    Order { remaining: (queue[i].remaining - by) as u64, ..queue[i] }
                });
            }
        } else if !(price == order.price && qty == 0) {
            let again = requoted(order, price, qty);
            let next = (seq + 1) as u64;
            let sub = submission(strategy, stp, book.cancelled(id), again, next);
            if sub.resting {
                let (ready, budget) = prepared(again, next);
                assert(ready == (Order { timestamp: next, ..again }));
                let start = opening(book.cancelled(id), ready, budget);
                lemma_other_side(book, id);
                lemma_end(strategy, Taker { order: ready, stp, seq: next }, start);
            }
        }
    }
}

/// Submitting orders one after the other: the book and the counter in the end, and the
/// outcome of each.
pub open spec fn session<S: MatchingStrategy>(
    strategy: S,
    stp: SelfTradePolicy,
    book: BookView,
    seq: u64,
    orders: Seq<Order>,
) -> (BookView, u64, Seq<Submission>)
    decreases orders.len(),
{
    if orders.len() == 0 {
        (book, seq, Seq::empty())
    } else {
        let (at, clock, outcomes) = session(strategy, stp, book, seq, orders.drop_last());
        let next = (clock + 1) as u64;
        let sub = submission(strategy, stp, at, orders.last(), next);
        (sub.book, next, outcomes.push(sub))
    }
}

/// An engine restored from the export of another one, with the same strategy and the
/// same policy, is like it: the counter, the book with every level, and what it exports
/// are the same; it accepts the orders that the other one accepts, and it answers every
/// later run of submissions alike.
pub proof fn law_restored_engine_goes_on_alike<S: MatchingStrategy>(
    a: MatchingEngine<S>,
    b: MatchingEngine<S>,
    exported: Seq<Order>,
)
    requires
        a.wf(),
        lists(exported, a.resting().orders),
        in_time_order(exported),
        b.sharing() == a.sharing(),
        b.policy() == a.policy(),
        b.clock() == a.clock(),
        b.resting() == stacked(exported),
    ensures
        restorable(a.clock(), exported),
        b.resting() == a.resting(),
        forall|again: Seq<Order>| #[trigger]
            lists(again, b.resting().orders) && in_time_order(again) ==> again == exported,
        forall|order: Order, seq: u64| #[trigger]
            collides(b.sharing(), b.policy(), b.resting(), order, seq) == collides(
                a.sharing(),
                a.policy(),
                a.resting(),
                order,
                seq,
            ),
        forall|orders: Seq<Order>| #[trigger]
            session(b.sharing(), b.policy(), b.resting(), b.clock(), orders) == session(
                a.sharing(),
                a.policy(),
                a.resting(),
                a.clock(),
                orders,
            ),
{
    a.law_state();
    law_restore_undoes_export(a.resting(), a.clock(), exported);
    assert forall|again: Seq<Order>| #[trigger]
        lists(again, b.resting().orders) && in_time_order(again) implies again == exported by {
        lemma_listing(again, exported, a.resting().orders);
    }
}

/// The queue without one of its orders is the queue with that place closed up.
pub proof fn lemma_place_closed(queue: Seq<Order>, k: int)
    requires
        crate::ladder::distinct(queue),
        0 <= k < queue.len(),
    ensures
        without(queue, queue[k].id) == queue.remove(k),
    decreases queue.len(),
{
    let id = queue[k].id;
    let front = queue.drop_last();
    assert(crate::ladder::distinct(front)) by {
        assert forall|i: int, j: int| 0 <= i < j < front.len() implies #[trigger] front[i].id
            != #[trigger] front[j].id by {
            assert(queue[i].id != queue[j].id);
        }
    }
    if k == queue.len() - 1 {
        assert forall|i: int| 0 <= i < front.len() implies (#[trigger] front[i]).id != id by {
            assert(queue[i].id != queue[k].id);
        }
        crate::ladder::lemma_reduced_absent(front, id, u64::MAX as nat);
        assert(queue.remove(k) =~= front);
    } else {
        assert(front[k] == queue[k]);
        lemma_place_closed(front, k);
        assert(queue[k].id != queue[queue.len() - 1].id);
        assert(queue.remove(k) =~= front.remove(k).push(queue.last()));
    }
}

/// Cancelling a resting order leaves a consistent book without it, in which the orders
/// behind it have moved up by one place.
pub proof fn lemma_cancelled(book: BookView, id: OrderId)
    requires
        book.orders.dom().finite(),
        agree(book.orders, book.bids, book.asks),
        book.orders.contains_key(id.0),
    ensures
        ({
            let rest = book.cancelled(id);
            &&& rest.orders == book.orders.remove(id.0)
            &&& rest.orders.dom().finite()
            &&& agree(rest.orders, rest.bids, rest.asks)
        }),
{
    let rest = book.cancelled(id);
    let order = book.orders[id.0];
    let levels = book.side(order.side);
    let queue = level_at(levels, order.price);
    assert(levels.contains_key(order.price));
    assert(queue_ok(book.orders, queue, order.side, order.price));
    lemma_other_side(book, id);
    lemma_reduced_sane(book.orders, queue, order.side, order.price, id, u64::MAX as nat);
    assert(taken(book.orders, id, u64::MAX as nat) == rest.orders);
    lemma_level_changed(
        book.orders,
        rest.orders,
        levels,
        order.side,
        order.price,
        without(queue, id),
    );
    assert forall|x: u64| #[trigger] rest.orders.contains_key(x) implies {
        let o = rest.orders[x];
        let on = if o.side is Buy {
            rest.bids
        } else {
            rest.asks
        };
        &&& o.id.0 == x
        &&& o.remaining > 0
        &&& on.contains_key(o.price)
        &&& on[o.price].contains(o)
    } by {
        assert(book.orders.contains_key(x));
        let o = rest.orders[x];
        if o.side == order.side && o.price == order.price {
            let k = choose|k: int| 0 <= k < queue.len() && queue[k] == o;
            crate::ladder::lemma_reduced_others(queue, id, u64::MAX as nat);
            assert(queue[k].id != id);
            assert(without(queue, id).contains(o));
        }
    }
}

} // verus!
