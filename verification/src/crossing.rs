//! Mathematical description of matching: how an incoming order walks the other
//! side of the book.

use vstd::prelude::*;

use crate::book::{filled, queue_ok, BookView};
use crate::ladder::{
    best_price, capped, crosses, level_at, reduced, resting_seq, set_level, settle, without, Levels,
};
use crate::order::Order;
use crate::strategy::{allocated, Allocation, MatchingStrategy, RestingOrder};
use crate::trade::{OrderStatus, Trade};
use crate::types::{OrderId, Qty, Side, TimeInForce};

verus! {

/// What to do when an incoming order would trade against a resting order of the
/// same user. User 0 is unattributed and never matched as self.
#[derive(Clone, Copy, Debug, PartialEq, Eq, Structural)]
pub enum SelfTradePolicy {
    /// No prevention.
    Allow,
    /// Cancel the incoming remainder; resting orders stay.
    CancelTaker,
    /// Cancel the user's resting orders at the touched level and keep matching.
    CancelMaker,
    /// Cancel both.
    CancelBoth,
}

impl Default for SelfTradePolicy {
    fn default() -> (r: SelfTradePolicy)
        ensures
            r == SelfTradePolicy::Allow,
    {
        SelfTradePolicy::Allow
    }
}

/// What stays fixed while an order crosses the book.
pub struct Taker {
    pub order: Order,
    pub stp: SelfTradePolicy,
    pub seq: u64,
}

/// Where the crossing of an order stands: the other side of the book, what is
/// left of the order and of its budget, and what happened so far.
#[verifier::ext_equal]
pub struct Crossing {
    pub orders: Map<u64, Order>,
    pub levels: Levels,
    pub remaining: nat,
    pub budget: nat,
    pub trades: Seq<Trade>,
    pub cancelled: Seq<OrderId>,
    /// Self-trade prevention cancelled what is left of the order.
    pub stopped: bool,
}

impl Crossing {
    /// Strictly smaller after every step.
    pub open spec fn measure(self) -> nat {
        self.remaining + self.orders.dom().len() + if self.stopped {
            0nat
        } else {
            1nat
        }
    }
}

/// Ids of the orders in `view` that `user` owns, oldest first.
pub open spec fn own(view: Seq<RestingOrder>, user: u64) -> Seq<OrderId>
    decreases view.len(),
{
    if view.len() == 0 {
        Seq::empty()
    } else {
        let front = own(view.drop_last(), user);
        if view.last().user == user {
            front.push(view.last().id)
        } else {
            front
        }
    }
}

/// The allocations that hand out something, as fills.
pub open spec fn fills_of(allocs: Seq<Allocation>) -> Seq<(OrderId, Qty)>
    decreases allocs.len(),
{
    if allocs.len() == 0 {
        Seq::empty()
    } else {
        let front = fills_of(allocs.drop_last());
        if allocs.last().qty > 0 {
            front.push((allocs.last().id, allocs.last().qty))
        } else {
            front
        }
    }
}

/// The executions for `fills` at price `px`.
pub open spec fn trades_of(
    taker: Taker,
    px: u64,
    orders: Map<u64, Order>,
    fills: Seq<(OrderId, Qty)>,
) -> Seq<Trade> {
    Seq::new(
        fills.len(),
        |i: int|
            Trade {
                taker: taker.order.id,
                maker: fills[i].0,
                aggressor: taker.order.side,
                price: px,
                quantity: fills[i].1,
                timestamp: taker.seq,
                maker_user: orders[fills[i].0.0].user,
                taker_user: taker.order.user,
            },
    )
}

/// The crossing after the orders `ids` at price `px` were cancelled.
pub open spec fn pull(s: Crossing, px: u64, ids: Seq<OrderId>) -> Crossing
    decreases ids.len(),
{
    if ids.len() == 0 {
        s
    } else {
        let before = pull(s, px, ids.drop_last());
        let id = ids.last();
        Crossing {
            orders: before.orders.remove(id.0),
            levels: set_level(
                before.levels,
                px,
                without(level_at(before.levels, px), id),
            ),
            cancelled: before.cancelled.push(id),
            ..before
        }
    }
}

/// Lots the order can still take at price `px` within its budget.
pub open spec fn affordable(s: Crossing, px: u64) -> nat {
    let price: nat = if px == 0 {
        1
    } else {
        px as nat
    };
    if s.budget / price <= s.remaining {
        s.budget / price
    } else {
        s.remaining
    }
}

/// What the strategy is shown of the level at `px`.
pub open spec fn shown<S: MatchingStrategy>(strategy: S, s: Crossing, px: u64) -> Seq<RestingOrder> {
    let queue = level_at(s.levels, px);
    if strategy.needs_full_level() {
        resting_seq(queue)
    } else {
        resting_seq(capped(queue, affordable(s, px) as int))
    }
}

/// Whether self-trade prevention applies to this view of a level.
pub open spec fn self_trade(taker: Taker, view: Seq<RestingOrder>) -> bool {
    &&& taker.stp != SelfTradePolicy::Allow
    &&& taker.order.user != 0
    &&& own(view, taker.order.user).len() > 0
}

/// The best price on the other side, if the order may trade at it.
pub open spec fn reachable(taker: Taker, s: Crossing) -> Option<u64> {
    if s.stopped || s.remaining == 0 {
        None
    } else {
        match best_price(s.levels, taker.order.side.spec_opposite()) {
            None => None,
            Some(px) => if taker.order.order_type is Limit && !crosses(
                taker.order.side,
                taker.order.price,
                px,
            ) {
                None
            } else if affordable(s, px) == 0 {
                None
            } else {
                Some(px)
            },
        }
    }
}

/// One step of the crossing at the best price, or `None` when it is over.
pub open spec fn advance<S: MatchingStrategy>(strategy: S, taker: Taker, s: Crossing) -> Option<
    Crossing,
> {
    match reachable(taker, s) {
        None => None,
        Some(px) => {
            let view = shown(strategy, s, px);
            if self_trade(taker, view) {
                match taker.stp {
                    SelfTradePolicy::CancelMaker => Some(
                        pull(s, px, own(view, taker.order.user)),
                    ),
                    SelfTradePolicy::CancelBoth => Some(
                        Crossing { stopped: true, ..pull(s, px, own(view, taker.order.user)) },
                    ),
                    _ => Some(Crossing { stopped: true, ..s }),
                }
            } else {
                let allocs = strategy.allocation(view, affordable(s, px));
                let fills = fills_of(allocs);
                if fills.len() == 0 {
                    None
                } else {
                    Some(
                        Crossing {
                            orders: filled(s.orders, fills),
                            levels: set_level(s.levels, px, settle(level_at(s.levels, px), fills)),
                            remaining: (s.remaining - allocated(allocs)) as nat,
                            budget: (s.budget - allocated(allocs) * px) as nat,
                            trades: s.trades + trades_of(taker, px, s.orders, fills),
                            ..s
                        },
                    )
                }
            }
        },
    }
}

/// The crossing carried through to its end.
#[verifier::opaque]
pub open spec fn crossed<S: MatchingStrategy>(strategy: S, taker: Taker, s: Crossing) -> Crossing
    decreases s.measure(),
{
    match advance(strategy, taker, s) {
        None => s,
        Some(t) => if t.measure() < s.measure() {
            crossed(strategy, taker, t)
        } else {
            s
        },
    }
}

/// A crossing that cannot advance is at its end.
pub proof fn lemma_crossed_end<S: MatchingStrategy>(strategy: S, taker: Taker, s: Crossing)
    requires
        advance(strategy, taker, s) is None,
    ensures
        crossed(strategy, taker, s) == s,
{
    reveal(crossed);
}

/// A step that makes progress leads to the same end.
pub proof fn lemma_crossed_step<S: MatchingStrategy>(
    strategy: S,
    taker: Taker,
    s: Crossing,
    t: Crossing,
)
    requires
        advance(strategy, taker, s) == Some(t),
        t.measure() < s.measure(),
    ensures
        crossed(strategy, taker, s) == crossed(strategy, taker, t),
{
    reveal(crossed);
}

/// A stopped crossing is at its end.
pub proof fn lemma_crossed_stop<S: MatchingStrategy>(
    strategy: S,
    taker: Taker,
    s: Crossing,
    t: Crossing,
)
    requires
        advance(strategy, taker, s) == Some(t),
        t.measure() < s.measure(),
        t.stopped,
    ensures
        crossed(strategy, taker, s) == t,
{
    lemma_crossed_step(strategy, taker, s, t);
    lemma_crossed_end(strategy, taker, t);
}

/// The order as it crosses the book, and its budget: a budgeted sell is a limit
/// order at the price that brings the budget in, a budgeted buy crosses at any
/// price while its spend fits.
pub open spec fn prepared(order: Order, seq: u64) -> (Order, nat) {
    let base = Order { timestamp: seq, remaining: order.quantity, ..order };
    match (order.tif, order.side) {
        (TimeInForce::IocBudget, Side::Sell) => (
            Order { price: floor_price(order), tif: TimeInForce::Ioc, ..base },
            u128::MAX as nat,
        ),
        (TimeInForce::FokBudget, Side::Sell) => (
            Order { price: floor_price(order), tif: TimeInForce::Fok, ..base },
            u128::MAX as nat,
        ),
        (TimeInForce::IocBudget, Side::Buy) => (
            Order { price: u64::MAX, ..base },
            order.price as nat,
        ),
        (TimeInForce::FokBudget, Side::Buy) => (
            Order { price: u64::MAX, tif: TimeInForce::IocBudget, ..base },
            order.price as nat,
        ),
        _ => (base, u128::MAX as nat),
    }
}

/// The lowest price at which the whole quantity brings in the budget.
pub open spec fn floor_price(order: Order) -> u64 {
    let q: int = if order.quantity == 0 {
        1
    } else {
        order.quantity as int
    };
    ((order.price + q - 1) / q) as u64
}

/// Whether the order must be filled completely or not at all and cannot be.
pub open spec fn unfillable(book: BookView, order: Order, seq: u64) -> bool {
    let other = book.side(order.side.spec_opposite());
    let (ready, budget) = prepared(order, seq);
    if order.tif is FokBudget && order.side is Buy {
        let (lots, cost) = crate::ladder::sweep_cost(other, Side::Buy, order.quantity as nat);
        lots < order.quantity || cost > budget
    } else {
        ready.tif is Fok && crate::ladder::crossable(other, order.side, ready.price)
            < order.quantity
    }
}

/// The outcome of submitting an order.
pub struct Submission {
    pub book: BookView,
    pub status: OrderStatus,
    pub filled: nat,
    pub resting: bool,
    pub trades: Seq<Trade>,
    pub cancelled: Seq<OrderId>,
}

/// Where crossing starts for an order that is ready to cross.
pub open spec fn opening(book: BookView, ready: Order, budget: nat) -> Crossing {
    Crossing {
        orders: book.orders,
        levels: book.side(ready.side.spec_opposite()),
        remaining: ready.remaining as nat,
        budget,
        trades: Seq::empty(),
        cancelled: Seq::empty(),
        stopped: false,
    }
}

/// Submitting `order` to the book; `seq` is the order's time stamp.
pub open spec fn submission<S: MatchingStrategy>(
    strategy: S,
    stp: SelfTradePolicy,
    book: BookView,
    order: Order,
    seq: u64,
) -> Submission {
    let (ready, budget) = prepared(order, seq);
    if unfillable(book, order, seq) {
        Submission {
            book,
            status: OrderStatus::Rejected,
            filled: 0,
            resting: false,
            trades: Seq::empty(),
            cancelled: Seq::empty(),
        }
    } else {
        let end = crossed(strategy, Taker { order: ready, stp, seq }, opening(book, ready, budget));
        let after = book.with_side(order.side.spec_opposite(), end.levels, end.orders);
        let filled = (order.quantity - end.remaining) as nat;
        let rests = end.remaining > 0 && !end.stopped && ready.order_type is Limit
            && ready.tif is Gtc;
        Submission {
            book: if rests {
                after.inserted(Order { remaining: end.remaining as u64, ..ready })
            } else {
                after
            },
            status: if end.remaining == 0 && !end.stopped {
                OrderStatus::Filled
            } else if filled > 0 {
                OrderStatus::PartiallyFilled
            } else if rests {
                OrderStatus::Resting
            } else {
                OrderStatus::Cancelled
            },
            filled,
            resting: rests,
            trades: end.trades,
            cancelled: end.cancelled,
        }
    }
}

/// Whether an order would come to rest beside a resting order with its id.
pub open spec fn collides<S: MatchingStrategy>(
    strategy: S,
    stp: SelfTradePolicy,
    book: BookView,
    order: Order,
    seq: u64,
) -> bool {
    let (ready, budget) = prepared(order, seq);
    let end = crossed(strategy, Taker { order: ready, stp, seq }, opening(book, ready, budget));
    &&& book.orders.contains_key(order.id.0)
    &&& submission(strategy, stp, book, order, seq).resting
    &&& end.orders.contains_key(order.id.0)
}

/// Trades of two runs add up.
pub proof fn lemma_traded_concat(a: Seq<Trade>, b: Seq<Trade>)
    ensures
        traded(a + b) == traded(a) + traded(b),
    decreases b.len(),
{
    if b.len() == 0 {
        assert(a + b =~= a);
    } else {
        lemma_traded_concat(a, b.drop_last());
        assert((a + b).drop_last() =~= a + b.drop_last());
    }
}

/// What the fills hand out is what their trades exchange.
pub proof fn lemma_traded_fills(
    taker: Taker,
    px: u64,
    orders: Map<u64, Order>,
    allocs: Seq<Allocation>,
)
    ensures
        traded(trades_of(taker, px, orders, fills_of(allocs))) == allocated(allocs),
    decreases allocs.len(),
{
    let fills = fills_of(allocs);
    let trades = trades_of(taker, px, orders, fills);
    if allocs.len() > 0 {
        let front = allocs.drop_last();
        lemma_traded_fills(taker, px, orders, front);
        if allocs.last().qty > 0 {
            assert(trades.drop_last() =~= trades_of(taker, px, orders, fills_of(front)));
        }
    }
}

/// Lots traded in all of `trades`.
pub open spec fn traded(trades: Seq<Trade>) -> nat
    decreases trades.len(),
{
    if trades.len() == 0 {
        0
    } else {
        traded(trades.drop_last()) + trades.last().quantity as nat
    }
}

/// A queue in time priority: strictly later stamps towards the back.
pub open spec fn in_time_order(queue: Seq<Order>) -> bool {
    forall|i: int, j: int| 0 <= i < j < queue.len() ==> #[trigger] queue[i].timestamp
        < #[trigger] queue[j].timestamp
}

/// Time priority holds throughout the book: no two orders share a stamp, none is
/// later than `seq`, and every queue is in time order.
pub open spec fn timely(book: BookView, seq: u64) -> bool {
    &&& forall|id: u64| #[trigger] book.orders.contains_key(id) ==> book.orders[id].timestamp <= seq
    &&& forall|a: u64, b: u64| #[trigger]
        book.orders.contains_key(a) && #[trigger] book.orders.contains_key(b) && a != b
            ==> book.orders[a].timestamp != book.orders[b].timestamp
    &&& forall|p: u64| #[trigger] book.bids.contains_key(p) ==> in_time_order(book.bids[p])
    &&& forall|p: u64| #[trigger] book.asks.contains_key(p) ==> in_time_order(book.asks[p])
}

/// Taking lots from an order keeps the queue in time order.
pub proof fn lemma_reduced_time(queue: Seq<Order>, id: OrderId, by: nat)
    requires
        in_time_order(queue),
    ensures
        in_time_order(reduced(queue, id, by)),
        forall|i: int|
            0 <= i < reduced(queue, id, by).len() ==> queue.len() > 0 && (#[trigger] reduced(
                queue,
                id,
                by,
            )[i]).timestamp <= queue.last().timestamp,
    decreases queue.len(),
{
    if queue.len() > 0 {
        let front = queue.drop_last();
        assert forall|i: int, j: int| 0 <= i < j < front.len() implies #[trigger] front[i].timestamp
            < #[trigger] front[j].timestamp by {
            assert(queue[i].timestamp < queue[j].timestamp);
        }
        lemma_reduced_time(front, id, by);
        let rf = reduced(front, id, by);
        let r = reduced(queue, id, by);
        assert forall|i: int| 0 <= i < rf.len() implies (#[trigger] rf[i]).timestamp
            < queue.last().timestamp by {
            assert(queue[front.len() - 1].timestamp < queue[queue.len() - 1].timestamp);
        }
        assert forall|i: int, j: int| 0 <= i < j < r.len() implies #[trigger] r[i].timestamp
            < #[trigger] r[j].timestamp by {
            assert(r[i] == rf[i]);
            if j < rf.len() {
                assert(r[j] == rf[j]);
            }
        }
        assert forall|i: int| 0 <= i < r.len() implies (#[trigger] r[i]).timestamp
            <= queue.last().timestamp by {
            if i < rf.len() {
                assert(r[i] == rf[i]);
            }
        }
    }
}

/// Settling fills keeps the queue in time order.
pub proof fn lemma_settle_time(queue: Seq<Order>, fills: Seq<(OrderId, Qty)>)
    requires
        in_time_order(queue),
    ensures
        in_time_order(settle(queue, fills)),
    decreases fills.len(),
{
    if fills.len() > 0 {
        lemma_settle_time(queue, fills.drop_last());
        lemma_reduced_time(
            settle(queue, fills.drop_last()),
            fills.last().0,
            fills.last().1 as nat,
        );
    }
}

/// `after` is `before` with the same or a smaller quantity left.
pub open spec fn shrinks(after: Order, before: Order) -> bool {
    &&& after == (Order { remaining: after.remaining, ..before })
    &&& after.remaining <= before.remaining
}

/// Every order of `after` rested in `before`, with as much or more left, except the
/// order `id` where it was `added`.
pub open spec fn none_added(before: BookView, after: BookView, id: u64, added: bool) -> bool {
    forall|k: u64| #[trigger]
        after.orders.contains_key(k) ==> (added && k == id) || (before.orders.contains_key(k)
            && shrinks(after.orders[k], before.orders[k]))
}

/// One execution of `taker` against an order that rested before it came in: at
/// the maker's own price, within the taker's limit, for no more than the maker
/// had left, and never between two orders of one user where that is prevented.
pub open spec fn fair_trade(taker: Taker, resting: Map<u64, Order>, t: Trade) -> bool {
    let maker = resting[t.maker.0];
    &&& resting.contains_key(t.maker.0)
    &&& t.taker == taker.order.id
    &&& t.aggressor == taker.order.side
    &&& t.timestamp == taker.seq
    &&& t.taker_user == taker.order.user
    &&& t.maker_user == maker.user
    &&& maker.side == taker.order.side.spec_opposite()
    &&& t.price == maker.price
    &&& 0 < t.quantity <= maker.remaining
    &&& taker.order.order_type is Limit ==> crosses(taker.order.side, taker.order.price, t.price)
    &&& taker.stp != SelfTradePolicy::Allow && taker.order.user != 0 ==> t.maker_user
        != taker.order.user
}

/// Settling fills removes or shrinks orders; it adds none and keeps stamps.
pub proof fn lemma_filled(orders: Map<u64, Order>, fills: Seq<(OrderId, Qty)>)
    requires
        orders.dom().finite(),
        forall|k: int| 0 <= k < fills.len() ==> orders.contains_key((#[trigger] fills[k]).0.0),
        forall|j: int, k: int| 0 <= j < k < fills.len() ==> #[trigger] fills[j].0
            != #[trigger] fills[k].0,
    ensures
        filled(orders, fills).dom().finite(),
        filled(orders, fills).dom().len() <= orders.dom().len(),
        forall|id: u64| #[trigger]
            filled(orders, fills).contains_key(id) ==> orders.contains_key(id) && shrinks(
                filled(orders, fills)[id],
                orders[id],
            ),
        forall|id: u64|
            orders.contains_key(id) && (forall|k: int|
                0 <= k < fills.len() ==> (#[trigger] fills[k]).0.0 != id) ==> #[trigger] filled(
                orders,
                fills,
            ).contains_key(id),
    decreases fills.len(),
{
    if fills.len() > 0 {
        let front = fills.drop_last();
        assert forall|k: int| 0 <= k < front.len() implies orders.contains_key(
            (#[trigger] front[k]).0.0,
        ) by {
            assert(front[k] == fills[k]);
        }
        lemma_filled(orders, front);
        let id = fills.last().0;
        let before = filled(orders, front);
        assert(orders.contains_key(fills[fills.len() - 1].0.0));
        assert forall|k: int| 0 <= k < front.len() implies (#[trigger] front[k]).0.0 != id.0 by {
            assert(fills[k].0 != fills[fills.len() - 1].0);
        }
        assert(before.contains_key(id.0));
        let after = filled(orders, fills);
        if before[id.0].remaining <= fills.last().1 {
            assert(after.dom() =~= before.dom().remove(id.0));
        } else {
            assert(after.dom() =~= before.dom());
        }
        assert forall|x: u64|
            orders.contains_key(x) && (forall|k: int|
                0 <= k < fills.len() ==> (#[trigger] fills[k]).0.0 != x) implies #[trigger] after.contains_key(
            x,
        ) by {
            assert(fills[fills.len() - 1].0.0 != x);
            assert forall|k: int| 0 <= k < front.len() implies (#[trigger] front[k]).0.0 != x by {
                assert(front[k] == fills[k]);
            }
            assert(before.contains_key(x));
        }
    }
}

/// A capped view is a front of the queue, and not empty unless the queue is.
pub proof fn lemma_capped(queue: Seq<Order>, cap: int)
    ensures
        capped(queue, cap).len() <= queue.len(),
        capped(queue, cap) == queue.take(capped(queue, cap).len() as int),
        queue.len() > 0 ==> capped(queue, cap).len() > 0,
    decreases queue.len(),
{
    if queue.len() == 0 {
        assert(queue.take(0) =~= queue);
    } else if queue[0].remaining < cap {
        let rest = capped(queue.skip(1), cap - queue[0].remaining);
        lemma_capped(queue.skip(1), cap - queue[0].remaining);
        assert(queue.take(1) + queue.skip(1).take(rest.len() as int) =~= queue.take(
            rest.len() as int + 1,
        ));
    }
}

/// What a strategy is shown of a well-formed level is a valid level.
pub proof fn lemma_shown<S: MatchingStrategy>(
    strategy: S,
    taker: Taker,
    s: Crossing,
    px: u64,
)
    requires
        s.levels.contains_key(px),
        queue_ok(s.orders, s.levels[px], taker.order.side.spec_opposite(), px),
    ensures
        crate::strategy::valid_level(shown(strategy, s, px)),
        shown(strategy, s, px).len() > 0,
        shown(strategy, s, px).len() <= s.levels[px].len(),
        forall|i: int|
            0 <= i < shown(strategy, s, px).len() ==> #[trigger] shown(strategy, s, px)[i]
                == crate::ladder::resting_of(s.levels[px][i]),
{
    let queue = s.levels[px];
    lemma_capped(queue, affordable(s, px) as int);
    let view = shown(strategy, s, px);
    assert forall|i: int, j: int| 0 <= i < j < view.len() implies #[trigger] view[i].id
        != #[trigger] view[j].id by {
        assert(queue[i].id != queue[j].id);
    }
    assert forall|i: int| 0 <= i < view.len() implies (#[trigger] view[i]).remaining > 0 by {
        assert(queue[i].remaining > 0);
    }
}

/// The fills of valid allocations are valid fills of the level.
pub proof fn lemma_fills(
    queue: Seq<Order>,
    view: Seq<RestingOrder>,
    incoming: nat,
    allocs: Seq<Allocation>,
)
    requires
        crate::strategy::valid_allocations(view, incoming, allocs),
        view.len() <= queue.len(),
        forall|i: int|
            0 <= i < view.len() ==> #[trigger] view[i] == crate::ladder::resting_of(queue[i]),
    ensures
        crate::ladder::valid_fills(queue, fills_of(allocs)),
        fills_of(allocs).len() > 0 ==> allocated(allocs) > 0,
        forall|k: int|
            0 <= k < fills_of(allocs).len() ==> alloc_listed(allocs, #[trigger] fills_of(allocs)[k]),
    decreases allocs.len(),
{
    if allocs.len() > 0 {
        let front = allocs.drop_last();
        assert forall|i: int| 0 <= i < front.len() implies crate::strategy::fits(
            view,
            #[trigger] front[i],
        ) by {
            assert(front[i] == allocs[i]);
        }
        lemma_fills(queue, view, incoming, front);
        let ff = fills_of(front);
        let f = fills_of(allocs);
        let last = allocs.last();
        assert(allocs[allocs.len() - 1] == last);
        assert(crate::strategy::fits(view, last));
        let w = choose|i: int|
            0 <= i < view.len() && (#[trigger] view[i]).id == last.id && last.qty
                <= view[i].remaining;
        assert(view[w] == crate::ladder::resting_of(queue[w]));
        assert forall|k: int| 0 <= k < f.len() implies crate::ladder::fillable(
            queue,
            #[trigger] f[k],
        ) && alloc_listed(allocs, f[k]) by {
            if k < ff.len() {
                assert(f[k] == ff[k]);
                assert(alloc_listed(front, ff[k]));
                let c = choose|c: int|
                    0 <= c < front.len() && (#[trigger] front[c]).id == ff[k].0 && front[c].qty
                        == ff[k].1;
                assert(allocs[c] == front[c]);
            } else {
                assert(queue[w].id == f[k].0);
                assert(allocs[allocs.len() - 1].id == f[k].0);
            }
        }
        assert forall|j: int, k: int| 0 <= j < k < f.len() implies #[trigger] f[j].0
            != #[trigger] f[k].0 by {
            assert(f[j] == ff[j]);
            if k < ff.len() {
                assert(f[k] == ff[k]);
            } else {
                assert(alloc_listed(front, ff[j]));
                let c = choose|c: int|
                    0 <= c < front.len() && (#[trigger] front[c]).id == ff[j].0 && front[c].qty
                        == ff[j].1;
                assert(allocs[c].id != allocs[allocs.len() - 1].id);
            }
        }
    }
}

/// The fill is one of the allocations.
pub open spec fn alloc_listed(allocs: Seq<Allocation>, fill: (OrderId, Qty)) -> bool {
    exists|c: int| 0 <= c < allocs.len() && (#[trigger] allocs[c]).id == fill.0 && allocs[c].qty
        == fill.1
}

/// Own orders in a view come from the view, each once.
pub proof fn lemma_own(view: Seq<RestingOrder>, user: u64)
    requires
        crate::strategy::valid_level(view),
    ensures
        forall|k: int|
            0 <= k < own(view, user).len() ==> view_lists(view, user, #[trigger] own(view, user)[k]),
        forall|j: int, k: int|
            0 <= j < k < own(view, user).len() ==> #[trigger] own(view, user)[j] != #[trigger] own(
                view,
                user,
            )[k],
        own(view, user).len() == 0 <==> forall|i: int|
            0 <= i < view.len() ==> (#[trigger] view[i]).user != user,
    decreases view.len(),
{
    if view.len() > 0 {
        let front = view.drop_last();
        assert forall|i: int, j: int| 0 <= i < j < front.len() implies #[trigger] front[i].id
            != #[trigger] front[j].id by {
            assert(view[i].id != view[j].id);
        }
        assert forall|i: int| 0 <= i < front.len() implies (#[trigger] front[i]).remaining > 0 by {
            assert(view[i].remaining > 0);
        }
        lemma_own(front, user);
        let of = own(front, user);
        let o = own(view, user);
        assert(view[view.len() - 1] == view.last());
        assert forall|k: int| 0 <= k < o.len() implies view_lists(view, user, #[trigger] o[k]) by {
            if k < of.len() {
                assert(view_lists(front, user, of[k]));
                let c = choose|c: int|
                    0 <= c < front.len() && (#[trigger] front[c]).id == of[k] && front[c].user
                        == user;
                assert(view[c] == front[c]);
            }
        }
        assert forall|j: int, k: int| 0 <= j < k < o.len() implies #[trigger] o[j]
            != #[trigger] o[k] by {
            if k == of.len() {
                assert(view_lists(front, user, of[j]));
                let c = choose|c: int|
                    0 <= c < front.len() && (#[trigger] front[c]).id == of[j] && front[c].user
                        == user;
                assert(view[c].id != view[view.len() - 1].id);
            }
        }
        if o.len() == 0 {
            assert forall|i: int| 0 <= i < view.len() implies (#[trigger] view[i]).user != user by {
                if i < front.len() {
                    assert(front[i].user != user);
                }
            }
        }
        if forall|i: int| 0 <= i < view.len() ==> (#[trigger] view[i]).user != user {
            assert forall|i: int| 0 <= i < front.len() implies (#[trigger] front[i]).user != user by {
                assert(view[i] == front[i]);
            }
        }
    }
}

/// The view holds an order of `user` with this id.
pub open spec fn view_lists(view: Seq<RestingOrder>, user: u64, id: OrderId) -> bool {
    exists|c: int| 0 <= c < view.len() && (#[trigger] view[c]).id == id && view[c].user == user
}

/// Cancelling orders removes exactly those ids.
pub proof fn lemma_pull(s: Crossing, px: u64, ids: Seq<OrderId>)
    requires
        s.orders.dom().finite(),
    ensures
        pull(s, px, ids).orders.dom().finite(),
        pull(s, px, ids).orders.dom().len() <= s.orders.dom().len(),
        ids.len() > 0 && s.orders.contains_key(ids[0].0) ==> pull(s, px, ids).orders.dom().len()
            < s.orders.dom().len(),
        pull(s, px, ids).remaining == s.remaining,
        pull(s, px, ids).stopped == s.stopped,
        pull(s, px, ids).budget == s.budget,
        pull(s, px, ids).trades == s.trades,
        forall|id: u64| #[trigger]
            pull(s, px, ids).orders.contains_key(id) ==> s.orders.contains_key(id) && pull(
                s,
                px,
                ids,
            ).orders[id] == s.orders[id],
    decreases ids.len(),
{
    if ids.len() > 0 {
        lemma_pull(s, px, ids.drop_last());
        let before = pull(s, px, ids.drop_last());
        let after = pull(s, px, ids);
        assert(after.orders.dom() =~= before.orders.dom().remove(ids.last().0));
        if ids.len() == 1 {
            assert(ids.drop_last() =~= Seq::<OrderId>::empty());
        } else {
            assert(ids.drop_last()[0] == ids[0]);
        }
    }
}

/// Every step of a crossing makes progress, so crossing comes to an end.
pub proof fn lemma_progress<S: MatchingStrategy>(
    strategy: S,
    taker: Taker,
    s: Crossing,
)
    requires
        s.orders.dom().finite(),
        crate::book::levels_ok(s.orders, s.levels, taker.order.side.spec_opposite()),
        s.remaining <= u64::MAX,
        reachable(taker, s) matches Some(px) ==> crate::strategy::valid_allocations(
            shown(strategy, s, px),
            affordable(s, px),
            strategy.allocation(shown(strategy, s, px), affordable(s, px)),
        ),
    ensures
        advance(strategy, taker, s) matches Some(t) ==> {
            &&& t.measure() < s.measure()
            &&& t.orders.dom().finite()
            &&& t.remaining <= s.remaining
            &&& forall|id: u64| #[trigger] t.orders.contains_key(id) ==> s.orders.contains_key(id)
        },
{
    if let Some(px) = reachable(taker, s) {
        assert(crate::ladder::is_best(s.levels, taker.order.side.spec_opposite(), px));
        assert(s.levels.contains_key(px));
        let queue = s.levels[px];
        assert(queue_ok(s.orders, queue, taker.order.side.spec_opposite(), px));
        lemma_shown(strategy, taker, s, px);
        let view = shown(strategy, s, px);
        if self_trade(taker, view) {
            let ids = own(view, taker.order.user);
            lemma_own(view, taker.order.user);
            assert(view_lists(view, taker.order.user, ids[0]));
            let c = choose|c: int|
                0 <= c < view.len() && (#[trigger] view[c]).id == ids[0] && view[c].user
                    == taker.order.user;
            assert(view[c] == crate::ladder::resting_of(queue[c]));
            lemma_pull(s, px, ids);
        } else {
            let allocs = strategy.allocation(view, affordable(s, px));
            let fills = fills_of(allocs);
            lemma_fills(queue, view, affordable(s, px), allocs);
            assert forall|k: int| 0 <= k < fills.len() implies s.orders.contains_key(
                (#[trigger] fills[k]).0.0,
            ) by {
                assert(crate::ladder::fillable(queue, fills[k]));
            }
            lemma_filled(s.orders, fills);
        }
    }
}

pub proof fn lemma_handed(allocs: Seq<Allocation>)
    ensures
        crate::ladder::handed(fills_of(allocs)) == allocated(allocs),
    decreases allocs.len(),
{
    if allocs.len() > 0 {
        lemma_handed(allocs.drop_last());
        if allocs.last().qty > 0 {
            assert(fills_of(allocs).drop_last() =~= fills_of(allocs.drop_last()));
        }
    }
}

/// A step that fills takes what it hands out from what the order can reach, and
/// spends no more than that at the highest price.
pub proof fn lemma_reach_step<S: MatchingStrategy>(
    strategy: S,
    taker: Taker,
    s: Crossing,
    t: Crossing,
    px: u64,
)
    requires
        crate::book::levels_ok(s.orders, s.levels, taker.order.side.spec_opposite()),
        s.remaining <= u64::MAX,
        reachable(taker, s) == Some(px),
        !self_trade(taker, shown(strategy, s, px)),
        crate::strategy::valid_allocations(
            shown(strategy, s, px),
            affordable(s, px),
            strategy.allocation(shown(strategy, s, px), affordable(s, px)),
        ),
        advance(strategy, taker, s) == Some(t),
    ensures
        t.remaining <= s.remaining,
        t.budget + (s.remaining - t.remaining) * u64::MAX >= s.budget,
        taker.order.order_type is Limit ==> crate::ladder::crossable(
            t.levels,
            taker.order.side,
            taker.order.price,
        ) + (s.remaining - t.remaining) == crate::ladder::crossable(
            s.levels,
            taker.order.side,
            taker.order.price,
        ),
{
    let side = taker.order.side.spec_opposite();
    assert(crate::ladder::is_best(s.levels, side, px));
    assert(s.levels.contains_key(px));
    let queue = s.levels[px];
    assert(queue_ok(s.orders, queue, side, px));
    lemma_shown(strategy, taker, s, px);
    let view = shown(strategy, s, px);
    let allocs = strategy.allocation(view, affordable(s, px));
    let fills = fills_of(allocs);
    lemma_fills(queue, view, affordable(s, px), allocs);
    lemma_handed(allocs);
    assert(crate::ladder::distinct(queue));
    crate::ladder::lemma_settle_total(queue, fills);
    let n = allocated(allocs);
    assert(affordable(s, px) <= s.remaining);
    assert(n * px <= n * u64::MAX) by (nonlinear_arith)
        requires
            px <= u64::MAX,
            n >= 0,
    ;
    if px > 0 {
        let room = affordable(s, px);
        assert(room * px <= s.budget) by {
            assert((s.budget / px as nat) * px <= s.budget) by (nonlinear_arith)
                requires
                    px > 0,
            ;
            assert(room * px <= (s.budget / px as nat) * px) by (nonlinear_arith)
                requires
                    room <= s.budget / px as nat,
                    px > 0,
            ;
        }
        assert(n * px <= room * px) by (nonlinear_arith)
            requires
                n <= room,
                px > 0,
        ;
    } else {
        assert(n * px == 0) by (nonlinear_arith)
            requires
                px == 0,
        ;
    }
    if taker.order.order_type is Limit {
        crate::ladder::lemma_crossable_step(
            s.levels,
            taker.order.side,
            taker.order.price,
            px,
            settle(queue, fills),
        );
    }
}

/// A generous strategy leaves nothing within reach: when crossing cannot go on
/// though something is left of the order, no level is within its limit.
pub proof fn lemma_nothing_left<S: MatchingStrategy>(strategy: S, taker: Taker, s: Crossing)
    requires
        crate::book::levels_ok(s.orders, s.levels, taker.order.side.spec_opposite()),
        crate::strategy::generous(strategy),
        advance(strategy, taker, s) is None,
        taker.order.order_type is Limit,
        !s.stopped,
        0 < s.remaining <= u64::MAX,
        s.budget >= u64::MAX,
    ensures
        match best_price(s.levels, taker.order.side.spec_opposite()) {
            Some(px) => !crosses(taker.order.side, taker.order.price, px),
            None => true,
        },
{
    let side = taker.order.side.spec_opposite();
    if let Some(px) = best_price(s.levels, side) {
        assert(crate::ladder::is_best(s.levels, side, px));
        if crosses(taker.order.side, taker.order.price, px) {
            let price: nat = if px == 0 {
                1
            } else {
                px as nat
            };
            assert(s.budget / price >= 1) by (nonlinear_arith)
                requires
                    s.budget >= price,
                    price > 0,
            ;
            assert(affordable(s, px) > 0);
            assert(reachable(taker, s) == Some(px));
            assert(queue_ok(s.orders, s.levels[px], side, px));
            lemma_shown(strategy, taker, s, px);
            let view = shown(strategy, s, px);
            let allocs = strategy.allocation(view, affordable(s, px));
            assert(affordable(s, px) <= s.remaining);
            assert(allocated(allocs) > 0);
            lemma_handed(allocs);
            assert(fills_of(allocs).len() > 0);
        }
    }
}

/// No bid is at or above an ask.
pub open spec fn uncrossed(book: BookView) -> bool {
    forall|b: u64, a: u64| #[trigger]
        book.bids.contains_key(b) && #[trigger] book.asks.contains_key(a) ==> b < a
}

/// Only what is left of a good-till-cancelled limit order comes to rest, and an
/// order that is rejected changes nothing.
pub proof fn law_what_rests_and_what_is_rejected<S: MatchingStrategy>(
    strategy: S,
    stp: SelfTradePolicy,
    book: BookView,
    order: Order,
    seq: u64,
)
    ensures
        ({
            let sub = submission(strategy, stp, book, order, seq);
            &&& sub.resting ==> order.order_type is Limit && order.tif is Gtc
            &&& sub.status is Rejected ==> sub.book == book && sub.trades.len() == 0
                && sub.cancelled.len() == 0 && !sub.resting
        }),
{
}

} // verus!
