//! The matching engine: order intake, crossing, time in force and reporting.

use std::collections::HashSet;

use vstd::prelude::*;

use crate::book::{levels_ok, lists, owned, queue_ok, BookView, OrderBook};
use crate::budget::{covered, lemma_covered_goes_on, lemma_covered_step, lemma_sweep_at_most};
use crate::crossing::{
    advance, affordable, alloc_listed, collides, crossed, fair_trade, fills_of, in_time_order,
    lemma_crossed_end, lemma_crossed_step, lemma_crossed_stop, lemma_filled, lemma_fills, lemma_own,
    lemma_progress, lemma_pull, lemma_reduced_time, lemma_settle_time, lemma_shown,
    lemma_traded_concat, lemma_traded_fills, none_added, opening, own, prepared, pull, reachable, self_trade,
    shown, shrinks, submission, timely, traded, trades_of, uncrossed, unfillable, view_lists,
    Crossing, SelfTradePolicy, Submission, Taker,
};
use crate::ladder::{
    best_price, crossable, crosses, fillable, is_best, level_at, reduced, resting_of, set_level,
    without,
};
use crate::order::Order;
use crate::strategy::{
    allocated, fits, generous, valid_allocations, Allocation, MatchingStrategy, RestingOrder,
};
use crate::trade::{ModifyOutcome, OrderStatus, SubmitReport, Trade};
use crate::types::{OrderId, OrderType, Price, Qty, Side, TimeInForce, Timestamp};

verus! {

broadcast use vstd::std_specs::hash::group_hash_axioms;

/// A single-instrument continuous matching engine.
///
/// Crossing (best price first, limit checks, time in force) is the same for
/// every strategy; the strategy only decides how a quantity is shared among the
/// orders of one level.
pub struct MatchingEngine<S: MatchingStrategy> {
    book: OrderBook,
    strategy: S,
    seq: Timestamp,
    stp: SelfTradePolicy,
    view_buf: Vec<RestingOrder>,
    alloc_buf: Vec<Allocation>,
    fills_buf: Vec<(OrderId, Qty)>,
    stp_cancelled: Vec<OrderId>,
}

proof fn lemma_allocated_prefix(allocs: Seq<Allocation>, k: int)
    requires
        0 <= k <= allocs.len(),
    ensures
        allocated(allocs.take(k)) <= allocated(allocs),
    decreases allocs.len(),
{
    if k < allocs.len() {
        lemma_allocated_prefix(allocs.drop_last(), k);
        assert(allocs.drop_last().take(k) =~= allocs.take(k));
    } else {
        assert(allocs.take(k) =~= allocs);
    }
}

impl<S: MatchingStrategy> MatchingEngine<S> {
    /// The resting orders.
    pub closed spec fn resting(self) -> BookView {
        self.book@
    }

    /// The sequence counter.
    pub closed spec fn clock(self) -> u64 {
        self.seq
    }

    /// The self-trade prevention policy.
    pub closed spec fn policy(self) -> SelfTradePolicy {
        self.stp
    }

    /// The allocation strategy.
    pub closed spec fn sharing(self) -> S {
        self.strategy
    }

    /// Makers that self-trade prevention cancelled during the last submission.
    pub closed spec fn pulled(self) -> Seq<OrderId> {
        self.stp_cancelled@
    }

    /// The engine's invariant: a well-formed book in which time priority holds.
    pub closed spec fn wf(self) -> bool {
        &&& self.book.wf()
        &&& timely(self.book@, self.seq)
    }

    /// The resting orders are described consistently and in time priority.
    pub proof fn law_state(&self)
        requires
            self.wf(),
        ensures
            crate::book::agree(self.resting().orders, self.resting().bids, self.resting().asks),
            timely(self.resting(), self.clock()),
            self.resting().orders.dom().finite(),
    {
        self.book.lemma_agree();
    }

    /// An engine with an empty book whose pool reserves `max_orders` slots.
    pub fn with_pool(strategy: S, max_orders: usize, prefault: bool) -> (r: MatchingEngine<S>)
        ensures
            r.wf(),
            r.resting() == BookView::empty(),
            r.clock() == 0,
            r.policy() == SelfTradePolicy::Allow,
            r.sharing() == strategy,
            r.pulled() == Seq::<OrderId>::empty(),
    {
        let book = OrderBook::with_capacity(max_orders, prefault);
        assert(book@ =~= BookView::empty());
        MatchingEngine {
            book,
            strategy,
            seq: 0,
            stp: SelfTradePolicy::Allow,
            view_buf: Vec::new(),
            alloc_buf: Vec::new(),
            fills_buf: Vec::new(),
            stp_cancelled: Vec::new(),
        }
    }

    /// An engine with an empty book and a small pool that grows on demand.
    pub fn new(strategy: S) -> (r: MatchingEngine<S>)
        ensures
            r.wf(),
            r.resting() == BookView::empty(),
            r.clock() == 0,
            r.policy() == SelfTradePolicy::Allow,
            r.sharing() == strategy,
            r.pulled() == Seq::<OrderId>::empty(),
    {
        MatchingEngine::with_pool(strategy, 1024, false)
    }

    /// Where the crossing of `order` stands; `base` trades were there before it.
    spec fn standing(
        self,
        order: Order,
        budget: u128,
        trades: Seq<Trade>,
        base: nat,
    ) -> Crossing {
        Crossing {
            orders: self.book@.orders,
            levels: self.book@.side(order.side.spec_opposite()),
            remaining: order.remaining as nat,
            budget: budget as nat,
            trades: trades.skip(base as int),
            cancelled: self.stp_cancelled@,
            stopped: false,
        }
    }

    /// What one step may not change: the counter, the settings, the order's own
    /// side of the book, and that no order is added.
    spec fn kept(self, before: MatchingEngine<S>, side: Side) -> bool {
        &&& self.wf()
        &&& self.seq == before.seq
        &&& self.stp == before.stp
        &&& self.strategy == before.strategy
        &&& self.book@.side(side) == before.book@.side(side)
        &&& forall|id: u64| #[trigger]
            self.book@.orders.contains_key(id) ==> {
                &&& before.book@.orders.contains_key(id)
                &&& shrinks(self.book@.orders[id], before.book@.orders[id])
            }
    }

    /// The price at which the order can trade next, and how many lots.
    fn reach(&self, order: &Order, budget: u128) -> (r: Option<(Price, Qty)>)
        requires
            self.wf(),
        ensures
            forall|taker: Taker, trades: Seq<Trade>, base: nat|
                #![trigger reachable(taker, self.standing(*order, budget, trades, base))]
                *order == (Order { remaining: order.remaining, ..taker.order }) ==> match r {
                    Some((px, room)) => {
                        let cur = self.standing(*order, budget, trades, base);
                        &&& reachable(taker, cur) == Some(px)
                        &&& room == affordable(cur, px)
                        &&& 0 < room <= order.remaining
                    },
                    None => reachable(taker, self.standing(*order, budget, trades, base)) is None,
                },
    {
        if order.remaining == 0 {
            return None;
        }
        let px: Price = match self.book.best(order.side.opposite()) {
            Some(p) => p,
            None => {
                return None;
            },
        };
        if order.order_type == OrderType::Limit {
            let crossable = match order.side {
                Side::Buy => order.price >= px,
                Side::Sell => order.price <= px,
            };
            if !crossable {
                return None;
            }
        }
        let unit: u128 = if px == 0 {
            1
        } else {
            px as u128
        };
        let lots: u128 = budget / unit;
        let room: Qty = if lots <= order.remaining as u128 {
            lots as u64
        } else {
            order.remaining
        };
        if room == 0 {
            return None;
        }
        Some((px, room))
    }

    /// Reads the level at `px` the way the strategy asks for it.
    fn read_level(&mut self, side: Side, px: Price, room: Qty)
        requires
            old(self).wf(),
        ensures
            final(self).kept(*old(self), side),
            final(self).book@ == old(self).book@,
            final(self).stp_cancelled == old(self).stp_cancelled,
            final(self).view_buf@ == if old(self).strategy.needs_full_level() {
                crate::ladder::resting_seq(level_at(old(self).book@.side(side), px))
            } else {
                crate::ladder::resting_seq(
                    crate::ladder::capped(level_at(old(self).book@.side(side), px), room as int),
                )
            },
    {
        if self.strategy.full_level_required() {
            self.book.level_view_into(side, px, &mut self.view_buf);
        } else {
            self.book.level_view_capped(side, px, room, &mut self.view_buf);
        }
        assert(self.book@ =~= old(self).book@);
    }

    /// Shares `room` lots of the order among the orders in the level view.
    /// Returns what is left of the budget, or `None` if nothing was handed out.
    fn fill_level(
        &mut self,
        order: &mut Order,
        trades: &mut Vec<Trade>,
        budget: u128,
        px: Price,
        room: Qty,
        taker: Ghost<Taker>,
        base: Ghost<nat>,
    ) -> (r: Option<u128>)
        requires
            old(self).wf(),
            *old(order) == (Order { remaining: old(order).remaining, ..taker@.order }),
            taker@.seq == old(self).seq,
            taker@.stp == old(self).stp,
            base@ <= old(trades)@.len(),
            ({
                let cur = old(self).standing(*old(order), budget, old(trades)@, base@);
                &&& reachable(taker@, cur) == Some(px)
                &&& room == affordable(cur, px)
                &&& old(self).view_buf@ == shown(old(self).strategy, cur, px)
                &&& !self_trade(taker@, old(self).view_buf@)
            }),
        ensures
            final(self).kept(*old(self), old(order).side),
            *final(order) == (Order { remaining: final(order).remaining, ..taker@.order }),
            base@ <= final(trades)@.len(),
            final(trades)@.take(base@ as int) == old(trades)@.take(base@ as int),
            traded(final(trades)@.skip(base@ as int)) + final(order).remaining == traded(
                old(trades)@.skip(base@ as int),
            ) + old(order).remaining,
            forall|i: int|
                old(trades)@.len() <= i < final(trades)@.len() ==> fair_trade(
                    taker@,
                    old(self).book@.orders,
                    #[trigger] final(trades)@[i],
                ),
            final(trades)@.len() >= old(trades)@.len(),
            final(trades)@.take(old(trades)@.len() as int) == old(trades)@,
            ({
                let cur = old(self).standing(*old(order), budget, old(trades)@, base@);
                match r {
                    Some(left) => {
                        let next = final(self).standing(*final(order), left, final(trades)@, base@);
                        &&& advance(old(self).strategy, taker@, cur) == Some(next)
                        &&& next.measure() < cur.measure()
                        &&& final(order).remaining <= old(order).remaining
                        &&& left + (old(order).remaining - final(order).remaining) * u64::MAX
                            >= budget
                        &&& taker@.order.side is Buy && covered(cur) ==> covered(next)
                        &&& taker@.order.order_type is Limit ==> crossable(
                            next.levels,
                            taker@.order.side,
                            taker@.order.price,
                        ) + (old(order).remaining - final(order).remaining) == crossable(
                            cur.levels,
                            taker@.order.side,
                            taker@.order.price,
                        )
                    },
                    None => {
                        &&& advance(old(self).strategy, taker@, cur) is None
                        &&& final(self).book@ == old(self).book@
                        &&& final(self).stp_cancelled == old(self).stp_cancelled
                        &&& *final(order) == *old(order)
                        &&& final(trades)@ == old(trades)@
                    },
                }
            }),
    {
        let ghost cur = self.standing(*order, budget, trades@, base@);
        let ghost strategy = self.strategy;
        let ghost view = self.view_buf@;
        let ghost queue = cur.levels[px];
        let ghost maker_side = order.side.spec_opposite();
        proof {
            self.book.lemma_agree();
            assert(levels_ok(cur.orders, cur.levels, maker_side));
            assert(is_best(cur.levels, maker_side, px));
            assert(cur.levels.contains_key(px));
            assert(queue_ok(cur.orders, queue, maker_side, px));
            lemma_shown(strategy, taker@, cur, px);
        }
        self.alloc_buf.clear();
        self.strategy.allocate_into(&self.view_buf, room, &mut self.alloc_buf);
        let ghost allocs = self.alloc_buf@;
        let ghost fills = fills_of(allocs);
        proof {
            assert(allocs =~= strategy.allocation(view, room as nat));
            lemma_fills(queue, view, room as nat, allocs);
            lemma_progress(strategy, taker@, cur);
            lemma_afford(allocated(allocs), px as nat, budget as nat);
        }
        let left: u128 = self.record_fills(
            order,
            trades,
            budget,
            px,
            taker,
            Ghost(cur.orders),
            Ghost(queue),
        );
        proof {
            let made = trades_of(taker@, px, cur.orders, fills);
            assert(trades@.take(base@ as int) =~= old(trades)@.take(base@ as int));
            assert(trades@.take(old(trades)@.len() as int) =~= old(trades)@);
            assert(trades@.skip(base@ as int) =~= old(trades)@.skip(base@ as int) + made);
            lemma_traded_concat(old(trades)@.skip(base@ as int), made);
            lemma_traded_fills(taker@, px, cur.orders, allocs);
            lemma_own(view, order.user);
            assert forall|i: int| old(trades)@.len() <= i < trades@.len() implies fair_trade(
                taker@,
                cur.orders,
                #[trigger] trades@[i],
            ) by {
                let j = i - old(trades)@.len();
                assert(trades@[i] == made[j]);
                assert(alloc_listed(allocs, fills[j]));
                let c = choose|c: int|
                    0 <= c < allocs.len() && (#[trigger] allocs[c]).id == fills[j].0
                        && allocs[c].qty == fills[j].1;
                assert(fits(view, allocs[c]));
                let w = choose|w: int|
                    0 <= w < view.len() && (#[trigger] view[w]).id == allocs[c].id && allocs[c].qty
                        <= view[w].remaining;
                assert(view[w] == resting_of(queue[w]));
                assert(fills[j].1 > 0) by {
                    lemma_fill_positive(allocs, j);
                }
            }
        }
        if self.fills_buf.len() == 0 {
            proof {
                lemma_no_fills(allocs);
                assert(trades@ =~= old(trades)@);
            }
            return None;
        }
        proof {
            assert forall|j: int| 0 <= j < fills.len() implies cur.orders.contains_key(
                (#[trigger] fills[j]).0.0,
            ) by {
                assert(fillable(queue, fills[j]));
            }
            lemma_filled(cur.orders, fills);
            assert(in_time_order(queue));
            lemma_settle_time(queue, fills);
            assert(level_at(cur.levels, px) == queue);
        }
        self.book.apply_fills(order.side.opposite(), px, &self.fills_buf);
        proof {
            let next = self.standing(*order, left, trades@, base@);
            assert(trades@.skip(base@ as int) =~= cur.trades + trades_of(
                taker@,
                px,
                cur.orders,
                fills,
            ));
            assert(next =~= advance(strategy, taker@, cur)->0);
            crate::crossing::lemma_reach_step(strategy, taker@, cur, next, px);
            if taker@.order.side is Buy && covered(cur) {
                lemma_covered_step(strategy, taker@, cur, next, px);
            }
            assert(self.book@.side(order.side) == old(self).book@.side(order.side));
            assert(timely(self.book@, self.seq)) by {
                assert forall|p: u64| #[trigger] self.book@.side(maker_side).contains_key(
                    p,
                ) implies in_time_order(self.book@.side(maker_side)[p]) by {
                    assert(p == px || cur.levels.contains_key(p));
                }
            }
        }
        Some(left)
    }

    /// Walks the other side best price first, sharing each level as the strategy
    /// says, until the order is exhausted or no reachable price remains. Returns
    /// whether self-trade prevention cancelled what is left of the order.
    fn cross(&mut self, order: &mut Order, trades: &mut Vec<Trade>, budget: u128) -> (stopped: bool)
        requires
            old(self).wf(),
            old(self).stp_cancelled@.len() == 0,
        ensures
            final(self).kept(*old(self), old(order).side),
            ({
                let taker = Taker { order: *old(order), stp: old(self).stp, seq: old(self).seq };
                let start = opening(old(self).book@, *old(order), budget as nat);
                let end = crossed(old(self).strategy, taker, start);
                &&& final(self).book@ == old(self).book@.with_side(
                    old(order).side.spec_opposite(),
                    end.levels,
                    end.orders,
                )
                &&& *final(order) == (Order { remaining: end.remaining as u64, ..*old(order) })
                &&& end.remaining <= old(order).remaining
                &&& final(trades)@ == old(trades)@ + end.trades
                &&& final(self).stp_cancelled@ == end.cancelled
                &&& stopped == end.stopped
                &&& !stopped ==> advance(old(self).strategy, taker, end) is None
                &&& end.budget + (old(order).remaining - end.remaining) * u64::MAX >= budget
                &&& old(self).stp is Allow ==> !stopped
                &&& old(self).stp is Allow && old(order).side is Buy && covered(start) ==> covered(
                    end,
                )
                &&& old(self).stp is Allow && old(order).order_type is Limit ==> crossable(
                    end.levels,
                    old(order).side,
                    old(order).price,
                ) + (old(order).remaining - end.remaining) == crossable(
                    start.levels,
                    old(order).side,
                    old(order).price,
                )
                &&& traded(end.trades) + end.remaining == old(order).remaining
                &&& forall|i: int|
                    0 <= i < end.trades.len() ==> fair_trade(
                        taker,
                        old(self).book@.orders,
                        #[trigger] end.trades[i],
                    )
            }),
    {
        let mut left: u128 = budget;
        let ghost side = order.side;
        let ghost taker = Taker { order: *order, stp: self.stp, seq: self.seq };
        let ghost start = opening(self.book@, *order, budget as nat);
        let ghost strategy = self.strategy;
        let ghost base = trades@.len();
        proof {
            assert(trades@.skip(base as int) =~= Seq::<Trade>::empty());
            assert(trades@.take(base as int) =~= trades@);
            assert(self.standing(*order, left, trades@, base) =~= start);
        }
        loop
            invariant
                self.kept(*old(self), side),
                strategy == old(self).strategy,
                side == old(order).side,
                taker == (Taker { order: *old(order), stp: old(self).stp, seq: old(self).seq }),
                *order == (Order { remaining: order.remaining, ..*old(order) }),
                order.remaining <= old(order).remaining,
                base == old(trades)@.len(),
                base <= trades@.len(),
                trades@.take(base as int) == old(trades)@,
                start == opening(old(self).book@, *old(order), budget as nat),
                traded(trades@.skip(base as int)) + order.remaining == old(order).remaining,
                left + (old(order).remaining - order.remaining) * u64::MAX >= budget,
                old(self).stp is Allow && old(order).order_type is Limit ==> crossable(
                    self.standing(*order, left, trades@, base).levels,
                    old(order).side,
                    old(order).price,
                ) + (old(order).remaining - order.remaining) == crossable(
                    start.levels,
                    old(order).side,
                    old(order).price,
                ),
                forall|i: int|
                    base <= i < trades@.len() ==> fair_trade(
                        taker,
                        old(self).book@.orders,
                        #[trigger] trades@[i],
                    ),
                old(self).stp is Allow && old(order).side is Buy && covered(start) ==> covered(
                    self.standing(*order, left, trades@, base),
                ),
                crossed(strategy, taker, start) == crossed(
                    strategy,
                    taker,
                    self.standing(*order, left, trades@, base),
                ),
            decreases self.standing(*order, left, trades@, base).measure(),
        {
            let ghost cur = self.standing(*order, left, trades@, base);
            proof {
                assert(self.book@ =~= old(self).book@.with_side(
                    side.spec_opposite(),
                    cur.levels,
                    cur.orders,
                ));
                assert(trades@ =~= old(trades)@ + cur.trades);
                assert forall|i: int| 0 <= i < cur.trades.len() implies fair_trade(
                    taker,
                    old(self).book@.orders,
                    #[trigger] cur.trades[i],
                ) by {
                    assert(trades@[base + i] == cur.trades[i]);
                }
            }
            let ghost here = *self;
            let ghost so_far = trades@;
            let (px, room): (Price, Qty) = match self.reach(order, left) {
                Some(found) => found,
                None => {
                    proof {
                        assert(reachable(taker, cur) is None);
                        lemma_crossed_end(strategy, taker, cur);
                    }
                    return false;
                },
            };
            assert(reachable(taker, cur) == Some(px));
            self.read_level(order.side.opposite(), px, room);
            let ghost view = self.view_buf@;
            let ghost queue = cur.levels[px];
            let ghost maker_side = side.spec_opposite();
            proof {
                self.book.lemma_agree();
                assert(levels_ok(cur.orders, cur.levels, maker_side));
                assert(is_best(cur.levels, maker_side, px));
                assert(queue_ok(cur.orders, queue, maker_side, px));
                assert(view == shown(strategy, cur, px));
                lemma_shown(strategy, taker, cur, px);
                lemma_own(view, order.user);
                assert(self.standing(*order, left, trades@, base) == cur);
            }
            if self.stp != SelfTradePolicy::Allow && order.user != 0 && self.view_has(order.user) {
                assert(self_trade(taker, view));
                if self.stp == SelfTradePolicy::CancelTaker {
                    proof {
                        lemma_crossed_stop(
                            strategy,
                            taker,
                            cur,
                            Crossing { stopped: true, ..cur },
                        );
                    }
                    return true;
                }
                self.pull_own(order.user, order.side.opposite(), px, Ghost(cur));
                let ghost next = pull(cur, px, own(view, order.user));
                proof {
                    let ids = own(view, order.user);
                    assert(view_lists(view, order.user, ids[0]));
                    let c = choose|c: int|
                        0 <= c < view.len() && (#[trigger] view[c]).id == ids[0] && view[c].user
                            == order.user;
                    assert(view[c] == resting_of(queue[c]));
                    lemma_pull(cur, px, ids);
                    assert(self.book@ =~= old(self).book@.with_side(
                        maker_side,
                        next.levels,
                        next.orders,
                    ));
                }
                if self.stp == SelfTradePolicy::CancelBoth {
                    proof {
                        lemma_crossed_stop(
                            strategy,
                            taker,
                            cur,
                            Crossing { stopped: true, ..next },
                        );
                    }
                    return true;
                }
                proof {
                    lemma_crossed_step(strategy, taker, cur, next);
                    assert(next =~= self.standing(*order, left, trades@, base));
                }
            } else {
                assert(!self_trade(taker, view));
                match self.fill_level(order, trades, left, px, room, Ghost(taker), Ghost(base)) {
                    Some(rest) => {
                        left = rest;
                        proof {
                            assert forall|i: int| base <= i < trades@.len() implies fair_trade(
                                taker,
                                old(self).book@.orders,
                                #[trigger] trades@[i],
                            ) by {
                                if i < so_far.len() {
                                    assert(trades@.take(so_far.len() as int)[i] == so_far[i]);
                                } else {
                                    assert(fair_trade(taker, here.book@.orders, trades@[i]));
                                    assert(here.book@.orders.contains_key(trades@[i].maker.0));
                                }
                            }
                            let next = self.standing(*order, left, trades@, base);
                            lemma_crossed_step(strategy, taker, cur, next);
                        }
                    },
                    None => {
                        proof {
                            lemma_crossed_end(strategy, taker, cur);
                        }
                        return false;
                    },
                }
            }
        }
    }

    /// Decides what becomes of what is left of an order that has crossed.
    fn finalize(&mut self, order: Order) -> (r: (OrderId, OrderStatus, Qty, bool))
        requires
            old(self).wf(),
            order.remaining <= order.quantity,
            order.order_type is Limit && order.tif is Gtc && order.remaining > 0 ==> {
                &&& !old(self).book@.orders.contains_key(order.id.0)
                &&& order.timestamp <= old(self).seq
                &&& forall|id: u64| #[trigger]
                    old(self).book@.orders.contains_key(id) ==> old(
                        self,
                    ).book@.orders[id].timestamp < order.timestamp
            },
        ensures
            final(self).wf(),
            final(self).seq == old(self).seq,
            final(self).stp == old(self).stp,
            final(self).strategy == old(self).strategy,
            final(self).stp_cancelled == old(self).stp_cancelled,
            r.0 == order.id,
            r.2 == order.quantity - order.remaining,
            r.3 == (order.remaining > 0 && order.order_type is Limit && order.tif is Gtc),
            final(self).book@ == if r.3 {
                old(self).book@.inserted(order)
            } else {
                old(self).book@
            },
            r.1 == if order.remaining == 0 {
                OrderStatus::Filled
            } else if r.2 > 0 {
                OrderStatus::PartiallyFilled
            } else if r.3 {
                OrderStatus::Resting
            } else {
                OrderStatus::Cancelled
            },
    {
        let filled: Qty = order.quantity - order.remaining;
        if order.remaining == 0 {
            return (order.id, OrderStatus::Filled, filled, false);
        }
        let rests = order.order_type == OrderType::Limit && order.tif == TimeInForce::Gtc;
        if rests {
            proof {
                self.book.lemma_agree();
            }
            let ghost before = self.book@;
            self.book.insert(order);
            proof {
                let after = before.inserted(order);
                assert(self.book@ =~= after);
                let levels = before.side(order.side);
                assert(in_time_order(level_at(levels, order.price).push(order))) by {
                    let queue = level_at(levels, order.price);
                    let longer = queue.push(order);
                    assert forall|i: int, j: int| 0 <= i < j < longer.len() implies #[trigger]
                    longer[i].timestamp < #[trigger] longer[j].timestamp by {
                        if j == queue.len() {
                            assert(queue_ok(before.orders, queue, order.side, order.price));
                            assert(longer[i] == queue[i]);
                            assert(before.orders.contains_key(queue[i].id.0));
                        } else {
                            assert(longer[i] == queue[i] && longer[j] == queue[j]);
                        }
                    }
                }
                assert(timely(after, self.seq)) by {
                    assert forall|p: u64| #[trigger] after.bids.contains_key(p) implies in_time_order(
                        after.bids[p],
                    ) by {
                        assert((order.side is Buy && p == order.price) || before.bids.contains_key(
                            p,
                        ));
                    }
                    assert forall|p: u64| #[trigger] after.asks.contains_key(p) implies in_time_order(
                        after.asks[p],
                    ) by {
                        assert((order.side is Sell && p == order.price)
                            || before.asks.contains_key(p));
                    }
                }
            }
        }
        let status = if filled > 0 {
            OrderStatus::PartiallyFilled
        } else if rests {
            OrderStatus::Resting
        } else {
            OrderStatus::Cancelled
        };
        (order.id, status, filled, rests)
    }

    /// Submits an order; its trades are appended to `trades`. Returns the order's
    /// id and status, the quantity filled, and whether the remainder rests.
    ///
    /// An order that must be filled completely or not at all, with or without a
    /// budget, is rejected or filled completely, where nothing is prevented from
    /// trading and the strategy hands out whenever it can. A budget buys nothing
    /// that costs nothing, so that for budgets no ask may be at price zero.
    pub fn submit_into(&mut self, order: Order, trades: &mut Vec<Trade>) -> (r: (
        OrderId,
        OrderStatus,
        Qty,
        bool,
    ))
        requires
            old(self).wf(),
            old(self).clock() < u64::MAX,
            !collides(
                old(self).sharing(),
                old(self).policy(),
                old(self).resting(),
                order,
                (old(self).clock() + 1) as u64,
            ),
        ensures
            final(self).wf(),
            final(self).clock() == old(self).clock() + 1,
            final(self).policy() == old(self).policy(),
            final(self).sharing() == old(self).sharing(),
            ({
                let seq = (old(self).clock() + 1) as u64;
                let sub = submission(
                    old(self).sharing(),
                    old(self).policy(),
                    old(self).resting(),
                    order,
                    seq,
                );
                let taker = Taker { order: prepared(order, seq).0, stp: old(self).policy(), seq };
                &&& traded(sub.trades) == sub.filled
                &&& forall|i: int|
                    0 <= i < sub.trades.len() ==> fair_trade(
                        taker,
                        old(self).resting().orders,
                        #[trigger] sub.trades[i],
                    )
                &&& final(self).resting() == sub.book
                &&& final(trades)@ == old(trades)@ + sub.trades
                &&& final(self).pulled() == sub.cancelled
                &&& r.0 == order.id
                &&& r.1 == sub.status
                &&& r.2 == sub.filled
                &&& r.3 == sub.resting
                &&& sub.filled <= order.quantity
                &&& old(self).policy() is Allow && generous(old(self).sharing())
                    && taker.order.order_type is Limit && taker.order.tif is Fok
                    && !(sub.status is Rejected) ==> sub.filled == order.quantity
                &&& old(self).policy() is Allow && generous(old(self).sharing())
                    && order.tif is FokBudget && order.side is Buy
                    && !old(self).resting().asks.contains_key(0)
                    && !(sub.status is Rejected) ==> sub.filled == order.quantity
            }),
            none_added(old(self).resting(), final(self).resting(), order.id.0, r.3),
            generous(old(self).sharing()) && uncrossed(old(self).resting()) ==> uncrossed(
                final(self).resting(),
            ),
    {
        self.seq = self.seq + 1;
        let mut ready = order;
        ready.timestamp = self.seq;
        ready.remaining = ready.quantity;
        self.stp_cancelled.clear();
        let mut budget: u128 = u128::MAX;
        proof {
            assert(trades@ + Seq::<Trade>::empty() =~= trades@);
            assert(self.stp_cancelled@ =~= Seq::<OrderId>::empty());
            self.book.lemma_agree();
        }
        if order.tif == TimeInForce::IocBudget || order.tif == TimeInForce::FokBudget {
            match order.side {
                Side::Sell => {
                    let q: u64 = if order.quantity == 0 {
                        1
                    } else {
                        order.quantity
                    };
                    proof {
                        lemma_ceil(order.price as int, q as int);
                    }
                    let limit: u128 = (order.price as u128 + q as u128 - 1) / q as u128;
                    ready.price = limit as u64;
                    ready.tif = if order.tif == TimeInForce::FokBudget {
                        TimeInForce::Fok
                    } else {
                        TimeInForce::Ioc
                    };
                },
                Side::Buy => {
                    budget = order.price as u128;
                    ready.price = u64::MAX;
                    if order.tif == TimeInForce::FokBudget {
                        let (lots, cost): (Qty, u128) = self.book.cost_to_fill(
                            Side::Buy,
                            order.quantity,
                        );
                        if lots < order.quantity || cost > budget {
                            return (order.id, OrderStatus::Rejected, 0, false);
                        }
                        ready.tif = TimeInForce::IocBudget;
                    }
                },
            }
        }
        assert(ready == prepared(order, self.seq).0);
        assert(budget == prepared(order, self.seq).1);
        if ready.tif == TimeInForce::Fok {
            let reach: u128 = self.book.crossable_qty(ready.side, ready.price);
            if reach < ready.remaining as u128 {
                return (order.id, OrderStatus::Rejected, 0, false);
            }
        }
        assert(!unfillable(old(self).book@, order, self.seq));
        let ghost before = *self;
        let stopped = self.cross(&mut ready, trades, budget);
        let ghost end = crossed(
            self.strategy,
            Taker { order: prepared(order, self.seq).0, stp: self.stp, seq: self.seq },
            opening(old(self).book@, prepared(order, self.seq).0, budget as nat),
        );
        proof {
            let taker = Taker { order: prepared(order, self.seq).0, stp: self.stp, seq: self.seq };
            before.book.lemma_agree();
            self.book.lemma_agree();
            if uncrossed(old(self).book@) {
                lemma_uncrossed_kept(old(self).book@, self.book@);
            }
            if generous(self.strategy) && taker.order.order_type is Limit && end.remaining > 0
                && !stopped && budget == u128::MAX {
                let n = taker.order.remaining - end.remaining;
                assert(n * u64::MAX <= u64::MAX * u64::MAX) by (nonlinear_arith)
                    requires
                        0 <= n <= u64::MAX,
                ;
                crate::crossing::lemma_nothing_left(self.strategy, taker, end);
                crate::ladder::lemma_nothing_crossable(
                    end.levels,
                    taker.order.side,
                    taker.order.price,
                );
            }
        }
        proof {
            let taker = Taker { order: prepared(order, self.seq).0, stp: self.stp, seq: self.seq };
            let start = opening(old(self).book@, taker.order, budget as nat);
            if self.stp is Allow && generous(self.strategy) && order.tif is FokBudget
                && order.side is Buy && !old(self).book@.asks.contains_key(0) {
                lemma_sweep_at_most(start.levels, order.quantity as nat);
                assert(covered(start));
                if end.remaining > 0 {
                    lemma_covered_goes_on(self.strategy, taker, end);
                }
            }
        }
        if stopped {
            let filled: Qty = ready.quantity - ready.remaining;
            let status = if filled > 0 {
                OrderStatus::PartiallyFilled
            } else {
                OrderStatus::Cancelled
            };
            return (order.id, status, filled, false);
        }
        proof {
            assert forall|id: u64| #[trigger] self.book@.orders.contains_key(
                id,
            ) implies self.book@.orders[id].timestamp < ready.timestamp by {
                assert(before.book@.orders.contains_key(id));
                assert(old(self).book@.orders.contains_key(id));
            }
        }
        let ghost met = self.book@;
        let r = self.finalize(ready);
        proof {
            if r.3 && generous(self.strategy) && uncrossed(met) {
                lemma_uncrossed_inserted(met, ready);
            }
        }
        r
    }

    /// Submits an order and reports its outcome.
    pub fn submit(&mut self, order: Order) -> (r: SubmitReport)
        requires
            old(self).wf(),
            old(self).clock() < u64::MAX,
            !collides(
                old(self).sharing(),
                old(self).policy(),
                old(self).resting(),
                order,
                (old(self).clock() + 1) as u64,
            ),
        ensures
            final(self).wf(),
            final(self).clock() == old(self).clock() + 1,
            final(self).policy() == old(self).policy(),
            final(self).sharing() == old(self).sharing(),
            ({
                let sub = submission(
                    old(self).sharing(),
                    old(self).policy(),
                    old(self).resting(),
                    order,
                    (old(self).clock() + 1) as u64,
                );
                &&& final(self).resting() == sub.book
                &&& final(self).pulled() == sub.cancelled
                &&& r.order_id == order.id
                &&& r.status == sub.status
                &&& r.filled == sub.filled
                &&& r.trades@ == sub.trades
                &&& r.resting == sub.resting
            }),
            traded(r.trades@) == r.filled,
            none_added(old(self).resting(), final(self).resting(), order.id.0, r.resting),
            generous(old(self).sharing()) && uncrossed(old(self).resting()) ==> uncrossed(
                final(self).resting(),
            ),
    {
        let mut trades: Vec<Trade> = Vec::new();
        let (order_id, status, filled, resting) = self.submit_into(order, &mut trades);
        proof {
            let sub = submission(
                old(self).sharing(),
                old(self).policy(),
                old(self).resting(),
                order,
                (old(self).clock() + 1) as u64,
            );
            assert(Seq::<Trade>::empty() + sub.trades =~= sub.trades);
        }
        SubmitReport { order_id, status, filled, trades, resting }
    }

    /// Cancels a resting order; `true` if it was there.
    pub fn cancel(&mut self, id: OrderId) -> (r: bool)
        requires
            old(self).wf(),
        ensures
            final(self).wf(),
            final(self).clock() == old(self).clock(),
            final(self).policy() == old(self).policy(),
            final(self).sharing() == old(self).sharing(),
            final(self).pulled() == old(self).pulled(),
            r == old(self).resting().orders.contains_key(id.0),
            final(self).resting() == if r {
                old(self).resting().cancelled(id)
            } else {
                old(self).resting()
            },
    {
        self.remove(id).is_some()
    }

    /// Takes a resting order off the book.
    fn remove(&mut self, id: OrderId) -> (r: Option<Order>)
        requires
            old(self).wf(),
        ensures
            final(self).wf(),
            final(self).seq == old(self).seq,
            final(self).stp == old(self).stp,
            final(self).strategy == old(self).strategy,
            final(self).stp_cancelled == old(self).stp_cancelled,
            match r {
                Some(order) => {
                    &&& old(self).book@.orders.contains_key(id.0)
                    &&& order == old(self).book@.orders[id.0]
                    &&& final(self).book@ == old(self).book@.cancelled(id)
                },
                None => {
                    &&& !old(self).book@.orders.contains_key(id.0)
                    &&& final(self).book@ == old(self).book@
                },
            },
    {
        let ghost before = self.book@;
        proof {
            self.book.lemma_agree();
        }
        let r = self.book.cancel(id);
        proof {
            if r is Some {
                let order = r->0;
                assert(before.orders.contains_key(id.0));
                let levels = before.side(order.side);
                assert(self.book@ =~= before.cancelled(id));
                lemma_reduced_time(level_at(levels, order.price), id, u64::MAX as nat);
                lemma_timely_level(
                    before,
                    order.side,
                    order.price,
                    without(level_at(levels, order.price), id),
                    self.book@.orders,
                    self.seq,
                );
            }
        }
        r
    }

    /// Amends a resting order.
    ///
    /// Reducing the quantity at the same price keeps the order's place in line.
    /// A price change or a larger quantity forfeits it: the order is cancelled
    /// and re-entered at the back of the queue, and may trade on re-entry.
    pub fn modify(&mut self, id: OrderId, new_price: Price, new_qty: Qty) -> (r: ModifyOutcome)
        requires
            old(self).wf(),
            old(self).clock() < u64::MAX,
        ensures
            final(self).wf(),
            final(self).policy() == old(self).policy(),
            final(self).sharing() == old(self).sharing(),
            ({
                let m = modification(
                    old(self).sharing(),
                    old(self).policy(),
                    old(self).resting(),
                    old(self).clock(),
                    id,
                    new_price,
                    new_qty,
                );
                &&& final(self).resting() == m.book
                &&& final(self).clock() == m.seq
                &&& answers(r, id, m.answer)
                &&& final(self).pulled() == match m.answer {
                    Amendment::Requoted(sub) => sub.cancelled,
                    _ => old(self).pulled(),
                }
            }),
    {
        let (price, remaining): (Price, Qty) = match self.book.get(id) {
            Some(order) => (order.price, order.remaining),
            None => {
                return ModifyOutcome::NotFound;
            },
        };
        if new_price == price && new_qty <= remaining {
            if new_qty == 0 {
                self.remove(id);
                return ModifyOutcome::Cancelled { order_id: id };
            }
            let ghost before = self.book@;
            proof {
                self.book.lemma_agree();
            }
            self.book.reduce(id, new_qty);
            proof {
                let order = before.orders[id.0];
                let by = (order.remaining - new_qty) as nat;
                let levels = before.side(order.side);
                let queue = level_at(levels, order.price);
                assert(self.book@ =~= before.resized(id, new_qty));
                lemma_reduced_time(queue, id, by);
                lemma_timely_level(
                    before,
                    order.side,
                    order.price,
                    reduced(queue, id, by),
                    self.book@.orders,
                    self.seq,
                );
            }
            return ModifyOutcome::Reduced { order_id: id, remaining: new_qty };
        }
        match self.remove(id) {
            Some(found) => {
                let mut order = found;
                proof {
                    old(self).book.lemma_agree();
                    assert(order.id == id);
                }
                order.price = new_price;
                order.quantity = new_qty;
                order.remaining = new_qty;
                order.tif = TimeInForce::Gtc;
                ModifyOutcome::Requoted(self.submit(order))
            },
            None => ModifyOutcome::NotFound,
        }
    }

    /// Cancels every order resting for `user`; returns their ids in ascending
    /// order.
    pub fn cancel_all_for_user(&mut self, user: u64) -> (r: Vec<OrderId>)
        requires
            old(self).wf(),
        ensures
            final(self).wf(),
            final(self).clock() == old(self).clock(),
            final(self).policy() == old(self).policy(),
            final(self).sharing() == old(self).sharing(),
            final(self).pulled() == old(self).pulled(),
            forall|i: int, j: int| 0 <= i < j < r@.len() ==> #[trigger] r@[i].0 < #[trigger] r@[j].0,
            forall|id: u64| #[trigger]
                owned(old(self).resting().orders, user).contains(id) <==> r@.contains(OrderId(id)),
            final(self).resting() == cancelled_all(old(self).resting(), r@),
            owned(final(self).resting().orders, user) == Set::<u64>::empty(),
    {
        let ids = self.book.orders_of_user(user);
        let mut i: usize = 0;
        assert(ids@.take(0) =~= Seq::<OrderId>::empty());
        while i < ids.len()
            invariant
                i <= ids@.len(),
                self.wf(),
                self.seq == old(self).seq,
                self.stp == old(self).stp,
                self.strategy == old(self).strategy,
                self.stp_cancelled == old(self).stp_cancelled,
                forall|j: int, k: int| 0 <= j < k < ids@.len() ==> #[trigger] ids@[j].0
                    < #[trigger] ids@[k].0,
                forall|id: u64| #[trigger]
                    owned(old(self).book@.orders, user).contains(id) <==> ids@.contains(OrderId(id)),
                self.book@ == cancelled_all(old(self).book@, ids@.take(i as int)),
                forall|id: u64| #[trigger]
                    self.book@.orders.contains_key(id) <==> old(self).book@.orders.contains_key(id)
                        && !ids@.take(i as int).contains(OrderId(id)),
                forall|id: u64| #[trigger]
                    self.book@.orders.contains_key(id) ==> self.book@.orders[id] == old(
                        self,
                    ).book@.orders[id],
            decreases ids@.len() - i,
        {
            let id = ids[i];
            let ghost before = self.book@;
            proof {
                assert(ids@.contains(OrderId(id.0)));
                assert(owned(old(self).book@.orders, user).contains(id.0));
                assert(!ids@.take(i as int).contains(id)) by {
                    if ids@.take(i as int).contains(id) {
                        let k = choose|k: int| 0 <= k < i && ids@.take(i as int)[k] == id;
                        assert(ids@[k].0 < ids@[i as int].0);
                    }
                }
                assert(before.orders.contains_key(id.0));
            }
            self.remove(id);
            proof {
                let next = ids@.take(i as int + 1);
                assert(next.drop_last() =~= ids@.take(i as int));
                assert(next.last() == id);
                assert forall|x: u64| #[trigger] self.book@.orders.contains_key(x) <==> old(
                    self,
                ).book@.orders.contains_key(x) && !next.contains(OrderId(x)) by {
                    if next.contains(OrderId(x)) && x != id.0 {
                        let k = choose|k: int| 0 <= k < next.len() && next[k] == OrderId(x);
                        assert(ids@.take(i as int)[k] == OrderId(x));
                    }
                    if ids@.take(i as int).contains(OrderId(x)) {
                        let k = choose|k: int|
                            0 <= k < i && ids@.take(i as int)[k] == OrderId(x);
                        assert(next[k] == OrderId(x));
                    }
                    assert(next[i as int] == id);
                    assert(before.orders.contains_key(x) || !before.orders.contains_key(x));
                }
            }
            i = i + 1;
        }
        proof {
            assert(ids@.take(i as int) =~= ids@);
            assert(owned(self.book@.orders, user) =~= Set::<u64>::empty()) by {
                assert forall|id: u64| !owned(self.book@.orders, user).contains(id) by {
                    if owned(self.book@.orders, user).contains(id) {
                        assert(self.book@.orders.contains_key(id));
                        assert(owned(old(self).book@.orders, user).contains(id));
                    }
                }
            }
        }
        ids
    }

    /// Every resting order in time priority; with the sequence counter this is
    /// the engine's complete state.
    pub fn export_orders(&self) -> (r: Vec<Order>)
        requires
            self.wf(),
        ensures
            lists(r@, self.resting().orders),
            in_time_order(r@),
            r@.len() == 0 || r@.last().timestamp <= self.clock(),
    {
        let all = self.book.iter_orders();
        let out = sort_by_time(&all);
        proof {
            let orders = self.book@.orders;
            self.book.lemma_agree();
            assert forall|i: int| 0 <= i < out@.len() implies orders.contains_key(
                (#[trigger] out@[i]).id.0,
            ) && orders[out@[i].id.0] == out@[i] by {
                assert(out@.contains(out@[i]));
                assert(all@.contains(out@[i]));
                let k = choose|k: int| 0 <= k < all@.len() && all@[k] == out@[i];
                assert(orders[all@[k].id.0] == all@[k]);
            }
            assert(out@.no_duplicates()) by {
                assert(all@.no_duplicates()) by {
                    assert forall|i: int, j: int|
                        0 <= i < all@.len() && 0 <= j < all@.len() && i != j implies all@[i]
                        != all@[j] by {
                        if i < j {
                            assert(all@[i].id != all@[j].id);
                        } else {
                            assert(all@[j].id != all@[i].id);
                        }
                    }
                }
                all@.lemma_multiset_has_no_duplicates();
                out@.lemma_multiset_has_no_duplicates_conv();
            }
            assert forall|i: int, j: int| 0 <= i < j < out@.len() implies #[trigger] out@[i].id
                != #[trigger] out@[j].id && out@[i].timestamp < out@[j].timestamp by {
                assert(out@[i] != out@[j]);
                assert(orders[out@[i].id.0] == out@[i] && orders[out@[j].id.0] == out@[j]);
                assert(out@[i].timestamp <= out@[j].timestamp);
            }
            assert forall|id: u64| #[trigger] orders.contains_key(id) implies out@.contains(
                orders[id],
            ) by {
                assert(all@.contains(orders[id]));
            }
        }
        out
    }

    /// Restores exported state on an engine without orders: sets the sequence
    /// counter and re-inserts the orders, oldest first, without matching.
    pub fn restore(&mut self, seq: Timestamp, orders: &Vec<Order>)
        requires
            old(self).wf(),
            old(self).resting() == BookView::empty(),
            restorable(seq, orders@),
        ensures
            final(self).wf(),
            final(self).clock() == seq,
            final(self).policy() == old(self).policy(),
            final(self).sharing() == old(self).sharing(),
            final(self).pulled() == old(self).pulled(),
            final(self).resting() == stacked(orders@),
    {
        self.seq = seq;
        let mut i: usize = 0;
        assert(orders@.take(0) =~= Seq::<Order>::empty());
        while i < orders.len()
            invariant
                i <= orders@.len(),
                restorable(seq, orders@),
                self.wf(),
                self.seq == seq,
                self.stp == old(self).stp,
                self.strategy == old(self).strategy,
                self.stp_cancelled == old(self).stp_cancelled,
                self.book@ == stacked(orders@.take(i as int)),
                forall|id: u64| #[trigger]
                    self.book@.orders.contains_key(id) ==> listed_before(
                        orders@,
                        i as int,
                        self.book@.orders[id],
                    ) && self.book@.orders[id].id.0 == id,
            decreases orders@.len() - i,
        {
            let order = orders[i];
            let ghost before = self.book@;
            proof {
                assert(orders@.take(i as int + 1).drop_last() =~= orders@.take(i as int));
                assert(orders@.take(i as int + 1).last() == order);
                assert forall|id: u64| #[trigger] before.orders.contains_key(id) implies id
                    != order.id.0 && before.orders[id].timestamp < order.timestamp by {
                    let k = choose|k: int|
                        0 <= k < i && #[trigger] orders@[k] == before.orders[id];
                    assert(orders@[k].id != orders@[i as int].id);
                    assert(orders@[k].timestamp < orders@[i as int].timestamp);
                }
                self.book.lemma_agree();
            }
            self.book.insert(order);
            proof {
                lemma_insert_timely(before, order, seq);
                assert(self.book@ =~= before.inserted(order));
                assert forall|id: u64| #[trigger] self.book@.orders.contains_key(
                    id,
                ) implies listed_before(orders@, i + 1, self.book@.orders[id])
                    && self.book@.orders[id].id.0 == id by {
                    if id == order.id.0 {
                        assert(orders@[i as int] == order);
                    } else {
                        assert(listed_before(orders@, i as int, before.orders[id]));
                        let k = choose|k: int|
                            0 <= k < i && #[trigger] orders@[k] == before.orders[id];
                        assert(orders@[k] == self.book@.orders[id]);
                    }
                }
            }
            i = i + 1;
        }
        assert(orders@.take(i as int) =~= orders@);
    }

    /// Sets the self-trade prevention policy.
    pub fn with_stp(self, stp: SelfTradePolicy) -> (r: MatchingEngine<S>)
        ensures
            self.wf() ==> r.wf(),
            r.policy() == stp,
            r.resting() == self.resting(),
            r.clock() == self.clock(),
            r.sharing() == self.sharing(),
            r.pulled() == self.pulled(),
    {
        let mut out = self;
        out.stp = stp;
        out
    }

    /// Convenience constructor for a concrete strategy value.
    pub fn with_strategy(strategy: S) -> (r: MatchingEngine<S>)
        ensures
            r.wf(),
            r.resting() == BookView::empty(),
            r.clock() == 0,
            r.policy() == SelfTradePolicy::Allow,
            r.sharing() == strategy,
            r.pulled() == Seq::<OrderId>::empty(),
    {
        MatchingEngine::new(strategy)
    }

    /// Makers that self-trade prevention cancelled during the last submission.
    pub fn stp_cancelled(&self) -> (r: &Vec<OrderId>)
        ensures
            r@ == self.pulled(),
    {
        &self.stp_cancelled
    }

    /// The sequence counter, the source of time stamps.
    pub fn seq(&self) -> (r: Timestamp)
        ensures
            r == self.clock(),
    {
        self.seq
    }

    /// The active strategy's name.
    pub fn strategy_name(&self) -> (r: &'static str)
        ensures
            r@ == self.sharing().title(),
    {
        self.strategy.name()
    }

    /// The order book.
    pub fn book(&self) -> (r: &OrderBook)
        requires
            self.wf(),
        ensures
            r.wf(),
            r@ == self.resting(),
    {
        &self.book
    }

    /// Books the allocations that hand out something: one trade and one fill
    /// each, taken from the order and its budget. Returns what is left of the
    /// budget.
    fn record_fills(
        &mut self,
        order: &mut Order,
        trades: &mut Vec<Trade>,
        budget: u128,
        px: Price,
        taker: Ghost<Taker>,
        orders: Ghost<Map<u64, Order>>,
        queue: Ghost<Seq<Order>>,
    ) -> (left: u128)
        requires
            old(self).book.wf(),
            orders@ == old(self).book@.orders,
            queue_ok(orders@, queue@, taker@.order.side.spec_opposite(), px),
            taker@.seq == old(self).seq,
            *old(order) == (Order { remaining: old(order).remaining, ..taker@.order }),
            valid_allocations(
                old(self).view_buf@,
                old(order).remaining as nat,
                old(self).alloc_buf@,
            ),
            allocated(old(self).alloc_buf@) * px <= budget,
            old(self).view_buf@.len() <= queue@.len(),
            forall|i: int|
                0 <= i < old(self).view_buf@.len() ==> #[trigger] old(self).view_buf@[i]
                    == resting_of(queue@[i]),
        ensures
            final(self).book == old(self).book,
            final(self).strategy == old(self).strategy,
            final(self).seq == old(self).seq,
            final(self).stp == old(self).stp,
            final(self).stp_cancelled == old(self).stp_cancelled,
            final(self).fills_buf@ == fills_of(old(self).alloc_buf@),
            *final(order) == (Order {
                remaining: (old(order).remaining - allocated(old(self).alloc_buf@)) as u64,
                ..*old(order)
            }),
            left == budget - allocated(old(self).alloc_buf@) * px,
            final(trades)@ == old(trades)@ + trades_of(
                taker@,
                px,
                orders@,
                fills_of(old(self).alloc_buf@),
            ),
    {
        let ghost allocs = self.alloc_buf@;
        let ghost view = self.view_buf@;
        let ghost r0 = order.remaining;
        let mut left: u128 = budget;
        self.fills_buf.clear();
        let mut k: usize = 0;
        proof {
            assert(allocs.take(0) =~= Seq::<Allocation>::empty());
            assert(trades_of(taker@, px, orders@, Seq::<(OrderId, Qty)>::empty())
                =~= Seq::<Trade>::empty());
            assert(trades@ + Seq::<Trade>::empty() =~= trades@);
            assert(0 * px == 0);
        }
        while k < self.alloc_buf.len()
            invariant
                k <= allocs.len(),
                self.alloc_buf@ == allocs,
                self.book == old(self).book,
                self.book.wf(),
                self.strategy == old(self).strategy,
                self.seq == old(self).seq,
                self.stp == old(self).stp,
                self.stp_cancelled == old(self).stp_cancelled,
                orders@ == self.book@.orders,
                taker@.seq == self.seq,
                *old(order) == (Order { remaining: r0, ..taker@.order }),
                *order == (Order { remaining: order.remaining, ..taker@.order }),
                allocated(allocs) <= r0,
                allocated(allocs) * px <= budget,
                order.remaining == r0 - allocated(allocs.take(k as int)),
                left == budget - allocated(allocs.take(k as int)) * px,
                self.fills_buf@ == fills_of(allocs.take(k as int)),
                trades@ == old(trades)@ + trades_of(taker@, px, orders@, self.fills_buf@),
                queue_ok(orders@, queue@, taker@.order.side.spec_opposite(), px),
                valid_allocations(view, r0 as nat, allocs),
                view.len() <= queue@.len(),
                forall|i: int| 0 <= i < view.len() ==> #[trigger] view[i] == resting_of(queue@[i]),
            decreases allocs.len() - k,
        {
            let a = self.alloc_buf[k];
            let ghost f0 = self.fills_buf@;
            proof {
                assert(allocs.take(k as int + 1).drop_last() =~= allocs.take(k as int));
                assert(allocs.take(k as int + 1).last() == a);
                lemma_allocated_prefix(allocs, k as int + 1);
                lemma_spend(
                    allocated(allocs.take(k as int)),
                    a.qty as nat,
                    allocated(allocs),
                    px as nat,
                );
                assert(fits(view, allocs[k as int]));
            }
            if a.qty > 0 {
                let maker_user: u64 = match self.book.get(a.id) {
                    Some(maker) => maker.user,
                    None => 0,
                };
                proof {
                    let w = choose|i: int|
                        0 <= i < view.len() && (#[trigger] view[i]).id == a.id && a.qty
                            <= view[i].remaining;
                    assert(view[w] == resting_of(queue@[w]));
                    assert(orders@.contains_key(queue@[w].id.0));
                }
                let trade = Trade {
                    taker: order.id,
                    maker: a.id,
                    aggressor: order.side,
                    price: px,
                    quantity: a.qty,
                    timestamp: self.seq,
                    maker_user,
                    taker_user: order.user,
                };
                let ghost t0 = trades@;
                trades.push(trade);
                order.remaining = order.remaining - a.qty;
                left = left - px as u128 * a.qty as u128;
                self.fills_buf.push((a.id, a.qty));
                proof {
                    assert(trades_of(taker@, px, orders@, self.fills_buf@) =~= trades_of(
                        taker@,
                        px,
                        orders@,
                        f0,
                    ).push(trade));
                    assert(trades@ =~= old(trades)@ + trades_of(
                        taker@,
                        px,
                        orders@,
                        self.fills_buf@,
                    ));
                }
            }
            k = k + 1;
        }
        proof {
            assert(allocs.take(k as int) =~= allocs);
        }
        left
    }

    /// Whether the level view holds an order of `user`.
    fn view_has(&self, user: u64) -> (r: bool)
        ensures
            r == exists|i: int|
                0 <= i < self.view_buf@.len() && (#[trigger] self.view_buf@[i]).user == user,
    {
        let mut i: usize = 0;
        while i < self.view_buf.len()
            invariant
                i <= self.view_buf@.len(),
                forall|j: int| 0 <= j < i ==> (#[trigger] self.view_buf@[j]).user != user,
            decreases self.view_buf@.len() - i,
        {
            if self.view_buf[i].user == user {
                return true;
            }
            i = i + 1;
        }
        false
    }

    /// Cancels the orders of `user` in the level view.
    fn pull_own(&mut self, user: u64, side: Side, px: Price, cur: Ghost<Crossing>)
        requires
            old(self).wf(),
            cur@.orders == old(self).book@.orders,
            cur@.levels == old(self).book@.side(side),
            cur@.cancelled == old(self).stp_cancelled@,
            cur@.levels.contains_key(px),
            queue_ok(cur@.orders, cur@.levels[px], side, px),
            crate::strategy::valid_level(old(self).view_buf@),
            old(self).view_buf@.len() <= cur@.levels[px].len(),
            forall|i: int|
                0 <= i < old(self).view_buf@.len() ==> #[trigger] old(self).view_buf@[i]
                    == resting_of(cur@.levels[px][i]),
        ensures
            final(self).wf(),
            final(self).seq == old(self).seq,
            final(self).stp == old(self).stp,
            final(self).strategy == old(self).strategy,
            final(self).book@.side(side.spec_opposite()) == old(self).book@.side(
                side.spec_opposite(),
            ),
            ({
                let next = pull(cur@, px, own(old(self).view_buf@, user));
                &&& final(self).book@.orders == next.orders
                &&& final(self).book@.side(side) == next.levels
                &&& final(self).stp_cancelled@ == next.cancelled
            }),
    {
        let ghost view = self.view_buf@;
        let ghost queue = cur@.levels[px];
        let mut i: usize = 0;
        assert(view.take(0) =~= Seq::<RestingOrder>::empty());
        while i < self.view_buf.len()
            invariant
                i <= view.len(),
                self.view_buf@ == view,
                self.wf(),
                self.seq == old(self).seq,
                self.stp == old(self).stp,
                self.strategy == old(self).strategy,
                self.book@.side(side.spec_opposite()) == old(self).book@.side(side.spec_opposite()),
                self.book@.orders == pull(cur@, px, own(view.take(i as int), user)).orders,
                self.book@.side(side) == pull(cur@, px, own(view.take(i as int), user)).levels,
                self.stp_cancelled@ == pull(cur@, px, own(view.take(i as int), user)).cancelled,
                queue_ok(cur@.orders, queue, side, px),
                crate::strategy::valid_level(view),
                view.len() <= queue.len(),
                forall|k: int| 0 <= k < view.len() ==> #[trigger] view[k] == resting_of(queue[k]),
                forall|k: int| #![trigger view[k]]
                    i <= k < view.len() ==> self.book@.orders.contains_key(view[k].id.0)
                        && self.book@.orders[view[k].id.0] == queue[k],
            decreases view.len() - i,
        {
            let r = self.view_buf[i];
            proof {
                assert(view.take(i as int + 1).drop_last() =~= view.take(i as int));
                assert(view.take(i as int + 1).last() == r);
                assert(view[i as int] == resting_of(queue[i as int]));
            }
            if r.user == user {
                let ghost before = self.book@;
                proof {
                    self.book.lemma_agree();
                    assert(before.orders.contains_key(r.id.0));
                    assert(queue[i as int].side == side && queue[i as int].price == px);
                    assert(before.side(side).contains_key(px));
                    lemma_reduced_time(before.side(side)[px], r.id, u64::MAX as nat);
                    let ids = own(view.take(i as int + 1), user);
                    assert(ids.drop_last() =~= own(view.take(i as int), user));
                }
                self.book.cancel(r.id);
                self.stp_cancelled.push(r.id);
                proof {
                    assert forall|k: int| #![trigger view[k]] i + 1 <= k < view.len() implies
                        self.book@.orders.contains_key(view[k].id.0)
                        && self.book@.orders[view[k].id.0] == queue[k] by {
                        assert(view[i as int].id != view[k].id);
                    }
                }
            }
            i = i + 1;
        }
        assert(view.take(i as int) =~= view);
    }
}

impl<S: MatchingStrategy + Copy> MatchingEngine<S> {
    /// Whether `order`, were it submitted now, would come to rest beside an order
    /// with its id. The crossing is run on a copy; the engine stays as it is.
    pub fn would_collide(&self, order: &Order) -> (r: bool)
        requires
            self.wf(),
            self.clock() < u64::MAX,
        ensures
            r == collides(
                self.sharing(),
                self.policy(),
                self.resting(),
                *order,
                (self.clock() + 1) as u64,
            ),
    {
        let ghost seq = (self.seq + 1) as u64;
        if order.order_type != OrderType::Limit || order.tif != TimeInForce::Gtc {
            return false;
        }
        if self.book.get(order.id).is_none() {
            return false;
        }
        let orders = self.export_orders();
        let mut copy = MatchingEngine::with_pool(self.strategy, 0, false).with_stp(self.stp);
        proof {
            self.book.lemma_agree();
            law_restore_undoes_export(self.book@, self.seq, orders@);
        }
        copy.restore(self.seq, &orders);
        copy.seq = self.seq + 1;
        let mut ready = *order;
        ready.timestamp = copy.seq;
        ready.remaining = ready.quantity;
        proof {
            assert(ready == prepared(*order, seq).0);
            assert(!unfillable(self.book@, *order, seq));
        }
        let mut trades: Vec<Trade> = Vec::new();
        let stopped = copy.cross(&mut ready, &mut trades, u128::MAX);
        !stopped && ready.remaining > 0 && copy.book.get(order.id).is_some()
    }
}

proof fn lemma_fill_positive(allocs: Seq<Allocation>, k: int)
    requires
        0 <= k < fills_of(allocs).len(),
    ensures
        fills_of(allocs)[k].1 > 0,
    decreases allocs.len(),
{
    if allocs.len() > 0 {
        let front = fills_of(allocs.drop_last());
        if k < front.len() {
            lemma_fill_positive(allocs.drop_last(), k);
        }
    }
}

/// What an amendment does to a resting order.
pub enum Amendment {
    /// There is no such order.
    NotFound,
    /// Nothing is left of it.
    Cancelled,
    /// Less is left of it; it keeps its place.
    Reduced(u64),
    /// It was taken out and submitted anew.
    Requoted(Submission),
}

/// The outcome of amending an order.
pub struct Modification {
    pub answer: Amendment,
    pub book: BookView,
    pub seq: u64,
}

/// Amending the order `id` to another price and quantity.
pub open spec fn modification<S: MatchingStrategy>(
    strategy: S,
    stp: SelfTradePolicy,
    book: BookView,
    seq: u64,
    id: OrderId,
    price: u64,
    qty: u64,
) -> Modification {
    let order = book.orders[id.0];
    if !book.orders.contains_key(id.0) {
        Modification { answer: Amendment::NotFound, book, seq }
    } else if price == order.price && qty == 0 {
        Modification { answer: Amendment::Cancelled, book: book.cancelled(id), seq }
    } else if price == order.price && qty <= order.remaining {
        Modification { answer: Amendment::Reduced(qty), book: book.resized(id, qty), seq }
    } else {
        let next = (seq + 1) as u64;
        let sub = submission(strategy, stp, book.cancelled(id), requoted(order, price, qty), next);
        Modification { answer: Amendment::Requoted(sub), book: sub.book, seq: next }
    }
}

/// The answer to a request to amend the order `id`.
pub open spec fn answers(r: ModifyOutcome, id: OrderId, amendment: Amendment) -> bool {
    match amendment {
        Amendment::NotFound => r is NotFound,
        Amendment::Cancelled => r == (ModifyOutcome::Cancelled { order_id: id }),
        Amendment::Reduced(qty) => r == (ModifyOutcome::Reduced { order_id: id, remaining: qty }),
        Amendment::Requoted(sub) => {
            &&& r is Requoted
            &&& r->Requoted_0.order_id == id
            &&& r->Requoted_0.status == sub.status
            &&& r->Requoted_0.filled == sub.filled
            &&& r->Requoted_0.trades@ == sub.trades
            &&& r->Requoted_0.resting == sub.resting
        },
    }
}

/// The order re-entered with another price or quantity.
pub open spec fn requoted(order: Order, price: u64, qty: u64) -> Order {
    Order { price, quantity: qty, remaining: qty, tif: TimeInForce::Gtc, ..order }
}

/// The book after each of `ids` was cancelled.
pub open spec fn cancelled_all(book: BookView, ids: Seq<OrderId>) -> BookView
    decreases ids.len(),
{
    if ids.len() == 0 {
        book
    } else {
        cancelled_all(book, ids.drop_last()).cancelled(ids.last())
    }
}

/// The book that holds `orders`, inserted one after the other.
pub open spec fn stacked(orders: Seq<Order>) -> BookView
    decreases orders.len(),
{
    if orders.len() == 0 {
        BookView::empty()
    } else {
        stacked(orders.drop_last()).inserted(orders.last())
    }
}

/// Orders that a book can be rebuilt from: live, distinct, oldest first, and
/// none later than `seq`.
pub open spec fn restorable(seq: u64, orders: Seq<Order>) -> bool {
    &&& in_time_order(orders)
    &&& forall|i: int|
        0 <= i < orders.len() ==> (#[trigger] orders[i]).remaining > 0 && orders[i].timestamp <= seq
    &&& forall|i: int, j: int| 0 <= i < j < orders.len() ==> #[trigger] orders[i].id
        != #[trigger] orders[j].id
}

/// Whether an engine can be rebuilt from a counter and these orders.
pub fn can_restore(seq: Timestamp, orders: &Vec<Order>) -> (r: bool)
    ensures
        r == restorable(seq, orders@),
{
    let mut ids: HashSet<u64> = HashSet::new();
    let mut i: usize = 0;
    while i < orders.len()
        invariant
            i <= orders@.len(),
            restorable(seq, orders@.take(i as int)),
            forall|id: u64| #[trigger]
                ids@.contains(id) <==> exists|k: int|
                    0 <= k < i && (#[trigger] orders@[k]).id.0 == id,
        decreases orders@.len() - i,
    {
        let order = orders[i];
        let ghost so_far = orders@.take(i as int);
        let late: bool = i > 0 && orders[i - 1].timestamp >= order.timestamp;
        if late || order.remaining == 0 || order.timestamp > seq || ids.contains(&order.id.0) {
            proof {
                if restorable(seq, orders@) {
                    assert(orders@[i as int].remaining > 0);
                    if late {
                        assert(orders@[i - 1].timestamp < orders@[i as int].timestamp);
                    } else if ids@.contains(order.id.0) {
                        let k = choose|k: int|
                            0 <= k < i && (#[trigger] orders@[k]).id.0 == order.id.0;
                        assert(orders@[k].id != orders@[i as int].id);
                    }
                }
            }
            return false;
        }
        let ghost known = ids@;
        ids.insert(order.id.0);
        proof {
            let next = orders@.take(i + 1);
            assert(next =~= so_far.push(order));
            assert forall|a: int, b: int| 0 <= a < b < next.len() implies #[trigger] next[a].timestamp
                < #[trigger] next[b].timestamp && next[a].id != next[b].id by {
                assert(so_far[a] == next[a]);
                if b < i {
                    assert(so_far[b] == next[b]);
                } else {
                    assert(so_far[i - 1] == orders@[i - 1]);
                    if known.contains(order.id.0) {
                    } else if next[a].id == order.id {
                        assert(orders@[a].id.0 == order.id.0);
                    }
                }
            }
            assert forall|k: int| 0 <= k < next.len() implies (#[trigger] next[k]).remaining > 0
                && next[k].timestamp <= seq by {
                if k < i {
                    assert(so_far[k] == next[k]);
                }
            }
            assert forall|id: u64| #[trigger] ids@.contains(id) <==> exists|k: int|
                0 <= k < i + 1 && (#[trigger] orders@[k]).id.0 == id by {
                if id == order.id.0 {
                    assert(orders@[i as int].id.0 == id);
                }
                if known.contains(id) {
                    let k = choose|k: int| 0 <= k < i && (#[trigger] orders@[k]).id.0 == id;
                    assert(orders@[k].id.0 == id);
                }
            }
        }
        i += 1;
    }
    assert(orders@.take(i as int) =~= orders@);
    true
}

/// `order` is one of the first `n`.
spec fn listed_before(orders: Seq<Order>, n: int, order: Order) -> bool {
    exists|k: int| 0 <= k < n && #[trigger] orders[k] == order
}

/// A later order at the back of its level keeps the book timely.
proof fn lemma_insert_timely(before: BookView, order: Order, seq: u64)
    requires
        timely(before, seq),
        crate::book::agree(before.orders, before.bids, before.asks),
        order.timestamp <= seq,
        forall|id: u64| #[trigger]
            before.orders.contains_key(id) ==> before.orders[id].timestamp < order.timestamp,
    ensures
        timely(before.inserted(order), seq),
{
    let after = before.inserted(order);
    let queue = level_at(before.side(order.side), order.price);
    let longer = queue.push(order);
    assert forall|i: int, j: int| 0 <= i < j < longer.len() implies #[trigger] longer[i].timestamp
        < #[trigger] longer[j].timestamp by {
        if j == queue.len() {
            assert(before.side(order.side).contains_key(order.price));
            assert(queue_ok(before.orders, queue, order.side, order.price));
            assert(longer[i] == queue[i]);
            assert(before.orders.contains_key(queue[i].id.0));
        } else {
            assert(longer[i] == queue[i] && longer[j] == queue[j]);
        }
    }
    assert forall|p: u64| #[trigger] after.bids.contains_key(p) implies in_time_order(
        after.bids[p],
    ) by {
        assert((order.side is Buy && p == order.price) || before.bids.contains_key(p));
    }
    assert forall|p: u64| #[trigger] after.asks.contains_key(p) implies in_time_order(
        after.asks[p],
    ) by {
        assert((order.side is Sell && p == order.price) || before.asks.contains_key(p));
    }
}

/// The orders in ascending time stamp.
fn sort_by_time(orders: &Vec<Order>) -> (r: Vec<Order>)
    ensures
        r@.to_multiset() == orders@.to_multiset(),
        forall|x: Order| #[trigger] r@.contains(x) <==> orders@.contains(x),
        forall|i: int, j: int| 0 <= i < j < r@.len() ==> #[trigger] r@[i].timestamp
            <= #[trigger] r@[j].timestamp,
{
    let mut out: Vec<Order> = Vec::new();
    let mut i: usize = 0;
    assert(orders@.take(0) =~= Seq::<Order>::empty());
    while i < orders.len()
        invariant
            i <= orders@.len(),
            out@.to_multiset() == orders@.take(i as int).to_multiset(),
            forall|j: int, k: int| 0 <= j < k < out@.len() ==> #[trigger] out@[j].timestamp
                <= #[trigger] out@[k].timestamp,
        decreases orders@.len() - i,
    {
        let order = orders[i];
        let ghost was = out@;
        let mut lo: usize = 0;
        let mut hi: usize = out.len();
        while lo < hi
            invariant
                lo <= hi <= out@.len(),
                out@ == was,
                forall|j: int, k: int| 0 <= j < k < was.len() ==> #[trigger] was[j].timestamp
                    <= #[trigger] was[k].timestamp,
                forall|k: int| 0 <= k < lo ==> (#[trigger] was[k]).timestamp <= order.timestamp,
                forall|k: int| hi <= k < was.len() ==> (#[trigger] was[k]).timestamp
                    > order.timestamp,
            decreases hi - lo,
        {
            let mid: usize = lo + (hi - lo) / 2;
            if out[mid].timestamp <= order.timestamp {
                assert forall|k: int| 0 <= k < mid + 1 implies (#[trigger] was[k]).timestamp
                    <= order.timestamp by {
                    if k < mid {
                        assert(was[k].timestamp <= was[mid as int].timestamp);
                    }
                }
                lo = mid + 1;
            } else {
                assert forall|k: int| mid <= k < was.len() implies (#[trigger] was[k]).timestamp
                    > order.timestamp by {
                    if mid < k {
                        assert(was[mid as int].timestamp <= was[k].timestamp);
                    }
                }
                hi = mid;
            }
        }
        out.insert(lo, order);
        proof {
            was.insert_ensures(lo as int, order);
            broadcast use vstd::seq_lib::group_to_multiset_ensures;

            assert(out@.to_multiset() =~= was.to_multiset().insert(order));
            assert(orders@.take(i as int + 1) =~= orders@.take(i as int).push(order));
            assert forall|j: int, k: int| 0 <= j < k < out@.len() implies #[trigger] out@[j].timestamp
                <= #[trigger] out@[k].timestamp by {
                let a = if j < lo { j } else { j - 1 };
                let b = if k < lo { k } else { k - 1 };
                if j == lo {
                    assert(out@[k] == was[b]);
                } else if k == lo {
                    assert(out@[j] == was[a]);
                } else {
                    assert(out@[j] == was[a] && out@[k] == was[b]);
                }
            }
        }
        i = i + 1;
    }
    proof {
        assert(orders@.take(i as int) =~= orders@);
        broadcast use vstd::seq_lib::group_to_multiset_ensures;

        assert forall|x: Order| #[trigger] out@.contains(x) <==> orders@.contains(x) by {
            assert(out@.to_multiset().contains(x) <==> orders@.to_multiset().contains(x));
        }
    }
    out
}

/// The orders of one side and price, in the order of the list.
spec fn at_level(list: Seq<Order>, side: Side, price: u64) -> Seq<Order>
    decreases list.len(),
{
    if list.len() == 0 {
        list
    } else {
        let front = at_level(list.drop_last(), side, price);
        if list.last().side == side && list.last().price == price {
            front.push(list.last())
        } else {
            front
        }
    }
}

proof fn lemma_at_level(list: Seq<Order>, side: Side, price: u64)
    requires
        in_time_order(list),
    ensures
        in_time_order(at_level(list, side, price)),
        forall|x: Order| #[trigger]
            at_level(list, side, price).contains(x) <==> list.contains(x) && x.side == side
                && x.price == price,
        forall|i: int|
            0 <= i < at_level(list, side, price).len() ==> list.len() > 0 && (#[trigger] at_level(
                list,
                side,
                price,
            )[i]).timestamp <= list.last().timestamp,
    decreases list.len(),
{
    if list.len() > 0 {
        let front = list.drop_last();
        assert forall|i: int, j: int| 0 <= i < j < front.len() implies #[trigger] front[i].timestamp
            < #[trigger] front[j].timestamp by {
            assert(list[i].timestamp < list[j].timestamp);
        }
        lemma_at_level(front, side, price);
        let f = at_level(front, side, price);
        let all = at_level(list, side, price);
        assert forall|i: int| 0 <= i < f.len() implies (#[trigger] f[i]).timestamp
            < list.last().timestamp by {
            assert(list[front.len() - 1].timestamp < list[list.len() - 1].timestamp);
        }
        assert forall|i: int, j: int| 0 <= i < j < all.len() implies #[trigger] all[i].timestamp
            < #[trigger] all[j].timestamp by {
            assert(all[i] == f[i]);
            if j < f.len() {
                assert(all[j] == f[j]);
            }
        }
        assert forall|i: int| 0 <= i < all.len() implies (#[trigger] all[i]).timestamp
            <= list.last().timestamp by {
            if i < f.len() {
                assert(all[i] == f[i]);
            }
        }
        assert forall|x: Order| #[trigger] all.contains(x) <==> list.contains(x) && x.side == side
            && x.price == price by {
            if all.contains(x) {
                let k = choose|k: int| 0 <= k < all.len() && all[k] == x;
                if k < f.len() {
                    assert(f[k] == x);
                    assert(f.contains(x));
                    let m = choose|m: int| 0 <= m < front.len() && front[m] == x;
                    assert(list[m] == x);
                } else {
                    assert(list[list.len() - 1] == x);
                }
            }
            if list.contains(x) && x.side == side && x.price == price {
                let m = choose|m: int| 0 <= m < list.len() && list[m] == x;
                if m < front.len() {
                    assert(front[m] == x);
                    assert(f.contains(x));
                    let k = choose|k: int| 0 <= k < f.len() && f[k] == x;
                    assert(all[k] == x);
                } else {
                    assert(all[all.len() - 1] == x);
                }
            }
        }
    }
}

/// Two queues in time order with the same orders are equal.
proof fn lemma_same_queue(a: Seq<Order>, b: Seq<Order>)
    requires
        in_time_order(a),
        in_time_order(b),
        forall|x: Order| #[trigger] a.contains(x) <==> b.contains(x),
    ensures
        a == b,
    decreases a.len(),
{
    if a.len() == 0 {
        if b.len() > 0 {
            assert(b.contains(b[0]));
            assert(a.contains(b[0]));
        }
        assert(a =~= b);
    } else {
        assert(a.contains(a[0]));
        assert(b.contains(a[0]));
        let x = a.last();
        let y = b.last();
        assert(a[a.len() - 1] == x && b[b.len() - 1] == y);
        assert(a.contains(x) && b.contains(y));
        assert(b.contains(x) && a.contains(y));
        let i = choose|i: int| 0 <= i < a.len() && a[i] == y;
        let j = choose|j: int| 0 <= j < b.len() && b[j] == x;
        if i < a.len() - 1 {
            assert(a[i].timestamp < a[a.len() - 1].timestamp);
            if j < b.len() - 1 {
                assert(b[j].timestamp < b[b.len() - 1].timestamp);
            }
        }
        assert(x == y);
        let fa = a.drop_last();
        let fb = b.drop_last();
        assert forall|z: Order| #[trigger] fa.contains(z) <==> fb.contains(z) by {
            if fa.contains(z) {
                let k = choose|k: int| 0 <= k < fa.len() && fa[k] == z;
                assert(a[k] == z && a.contains(z));
                assert(a[k].timestamp < a[a.len() - 1].timestamp);
                assert(b.contains(z));
                let m = choose|m: int| 0 <= m < b.len() && b[m] == z;
                assert(fb[m] == z);
            }
            if fb.contains(z) {
                let k = choose|k: int| 0 <= k < fb.len() && fb[k] == z;
                assert(b[k] == z && b.contains(z));
                assert(b[k].timestamp < b[b.len() - 1].timestamp);
                assert(a.contains(z));
                let m = choose|m: int| 0 <= m < a.len() && a[m] == z;
                assert(fa[m] == z);
            }
        }
        assert(in_time_order(fa)) by {
            assert forall|p: int, q: int| 0 <= p < q < fa.len() implies #[trigger] fa[p].timestamp
                < #[trigger] fa[q].timestamp by {
                assert(a[p].timestamp < a[q].timestamp);
            }
        }
        assert(in_time_order(fb)) by {
            assert forall|p: int, q: int| 0 <= p < q < fb.len() implies #[trigger] fb[p].timestamp
                < #[trigger] fb[q].timestamp by {
                assert(b[p].timestamp < b[q].timestamp);
            }
        }
        lemma_same_queue(fa, fb);
        assert(a =~= fa.push(x) && b =~= fb.push(y));
    }
}

proof fn lemma_stacked(list: Seq<Order>)
    requires
        forall|i: int, j: int| 0 <= i < j < list.len() ==> #[trigger] list[i].id
            != #[trigger] list[j].id,
    ensures
        forall|side: Side, p: u64| #![trigger at_level(list, side, p)]
            {
                &&& stacked(list).side(side).contains_key(p) <==> at_level(list, side, p).len() > 0
                &&& level_at(stacked(list).side(side), p) == at_level(list, side, p)
            },
        forall|id: u64| #[trigger]
            stacked(list).orders.contains_key(id) ==> list.contains(stacked(list).orders[id])
                && stacked(list).orders[id].id.0 == id,
        forall|x: Order| #[trigger]
            list.contains(x) ==> stacked(list).orders.contains_key(x.id.0)
                && stacked(list).orders[x.id.0] == x,
    decreases list.len(),
{
    if list.len() > 0 {
        let front = list.drop_last();
        let last = list.last();
        assert forall|i: int, j: int| 0 <= i < j < front.len() implies #[trigger] front[i].id
            != #[trigger] front[j].id by {
            assert(list[i].id != list[j].id);
        }
        lemma_stacked(front);
        let before = stacked(front);
        let after = stacked(list);
        assert(list[list.len() - 1] == last);
        assert forall|side: Side, p: u64| #![trigger at_level(list, side, p)]
            {
                &&& after.side(side).contains_key(p) <==> at_level(list, side, p).len() > 0
                &&& level_at(after.side(side), p) == at_level(list, side, p)
            } by {
            assert(level_at(before.side(side), p) == at_level(front, side, p));
        }
        assert forall|id: u64| #[trigger] after.orders.contains_key(id) implies list.contains(
            after.orders[id],
        ) && after.orders[id].id.0 == id by {
            if id != last.id.0 {
                assert(before.orders.contains_key(id));
                let k = choose|k: int| 0 <= k < front.len() && front[k] == before.orders[id];
                assert(list[k] == after.orders[id]);
            }
        }
        assert forall|x: Order| #[trigger] list.contains(x) implies after.orders.contains_key(
            x.id.0,
        ) && after.orders[x.id.0] == x by {
            let k = choose|k: int| 0 <= k < list.len() && list[k] == x;
            if k < front.len() {
                assert(front[k] == x);
                assert(front.contains(x));
                assert(list[k].id != list[list.len() - 1].id);
            }
        }
    }
}

/// Exporting and restoring loses nothing: the book rebuilt from its orders in
/// time priority is the same book, queue positions included.
pub proof fn law_restore_undoes_export(book: BookView, seq: u64, list: Seq<Order>)
    requires
        crate::book::agree(book.orders, book.bids, book.asks),
        timely(book, seq),
        lists(list, book.orders),
        in_time_order(list),
    ensures
        stacked(list) == book,
        restorable(seq, list),
{
    lemma_stacked(list);
    let built = stacked(list);
    assert forall|i: int| 0 <= i < list.len() implies (#[trigger] list[i]).remaining > 0
        && list[i].timestamp <= seq by {
        assert(book.orders.contains_key(list[i].id.0));
    }
    assert(built.orders =~= book.orders) by {
        assert forall|id: u64| built.orders.contains_key(id) <==> book.orders.contains_key(id) by {
            if built.orders.contains_key(id) {
                let x = built.orders[id];
                let k = choose|k: int| 0 <= k < list.len() && list[k] == x;
                assert(book.orders.contains_key(list[k].id.0));
            }
            if book.orders.contains_key(id) {
                assert(list.contains(book.orders[id]));
            }
        }
        assert forall|id: u64| #[trigger] built.orders.contains_key(id) implies built.orders[id]
            == book.orders[id] by {
            let x = built.orders[id];
            let k = choose|k: int| 0 <= k < list.len() && list[k] == x;
            assert(book.orders[list[k].id.0] == list[k]);
        }
    }
    assert forall|side: Side| #[trigger] built.side(side) =~= book.side(side) by {
        assert forall|p: u64| #[trigger] built.side(side).contains_key(p) <==> book.side(
            side,
        ).contains_key(p) by {
            lemma_level_matches(book, list, seq, side, p);
            assert(at_level(list, side, p).len() >= 0);
        }
        assert forall|p: u64| #[trigger] built.side(side).contains_key(p) implies built.side(
            side,
        )[p] == book.side(side)[p] by {
            lemma_level_matches(book, list, seq, side, p);
            assert(at_level(list, side, p).len() > 0);
        }
    }
    assert(built.side(Side::Buy) == book.side(Side::Buy));
    assert(built.side(Side::Sell) == book.side(Side::Sell));
    assert(built =~= book);
}

proof fn lemma_level_matches(book: BookView, list: Seq<Order>, seq: u64, side: Side, p: u64)
    requires
        crate::book::agree(book.orders, book.bids, book.asks),
        timely(book, seq),
        lists(list, book.orders),
        in_time_order(list),
    ensures
        level_at(book.side(side), p) == at_level(list, side, p),
        book.side(side).contains_key(p) <==> at_level(list, side, p).len() > 0,
{
    lemma_at_level(list, side, p);
    let queue = level_at(book.side(side), p);
    let here = at_level(list, side, p);
    if book.side(side).contains_key(p) {
        assert(queue_ok(book.orders, queue, side, p));
    }
    assert(in_time_order(queue));
    assert forall|x: Order| #[trigger] queue.contains(x) <==> here.contains(x) by {
        if queue.contains(x) {
            let k = choose|k: int| 0 <= k < queue.len() && queue[k] == x;
            assert(book.orders[queue[k].id.0] == queue[k]);
            assert(list.contains(book.orders[x.id.0]));
        }
        if here.contains(x) {
            assert(list.contains(x));
            let k = choose|k: int| 0 <= k < list.len() && list[k] == x;
            assert(book.orders[list[k].id.0] == list[k]);
            assert(book.orders.contains_key(x.id.0));
        }
    }
    lemma_same_queue(queue, here);
}

/// Replacing one level by a queue in time order, and dropping or shrinking
/// orders, keeps the book timely.
proof fn lemma_timely_level(
    book: BookView,
    side: Side,
    price: u64,
    queue: Seq<Order>,
    orders: Map<u64, Order>,
    seq: u64,
)
    requires
        timely(book, seq),
        in_time_order(queue),
        forall|id: u64| #[trigger]
            orders.contains_key(id) ==> book.orders.contains_key(id) && orders[id].timestamp
                == book.orders[id].timestamp,
    ensures
        timely(book.with_side(side, set_level(book.side(side), price, queue), orders), seq),
{
    let after = book.with_side(side, set_level(book.side(side), price, queue), orders);
    assert forall|p: u64| #[trigger] after.bids.contains_key(p) implies in_time_order(
        after.bids[p],
    ) by {
        assert((side is Buy && p == price) || book.bids.contains_key(p));
    }
    assert forall|p: u64| #[trigger] after.asks.contains_key(p) implies in_time_order(
        after.asks[p],
    ) by {
        assert((side is Sell && p == price) || book.asks.contains_key(p));
    }
}

/// Rounding a quotient up stays within the dividend.
proof fn lemma_ceil(p: int, q: int)
    by (nonlinear_arith)
    requires
        q >= 1,
        p >= 0,
    ensures
        0 <= (p + q - 1) / q <= p,
{
}

/// What is affordable at `px` costs no more than the budget.
proof fn lemma_afford(lots: nat, px: nat, budget: nat)
    by (nonlinear_arith)
    requires
        lots <= budget / (if px == 0 {
            1nat
        } else {
            px
        }),
    ensures
        lots * px <= budget,
{
}

/// Spending on `y` more lots after `x` of at most `z`, at `px` each.
proof fn lemma_spend(x: nat, y: nat, z: nat, px: nat)
    by (nonlinear_arith)
    requires
        x + y <= z,
        y <= u64::MAX,
        px <= u64::MAX,
    ensures
        (x + y) * px == x * px + y * px,
        (x + y) * px <= z * px,
        y * px == px * y,
        px * y <= u128::MAX,
{
}

proof fn lemma_no_fills(allocs: Seq<Allocation>)
    requires
        fills_of(allocs).len() == 0,
    ensures
        allocated(allocs) == 0,
    decreases allocs.len(),
{
    if allocs.len() > 0 {
        lemma_no_fills(allocs.drop_last());
    }
}

/// Taking orders away, or parts of them, crosses no book.
proof fn lemma_uncrossed_kept(before: BookView, after: BookView)
    requires
        crate::book::agree(before.orders, before.bids, before.asks),
        crate::book::agree(after.orders, after.bids, after.asks),
        uncrossed(before),
        forall|id: u64| #[trigger]
            after.orders.contains_key(id) ==> before.orders.contains_key(id) && shrinks(
                after.orders[id],
                before.orders[id],
            ),
    ensures
        uncrossed(after),
{
    assert forall|b: u64, a: u64| #[trigger]
        after.bids.contains_key(b) && #[trigger] after.asks.contains_key(a) implies b < a by {
        assert(queue_ok(after.orders, after.bids[b], Side::Buy, b));
        assert(queue_ok(after.orders, after.asks[a], Side::Sell, a));
        let x = after.bids[b][0];
        let y = after.asks[a][0];
        assert(after.orders.contains_key(x.id.0) && after.orders.contains_key(y.id.0));
        assert(before.orders.contains_key(x.id.0) && before.orders.contains_key(y.id.0));
        assert(before.bids.contains_key(b) && before.asks.contains_key(a));
    }
}

/// An order that no level of the other side is within the limit of crosses no
/// book where it rests.
pub proof fn lemma_uncrossed_inserted(book: BookView, order: Order)
    requires
        uncrossed(book),
        match best_price(book.side(order.side.spec_opposite()), order.side.spec_opposite()) {
            Some(px) => !crosses(order.side, order.price, px),
            None => true,
        },
    ensures
        uncrossed(book.inserted(order)),
{
    let after = book.inserted(order);
    let other = order.side.spec_opposite();
    let levels = book.side(other);
    assert forall|q: u64| #[trigger] levels.contains_key(q) implies !crosses(
        order.side,
        order.price,
        q,
    ) by {
        crate::ladder::lemma_some_best(levels, other, q);
        let px = best_price(levels, other)->0;
        assert(is_best(levels, other, px));
    }
    assert forall|b: u64, a: u64| #[trigger]
        after.bids.contains_key(b) && #[trigger] after.asks.contains_key(a) implies b < a by {
        if order.side is Buy {
            assert(levels.contains_key(a));
            assert(b == order.price || book.bids.contains_key(b));
        } else {
            assert(levels.contains_key(b));
            assert(a == order.price || book.asks.contains_key(a));
        }
    }
}

} // verus!
