//! Laws of the command processor, told by the books before and after a command and by
//! the reports that it gives out.

use vstd::prelude::*;

use crate::book::{agree, owned, BookView};
use crate::crossing::{submission, traded};
use crate::engine::cancelled_all;
use crate::exchange::{
    applied, cancel_reports, engine_at, lemma_roster, liquidated, placed, screened, trade_report,
    trade_reports, Command, EngineView, Engines, ExecReport, RejectReason, Rules,
};
use crate::fees::FeeSchedule;
use crate::matching_laws::{lawful, lemma_cancelled, lemma_place_closed};
use crate::order::Order;
use crate::projection::{change, law_rows_follow_the_reports, RowChange, RowStatus};
use crate::risk::RiskLimits;
use crate::strategy::{generous, MatchingStrategy};
use crate::submission_laws::{
    law_no_lot_is_lost, law_orders_go_on_while_they_may, law_status_tells_the_fill,
    law_trades_meet_resting_orders, law_what_is_left_rests, rests_opposite,
};
use crate::trade::Trade;
use crate::types::{InstrumentId, OrderId, OrderType, Side, TimeInForce};
use crate::wire::{decoded, ExecutionEvent};

verus! {

/// Lots that the trades among `reports` exchange.
pub open spec fn reported_lots(reports: Seq<ExecReport>) -> nat
    decreases reports.len(),
{
    if reports.len() == 0 {
        0
    } else {
        reported_lots(reports.drop_last()) + match reports.last() {
            ExecReport::Trade { qty, .. } => qty as nat,
            _ => 0,
        }
    }
}

proof fn lemma_lots_concat(a: Seq<ExecReport>, b: Seq<ExecReport>)
    ensures
        reported_lots(a + b) == reported_lots(a) + reported_lots(b),
    decreases b.len(),
{
    if b.len() == 0 {
        assert(a + b =~= a);
    } else {
        lemma_lots_concat(a, b.drop_last());
        assert((a + b).drop_last() =~= a + b.drop_last());
    }
}

proof fn lemma_lots_traded(fees: FeeSchedule, instrument: InstrumentId, trades: Seq<Trade>)
    ensures
        reported_lots(trade_reports(fees, instrument, trades)) == traded(trades),
    decreases trades.len(),
{
    let reports = trade_reports(fees, instrument, trades);
    if trades.len() > 0 {
        lemma_lots_traded(fees, instrument, trades.drop_last());
        assert(reports.drop_last() =~= trade_reports(fees, instrument, trades.drop_last()));
        assert(reports.last() == trade_report(fees, instrument, trades.last()));
    }
}

/// Reports without a trade exchange nothing.
proof fn lemma_no_lots(reports: Seq<ExecReport>)
    requires
        forall|i: int| 0 <= i < reports.len() ==> !((#[trigger] reports[i]) is Trade),
    ensures
        reported_lots(reports) == 0,
    decreases reports.len(),
{
    if reports.len() > 0 {
        let front = reports.drop_last();
        assert forall|i: int| 0 <= i < front.len() implies !((#[trigger] front[i]) is Trade) by {
            assert(front[i] == reports[i]);
        }
        lemma_no_lots(front);
        assert(reports[reports.len() - 1] == reports.last());
    }
}

/// A command changes no instrument but its own.
pub proof fn law_commands_touch_their_instrument_only<S: MatchingStrategy>(
    rules: Rules<S>,
    engines: Engines,
    command: Command,
    other: InstrumentId,
)
    requires
        other != (match command {
            Command::New(order) => order.instrument,
            Command::Cancel { instrument, .. } => instrument,
            Command::Modify { instrument, .. } => instrument,
            Command::ForceClose { instrument, .. } => instrument,
        }),
    ensures
        engine_at(applied(rules, engines, command).0, other) == engine_at(engines, other),
{
}

/// A cancelled order is gone, the orders behind it move up, and nothing else changes; one
/// that does not rest is not found.
pub proof fn law_cancel_takes_one_order_away<S: MatchingStrategy>(
    rules: Rules<S>,
    engines: Engines,
    instrument: InstrumentId,
    order_id: OrderId,
    cmd_id: u64,
)
    requires
        ({
            let book = engine_at(engines, instrument).book;
            book.orders.dom().finite() && agree(book.orders, book.bids, book.asks)
        }),
    ensures
        ({
            let before = engine_at(engines, instrument);
            let (end, reports) = applied(
                rules,
                engines,
                Command::Cancel { instrument, order_id, cmd_id },
            );
            let after = engine_at(end, instrument);
            let order = before.book.orders[order_id.0];
            &&& after.seq == before.seq
            &&& !before.book.orders.contains_key(order_id.0) ==> {
                &&& reports == seq![ExecReport::NotFound { instrument, order_id }]
                &&& after == before
            }
            &&& before.book.orders.contains_key(order_id.0) ==> {
                &&& reports == seq![ExecReport::Cancelled { instrument, order_id }]
                &&& after.book.orders == before.book.orders.remove(order_id.0)
                &&& order.side == Side::Buy ==> after.book.asks == before.book.asks && closed_up(
                    before.book.bids,
                    after.book.bids,
                    order,
                )
                &&& order.side == Side::Sell ==> after.book.bids == before.book.bids && closed_up(
                    before.book.asks,
                    after.book.asks,
                    order,
                )
            }
        }),
{
    let before = engine_at(engines, instrument);
    if before.book.orders.contains_key(order_id.0) {
        lemma_cancelled(before.book, order_id);
        let order = before.book.orders[order_id.0];
        let levels = if order.side == Side::Buy {
            before.book.bids
        } else {
            before.book.asks
        };
        let queue = levels[order.price];
        let k = choose|k: int| 0 <= k < queue.len() && queue[k] == order;
        assert(crate::book::queue_ok(before.book.orders, queue, order.side, order.price));
        lemma_place_closed(queue, k);
        let after = before.book.cancelled(order_id);
        let now = if order.side == Side::Buy {
            after.bids
        } else {
            after.asks
        };
        assert(queue.remove(k).len() == queue.len() - 1);
        if queue.len() > 1 {
            assert(now =~= levels.insert(order.price, queue.remove(k)));
        } else {
            assert(now =~= levels.remove(order.price));
        }
        assert(closed_up(levels, now, order)) by {
            assert(queue[k] == order);
        }
    }
}

/// `after` is `before` with the place of `order` closed up; a price at which it was alone
/// is gone.
pub open spec fn closed_up(
    before: Map<u64, Seq<Order>>,
    after: Map<u64, Seq<Order>>,
    order: Order,
) -> bool {
    exists|k: int|
        0 <= k < before[order.price].len() && #[trigger] before[order.price][k] == order && after
            == (if before[order.price].len() == 1 {
            before.remove(order.price)
        } else {
            before.insert(order.price, before[order.price].remove(k))
        })
}

/// The reports of an order that was let through: that it was accepted, what prevention
/// cancelled, its trades, and what became of it.
proof fn lemma_placed<S: MatchingStrategy>(rules: Rules<S>, engines: Engines, order: Order)
    requires
        screened(rules, engine_at(engines, order.instrument).book, order) is Ok,
    ensures
        ({
            let book = engine_at(engines, order.instrument).book;
            let seq = (engine_at(engines, order.instrument).seq + 1) as u64;
            let ready = screened(rules, book, order)->Ok_0;
            let sub = submission(rules.strategy, rules.stp, book, ready, seq);
            let (end, reports) = placed(rules, engines, order);
            &&& engine_at(end, order.instrument) == (EngineView { book: sub.book, seq })
            &&& reports.len() >= 2
            &&& reports[0] == (ExecReport::Accepted {
                instrument: order.instrument,
                order_id: order.id,
            })
            &&& reported_lots(reports) == traded(sub.trades)
            &&& forall|i: int|
                0 <= i < reports.len() && (#[trigger] reports[i]) is Trade ==> of_trades(
                    rules.fees,
                    order.instrument,
                    sub.trades,
                    reports[i],
                )
        }),
{
    let book = engine_at(engines, order.instrument).book;
    let seq = (engine_at(engines, order.instrument).seq + 1) as u64;
    let ready = screened(rules, book, order)->Ok_0;
    let sub = submission(rules.strategy, rules.stp, book, ready, seq);
    let (end, reports) = placed(rules, engines, order);
    let head = seq![
        ExecReport::Accepted { instrument: order.instrument, order_id: order.id },
    ];
    let pulled = if rules.stp is Allow {
        Seq::empty()
    } else {
        cancel_reports(order.instrument, sub.cancelled)
    };
    let made = trade_reports(rules.fees, order.instrument, sub.trades);
    let tail = seq![reports.last()];
    assert(reports =~= head + pulled + made + tail);
    lemma_no_lots(head);
    lemma_no_lots(pulled);
    lemma_no_lots(tail);
    lemma_lots_traded(rules.fees, order.instrument, sub.trades);
    lemma_lots_concat(head, pulled);
    lemma_lots_concat(head + pulled, made);
    lemma_lots_concat(head + pulled + made, tail);
    assert forall|i: int| 0 <= i < reports.len() && (#[trigger] reports[i]) is Trade implies of_trades(
        rules.fees,
        order.instrument,
        sub.trades,
        reports[i],
    ) by {
        let n = (head + pulled).len();
        assert(reports[i] == (head + pulled + made + tail)[i]);
        if i < n {
            if i > 0 {
                assert(reports[i] == pulled[i - 1]);
            }
        } else if i < n + made.len() {
            assert(reports[i] == made[i - n]);
            assert(reports[i] == trade_report(
                rules.fees,
                order.instrument,
                sub.trades[i - n],
            ));
        } else {
            assert(reports[i] == tail[0]);
        }
    }
}

/// The report is of one of the trades.
spec fn of_trades(
    fees: FeeSchedule,
    instrument: InstrumentId,
    trades: Seq<Trade>,
    report: ExecReport,
) -> bool {
    exists|j: int|
        0 <= j < trades.len() && report == trade_report(fees, instrument, #[trigger] trades[j])
}

/// Screening changes no more of an order than that a market order becomes a limit order.
proof fn lemma_screened<S>(rules: Rules<S>, book: BookView, order: Order)
    ensures
        screened(rules, book, order) matches Ok(ready) ==> {
            &&& ready == (Order { order_type: ready.order_type, price: ready.price, ..order })
            &&& order.order_type is Limit ==> ready == order
            &&& rules.guard is None ==> ready == order
        },
{
}

/// A report of a trade of the order `taker` on `side` with an order of `resting`: on the
/// other side, at that order's price, for no more than it has left.
pub open spec fn honest_trade(
    resting: Map<u64, Order>,
    on: InstrumentId,
    id: OrderId,
    side: Side,
    report: ExecReport,
) -> bool {
    report matches ExecReport::Trade { instrument, taker, maker, aggressor, price, qty, .. } && {
        &&& instrument == on
        &&& taker == id
        &&& aggressor == side
        &&& resting.contains_key(maker.0)
        &&& resting[maker.0].side != side
        &&& resting[maker.0].price == price
        &&& 0 < qty <= resting[maker.0].remaining
    }
}

/// The fees of a trade are the given shares of what it is worth, in ten-thousandths,
/// rounded down: the maker's for the maker, the taker's for the taker.
pub proof fn law_fees_are_shares_of_the_worth(fees: FeeSchedule, instrument: InstrumentId, t: Trade)
    requires
        t.price * t.quantity * fees.maker_bps < 10_000 * 0x1_0000_0000_0000_0000,
        t.price * t.quantity * fees.taker_bps < 10_000 * 0x1_0000_0000_0000_0000,
    ensures
        trade_report(fees, instrument, t) matches ExecReport::Trade { maker_fee, taker_fee, .. }
            && {
            &&& maker_fee * 10_000 <= t.price * t.quantity * fees.maker_bps < (maker_fee + 1)
                * 10_000
            &&& taker_fee * 10_000 <= t.price * t.quantity * fees.taker_bps < (taker_fee + 1)
                * 10_000
        },
{
    let a = t.price * t.quantity * fees.maker_bps;
    let b = t.price * t.quantity * fees.taker_bps;
    assert(a >= 0 && b >= 0) by (nonlinear_arith)
        requires
            a == t.price * t.quantity * fees.maker_bps,
            b == t.price * t.quantity * fees.taker_bps,
    ;
    crate::fees::law_fee_is_exact(t.price, t.quantity, fees.maker_bps);
    crate::fees::law_fee_is_exact(t.price, t.quantity, fees.taker_bps);
}

/// An order is screened before it trades, in this order: it may not be larger or worth
/// more than one order may be, not be priced through the band, and its user may not have
/// as many open orders as one user may have. An order that is turned away changes no book
/// and is reported with the reason and nothing else.
pub proof fn law_orders_are_screened<S: MatchingStrategy>(
    rules: Rules<S>,
    engines: Engines,
    order: Order,
)
    ensures
        ({
            let book = engine_at(engines, order.instrument).book;
            let (end, reports) = applied(rules, engines, Command::New(order));
            let off = RiskLimits { max_order_qty: 0, max_notional: 0, max_user_orders: 0 };
            let limits = match rules.limits {
                Some(limits) => limits,
                None => off,
            };
            let shape = limits.broken(order);
            let priced_out = match rules.guard {
                Some(guard) => guard.verdict(order) is Err,
                None => false,
            };
            let open = Set::new(
                |x: u64| book.orders.contains_key(x) && book.orders[x].user == order.user,
            ).len();
            let full = limits.max_user_orders != 0 && order.user != 0 && open
                >= limits.max_user_orders;
            let reason = if shape is Some {
                shape
            } else if priced_out {
                Some(RejectReason::PriceBand)
            } else if full {
                Some(RejectReason::MaxUserOrders)
            } else {
                None
            };
            match reason {
                Some(reason) => {
                    &&& reports == seq![
                        ExecReport::Rejected {
                            instrument: order.instrument,
                            order_id: order.id,
                            reason,
                        },
                    ]
                    &&& engine_at(end, order.instrument) == engine_at(engines, order.instrument)
                },
                None => {
                    &&& reports.len() >= 2
                    &&& reports[0] == (ExecReport::Accepted {
                        instrument: order.instrument,
                        order_id: order.id,
                    })
                    &&& engine_at(end, order.instrument).seq == (engine_at(
                        engines,
                        order.instrument,
                    ).seq + 1) as u64
                },
            }
        }),
{
    let book = engine_at(engines, order.instrument).book;
    let open = Set::new(|x: u64| book.orders.contains_key(x) && book.orders[x].user == order.user);
    assert(open =~= owned(book.orders, order.user));
    lemma_screened(rules, book, order);
    if screened(rules, book, order) is Ok {
        lemma_placed(rules, engines, order);
    }
}

/// The reports of a new order tell what happened. Each trade is with an order that rested
/// on the other side, at its price. The last report tells what became of the order: filled
/// if all of it was traded; partly filled, with the lots that were; resting if none were and
/// it rests whole; cancelled if none were and it does not rest; turned away if it asked for
/// all or nothing. And what is left of the order rests only if the last report is that it
/// rests or is partly filled.
pub proof fn law_reports_tell_what_became_of_an_order<S: MatchingStrategy>(
    rules: Rules<S>,
    engines: Engines,
    order: Order,
)
    requires
        lawful(rules.strategy),
        ({
            let book = engine_at(engines, order.instrument).book;
            &&& book.orders.dom().finite()
            &&& agree(book.orders, book.bids, book.asks)
            &&& !book.orders.contains_key(order.id.0)
            &&& screened(rules, book, order) is Ok
        }),
    ensures
        ({
            let book = engine_at(engines, order.instrument).book;
            let (end, reports) = applied(rules, engines, Command::New(order));
            let after = engine_at(end, order.instrument).book;
            let instrument = order.instrument;
            let order_id = order.id;
            let rests = after.orders.contains_key(order_id.0);
            let lots = reported_lots(reports);
            &&& lots <= order.quantity
            &&& forall|i: int|
                0 <= i < reports.len() && (#[trigger] reports[i]) is Trade ==> honest_trade(
                    book.orders,
                    instrument,
                    order_id,
                    order.side,
                    reports[i],
                )
            &&& rests ==> after.orders[order_id.0].remaining == order.quantity - lots && lots
                < order.quantity && order.tif == TimeInForce::Gtc
            &&& reports.last() == (if order.tif == TimeInForce::Fok || order.tif
                == TimeInForce::FokBudget {
                if reports.last() is Rejected {
                    ExecReport::Rejected { instrument, order_id, reason: RejectReason::Unfillable }
                } else if lots == order.quantity {
                    ExecReport::Filled { instrument, order_id }
                } else if lots > 0 {
                    ExecReport::PartiallyFilled { instrument, order_id, filled: lots as u64 }
                } else {
                    ExecReport::Cancelled { instrument, order_id }
                }
            } else if lots == order.quantity {
                ExecReport::Filled { instrument, order_id }
            } else if lots > 0 {
                ExecReport::PartiallyFilled { instrument, order_id, filled: lots as u64 }
            } else if rests {
                ExecReport::Resting { instrument, order_id }
            } else {
                ExecReport::Cancelled { instrument, order_id }
            })
        }),
{
    let engine = engine_at(engines, order.instrument);
    let book = engine.book;
    let seq = (engine.seq + 1) as u64;
    lemma_screened(rules, book, order);
    lemma_placed(rules, engines, order);
    let ready = screened(rules, book, order)->Ok_0;
    let sub = submission(rules.strategy, rules.stp, book, ready, seq);
    law_trades_meet_resting_orders(rules.strategy, rules.stp, book, ready, seq);
    law_no_lot_is_lost(rules.strategy, rules.stp, book, ready, seq);
    law_status_tells_the_fill(rules.strategy, rules.stp, book, ready, seq);
    law_what_is_left_rests(rules.strategy, rules.stp, book, ready, seq);
    let (end, reports) = applied(rules, engines, Command::New(order));
    let after = engine_at(end, order.instrument).book;
    assert(after.orders.contains_key(order.id.0) == sub.resting) by {
        if sub.book.orders.contains_key(order.id.0) && !sub.resting {
            assert(book.orders.contains_key(order.id.0));
        }
    }
    assert forall|i: int| 0 <= i < reports.len() && (#[trigger] reports[i]) is Trade implies honest_trade(
        book.orders,
        order.instrument,
        order.id,
        order.side,
        reports[i],
    ) by {
        assert(of_trades(rules.fees, order.instrument, sub.trades, reports[i]));
        let j = choose|j: int|
            0 <= j < sub.trades.len() && reports[i] == trade_report(
                rules.fees,
                order.instrument,
                #[trigger] sub.trades[j],
            );
        assert(book.orders.contains_key(sub.trades[j].maker.0));
    }
    assert(reports.last() == crate::exchange::closing_report(
        order.instrument,
        order.id,
        sub.status,
        sub.filled as u64,
    ));
}

/// Cancelling orders one by one takes exactly them away.
proof fn lemma_cancelled_all(book: BookView, ids: Seq<OrderId>)
    requires
        book.orders.dom().finite(),
        agree(book.orders, book.bids, book.asks),
        ids.no_duplicates(),
        forall|k: int| 0 <= k < ids.len() ==> book.orders.contains_key((#[trigger] ids[k]).0),
    ensures
        ({
            let rest = cancelled_all(book, ids);
            &&& rest.orders.dom().finite()
            &&& agree(rest.orders, rest.bids, rest.asks)
            &&& forall|x: u64| #[trigger]
                rest.orders.contains_key(x) <==> book.orders.contains_key(x) && !ids.contains(
                    OrderId(x),
                )
            &&& forall|x: u64| #[trigger]
                rest.orders.contains_key(x) ==> rest.orders[x] == book.orders[x]
        }),
    decreases ids.len(),
{
    if ids.len() > 0 {
        let front = ids.drop_last();
        let last = ids[ids.len() - 1];
        assert forall|k: int| 0 <= k < front.len() implies book.orders.contains_key(
            (#[trigger] front[k]).0,
        ) by {
            assert(front[k] == ids[k]);
        }
        lemma_cancelled_all(book, front);
        let before = cancelled_all(book, front);
        assert(!front.contains(last)) by {
            if front.contains(last) {
                let k = choose|k: int| 0 <= k < front.len() && front[k] == last;
                assert(ids[k] == ids[ids.len() - 1]);
            }
        }
        assert(last == OrderId(last.0));
        assert(before.orders.contains_key(last.0));
        lemma_cancelled(before, last);
        let rest = cancelled_all(book, ids);
        assert forall|x: u64| #[trigger] rest.orders.contains_key(x) <==> book.orders.contains_key(x)
            && !ids.contains(OrderId(x)) by {
            assert(before.orders.contains_key(x) <==> book.orders.contains_key(x)
                && !front.contains(OrderId(x)));
            if front.contains(OrderId(x)) {
                let k = choose|k: int| 0 <= k < front.len() && front[k] == OrderId(x);
                assert(ids[k] == OrderId(x));
            }
            if ids.contains(OrderId(x)) {
                let k = choose|k: int| 0 <= k < ids.len() && ids[k] == OrderId(x);
                if k < front.len() {
                    assert(front[k] == ids[k]);
                }
            }
        }
    }
}

/// `ids` are the orders that rest for `user`, each once, in ascending order.
pub open spec fn rest_for(resting: Map<u64, Order>, user: u64, ids: Seq<OrderId>) -> bool {
    &&& forall|i: int, j: int| 0 <= i < j < ids.len() ==> #[trigger] ids[i].0 < #[trigger] ids[j].0
    &&& forall|x: u64| #[trigger]
        ids.contains(OrderId(x)) <==> resting.contains_key(x) && resting[x].user == user
}

/// What a user's book is like once their orders are gone.
proof fn lemma_liquidated(
    engines: Engines,
    instrument: InstrumentId,
    user: u64,
    ids: Seq<OrderId>,
)
    requires
        ({
            let book = engine_at(engines, instrument).book;
            &&& book.orders.dom().finite()
            &&& agree(book.orders, book.bids, book.asks)
            &&& rest_for(book.orders, user, ids)
        }),
    ensures
        ({
            let book = engine_at(engines, instrument).book;
            let calm = engine_at(liquidated(engines, instrument, user), instrument);
            &&& crate::exchange::roster(book.orders, user) == ids
            &&& calm.seq == engine_at(engines, instrument).seq
            &&& calm.book.orders.dom().finite()
            &&& agree(calm.book.orders, calm.book.bids, calm.book.asks)
            &&& forall|x: u64| #[trigger]
                calm.book.orders.contains_key(x) <==> book.orders.contains_key(x)
                    && book.orders[x].user != user
            &&& forall|x: u64| #[trigger]
                calm.book.orders.contains_key(x) ==> calm.book.orders[x] == book.orders[x]
        }),
{
    let book = engine_at(engines, instrument).book;
    assert forall|x: u64| #[trigger] owned(book.orders, user).contains(x) <==> ids.contains(
        OrderId(x),
    ) by {}
    lemma_roster(book.orders, user, ids);
    assert(ids.no_duplicates()) by {
        assert forall|i: int, j: int|
            0 <= i < ids.len() && 0 <= j < ids.len() && i != j implies ids[i] != ids[j] by {
            if i < j {
                assert(ids[i].0 < ids[j].0);
            } else {
                assert(ids[j].0 < ids[i].0);
            }
        }
    }
    assert forall|k: int| 0 <= k < ids.len() implies book.orders.contains_key((#[trigger] ids[k]).0) by {
        assert(ids[k] == OrderId(ids[k].0));
        assert(ids.contains(OrderId(ids[k].0)));
    }
    lemma_cancelled_all(book, ids);
}

/// A forced close cancels the user's orders and reports each, then buys or sells as it is
/// told: its trades are with orders of others that rested on the other side, for no more
/// lots than it is told. It leaves no order of the user behind, adds none, and where
/// nothing is to be closed there are no trades. Where no rule stands in the way it closes
/// all it is told to, or takes all that is on the other side.
pub proof fn law_forced_close<S: MatchingStrategy>(
    rules: Rules<S>,
    engines: Engines,
    instrument: InstrumentId,
    user: u64,
    close_order_id: OrderId,
    close_side: Side,
    close_qty: u64,
    ids: Seq<OrderId>,
)
    requires
        lawful(rules.strategy),
        ({
            let book = engine_at(engines, instrument).book;
            &&& book.orders.dom().finite()
            &&& agree(book.orders, book.bids, book.asks)
            &&& rest_for(book.orders, user, ids)
        }),
    ensures
        ({
            let book = engine_at(engines, instrument).book;
            let (end, reports) = applied(
                rules,
                engines,
                Command::ForceClose { instrument, user, close_order_id, close_side, close_qty },
            );
            let after = engine_at(end, instrument).book;
            let lots = reported_lots(reports);
            &&& reports.len() >= ids.len()
            &&& forall|k: int|
                0 <= k < ids.len() ==> #[trigger] reports[k] == (ExecReport::Cancelled {
                    instrument,
                    order_id: ids[k],
                })
            &&& forall|i: int|
                0 <= i < reports.len() && (#[trigger] reports[i]) is Trade ==> honest_trade(
                    book.orders,
                    instrument,
                    close_order_id,
                    close_side,
                    reports[i],
                ) && book.orders[reports[i]->Trade_maker.0].user != user
            &&& lots <= close_qty
            &&& close_qty == 0 ==> reports.len() == ids.len()
            &&& forall|x: u64| #[trigger]
                after.orders.contains_key(x) ==> book.orders.contains_key(x) && book.orders[x].user
                    != user && after.orders[x].user == book.orders[x].user
            &&& generous(rules.strategy) && rules.limits is None && rules.guard is None && lots
                < close_qty ==> forall|x: u64| #[trigger]
                after.orders.contains_key(x) ==> after.orders[x].side == close_side
        }),
{
    let engine = engine_at(engines, instrument);
    let book = engine.book;
    let calm = liquidated(engines, instrument, user);
    lemma_liquidated(engines, instrument, user, ids);
    let still = engine_at(calm, instrument).book;
    let command = Command::ForceClose {
        instrument,
        user,
        close_order_id,
        close_side,
        close_qty,
    };
    let (end, reports) = applied(rules, engines, command);
    let after = engine_at(end, instrument).book;
    let pulled = cancel_reports(instrument, ids);
    lemma_no_lots(pulled);
    if close_qty > 0 {
        let close = crate::exchange::closing_order(
            instrument,
            user,
            close_order_id,
            close_side,
            close_qty,
        );
        assert(close.side == close_side && close.id == close_order_id && close.user == user
            && close.quantity == close_qty && close.instrument == instrument);
        let (_, rest) = placed(rules, calm, close);
        assert(reports == pulled + rest);
        lemma_lots_concat(pulled, rest);
        lemma_screened(rules, still, close);
        if screened(rules, still, close) is Ok {
            lemma_placed(rules, calm, close);
            let ready = screened(rules, still, close)->Ok_0;
            let seq = (engine.seq + 1) as u64;
            let sub = submission(rules.strategy, rules.stp, still, ready, seq);
            law_trades_meet_resting_orders(rules.strategy, rules.stp, still, ready, seq);
            law_no_lot_is_lost(rules.strategy, rules.stp, still, ready, seq);
            law_what_is_left_rests(rules.strategy, rules.stp, still, ready, seq);
            law_status_tells_the_fill(rules.strategy, rules.stp, still, ready, seq);
            assert(!sub.resting);
            assert(!rests_opposite(ready, still.orders));
            assert forall|i: int| 0 <= i < reports.len() && (
            #[trigger] reports[i]) is Trade implies honest_trade(
                book.orders,
                instrument,
                close_order_id,
                close_side,
                reports[i],
            ) && book.orders[reports[i]->Trade_maker.0].user != user by {
                if i < pulled.len() {
                    assert(reports[i] == pulled[i]);
                } else {
                    let r = rest[i - pulled.len()];
                    assert(reports[i] == r);
                    assert(of_trades(rules.fees, instrument, sub.trades, r));
                    let j = choose|j: int|
                        0 <= j < sub.trades.len() && r == trade_report(
                            rules.fees,
                            instrument,
                            #[trigger] sub.trades[j],
                        );
                    assert(still.orders.contains_key(sub.trades[j].maker.0));
                }
            }
            assert forall|x: u64| #[trigger] after.orders.contains_key(x) implies still.orders.contains_key(
                x,
            ) && after.orders[x].user == still.orders[x].user by {
                assert(sub.book.orders.contains_key(x));
                if sub.cancelled.contains(OrderId(x)) {
                    crate::submission_laws::law_no_user_trades_with_themselves(
                        rules.strategy,
                        rules.stp,
                        still,
                        ready,
                        seq,
                    );
                    let k = choose|k: int|
                        0 <= k < sub.cancelled.len() && sub.cancelled[k] == OrderId(x);
                    assert(still.orders.contains_key(sub.cancelled[k].0));
                }
            }
            if generous(rules.strategy) && rules.limits is None && rules.guard is None {
                law_orders_go_on_while_they_may(rules.strategy, rules.stp, still, ready, seq);
            }
        } else {
            assert(rest.len() == 1 && !(rest[0] is Trade));
            lemma_no_lots(rest);
            assert forall|i: int| 0 <= i < reports.len() implies !((#[trigger] reports[i]) is Trade) by {
                if i < pulled.len() {
                    assert(reports[i] == pulled[i]);
                } else {
                    assert(reports[i] == rest[i - pulled.len()]);
                }
            }
        }
        assert forall|k: int| 0 <= k < ids.len() implies #[trigger] reports[k]
            == (ExecReport::Cancelled { instrument, order_id: ids[k] }) by {
            assert(reports[k] == pulled[k]);
        }
    }
}

/// A forced close does what cancelling the user's orders and then a market order of the
/// size and on the side it names, in the user's name, would do.
pub proof fn law_forced_close_is_a_market_order<S: MatchingStrategy>(
    rules: Rules<S>,
    engines: Engines,
    calm: Engines,
    instrument: InstrumentId,
    user: u64,
    close_order_id: OrderId,
    close_side: Side,
    close_qty: u64,
    close: Order,
)
    requires
        close_qty > 0,
        close.instrument == instrument,
        close.user == user,
        close.id == close_order_id,
        close.side == close_side,
        close.quantity == close_qty,
        close.remaining == close_qty,
        close.timestamp == 0,
        close.order_type == OrderType::Market,
        close.tif == TimeInForce::Ioc,
        close.price == (if close_side == Side::Buy {
            u64::MAX
        } else {
            0
        }),
        calm == applied(
            rules,
            engines,
            Command::ForceClose { instrument, user, close_order_id, close_side, close_qty: 0 },
        ).0,
    ensures
        ({
            let whole = applied(
                rules,
                engines,
                Command::ForceClose { instrument, user, close_order_id, close_side, close_qty },
            );
            let first = applied(
                rules,
                engines,
                Command::ForceClose { instrument, user, close_order_id, close_side, close_qty: 0 },
            );
            let second = applied(rules, calm, Command::New(close));
            whole == (second.0, first.1 + second.1)
        }),
{
}

/// An amendment that only makes an order smaller at its price leaves it and every other
/// order where it is; one to nothing cancels it; any other takes the order out and submits
/// it anew with the new price and size. The last report tells how much is left, and what is
/// reported as left rests.
pub proof fn law_amendments_are_reported<S: MatchingStrategy>(
    rules: Rules<S>,
    engines: Engines,
    instrument: InstrumentId,
    order_id: OrderId,
    new_price: u64,
    new_qty: u64,
    cmd_id: u64,
)
    requires
        lawful(rules.strategy),
        ({
            let book = engine_at(engines, instrument).book;
            &&& book.orders.dom().finite()
            &&& agree(book.orders, book.bids, book.asks)
        }),
    ensures
        ({
            let before = engine_at(engines, instrument);
            let (end, reports) = applied(
                rules,
                engines,
                Command::Modify { instrument, order_id, new_price, new_qty, cmd_id },
            );
            let after = engine_at(end, instrument);
            let order = before.book.orders[order_id.0];
            let found = before.book.orders.contains_key(order_id.0);
            let lots = reported_lots(reports);
            let rests = after.book.orders.contains_key(order_id.0);
            &&& !found ==> reports == seq![ExecReport::NotFound { instrument, order_id }] && after
                == before
            &&& found && new_price == order.price && new_qty == 0 ==> {
                &&& reports == seq![ExecReport::Cancelled { instrument, order_id }]
                &&& after.book.orders == before.book.orders.remove(order_id.0)
                &&& after.seq == before.seq
            }
            &&& found && new_price == order.price && 0 < new_qty <= order.remaining ==> {
                &&& reports == seq![
                    ExecReport::Modified { instrument, order_id, remaining: new_qty },
                ]
                &&& after.book.orders == before.book.orders.insert(
                    order_id.0,
                    Order { remaining: new_qty, ..order },
                )
                &&& after.seq == before.seq
            }
            &&& found && (new_price != order.price || new_qty > order.remaining) ==> {
                &&& lots <= new_qty
                &&& forall|i: int|
                    0 <= i < reports.len() && (#[trigger] reports[i]) is Trade ==> honest_trade(
                        before.book.orders,
                        instrument,
                        order_id,
                        order.side,
                        reports[i],
                    )
                &&& rests ==> {
                    &&& after.book.orders[order_id.0].remaining == new_qty - lots
                    &&& after.book.orders[order_id.0].price == new_price
                    &&& after.book.orders[order_id.0].side == order.side
                    &&& after.book.orders[order_id.0].user == order.user
                    &&& reports.last() == (ExecReport::Modified {
                        instrument,
                        order_id,
                        remaining: (new_qty - lots) as u64,
                    })
                }
                &&& !rests && lots == new_qty ==> reports.last() == (ExecReport::Filled {
                    instrument,
                    order_id,
                })
                &&& !rests && lots == 0 && new_qty > 0 ==> reports.last() == (ExecReport::Cancelled {
                    instrument,
                    order_id,
                })
            }
        }),
{
    let before = engine_at(engines, instrument);
    let order = before.book.orders[order_id.0];
    if before.book.orders.contains_key(order_id.0) {
        lemma_cancelled(before.book, order_id);
        let rest = before.book.cancelled(order_id);
        let again = crate::engine::requoted(order, new_price, new_qty);
        let seq = (before.seq + 1) as u64;
        let sub = submission(rules.strategy, rules.stp, rest, again, seq);
        law_trades_meet_resting_orders(rules.strategy, rules.stp, rest, again, seq);
        law_no_lot_is_lost(rules.strategy, rules.stp, rest, again, seq);
        law_status_tells_the_fill(rules.strategy, rules.stp, rest, again, seq);
        law_what_is_left_rests(rules.strategy, rules.stp, rest, again, seq);
        assert(again.id == order_id);
        let (end, reports) = applied(
            rules,
            engines,
            Command::Modify { instrument, order_id, new_price, new_qty, cmd_id },
        );
        if new_price != order.price || new_qty > order.remaining {
            let made = trade_reports(rules.fees, instrument, sub.trades);
            let tail = seq![reports.last()];
            assert(reports =~= made + tail);
            lemma_no_lots(tail);
            lemma_lots_traded(rules.fees, instrument, sub.trades);
            lemma_lots_concat(made, tail);
            assert(sub.book.orders.contains_key(order_id.0) == sub.resting) by {
                if sub.book.orders.contains_key(order_id.0) && !sub.resting {
                    assert(rest.orders.contains_key(order_id.0));
                }
            }
            assert forall|i: int| 0 <= i < reports.len() && (
            #[trigger] reports[i]) is Trade implies honest_trade(
                before.book.orders,
                instrument,
                order_id,
                order.side,
                reports[i],
            ) by {
                if i < made.len() {
                    assert(reports[i] == made[i]);
                    assert(rest.orders.contains_key(sub.trades[i].maker.0));
                } else {
                    assert(reports[i] == tail[0]);
                }
            }
        }
    }
}

/// The last report about a new order leaves its row as the order is: a row is open only if
/// the order rests, and a row that is filled, cancelled or rejected is of an order that does
/// not; what it says is filled was traded.
pub proof fn law_rows_follow_the_book<S: MatchingStrategy>(
    rules: Rules<S>,
    engines: Engines,
    order: Order,
    event: ExecutionEvent,
)
    requires
        lawful(rules.strategy),
        ({
            let book = engine_at(engines, order.instrument).book;
            &&& book.orders.dom().finite()
            &&& agree(book.orders, book.bids, book.asks)
            &&& !book.orders.contains_key(order.id.0)
        }),
        event.report == decoded(applied(rules, engines, Command::New(order)).1.last()),
    ensures
        ({
            let (end, reports) = applied(rules, engines, Command::New(order));
            let rests = engine_at(end, order.instrument).book.orders.contains_key(order.id.0);
            let lots = reported_lots(reports);
            match change(event, order.id.0) {
                RowChange::Status { order_id, status, filled } => {
                    &&& order_id == order.id.0
                    &&& status == RowStatus::Open ==> rests && lots == 0
                    &&& status == RowStatus::Cancelled ==> !rests && lots == 0
                    &&& status == RowStatus::Rejected ==> !rests && lots == 0
                    &&& status == RowStatus::Partial ==> filled == Some(lots as u64) && 0 < lots
                        < order.quantity
                },
                RowChange::FillAll { order_id } => order_id == order.id.0 && !rests && lots
                    == order.quantity,
                _ => false,
            }
        }),
{
    let book = engine_at(engines, order.instrument).book;
    let (end, reports) = applied(rules, engines, Command::New(order));
    law_rows_follow_the_reports(event, reports.last(), order.id.0);
    if screened(rules, book, order) is Ok {
        law_reports_tell_what_became_of_an_order(rules, engines, order);
        if reports.last() is Rejected {
            let seq = (engine_at(engines, order.instrument).seq + 1) as u64;
            let ready = screened(rules, book, order)->Ok_0;
            lemma_screened(rules, book, order);
            lemma_placed(rules, engines, order);
            law_status_tells_the_fill(rules.strategy, rules.stp, book, ready, seq);
        }
    } else {
        lemma_no_lots(reports);
    }
}

/// A cancelled order's row is cancelled, and the order is gone.
pub proof fn law_cancelled_rows_are_of_orders_that_are_gone<S: MatchingStrategy>(
    rules: Rules<S>,
    engines: Engines,
    instrument: InstrumentId,
    order_id: OrderId,
    cmd_id: u64,
    event: ExecutionEvent,
)
    requires
        engine_at(engines, instrument).book.orders.contains_key(order_id.0),
        event.report == decoded(
            applied(rules, engines, Command::Cancel { instrument, order_id, cmd_id }).1.last(),
        ),
    ensures
        change(event, order_id.0) == (RowChange::Status {
            order_id: order_id.0,
            status: RowStatus::Cancelled,
            filled: None,
        }),
        !engine_at(
            applied(rules, engines, Command::Cancel { instrument, order_id, cmd_id }).0,
            instrument,
        ).book.orders.contains_key(order_id.0),
{
    let report = applied(rules, engines, Command::Cancel { instrument, order_id, cmd_id }).1.last();
    law_rows_follow_the_reports(event, report, order_id.0);
}

} // verus!
