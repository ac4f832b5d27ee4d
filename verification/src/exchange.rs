//! The exchange: commands, reports, and the deterministic processor that turns
//! one into the other.

use std::collections::{HashMap, HashSet};

use vstd::prelude::*;

use crate::book::{lists, owned, BookView};
use crate::codec::{fnv, FNV_OFFSET};
use crate::crossing::{
    collides, in_time_order, none_added, submission, timely, SelfTradePolicy, Submission,
};
use crate::engine::{can_restore, cancelled_all, requoted, restorable, stacked, MatchingEngine};
use crate::fees::{fee_of, FeeSchedule};
use crate::fingerprint::{engine_words, mix, mix_order, order_fields, order_words, state_words};
use crate::order::Order;
use crate::risk::{PriceGuard, RiskLimits};
use crate::sharding::{asset_category, category};
use crate::sorted::{ascending, insert_ascending};
use crate::strategy::MatchingStrategy;
use crate::trade::{ModifyOutcome, OrderStatus, Trade};
use crate::types::{InstrumentId, OrderId, OrderType, Price, Qty, Side, TimeInForce};
use crate::wire::words_le;

verus! {

broadcast use vstd::std_specs::hash::group_hash_axioms;

/// A command from the order system to the matching side.
#[derive(Clone, Copy, Debug, PartialEq, Eq, Structural)]
pub enum Command {
    /// Submit a new order.
    New(Order),
    /// Cancel a resting order.
    Cancel { instrument: InstrumentId, order_id: OrderId, cmd_id: u64 },
    /// Amend a resting order.
    Modify {
        instrument: InstrumentId,
        order_id: OrderId,
        new_price: Price,
        new_qty: Qty,
        cmd_id: u64,
    },
    /// Forced liquidation: cancel every order of `user` on `instrument`, then, if
    /// `close_qty` is not zero, submit a market order to flatten the position.
    ForceClose {
        instrument: InstrumentId,
        user: u64,
        close_order_id: OrderId,
        close_side: Side,
        close_qty: Qty,
    },
}

/// Why an order was turned away.
#[derive(Clone, Copy, Debug, PartialEq, Eq, Structural)]
pub enum RejectReason {
    /// Larger than one order may be.
    MaxOrderQty,
    /// Worth more than one order may be.
    MaxNotional,
    /// Priced through the band around the reference price.
    PriceBand,
    /// The user has as many open orders as allowed.
    MaxUserOrders,
    /// Fill-or-kill that cannot be filled now.
    Unfillable,
}

/// An asynchronous execution notification from the matching side.
#[derive(Clone, Copy, Debug, PartialEq, Eq, Structural)]
pub enum ExecReport {
    Accepted { instrument: InstrumentId, order_id: OrderId },
    Trade {
        instrument: InstrumentId,
        taker: OrderId,
        maker: OrderId,
        aggressor: Side,
        price: Price,
        qty: Qty,
        maker_fee: u64,
        taker_fee: u64,
    },
    Filled { instrument: InstrumentId, order_id: OrderId },
    PartiallyFilled { instrument: InstrumentId, order_id: OrderId, filled: Qty },
    Resting { instrument: InstrumentId, order_id: OrderId },
    Cancelled { instrument: InstrumentId, order_id: OrderId },
    Rejected { instrument: InstrumentId, order_id: OrderId, reason: RejectReason },
    Modified { instrument: InstrumentId, order_id: OrderId, remaining: Qty },
    NotFound { instrument: InstrumentId, order_id: OrderId },
}

impl Command {
    /// The instrument this command targets.
    pub open spec fn target(self) -> InstrumentId {
        match self {
            Command::New(order) => order.instrument,
            Command::Cancel { instrument, .. } => instrument,
            Command::Modify { instrument, .. } => instrument,
            Command::ForceClose { instrument, .. } => instrument,
        }
    }

    /// The instrument this command targets, by which it is routed to a shard.
    pub fn instrument(&self) -> (r: InstrumentId)
        ensures
            r == self.target(),
    {
        match self {
            Command::New(order) => order.instrument,
            Command::Cancel { instrument, .. } => *instrument,
            Command::Modify { instrument, .. } => *instrument,
            Command::ForceClose { instrument, .. } => *instrument,
        }
    }

    /// The command's own id, 0 for none.
    pub open spec fn ident(self) -> u64 {
        match self {
            Command::New(order) => order.id.0,
            Command::Cancel { cmd_id, .. } => cmd_id,
            Command::Modify { cmd_id, .. } => cmd_id,
            Command::ForceClose { close_order_id, .. } => close_order_id.0,
        }
    }

    /// The command's own id, by which duplicates are recognised; 0 for none.
    pub fn id(&self) -> (r: u64)
        ensures
            r == self.ident(),
    {
        match self {
            Command::New(order) => order.id.0,
            Command::Cancel { cmd_id, .. } => *cmd_id,
            Command::Modify { cmd_id, .. } => *cmd_id,
            Command::ForceClose { close_order_id, .. } => close_order_id.0,
        }
    }

    /// Whether this command overtakes new orders.
    pub fn is_high_priority(&self) -> (r: bool)
        ensures
            r == !(self is New),
    {
        match self {
            Command::New(_) => false,
            _ => true,
        }
    }
}

/// One instrument's state: its resting orders and its sequence counter.
#[verifier::ext_equal]
pub struct EngineView {
    pub book: BookView,
    pub seq: u64,
}

/// The state of every instrument that has been touched.
pub type Engines = Map<u32, EngineView>;

/// The rules that a processor applies to every instrument.
pub struct Rules<S> {
    pub strategy: S,
    pub stp: SelfTradePolicy,
    pub fees: FeeSchedule,
    pub limits: Option<RiskLimits>,
    pub guard: Option<PriceGuard>,
}

/// An instrument's state; one that was never touched has no orders.
pub open spec fn engine_at(engines: Engines, instrument: InstrumentId) -> EngineView {
    if engines.contains_key(instrument.0) {
        engines[instrument.0]
    } else {
        EngineView { book: BookView::empty(), seq: 0 }
    }
}

/// The user's open orders count against the cap of `limits`.
pub open spec fn over_cap(limits: RiskLimits, book: BookView, user: u64) -> bool {
    limits.max_user_orders > 0 && user != 0 && owned(book.orders, user).len()
        >= limits.max_user_orders
}

/// Pre-trade risk: the order as it may be submitted, or why it is rejected.
pub open spec fn screened<S>(rules: Rules<S>, book: BookView, order: Order) -> Result<
    Order,
    RejectReason,
> {
    if rules.limits is Some && rules.limits->0.broken(order) is Some {
        Err(rules.limits->0.broken(order)->0)
    } else {
        let vetted = match rules.guard {
            Some(guard) => guard.verdict(order),
            None => Ok(order),
        };
        match vetted {
            Err(reason) => Err(reason),
            Ok(ready) => if rules.limits is Some && over_cap(rules.limits->0, book, ready.user) {
                Err(RejectReason::MaxUserOrders)
            } else {
                Ok(ready)
            },
        }
    }
}

/// The report of one trade, with its fees.
pub open spec fn trade_report(fees: FeeSchedule, instrument: InstrumentId, t: Trade) -> ExecReport {
    ExecReport::Trade {
        instrument,
        taker: t.taker,
        maker: t.maker,
        aggressor: t.aggressor,
        price: t.price,
        qty: t.quantity,
        maker_fee: fee_of(t.price, t.quantity, fees.maker_bps),
        taker_fee: fee_of(t.price, t.quantity, fees.taker_bps),
    }
}

/// The reports of `trades`, in order.
pub open spec fn trade_reports(
    fees: FeeSchedule,
    instrument: InstrumentId,
    trades: Seq<Trade>,
) -> Seq<ExecReport> {
    Seq::new(trades.len(), |i: int| trade_report(fees, instrument, trades[i]))
}

/// A cancellation report for each of `ids`, in order.
pub open spec fn cancel_reports(instrument: InstrumentId, ids: Seq<OrderId>) -> Seq<ExecReport> {
    Seq::new(ids.len(), |i: int| ExecReport::Cancelled { instrument, order_id: ids[i] })
}

/// The report that closes a submission.
pub open spec fn closing_report(
    instrument: InstrumentId,
    order_id: OrderId,
    status: OrderStatus,
    filled: u64,
) -> ExecReport {
    match status {
        OrderStatus::Filled => ExecReport::Filled { instrument, order_id },
        OrderStatus::PartiallyFilled => ExecReport::PartiallyFilled {
            instrument,
            order_id,
            filled,
        },
        OrderStatus::Resting => ExecReport::Resting { instrument, order_id },
        OrderStatus::Cancelled => ExecReport::Cancelled { instrument, order_id },
        OrderStatus::Rejected => ExecReport::Rejected {
            instrument,
            order_id,
            reason: RejectReason::Unfillable,
        },
    }
}

/// What submitting `order` to one instrument does to it.
pub open spec fn submitted<S: MatchingStrategy>(
    rules: Rules<S>,
    engine: EngineView,
    order: Order,
) -> Submission {
    submission(rules.strategy, rules.stp, engine.book, order, (engine.seq + 1) as u64)
}

/// The state and the reports after a new order.
pub open spec fn placed<S: MatchingStrategy>(
    rules: Rules<S>,
    engines: Engines,
    order: Order,
) -> (Engines, Seq<ExecReport>) {
    let instrument = order.instrument;
    let order_id = order.id;
    let engine = engine_at(engines, instrument);
    match screened(rules, engine.book, order) {
        Err(reason) => (
            if reason is MaxUserOrders {
                engines.insert(instrument.0, engine)
            } else {
                engines
            },
            seq![ExecReport::Rejected { instrument, order_id, reason }],
        ),
        Ok(ready) => {
            let sub = submitted(rules, engine, ready);
            (
                engines.insert(
                    instrument.0,
                    EngineView { book: sub.book, seq: (engine.seq + 1) as u64 },
                ),
                seq![ExecReport::Accepted { instrument, order_id }] + (if rules.stp is Allow {
                    Seq::empty()
                } else {
                    cancel_reports(instrument, sub.cancelled)
                }) + trade_reports(rules.fees, instrument, sub.trades) + seq![
                    closing_report(instrument, order_id, sub.status, sub.filled as u64),
                ],
            )
        },
    }
}

/// The state and the reports after a cancellation.
pub open spec fn withdrawn(engines: Engines, instrument: InstrumentId, order_id: OrderId) -> (
    Engines,
    Seq<ExecReport>,
) {
    let engine = engine_at(engines, instrument);
    if engine.book.orders.contains_key(order_id.0) {
        (
            engines.insert(
                instrument.0,
                EngineView { book: engine.book.cancelled(order_id), ..engine },
            ),
            seq![ExecReport::Cancelled { instrument, order_id }],
        )
    } else {
        (
            engines.insert(instrument.0, engine),
            seq![ExecReport::NotFound { instrument, order_id }],
        )
    }
}

/// The report that closes an amendment which re-entered the order.
pub open spec fn requote_report(
    instrument: InstrumentId,
    order_id: OrderId,
    status: OrderStatus,
    remaining: u64,
) -> ExecReport {
    match status {
        OrderStatus::Filled => ExecReport::Filled { instrument, order_id },
        OrderStatus::Resting => ExecReport::Modified { instrument, order_id, remaining },
        OrderStatus::PartiallyFilled => ExecReport::Modified { instrument, order_id, remaining },
        _ => ExecReport::Cancelled { instrument, order_id },
    }
}

/// The state and the reports after an amendment.
pub open spec fn amended<S: MatchingStrategy>(
    rules: Rules<S>,
    engines: Engines,
    instrument: InstrumentId,
    order_id: OrderId,
    price: u64,
    qty: u64,
) -> (Engines, Seq<ExecReport>) {
    let engine = engine_at(engines, instrument);
    let order = engine.book.orders[order_id.0];
    if !engine.book.orders.contains_key(order_id.0) {
        (
            engines.insert(instrument.0, engine),
            seq![ExecReport::NotFound { instrument, order_id }],
        )
    } else if price == order.price && qty <= order.remaining {
        if qty == 0 {
            (
                engines.insert(
                    instrument.0,
                    EngineView { book: engine.book.cancelled(order_id), ..engine },
                ),
                seq![ExecReport::Cancelled { instrument, order_id }],
            )
        } else {
            (
                engines.insert(
                    instrument.0,
                    EngineView { book: engine.book.resized(order_id, qty), ..engine },
                ),
                seq![ExecReport::Modified { instrument, order_id, remaining: qty }],
            )
        }
    } else {
        let sub = submitted(
            rules,
            EngineView { book: engine.book.cancelled(order_id), ..engine },
            requoted(order, price, qty),
        );
        (
            engines.insert(
                instrument.0,
                EngineView { book: sub.book, seq: (engine.seq + 1) as u64 },
            ),
            trade_reports(rules.fees, instrument, sub.trades) + seq![
                requote_report(
                    instrument,
                    order_id,
                    sub.status,
                    if sub.filled <= qty {
                        (qty - sub.filled) as u64
                    } else {
                        0
                    },
                ),
            ],
        )
    }
}

/// `ids` are the orders of `user`, in ascending order.
pub open spec fn is_roster(orders: Map<u64, Order>, user: u64, ids: Seq<OrderId>) -> bool {
    &&& forall|i: int, j: int| 0 <= i < j < ids.len() ==> #[trigger] ids[i].0 < #[trigger] ids[j].0
    &&& forall|id: u64| #[trigger] owned(orders, user).contains(id) <==> ids.contains(OrderId(id))
}

/// The ids of the orders of `user`, in ascending order.
pub open spec fn roster(orders: Map<u64, Order>, user: u64) -> Seq<OrderId> {
    choose|ids: Seq<OrderId>| is_roster(orders, user, ids)
}

/// The market order that flattens a position.
pub open spec fn closing_order(
    instrument: InstrumentId,
    user: u64,
    id: OrderId,
    side: Side,
    qty: u64,
) -> Order {
    Order {
        id,
        instrument,
        user,
        side,
        order_type: OrderType::Market,
        tif: TimeInForce::Ioc,
        price: if side is Buy {
            u64::MAX
        } else {
            0
        },
        quantity: qty,
        remaining: qty,
        timestamp: 0,
    }
}

/// The state once every order of `user` has been cancelled.
pub open spec fn liquidated(engines: Engines, instrument: InstrumentId, user: u64) -> Engines {
    let engine = engine_at(engines, instrument);
    engines.insert(
        instrument.0,
        EngineView {
            book: cancelled_all(engine.book, roster(engine.book.orders, user)),
            ..engine
        },
    )
}

/// The state and the reports after a command.
pub open spec fn applied<S: MatchingStrategy>(
    rules: Rules<S>,
    engines: Engines,
    command: Command,
) -> (Engines, Seq<ExecReport>) {
    match command {
        Command::New(order) => placed(rules, engines, order),
        Command::Cancel { instrument, order_id, .. } => withdrawn(engines, instrument, order_id),
        Command::Modify { instrument, order_id, new_price, new_qty, .. } => amended(
            rules,
            engines,
            instrument,
            order_id,
            new_price,
            new_qty,
        ),
        Command::ForceClose { instrument, user, close_order_id, close_side, close_qty } => {
            let calm = liquidated(engines, instrument, user);
            let pulled = cancel_reports(
                instrument,
                roster(engine_at(engines, instrument).book.orders, user),
            );
            if close_qty > 0 {
                let end = placed(
                    rules,
                    calm,
                    closing_order(instrument, user, close_order_id, close_side, close_qty),
                );
                (end.0, pulled + end.1)
            } else {
                (calm, pulled)
            }
        },
    }
}

/// A command that may be applied: the sequence counter has room, and no new order
/// would come to rest beside one with its id.
pub open spec fn admissible<S: MatchingStrategy>(
    rules: Rules<S>,
    engines: Engines,
    command: Command,
) -> bool {
    let engine = engine_at(engines, command.target());
    match command {
        Command::New(order) => match screened(rules, engine.book, order) {
            Err(_) => true,
            Ok(ready) => engine.seq < u64::MAX && !collides(
                rules.strategy,
                rules.stp,
                engine.book,
                ready,
                (engine.seq + 1) as u64,
            ),
        },
        Command::Cancel { .. } => true,
        _ => engine.seq < u64::MAX,
    }
}

/// A book without orders has no levels either.
proof fn lemma_bare(book: BookView)
    requires
        crate::book::agree(book.orders, book.bids, book.asks),
    ensures
        book.orders == Map::<u64, Order>::empty() <==> book == BookView::empty(),
{
    if book.orders == Map::<u64, Order>::empty() {
        assert forall|p: u64| !book.bids.contains_key(p) && !book.asks.contains_key(p) by {
            if book.bids.contains_key(p) {
                assert(book.orders.contains_key(book.bids[p][0].id.0));
            }
            if book.asks.contains_key(p) {
                assert(book.orders.contains_key(book.asks[p][0].id.0));
            }
        }
        assert(book =~= BookView::empty());
    }
}

/// Two strictly ascending sequences with the same members are the same.
proof fn lemma_ascending(a: Seq<u64>, b: Seq<u64>)
    requires
        forall|i: int, j: int| 0 <= i < j < a.len() ==> #[trigger] a[i] < #[trigger] a[j],
        forall|i: int, j: int| 0 <= i < j < b.len() ==> #[trigger] b[i] < #[trigger] b[j],
        forall|v: u64| #[trigger] a.contains(v) <==> b.contains(v),
    ensures
        a == b,
    decreases a.len(),
{
    if a.len() == 0 {
        if b.len() > 0 {
            assert(b.contains(b[0]));
            assert(a.contains(b[0]));
        }
        assert(a =~= b);
    } else {
        assert(a.contains(a[a.len() - 1]));
        assert(b.contains(a[a.len() - 1]));
        assert(b.contains(b[b.len() - 1]));
        assert(a.contains(b[b.len() - 1]));
        let i = choose|i: int| 0 <= i < a.len() && a[i] == b[b.len() - 1];
        let j = choose|j: int| 0 <= j < b.len() && b[j] == a[a.len() - 1];
        assert(a.last() == b.last());
        let fa = a.drop_last();
        let fb = b.drop_last();
        assert forall|v: u64| #[trigger] fa.contains(v) <==> fb.contains(v) by {
            if fa.contains(v) {
                let k = choose|k: int| 0 <= k < fa.len() && fa[k] == v;
                assert(a[k] == v && a[k] < a[a.len() - 1]);
                assert(a.contains(v));
                let m = choose|m: int| 0 <= m < b.len() && b[m] == v;
                assert(fb[m] == v);
            }
            if fb.contains(v) {
                let k = choose|k: int| 0 <= k < fb.len() && fb[k] == v;
                assert(b[k] == v && b[k] < b[b.len() - 1]);
                assert(b.contains(v));
                assert(a.contains(v));
                let m = choose|m: int| 0 <= m < a.len() && a[m] == v;
                assert(fa[m] == v);
            }
        }
        lemma_ascending(fa, fb);
        assert(a =~= fa.push(a.last()));
        assert(b =~= fb.push(b.last()));
    }
}

/// A user's roster is unique.
pub proof fn lemma_roster(orders: Map<u64, Order>, user: u64, ids: Seq<OrderId>)
    requires
        is_roster(orders, user, ids),
    ensures
        roster(orders, user) == ids,
{
    let other = roster(orders, user);
    assert(is_roster(orders, user, other));
    let a = Seq::new(ids.len(), |i: int| ids[i].0);
    let b = Seq::new(other.len(), |i: int| other[i].0);
    assert forall|v: u64| #[trigger] a.contains(v) <==> b.contains(v) by {
        if a.contains(v) {
            let k = choose|k: int| 0 <= k < a.len() && a[k] == v;
            assert(ids[k] == OrderId(v));
            assert(owned(orders, user).contains(v));
            let m = choose|m: int| 0 <= m < other.len() && other[m] == OrderId(v);
            assert(b[m] == v);
        }
        if b.contains(v) {
            let k = choose|k: int| 0 <= k < b.len() && b[k] == v;
            assert(other[k] == OrderId(v));
            assert(owned(orders, user).contains(v));
            let m = choose|m: int| 0 <= m < ids.len() && ids[m] == OrderId(v);
            assert(a[m] == v);
        }
    }
    lemma_ascending(a, b);
    assert(a.len() == b.len());
    assert forall|i: int| 0 <= i < ids.len() implies ids[i] == other[i] by {
        assert(a[i] == b[i]);
        assert(ids[i].0 == other[i].0);
    }
    assert(ids =~= other);
}

/// Applies commands to per-instrument engines and emits execution reports.
///
/// Given the same commands it produces the same reports, which is what makes
/// replaying a journal exact.
pub struct Processor<S: MatchingStrategy + Copy> {
    engines: HashMap<u32, MatchingEngine<S>>,
    /// The instruments that have an engine, in ascending order.
    listed: Vec<u32>,
    strategy: S,
    guard: Option<PriceGuard>,
    default_pool: (usize, bool),
    stp: SelfTradePolicy,
    fees: FeeSchedule,
    limits: Option<RiskLimits>,
    trades_buf: Vec<Trade>,
}

impl<S: MatchingStrategy + Copy> Processor<S> {
    /// The rules in force.
    pub closed spec fn rules(self) -> Rules<S> {
        Rules {
            strategy: self.strategy,
            stp: self.stp,
            fees: self.fees,
            limits: self.limits,
            guard: self.guard,
        }
    }

    /// The pool of a book that comes up later: its room for orders, and whether its
    /// memory is touched ahead of use.
    pub closed spec fn pool(self) -> (usize, bool) {
        self.default_pool
    }

    spec fn view_of(engine: MatchingEngine<S>) -> EngineView {
        EngineView { book: engine.resting(), seq: engine.clock() }
    }

    /// The state of every instrument.
    pub closed spec fn engines(self) -> Engines {
        Map::new(
            |k: u32| self.engines@.contains_key(k),
            |k: u32| Self::view_of(self.engines@[k]),
        )
    }

    spec fn sound(self, engine: MatchingEngine<S>) -> bool {
        engine.wf() && engine.policy() == self.stp && engine.sharing() == self.strategy
    }

    /// Every engine is well-formed and all of them are listed, but for that of
    /// the instrument that is out for work.
    spec fn wf_but(self, out: Option<u32>) -> bool {
        &&& forall|k: u32| #[trigger] self.engines@.contains_key(k) ==> self.sound(self.engines@[k])
        &&& ascending(self.listed@)
        &&& forall|k: u32| #[trigger]
            self.listed@.contains(k) <==> self.engines@.contains_key(k) || out == Some(k)
    }

    /// The processor's invariant.
    pub closed spec fn wf(self) -> bool {
        self.wf_but(None)
    }

    /// A processor without books, under the given policy and price guard.
    pub fn new(strategy: S, guard: Option<PriceGuard>) -> (r: Processor<S>)
        ensures
            r.wf(),
            r.rules() == (Rules {
                strategy,
                stp: SelfTradePolicy::Allow,
                fees: FeeSchedule { maker_bps: 0, taker_bps: 0 },
                limits: None,
                guard,
            }),
            r.engines() == Map::<u32, EngineView>::empty(),
            r.pool() == (4096usize, false),
    {
        let r = Processor {
            engines: HashMap::new(),
            listed: Vec::new(),
            strategy,
            guard,
            default_pool: (4096, false),
            stp: SelfTradePolicy::Allow,
            fees: FeeSchedule { maker_bps: 0, taker_bps: 0 },
            limits: None,
            trades_buf: Vec::new(),
        };
        assert(r.engines() =~= Map::<u32, EngineView>::empty());
        r
    }

    /// Sets the self-trade prevention policy of every book, those that are there
    /// and those to come.
    pub fn with_stp(self, stp: SelfTradePolicy) -> (r: Processor<S>)
        requires
            self.wf(),
        ensures
            r.wf(),
            r.rules() == (Rules { stp, ..self.rules() }),
            r.engines() == self.engines(),
            r.pool() == self.pool(),
    {
        let ghost before = self;
        let mut out = self;
        out.stp = stp;
        let mut i: usize = 0;
        proof {
            assert forall|k: u32| #[trigger] out.engines@.contains_key(k) implies out.engines@[k].wf()
                && out.engines@[k].sharing() == out.strategy by {
                assert(before.sound(before.engines@[k]));
            }
        }
        while i < out.listed.len()
            invariant
                i <= out.listed@.len(),
                before.wf(),
                out.stp == stp,
                out.strategy == before.strategy,
                out.fees == before.fees,
                out.limits == before.limits,
                out.guard == before.guard,
                out.default_pool == before.default_pool,
                out.listed == before.listed,
                out.engines@.dom() == before.engines@.dom(),
                forall|k: u32| #[trigger]
                    out.engines@.contains_key(k) ==> {
                        &&& out.engines@[k].wf()
                        &&& out.engines@[k].sharing() == out.strategy
                        &&& Self::view_of(out.engines@[k]) == Self::view_of(before.engines@[k])
                    },
                forall|j: int|
                    0 <= j < i ==> out.engines@[#[trigger] out.listed@[j]].policy() == stp,
            decreases out.listed@.len() - i,
        {
            let key = out.listed[i];
            let ghost engines = out.engines@;
            assert(before.listed@.contains(key));
            assert(engines.contains_key(key));
            if let Some(engine) = out.engines.remove(&key) {
                out.engines.insert(key, engine.with_stp(stp));
            }
            assert(out.engines@.dom() =~= engines.dom());
            i += 1;
        }
        proof {
            assert forall|k: u32| #[trigger] out.engines@.contains_key(k) implies out.sound(
                out.engines@[k],
            ) by {
                assert(before.listed@.contains(k));
                let j = choose|j: int| 0 <= j < out.listed@.len() && out.listed@[j] == k;
                assert(out.engines@[out.listed@[j]].policy() == stp);
            }
            assert(out.engines() =~= before.engines());
        }
        out
    }

    /// Sets how many orders the pool of a book that comes up later has room for,
    /// and whether its memory is touched ahead of use.
    pub fn with_default_pool(self, max_orders: usize, prefault: bool) -> (r: Processor<S>)
        requires
            self.wf(),
        ensures
            r.wf(),
            r.rules() == self.rules(),
            r.engines() == self.engines(),
            r.pool() == (max_orders, prefault),
    {
        let mut out = self;
        out.default_pool = (max_orders, prefault);
        assert forall|k: u32| out.engines@.contains_key(k) implies out.sound(out.engines@[k]) by {
            assert(self.sound(self.engines@[k]));
        }
        out
    }

    /// Sets the static pre-trade limits.
    pub fn with_limits(self, limits: Option<RiskLimits>) -> (r: Processor<S>)
        requires
            self.wf(),
        ensures
            r.wf(),
            r.rules() == (Rules { limits, ..self.rules() }),
            r.engines() == self.engines(),
            r.pool() == self.pool(),
    {
        let mut out = self;
        out.limits = limits;
        assert forall|k: u32| out.engines@.contains_key(k) implies out.sound(out.engines@[k]) by {
            assert(self.sound(self.engines@[k]));
        }
        out
    }

    /// Sets the fee schedule.
    pub fn with_fees(self, fees: FeeSchedule) -> (r: Processor<S>)
        requires
            self.wf(),
        ensures
            r.wf(),
            r.rules() == (Rules { fees, ..self.rules() }),
            r.engines() == self.engines(),
            r.pool() == self.pool(),
    {
        let mut out = self;
        out.fees = fees;
        assert forall|k: u32| out.engines@.contains_key(k) implies out.sound(out.engines@[k]) by {
            assert(self.sound(self.engines@[k]));
        }
        out
    }

    /// Adds `instrument` to the listed ones.
    fn list(&mut self, instrument: u32)
        requires
            old(self).wf(),
            !old(self).engines@.contains_key(instrument),
        ensures
            final(self).wf_but(Some(instrument)),
            final(self).engines == old(self).engines,
            final(self).rules() == old(self).rules(),
    {
        assert(!self.listed@.contains(instrument));
        insert_ascending(&mut self.listed, instrument);
        assert forall|k: u32| #[trigger] self.engines@.contains_key(k) implies self.sound(
            self.engines@[k],
        ) by {
            assert(old(self).sound(old(self).engines@[k]));
        }
    }

    /// Takes an instrument's engine out for work; one that was never touched gets
    /// a fresh engine.
    fn take_engine(&mut self, instrument: InstrumentId) -> (r: MatchingEngine<S>)
        requires
            old(self).wf(),
        ensures
            final(self).wf_but(Some(instrument.0)),
            final(self).sound(r),
            Self::view_of(r) == engine_at(old(self).engines(), instrument),
            final(self).engines@ == old(self).engines@.remove(instrument.0),
            final(self).rules() == old(self).rules(),
    {
        match self.engines.remove(&instrument.0) {
            Some(engine) => {
                proof {
                    assert(old(self).sound(old(self).engines@[instrument.0]));
                    assert forall|k: u32| #[trigger]
                        self.engines@.contains_key(k) implies self.sound(self.engines@[k]) by {
                        assert(old(self).sound(old(self).engines@[k]));
                    }
                }
                engine
            },
            None => {
                assert(self.engines@ =~= old(self).engines@);
                proof {
                    assert forall|k: u32| #[trigger]
                        self.engines@.contains_key(k) implies self.sound(self.engines@[k]) by {
                        assert(old(self).sound(old(self).engines@[k]));
                    }
                }
                let (pool, prefault) = self.default_pool;
                self.list(instrument.0);
                assert(self.engines@ =~= old(self).engines@.remove(instrument.0));
                MatchingEngine::with_pool(self.strategy, pool, prefault).with_stp(self.stp)
            },
        }
    }

    /// Puts an engine back.
    fn put_engine(&mut self, instrument: InstrumentId, engine: MatchingEngine<S>)
        requires
            old(self).wf_but(Some(instrument.0)),
            old(self).sound(engine),
        ensures
            final(self).wf(),
            final(self).engines() == old(self).engines().insert(
                instrument.0,
                Self::view_of(engine),
            ),
            final(self).rules() == old(self).rules(),
    {
        self.engines.insert(instrument.0, engine);
        proof {
            assert forall|k: u32| #[trigger] self.engines@.contains_key(k) implies self.sound(
                self.engines@[k],
            ) by {
                if k != instrument.0 {
                    assert(old(self).sound(old(self).engines@[k]));
                }
            }
            assert(self.engines() =~= old(self).engines().insert(
                instrument.0,
                Self::view_of(engine),
            ));
        }
    }

    /// Creates an instrument's book, with `pool_orders` order slots reserved,
    /// unless it has one.
    pub fn create_book(&mut self, instrument: InstrumentId, pool_orders: usize, prefault: bool)
        requires
            old(self).wf(),
        ensures
            final(self).wf(),
            final(self).rules() == old(self).rules(),
            final(self).engines() == old(self).engines().insert(
                instrument.0,
                engine_at(old(self).engines(), instrument),
            ),
    {
        if self.engines.contains_key(&instrument.0) {
            assert(self.engines().insert(instrument.0, engine_at(self.engines(), instrument))
                =~= self.engines());
        } else {
            self.list(instrument.0);
            let engine = MatchingEngine::with_pool(self.strategy, pool_orders, prefault).with_stp(
                self.stp,
            );
            self.put_engine(instrument, engine);
        }
    }

    /// Pre-trade risk, cheapest checks first: static limits, the price band, then
    /// the cap on the user's open orders, which needs the book.
    fn screen(&self, engine: Option<&MatchingEngine<S>>, order: &Order) -> (r: Result<
        Order,
        RejectReason,
    >)
        requires
            engine is Some ==> engine->0.wf(),
        ensures
            r == screened(
                self.rules(),
                match engine {
                    Some(engine) => engine.resting(),
                    None => BookView::empty(),
                },
                *order,
            ),
    {
        if let Some(limits) = &self.limits {
            if let Err(reason) = limits.check_static(order) {
                return Err(reason);
            }
        }
        let ready = match &self.guard {
            Some(guard) => match guard.vet(order) {
                Ok(ready) => ready,
                Err(reason) => {
                    return Err(reason);
                },
            },
            None => *order,
        };
        if let Some(limits) = &self.limits {
            if limits.max_user_orders > 0 && ready.user != 0 {
                let open: u32 = match engine {
                    Some(engine) => engine.book().user_open_orders(ready.user),
                    None => {
                        assert(owned(BookView::empty().orders, ready.user) =~= Set::<u64>::empty());
                        0
                    },
                };
                if open >= limits.max_user_orders {
                    return Err(RejectReason::MaxUserOrders);
                }
            }
        }
        Ok(ready)
    }

    /// Reports `trades` with their fees.
    fn report_trades(&self, instrument: InstrumentId, trades: &Vec<Trade>, out: &mut Vec<ExecReport>)
        ensures
            final(out)@ == old(out)@ + trade_reports(self.fees, instrument, trades@),
    {
        let mut i: usize = 0;
        assert(trade_reports(self.fees, instrument, trades@.take(0)) =~= Seq::<ExecReport>::empty());
        while i < trades.len()
            invariant
                i <= trades@.len(),
                out@ == old(out)@ + trade_reports(self.fees, instrument, trades@.take(i as int)),
            decreases trades@.len() - i,
        {
            let t = trades[i];
            let (maker_fee, taker_fee) = self.fees.fees(t.price, t.quantity);
            out.push(
                ExecReport::Trade {
                    instrument,
                    taker: t.taker,
                    maker: t.maker,
                    aggressor: t.aggressor,
                    price: t.price,
                    qty: t.quantity,
                    maker_fee,
                    taker_fee,
                },
            );
            proof {
                let next = trades@.take(i + 1);
                assert(trade_reports(self.fees, instrument, next) =~= trade_reports(
                    self.fees,
                    instrument,
                    trades@.take(i as int),
                ).push(trade_report(self.fees, instrument, t)));
                assert(out@ =~= old(out)@ + trade_reports(self.fees, instrument, next));
            }
            i += 1;
        }
        assert(trades@.take(i as int) =~= trades@);
    }

    /// Whether `command` may be applied in the present state.
    pub fn accepts(&self, command: &Command) -> (r: bool)
        requires
            self.wf(),
        ensures
            r == admissible(self.rules(), self.engines(), *command),
    {
        let instrument = command.instrument();
        let engine = self.engines.get(&instrument.0);
        proof {
            if self.engines@.contains_key(instrument.0) {
                assert(self.sound(self.engines@[instrument.0]));
            }
            assert(engine_at(self.engines(), instrument).book == match engine {
                Some(engine) => engine.resting(),
                None => BookView::empty(),
            });
        }
        let seq: u64 = match engine {
            Some(engine) => engine.seq(),
            None => 0,
        };
        match command {
            Command::New(order) => match self.screen(engine, order) {
                Err(_) => true,
                Ok(ready) => {
                    if seq == u64::MAX {
                        return false;
                    }
                    match engine {
                        Some(engine) => !engine.would_collide(&ready),
                        None => true,
                    }
                },
            },
            Command::Cancel { .. } => true,
            _ => seq < u64::MAX,
        }
    }

    /// Submits a new order and reports its outcome.
    fn process_new(&mut self, order: Order, out: &mut Vec<ExecReport>)
        requires
            old(self).wf(),
            admissible(old(self).rules(), old(self).engines(), Command::New(order)),
        ensures
            final(self).wf(),
            final(self).rules() == old(self).rules(),
            final(self).engines() == placed(old(self).rules(), old(self).engines(), order).0,
            final(out)@ == old(out)@ + placed(old(self).rules(), old(self).engines(), order).1,
            none_added(
                engine_at(old(self).engines(), order.instrument).book,
                engine_at(final(self).engines(), order.instrument).book,
                order.id.0,
                screened(
                    old(self).rules(),
                    engine_at(old(self).engines(), order.instrument).book,
                    order,
                ) matches Ok(ready) && ready.order_type is Limit && ready.tif is Gtc,
            ),
    {
        let instrument = order.instrument;
        let order_id = order.id;
        let ghost engine_before = engine_at(self.engines(), instrument);
        let engine = self.engines.get(&instrument.0);
        proof {
            if self.engines@.contains_key(instrument.0) {
                assert(self.sound(self.engines@[instrument.0]));
            }
        }
        let ready = match self.screen(engine, &order) {
            Ok(ready) => ready,
            Err(reason) => {
                out.push(ExecReport::Rejected { instrument, order_id, reason });
                assert(out@ =~= old(out)@ + seq![
                    ExecReport::Rejected { instrument, order_id, reason },
                ]);
                if reason == RejectReason::MaxUserOrders {
                    let (pool, prefault) = self.default_pool;
                    self.create_book(instrument, pool, prefault);
                }
                return;
            },
        };
        out.push(ExecReport::Accepted { instrument, order_id });
        let mut trades: Vec<Trade> = Vec::new();
        std::mem::swap(&mut trades, &mut self.trades_buf);
        trades.clear();
        let ghost held = *self;
        proof {
            assert forall|k: u32| #[trigger] self.engines@.contains_key(k) implies self.sound(
                self.engines@[k],
            ) by {
                assert(old(self).sound(old(self).engines@[k]));
            }
            assert(self.engines() =~= old(self).engines());
        }
        let mut engine = self.take_engine(instrument);
        let ghost rules = self.rules();
        let ghost sub = submitted(rules, engine_before, ready);
        let (_, status, filled, _) = engine.submit_into(ready, &mut trades);
        assert(trades@ =~= sub.trades);
        let ghost accepted = seq![ExecReport::Accepted { instrument, order_id }];
        assert(out@ =~= old(out)@ + accepted);
        let ghost mut pulled: Seq<ExecReport> = Seq::empty();
        if self.stp != SelfTradePolicy::Allow {
            report_cancels(instrument, engine.stp_cancelled(), out);
            proof {
                pulled = cancel_reports(instrument, sub.cancelled);
            }
        }
        assert(out@ =~= old(out)@ + accepted + pulled);
        self.report_trades(instrument, &trades, out);
        out.push(
            match status {
                OrderStatus::Filled => ExecReport::Filled { instrument, order_id },
                OrderStatus::PartiallyFilled => ExecReport::PartiallyFilled {
                    instrument,
                    order_id,
                    filled,
                },
                OrderStatus::Resting => ExecReport::Resting { instrument, order_id },
                OrderStatus::Cancelled => ExecReport::Cancelled { instrument, order_id },
                OrderStatus::Rejected => ExecReport::Rejected {
                    instrument,
                    order_id,
                    reason: RejectReason::Unfillable,
                },
            },
        );
        assert(out@ =~= old(out)@ + placed(old(self).rules(), old(self).engines(), order).1);
        self.put_engine(instrument, engine);
        assert(self.engines() =~= placed(old(self).rules(), old(self).engines(), order).0);
        self.trades_buf = trades;
        assert forall|k: u32| #[trigger] self.engines@.contains_key(k) implies self.sound(
            self.engines@[k],
        ) by {}
    }

    /// Cancels a resting order and reports whether it was there.
    fn process_cancel(
        &mut self,
        instrument: InstrumentId,
        order_id: OrderId,
        out: &mut Vec<ExecReport>,
    )
        requires
            old(self).wf(),
        ensures
            final(self).wf(),
            final(self).rules() == old(self).rules(),
            final(self).engines() == withdrawn(old(self).engines(), instrument, order_id).0,
            final(out)@ == old(out)@ + withdrawn(old(self).engines(), instrument, order_id).1,
    {
        let mut engine = self.take_engine(instrument);
        if engine.cancel(order_id) {
            out.push(ExecReport::Cancelled { instrument, order_id });
        } else {
            out.push(ExecReport::NotFound { instrument, order_id });
        }
        assert(out@ =~= old(out)@ + withdrawn(old(self).engines(), instrument, order_id).1);
        self.put_engine(instrument, engine);
        assert(self.engines() =~= withdrawn(old(self).engines(), instrument, order_id).0);
    }

    /// Amends a resting order and reports the outcome.
    fn process_modify(
        &mut self,
        instrument: InstrumentId,
        order_id: OrderId,
        new_price: Price,
        new_qty: Qty,
        out: &mut Vec<ExecReport>,
    )
        requires
            old(self).wf(),
            engine_at(old(self).engines(), instrument).seq < u64::MAX,
        ensures
            final(self).wf(),
            final(self).rules() == old(self).rules(),
            ({
                let end = amended(
                    old(self).rules(),
                    old(self).engines(),
                    instrument,
                    order_id,
                    new_price,
                    new_qty,
                );
                &&& final(self).engines() == end.0
                &&& final(out)@ == old(out)@ + end.1
            }),
    {
        let ghost end = amended(
            self.rules(),
            self.engines(),
            instrument,
            order_id,
            new_price,
            new_qty,
        );
        let mut engine = self.take_engine(instrument);
        match engine.modify(order_id, new_price, new_qty) {
            ModifyOutcome::NotFound => {
                out.push(ExecReport::NotFound { instrument, order_id });
            },
            ModifyOutcome::Reduced { order_id, remaining } => {
                out.push(ExecReport::Modified { instrument, order_id, remaining });
            },
            ModifyOutcome::Cancelled { order_id } => {
                out.push(ExecReport::Cancelled { instrument, order_id });
            },
            ModifyOutcome::Requoted(report) => {
                self.report_trades(instrument, &report.trades, out);
                let remaining: u64 = if report.filled <= new_qty {
                    new_qty - report.filled
                } else {
                    0
                };
                out.push(
                    match report.status {
                        OrderStatus::Filled => ExecReport::Filled { instrument, order_id },
                        OrderStatus::Resting => ExecReport::Modified {
                            instrument,
                            order_id,
                            remaining,
                        },
                        OrderStatus::PartiallyFilled => ExecReport::Modified {
                            instrument,
                            order_id,
                            remaining,
                        },
                        _ => ExecReport::Cancelled { instrument, order_id },
                    },
                );
            },
        }
        assert(out@ =~= old(out)@ + end.1);
        self.put_engine(instrument, engine);
        assert(self.engines() =~= end.0);
    }

    /// Applies one command; the reports are appended to `out`.
    pub fn process(&mut self, command: Command, out: &mut Vec<ExecReport>)
        requires
            old(self).wf(),
            admissible(old(self).rules(), old(self).engines(), command),
        ensures
            final(self).wf(),
            final(self).rules() == old(self).rules(),
            final(self).engines() == applied(old(self).rules(), old(self).engines(), command).0,
            final(out)@ == old(out)@ + applied(old(self).rules(), old(self).engines(), command).1,
            command matches Command::ForceClose { instrument, user, .. } ==> owned(
                engine_at(final(self).engines(), instrument).book.orders,
                user,
            ) == Set::<u64>::empty(),
    {
        match command {
            Command::New(order) => self.process_new(order, out),
            Command::Cancel { instrument, order_id, .. } => self.process_cancel(
                instrument,
                order_id,
                out,
            ),
            Command::Modify { instrument, order_id, new_price, new_qty, .. } => self.process_modify(
                instrument,
                order_id,
                new_price,
                new_qty,
                out,
            ),
            Command::ForceClose { instrument, user, close_order_id, close_side, close_qty } => {
                let ghost before = engine_at(self.engines(), instrument);
                let mut engine = self.take_engine(instrument);
                let ids = engine.cancel_all_for_user(user);
                proof {
                    assert(is_roster(before.book.orders, user, ids@));
                    lemma_roster(before.book.orders, user, ids@);
                }
                report_cancels(instrument, &ids, out);
                self.put_engine(instrument, engine);
                assert(self.engines() =~= liquidated(old(self).engines(), instrument, user));
                if close_qty > 0 {
                    let close = Order::market(close_order_id, close_side, close_qty).on(
                        instrument,
                    ).owned_by(user);
                    assert(close == closing_order(
                        instrument,
                        user,
                        close_order_id,
                        close_side,
                        close_qty,
                    ));
                    let ghost calm = engine_at(self.engines(), instrument).book;
                    self.process_new(close, out);
                    proof {
                        let after = engine_at(self.engines(), instrument).book;
                        assert forall|id: u64| !owned(after.orders, user).contains(id) by {
                            assert(!owned(calm.orders, user).contains(id));
                            assert(after.orders.contains_key(id) ==> calm.orders.contains_key(id));
                        }
                    }
                    assert(out@ =~= old(out)@ + applied(
                        old(self).rules(),
                        old(self).engines(),
                        command,
                    ).1);
                }
            },
        }
    }

    /// Read-only view of an instrument's engine.
    pub fn engine(&self, instrument: InstrumentId) -> (r: Option<&MatchingEngine<S>>)
        requires
            self.wf(),
        ensures
            match r {
                Some(engine) => {
                    &&& self.engines().contains_key(instrument.0)
                    &&& engine.wf()
                    &&& engine.resting() == self.engines()[instrument.0].book
                    &&& engine.clock() == self.engines()[instrument.0].seq
                    &&& engine.policy() == self.rules().stp
                    &&& engine.sharing() == self.rules().strategy
                },
                None => !self.engines().contains_key(instrument.0),
            },
    {
        let r = self.engines.get(&instrument.0);
        proof {
            if self.engines@.contains_key(instrument.0) {
                assert(self.sound(self.engines@[instrument.0]));
            }
        }
        r
    }
}

/// The complete state of one instrument, as it is written to a snapshot.
#[derive(Debug)]
pub struct EngineState {
    pub instrument: InstrumentId,
    pub engine_seq: u64,
    /// Resting orders, oldest first.
    pub orders: Vec<Order>,
}

/// What an [`EngineState`] holds.
#[verifier::ext_equal]
pub struct StateView {
    pub instrument: u32,
    pub seq: u64,
    pub orders: Seq<Order>,
}

impl View for EngineState {
    type V = StateView;

    open spec fn view(&self) -> StateView {
        StateView { instrument: self.instrument.0, seq: self.engine_seq, orders: self.orders@ }
    }
}

/// A snapshot: the state of every instrument once the journal up to
/// `journal_seq` was applied.
#[derive(Debug)]
pub struct Snapshot {
    pub journal_seq: u64,
    /// Index of the last replicated entry that the state reflects.
    pub raft_applied_index: u64,
    pub engines: Vec<EngineState>,
}

/// What exported states hold.
pub open spec fn state_views(states: Seq<EngineState>) -> Seq<StateView> {
    Seq::new(states.len(), |i: int| states[i]@)
}

/// `state` describes the instrument's engine completely.
pub open spec fn captures(state: StateView, engines: Engines) -> bool {
    &&& engines.contains_key(state.instrument)
    &&& engines[state.instrument].seq == state.seq
    &&& lists(state.orders, engines[state.instrument].book.orders)
    &&& in_time_order(state.orders)
}

/// One of the first `n` states is that of instrument `k`.
pub open spec fn state_for(states: Seq<StateView>, n: int, k: u32) -> bool {
    exists|i: int| 0 <= i < n && (#[trigger] states[i]).instrument == k
}

/// `states` describe all engines, by ascending instrument.
pub open spec fn exported(states: Seq<StateView>, engines: Engines) -> bool {
    &&& forall|i: int, j: int| 0 <= i < j < states.len() ==> (#[trigger] states[i]).instrument < (
    #[trigger] states[j]).instrument
    &&& forall|i: int| 0 <= i < states.len() ==> captures(#[trigger] states[i], engines)
    &&& forall|k: u32| #[trigger]
        engines.contains_key(k) ==> state_for(states, states.len() as int, k)
}

/// The engines once `states` were restored into them.
pub open spec fn restored(engines: Engines, states: Seq<StateView>) -> Engines
    decreases states.len(),
{
    if states.len() == 0 {
        engines
    } else {
        let last = states.last();
        restored(engines, states.drop_last()).insert(
            last.instrument,
            EngineView { book: stacked(last.orders), seq: last.seq },
        )
    }
}

/// States that can be restored into `engines`: one for each instrument at most,
/// each consistent, and none for an instrument that has been in use.
pub open spec fn resumable(engines: Engines, states: Seq<StateView>) -> bool {
    &&& forall|i: int, j: int| 0 <= i < j < states.len() ==> (#[trigger] states[i]).instrument != (
    #[trigger] states[j]).instrument
    &&& forall|i: int|
        0 <= i < states.len() ==> restorable((#[trigger] states[i]).seq, states[i].orders)
            && engine_at(engines, InstrumentId(states[i].instrument)) == (EngineView {
            book: BookView::empty(),
            seq: 0,
        })
}

/// Every book is described consistently and in time priority.
pub open spec fn coherent(engines: Engines) -> bool {
    forall|k: u32| #[trigger]
        engines.contains_key(k) ==> {
            let e = engines[k];
            &&& crate::book::agree(e.book.orders, e.book.bids, e.book.asks)
            &&& timely(e.book, e.seq)
        }
}

proof fn lemma_restored(engines: Engines, states: Seq<StateView>, k: u32)
    requires
        forall|i: int, j: int|
            0 <= i < j < states.len() ==> (#[trigger] states[i]).instrument != (
            #[trigger] states[j]).instrument,
    ensures
        restored(engines, states).contains_key(k) <==> engines.contains_key(k) || state_for(
            states,
            states.len() as int,
            k,
        ),
        !state_for(states, states.len() as int, k) ==> engine_at(
            restored(engines, states),
            InstrumentId(k),
        ) == engine_at(engines, InstrumentId(k)),
        forall|i: int|
            0 <= i < states.len() && (#[trigger] states[i]).instrument == k ==> restored(
                engines,
                states,
            )[k] == (EngineView { book: stacked(states[i].orders), seq: states[i].seq }),
    decreases states.len(),
{
    if states.len() > 0 {
        let front = states.drop_last();
        let n = front.len() as int;
        assert forall|i: int, j: int| 0 <= i < j < n implies (#[trigger] front[i]).instrument != (
        #[trigger] front[j]).instrument by {
            assert(states[i].instrument != states[j].instrument);
        }
        lemma_restored(engines, front, k);
        if state_for(front, n, k) {
            let i = choose|i: int| 0 <= i < n && (#[trigger] front[i]).instrument == k;
            assert(states[i].instrument == k);
        }
        if state_for(states, states.len() as int, k) {
            let i = choose|i: int| 0 <= i < states.len() && (#[trigger] states[i]).instrument == k;
            if i < n {
                assert(front[i].instrument == k);
            }
        }
        if states[n].instrument == k {
            assert(state_for(states, states.len() as int, k));
        }
        assert forall|i: int|
            0 <= i < states.len() && (#[trigger] states[i]).instrument == k implies restored(
            engines,
            states,
        )[k] == (EngineView { book: stacked(states[i].orders), seq: states[i].seq }) by {
            if i < n {
                assert(front[i].instrument == k);
                assert(states[i].instrument != states[n].instrument);
            }
        }
    }
}

/// Restoring exported state gives back the same engines.
pub proof fn law_restore_gives_back_export(engines: Engines, states: Seq<StateView>)
    requires
        coherent(engines),
        exported(states, engines),
    ensures
        resumable(Map::empty(), states),
        restored(Map::empty(), states) == engines,
{
    let built = restored(Map::empty(), states);
    assert forall|i: int| 0 <= i < states.len() implies restorable(
        (#[trigger] states[i]).seq,
        states[i].orders,
    ) && stacked(states[i].orders) == engines[states[i].instrument].book by {
        assert(captures(states[i], engines));
        let e = engines[states[i].instrument];
        crate::engine::law_restore_undoes_export(e.book, e.seq, states[i].orders);
    }
    assert forall|k: u32| built.contains_key(k) <==> engines.contains_key(k) by {
        lemma_restored(Map::empty(), states, k);
        if state_for(states, states.len() as int, k) {
            let i = choose|i: int| 0 <= i < states.len() && (#[trigger] states[i]).instrument == k;
            assert(captures(states[i], engines));
        }
    }
    assert forall|k: u32| #[trigger] built.contains_key(k) implies built[k] == engines[k] by {
        lemma_restored(Map::empty(), states, k);
        assert(engines.contains_key(k));
        let i = choose|i: int| 0 <= i < states.len() && (#[trigger] states[i]).instrument == k;
        assert(captures(states[i], engines));
    }
    assert(built =~= engines);
}

/// Two time-ordered listings of the same orders are the same.
pub proof fn lemma_listing(a: Seq<Order>, b: Seq<Order>, orders: Map<u64, Order>)
    requires
        lists(a, orders),
        lists(b, orders),
        in_time_order(a),
        in_time_order(b),
    ensures
        a == b,
{
    let ta = Seq::new(a.len(), |i: int| a[i].timestamp);
    let tb = Seq::new(b.len(), |i: int| b[i].timestamp);
    assert forall|v: u64| #[trigger] ta.contains(v) <==> tb.contains(v) by {
        if ta.contains(v) {
            let k = choose|k: int| 0 <= k < ta.len() && ta[k] == v;
            assert(orders.contains_key(a[k].id.0));
            assert(b.contains(a[k]));
            let m = choose|m: int| 0 <= m < b.len() && b[m] == a[k];
            assert(tb[m] == v);
        }
        if tb.contains(v) {
            let k = choose|k: int| 0 <= k < tb.len() && tb[k] == v;
            assert(orders.contains_key(b[k].id.0));
            assert(a.contains(b[k]));
            let m = choose|m: int| 0 <= m < a.len() && a[m] == b[k];
            assert(ta[m] == v);
        }
    }
    lemma_ascending(ta, tb);
    assert(ta.len() == tb.len());
    assert forall|i: int| 0 <= i < a.len() implies a[i] == b[i] by {
        assert(ta[i] == tb[i]);
        assert(orders.contains_key(a[i].id.0));
        assert(b.contains(a[i]));
        let m = choose|m: int| 0 <= m < b.len() && b[m] == a[i];
        assert(b[m].timestamp == b[i].timestamp);
    }
    assert(a =~= b);
}

/// Equal engines are exported equally.
pub proof fn law_export_is_unique(a: Seq<StateView>, b: Seq<StateView>, engines: Engines)
    requires
        exported(a, engines),
        exported(b, engines),
    ensures
        a == b,
{
    let ka = Seq::new(a.len(), |i: int| a[i].instrument as u64);
    let kb = Seq::new(b.len(), |i: int| b[i].instrument as u64);
    assert forall|v: u64| #[trigger] ka.contains(v) <==> kb.contains(v) by {
        if ka.contains(v) {
            let k = choose|k: int| 0 <= k < ka.len() && ka[k] == v;
            assert(captures(a[k], engines));
            let key = a[k].instrument;
            assert(state_for(b, b.len() as int, key));
            let m = choose|m: int| 0 <= m < b.len() && (#[trigger] b[m]).instrument == key;
            assert(kb[m] == v);
        }
        if kb.contains(v) {
            let k = choose|k: int| 0 <= k < kb.len() && kb[k] == v;
            assert(captures(b[k], engines));
            let key = b[k].instrument;
            assert(state_for(a, a.len() as int, key));
            let m = choose|m: int| 0 <= m < a.len() && (#[trigger] a[m]).instrument == key;
            assert(ka[m] == v);
        }
    }
    lemma_ascending(ka, kb);
    assert(ka.len() == kb.len());
    assert forall|i: int| 0 <= i < a.len() implies a[i] == b[i] by {
        assert(ka[i] == kb[i]);
        assert(captures(a[i], engines) && captures(b[i], engines));
        lemma_listing(a[i].orders, b[i].orders, engines[a[i].instrument].book.orders);
        assert(a[i] =~= b[i]);
    }
    assert(a =~= b);
}

impl<S: MatchingStrategy + Copy> Processor<S> {
    /// The books of a processor are consistent and in time priority.
    pub proof fn law_engines_coherent(&self)
        requires
            self.wf(),
        ensures
            coherent(self.engines()),
    {
        assert forall|k: u32| #[trigger] self.engines().contains_key(k) implies ({
            let e = self.engines()[k];
            &&& crate::book::agree(e.book.orders, e.book.bids, e.book.asks)
            &&& timely(e.book, e.seq)
        }) by {
            assert(self.sound(self.engines@[k]));
            self.engines@[k].law_state();
        }
    }

    /// The full state of every engine, by ascending instrument.
    pub fn export_state(&self) -> (r: Vec<EngineState>)
        requires
            self.wf(),
        ensures
            exported(state_views(r@), self.engines()),
    {
        let mut states: Vec<EngineState> = Vec::new();
        let mut i: usize = 0;
        while i < self.listed.len()
            invariant
                self.wf(),
                i <= self.listed@.len(),
                states@.len() == i,
                forall|j: int|
                    0 <= j < i ==> captures(#[trigger] states@[j]@, self.engines())
                        && states@[j]@.instrument == self.listed@[j],
            decreases self.listed@.len() - i,
        {
            let instrument: u32 = self.listed[i];
            assert(self.listed@.contains(instrument));
            if let Some(engine) = self.engines.get(&instrument) {
                assert(self.sound(self.engines@[instrument]));
                let state = EngineState {
                    instrument: InstrumentId(instrument),
                    engine_seq: engine.seq(),
                    orders: engine.export_orders(),
                };
                assert(captures(state@, self.engines()));
                states.push(state);
            }
            i += 1;
        }
        proof {
            let views = state_views(states@);
            assert forall|i: int, j: int| 0 <= i < j < views.len() implies (
            #[trigger] views[i]).instrument < (#[trigger] views[j]).instrument by {
                assert(captures(states@[i]@, self.engines()));
                assert(captures(states@[j]@, self.engines()));
            }
            assert forall|i: int| 0 <= i < views.len() implies captures(
                #[trigger] views[i],
                self.engines(),
            ) by {
                assert(captures(states@[i]@, self.engines()));
            }
            assert forall|k: u32| #[trigger] self.engines().contains_key(k) implies state_for(
                views,
                views.len() as int,
                k,
            ) by {
                assert(self.listed@.contains(k));
                let m = choose|m: int| 0 <= m < self.listed@.len() && self.listed@[m] == k;
                assert(captures(states@[m]@, self.engines()));
                assert(views[m].instrument == k);
            }
        }
        states
    }

    /// Whether a snapshot can be restored: it holds no instrument twice, its orders
    /// make books, and none of its instruments is in use.
    pub fn can_restore(&self, snap: &Snapshot) -> (r: bool)
        requires
            self.wf(),
        ensures
            r == resumable(self.engines(), state_views(snap.engines@)),
    {
        let ghost views = state_views(snap.engines@);
        let mut seen: HashSet<u32> = HashSet::new();
        let mut i: usize = 0;
        while i < snap.engines.len()
            invariant
                i <= snap.engines@.len(),
                self.wf(),
                views == state_views(snap.engines@),
                resumable(self.engines(), views.take(i as int)),
                forall|k: u32| #[trigger]
                    seen@.contains(k) <==> exists|j: int|
                        0 <= j < i && (#[trigger] views[j]).instrument == k,
            decreases snap.engines@.len() - i,
        {
            let state = &snap.engines[i];
            let ghost view = views[i as int];
            let unused: bool = match self.engines.get(&state.instrument.0) {
                None => true,
                Some(engine) => {
                    proof {
                        assert(self.sound(self.engines@[state.instrument.0]));
                        engine.law_state();
                        lemma_bare(engine.resting());
                    }
                    engine.seq() == 0 && engine.book().is_empty()
                },
            };
            assert(unused == (engine_at(self.engines(), state.instrument) == (EngineView {
                book: BookView::empty(),
                seq: 0,
            })));
            if !unused || seen.contains(&state.instrument.0) || !can_restore(
                state.engine_seq,
                &state.orders,
            ) {
                proof {
                    if resumable(self.engines(), views) {
                        assert(restorable(view.seq, view.orders));
                        if seen@.contains(view.instrument) {
                            let j = choose|j: int|
                                0 <= j < i && (#[trigger] views[j]).instrument == view.instrument;
                            assert(views[j].instrument != views[i as int].instrument);
                        }
                    }
                }
                return false;
            }
            let ghost known = seen@;
            seen.insert(state.instrument.0);
            proof {
                let so_far = views.take(i as int);
                let next = views.take(i + 1);
                assert(next =~= so_far.push(view));
                assert forall|a: int, b: int| 0 <= a < b < next.len() implies (
                #[trigger] next[a]).instrument != (#[trigger] next[b]).instrument by {
                    assert(so_far[a] == next[a]);
                    if b < i {
                        assert(so_far[b] == next[b]);
                    } else {
                        assert(views[a].instrument == next[a].instrument);
                        assert(!known.contains(view.instrument));
                    }
                }
                assert forall|j: int| 0 <= j < next.len() implies restorable(
                    (#[trigger] next[j]).seq,
                    next[j].orders,
                ) && engine_at(self.engines(), InstrumentId(next[j].instrument)) == (EngineView {
                    book: BookView::empty(),
                    seq: 0,
                }) by {
                    if j < i {
                        assert(so_far[j] == next[j]);
                    }
                }
                assert forall|k: u32| #[trigger] seen@.contains(k) <==> exists|j: int|
                    0 <= j < i + 1 && (#[trigger] views[j]).instrument == k by {
                    if k == view.instrument {
                        assert(views[i as int].instrument == k);
                    }
                    if known.contains(k) {
                        let j = choose|j: int| 0 <= j < i && (#[trigger] views[j]).instrument == k;
                        assert(views[j].instrument == k);
                    }
                }
            }
            i += 1;
        }
        assert(views.take(i as int) =~= views);
        true
    }

    /// Restores engines from a snapshot, on instruments not in use yet.
    pub fn restore_state(&mut self, snap: &Snapshot)
        requires
            old(self).wf(),
            resumable(old(self).engines(), state_views(snap.engines@)),
        ensures
            final(self).wf(),
            final(self).rules() == old(self).rules(),
            final(self).engines() == restored(old(self).engines(), state_views(snap.engines@)),
    {
        let ghost views = state_views(snap.engines@);
        let mut i: usize = 0;
        assert(views.take(0) =~= Seq::<StateView>::empty());
        while i < snap.engines.len()
            invariant
                i <= snap.engines@.len(),
                views == state_views(snap.engines@),
                resumable(old(self).engines(), views),
                self.wf(),
                self.rules() == old(self).rules(),
                self.engines() == restored(old(self).engines(), views.take(i as int)),
            decreases snap.engines@.len() - i,
        {
            let state = &snap.engines[i];
            let ghost before = self.engines();
            proof {
                assert(views[i as int] == state@);
                let front = views.take(i as int);
                assert forall|a: int, b: int| 0 <= a < b < front.len() implies (
                #[trigger] front[a]).instrument != (#[trigger] front[b]).instrument by {
                    assert(views[a].instrument != views[b].instrument);
                }
                lemma_restored(old(self).engines(), front, state@.instrument);
                if state_for(front, front.len() as int, state@.instrument) {
                    let m = choose|m: int|
                        0 <= m < front.len() && (#[trigger] front[m]).instrument
                            == state@.instrument;
                    assert(views[m].instrument != views[i as int].instrument);
                }
            }
            let mut engine = self.take_engine(state.instrument);
            engine.restore(state.engine_seq, &state.orders);
            self.put_engine(state.instrument, engine);
            proof {
                let next = views.take(i + 1);
                assert(next.drop_last() =~= views.take(i as int));
                assert(self.engines() =~= restored(old(self).engines(), next));
            }
            i += 1;
        }
        assert(views.take(i as int) =~= views);
    }

    /// Order-sensitive fingerprint of the complete matching state: every resting
    /// order of every book and the sequence counters. Equal fingerprints mean
    /// identical states, as far as a 64-bit hash can tell.
    pub fn state_fingerprint(&self) -> (r: u64)
        requires
            self.wf(),
        ensures
            forall|states: Seq<StateView>| #[trigger]
                exported(states, self.engines()) ==> r == fnv(words_le(state_words(states))),
    {
        let states = self.export_state();
        let h: u64 = fingerprint_engine_states(&states, None);
        proof {
            let views = state_views(states@);
            lemma_all_chosen(views);
            assert forall|other: Seq<StateView>| #[trigger]
                exported(other, self.engines()) implies h == fnv(words_le(state_words(other))) by {
                law_export_is_unique(other, views, self.engines());
            }
        }
        h
    }

    /// Fingerprint of the matching state of one category of `category_size`
    /// instruments.
    pub fn category_fingerprint(&self, category_id: u32, category_size: u32) -> (r: u64)
        requires
            self.wf(),
            category_size > 0,
        ensures
            forall|states: Seq<StateView>| #[trigger]
                exported(states, self.engines()) ==> r == fnv(
                    words_le(state_words(chosen(states, Some((category_id, category_size))))),
                ),
    {
        let states = self.export_state();
        let h: u64 = fingerprint_engine_states(&states, Some((category_id, category_size)));
        proof {
            let views = state_views(states@);
            assert forall|other: Seq<StateView>| #[trigger]
                exported(other, self.engines()) implies h == fnv(
                words_le(state_words(chosen(other, Some((category_id, category_size))))),
            ) by {
                law_export_is_unique(other, views, self.engines());
            }
        }
        h
    }
}

/// `state` belongs to the wanted category; without one, every state does.
pub open spec fn in_category(state: StateView, wanted: Option<(u32, u32)>) -> bool {
    match wanted {
        Some((id, size)) => category(state.instrument, size) == id,
        None => true,
    }
}

/// The states of the wanted category, in order.
pub open spec fn chosen(states: Seq<StateView>, wanted: Option<(u32, u32)>) -> Seq<StateView>
    decreases states.len(),
{
    if states.len() == 0 {
        Seq::empty()
    } else {
        let front = chosen(states.drop_last(), wanted);
        if in_category(states.last(), wanted) {
            front.push(states.last())
        } else {
            front
        }
    }
}

proof fn lemma_all_chosen(states: Seq<StateView>)
    ensures
        chosen(states, None) == states,
    decreases states.len(),
{
    if states.len() > 0 {
        lemma_all_chosen(states.drop_last());
        assert(states.drop_last().push(states.last()) =~= states);
    } else {
        assert(states =~= Seq::<StateView>::empty());
    }
}

/// Order-sensitive fingerprint of exported states, with every field of their
/// orders: all of them, or those of one category, given by its number and its size.
pub fn fingerprint_engine_states(states: &Vec<EngineState>, wanted: Option<(u32, u32)>) -> (r: u64)
    requires
        wanted matches Some((_, size)) ==> size > 0,
    ensures
        r == fnv(words_le(state_words(chosen(state_views(states@), wanted)))),
{
    let ghost views = state_views(states@);
    let mut h: u64 = FNV_OFFSET;
    let mut i: usize = 0;
    proof {
        assert(views.take(0) =~= Seq::<StateView>::empty());
        assert(words_le(state_words(chosen(views.take(0), wanted))) =~= Seq::<u8>::empty());
    }
    while i < states.len()
        invariant
            i <= states@.len(),
            wanted matches Some((_, size)) ==> size > 0,
            views == state_views(states@),
            h == fnv(words_le(state_words(chosen(views.take(i as int), wanted)))),
        decreases states@.len() - i,
    {
        let s = &states[i];
        let ghost before = chosen(views.take(i as int), wanted);
        let ghost next = views.take(i + 1);
        proof {
            assert(next.drop_last() =~= views.take(i as int));
            assert(next.last() == s@);
        }
        let included: bool = match wanted {
            Some((id, size)) => asset_category(s.instrument, size) == id,
            None => true,
        };
        if included {
            let ghost words = state_words(before);
            h = mix(h, s.instrument.0 as u64, Ghost(words));
            let ghost words = words.push(s.instrument.0 as u64);
            h = mix(h, s.engine_seq, Ghost(words));
            let ghost words = words.push(s.engine_seq);
            h = mix(h, s.orders.len() as u64, Ghost(words));
            let ghost head = words.push(s.orders@.len() as u64);
            let mut j: usize = 0;
            proof {
                assert(s.orders@.take(0) =~= Seq::<Order>::empty());
                assert(head + order_words(s.orders@.take(0)) =~= head);
            }
            while j < s.orders.len()
                invariant
                    j <= s.orders@.len(),
                    h == fnv(words_le(head + order_words(s.orders@.take(j as int)))),
                decreases s.orders@.len() - j,
            {
                let o = s.orders[j];
                let ghost words = head + order_words(s.orders@.take(j as int));
                h = mix_order(h, &o, Ghost(words));
                proof {
                    let next = s.orders@.take(j + 1);
                    assert(next.drop_last() =~= s.orders@.take(j as int));
                    assert(words + order_fields(o) =~= head + order_words(next));
                }
                j += 1;
            }
            proof {
                assert(s.orders@.take(j as int) =~= s.orders@);
                let after = before.push(s@);
                assert(after.drop_last() =~= before);
                assert(head =~= state_words(before) + seq![
                    s.instrument.0 as u64,
                    s.engine_seq,
                    s.orders@.len() as u64,
                ]);
                assert(state_words(after) == state_words(before) + engine_words(s@));
                assert(state_words(after) =~= head + order_words(s.orders@));
            }
        }
        i += 1;
    }
    assert(views.take(i as int) =~= views);
    h
}

/// Reports that each of `ids` was cancelled.
fn report_cancels(instrument: InstrumentId, ids: &Vec<OrderId>, out: &mut Vec<ExecReport>)
    ensures
        final(out)@ == old(out)@ + cancel_reports(instrument, ids@),
{
    let mut i: usize = 0;
    assert(cancel_reports(instrument, ids@.take(0)) =~= Seq::<ExecReport>::empty());
    while i < ids.len()
        invariant
            i <= ids@.len(),
            out@ == old(out)@ + cancel_reports(instrument, ids@.take(i as int)),
        decreases ids@.len() - i,
    {
        let order_id = ids[i];
        out.push(ExecReport::Cancelled { instrument, order_id });
        proof {
            let next = ids@.take(i + 1);
            assert(cancel_reports(instrument, next) =~= cancel_reports(
                instrument,
                ids@.take(i as int),
            ).push(ExecReport::Cancelled { instrument, order_id }));
            assert(out@ =~= old(out)@ + cancel_reports(instrument, next));
        }
        i += 1;
    }
    assert(ids@.take(i as int) =~= ids@);
}

} // verus!
