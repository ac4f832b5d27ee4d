//! The limit order book: resting liquidity organised by price and time, backed
//! by a slab of order slots.

use std::collections::HashMap;

use vstd::prelude::*;

use crate::ladder::{
    best_price, beyond, capped, crossable, fillable, is_best, lemma_best_price, lemma_beyond_step,
    lemma_crossable_bound, lemma_prices_finite, lemma_reduced_absent, lemma_reduced_all,
    lemma_settle_keeps, level_at, reduced, resting_of, resting_seq, rows, set_level, settle,
    sweep_cost, total, valid_fills, without, Levels,
};
use crate::levels::{Level, LevelIndex, LevelView};
use crate::order::Order;
use crate::pool::OrderPool;
use crate::strategy::RestingOrder;
use crate::types::{OrderId, Price, Qty, Side};

verus! {

broadcast use vstd::std_specs::hash::group_hash_axioms;

/// The live orders of a queue of slots, oldest first.
pub open spec fn live(queue: Seq<usize>, slots: Seq<Order>) -> Seq<Order>
    decreases queue.len(),
{
    if queue.len() == 0 {
        Seq::empty()
    } else {
        let order = slots[queue.last() as int];
        let front = live(queue.drop_last(), slots);
        if order.remaining > 0 {
            front.push(order)
        } else {
            front
        }
    }
}

/// How many slots at the front of a queue are dead.
spec fn dead_front(queue: Seq<usize>, slots: Seq<Order>) -> nat
    decreases queue.len(),
{
    if queue.len() == 0 || slots[queue[0] as int].remaining > 0 {
        0
    } else {
        1 + dead_front(queue.skip(1), slots)
    }
}

/// No more slots are dead at the front than there are.
proof fn lemma_dead_front(queue: Seq<usize>, slots: Seq<Order>)
    ensures
        dead_front(queue, slots) <= queue.len(),
    decreases queue.len(),
{
    if queue.len() > 0 && slots[queue[0] as int].remaining == 0 {
        lemma_dead_front(queue.skip(1), slots);
    }
}

proof fn lemma_live_frame(queue: Seq<usize>, s1: Seq<Order>, s2: Seq<Order>)
    requires
        forall|j: int| #![trigger queue[j]]
            0 <= j < queue.len() ==> s1[queue[j] as int] == s2[queue[j] as int],
    ensures
        live(queue, s1) == live(queue, s2),
    decreases queue.len(),
{
    if queue.len() > 0 {
        let front = queue.drop_last();
        assert forall|j: int| #![trigger front[j]] 0 <= j < front.len() implies s1[front[j] as int]
            == s2[front[j] as int] by {
            assert(front[j] == queue[j]);
        }
        lemma_live_frame(front, s1, s2);
        assert(queue[queue.len() - 1] == queue.last());
    }
}

proof fn lemma_live_concat(q1: Seq<usize>, q2: Seq<usize>, slots: Seq<Order>)
    ensures
        live(q1 + q2, slots) == live(q1, slots) + live(q2, slots),
    decreases q2.len(),
{
    if q2.len() == 0 {
        assert(q1 + q2 =~= q1);
        assert(live(q1, slots) + live(q2, slots) =~= live(q1, slots));
    } else {
        lemma_live_concat(q1, q2.drop_last(), slots);
        assert((q1 + q2).drop_last() =~= q1 + q2.drop_last());
        assert(live(q1 + q2, slots) =~= live(q1, slots) + live(q2, slots));
    }
}

proof fn lemma_live_front(queue: Seq<usize>, slots: Seq<Order>)
    requires
        queue.len() > 0,
    ensures
        slots[queue[0] as int].remaining == 0 ==> live(queue, slots) == live(queue.skip(1), slots),
        slots[queue[0] as int].remaining > 0 ==> live(queue, slots) == seq![slots[queue[0] as int]]
            + live(queue.skip(1), slots),
{
    let q1 = queue.take(1);
    assert(queue =~= q1 + queue.skip(1));
    lemma_live_concat(q1, queue.skip(1), slots);
    assert(q1.drop_last() =~= Seq::<usize>::empty());
    assert(live(q1.drop_last(), slots) =~= Seq::<Order>::empty());
    if slots[queue[0] as int].remaining == 0 {
        assert(live(q1, slots) =~= Seq::<Order>::empty());
        assert(Seq::<Order>::empty() + live(queue.skip(1), slots) =~= live(queue.skip(1), slots));
    } else {
        assert(live(q1, slots) =~= seq![slots[queue[0] as int]]);
    }
}

/// Every live order of a queue comes from one of its slots, and the other way
/// round.
proof fn lemma_live_sources(queue: Seq<usize>, slots: Seq<Order>)
    ensures
        live(queue, slots).len() <= queue.len(),
        total(live(queue, slots)) <= queue.len() * u64::MAX,
        forall|i: int|
            0 <= i < live(queue, slots).len() ==> sourced(
                queue,
                slots,
                #[trigger] live(queue, slots)[i],
            ),
        forall|j: int| #![trigger queue[j]]
            0 <= j < queue.len() && slots[queue[j] as int].remaining > 0 ==> live(
                queue,
                slots,
            ).contains(slots[queue[j] as int]),
    decreases queue.len(),
{
    if queue.len() > 0 {
        let front = queue.drop_last();
        lemma_live_sources(front, slots);
        let all = live(queue, slots);
        let some = live(front, slots);
        assert(slots[queue.last() as int].remaining > 0 ==> all.drop_last() =~= some);
        assert(queue.len() * u64::MAX == front.len() * u64::MAX + u64::MAX);
        assert forall|i: int| 0 <= i < all.len() implies sourced(queue, slots, #[trigger] all[i]) by {
            if i < some.len() {
                assert(sourced(front, slots, some[i]));
                let j = choose|j: int|
                    0 <= j < front.len() && slots[#[trigger] front[j] as int] == some[i]
                        && some[i].remaining > 0;
                assert(queue[j] == front[j]);
            } else {
                assert(queue[queue.len() - 1] == queue.last());
            }
        }
        assert forall|j: int| #![trigger queue[j]]
            0 <= j < queue.len() && slots[queue[j] as int].remaining > 0 implies all.contains(
            slots[queue[j] as int],
        ) by {
            if j < front.len() {
                assert(front[j] == queue[j]);
                let i = choose|i: int| 0 <= i < some.len() && some[i] == slots[queue[j] as int];
                assert(all[i] == some[i]);
            } else {
                assert(all[all.len() - 1] == slots[queue[j] as int]);
            }
        }
    }
}

/// `order` is live and in one of the queue's slots.
spec fn sourced(queue: Seq<usize>, slots: Seq<Order>, order: Order) -> bool {
    exists|j: int|
        0 <= j < queue.len() && slots[#[trigger] queue[j] as int] == order && order.remaining > 0
}

/// A level's bookkeeping: its slots are distinct, all on this side and price,
/// and its aggregates are exact.
spec fn level_ok(level: LevelView, slots: Seq<Order>, side: Side, price: u64) -> bool {
    &&& level.orders.no_duplicates()
    &&& forall|j: int| #![trigger level.orders[j]]
        0 <= j < level.orders.len() ==> {
            &&& level.orders[j] < slots.len()
            &&& slots[level.orders[j] as int].side == side
            &&& slots[level.orders[j] as int].price == price
        }
    &&& level.qty == total(live(level.orders, slots))
    &&& level.live == live(level.orders, slots).len()
}

spec fn side_ok(index: Map<u64, LevelView>, slots: Seq<Order>, side: Side) -> bool {
    forall|p: u64| #[trigger] index.contains_key(p) ==> level_ok(index[p], slots, side, p)
}

spec fn pick<A>(side: Side, bids: A, asks: A) -> A {
    match side {
        Side::Buy => bids,
        Side::Sell => asks,
    }
}

/// The levels of side `own`, with `level` at (`side`, `price`).
spec fn with_level(
    index: Map<u64, LevelView>,
    own: Side,
    side: Side,
    price: u64,
    level: LevelView,
) -> Map<u64, LevelView> {
    if own == side {
        index.insert(price, level)
    } else {
        index
    }
}

/// Slot `i` stands in the queue of its side and price.
spec fn queued(
    bids: Map<u64, LevelView>,
    asks: Map<u64, LevelView>,
    slots: Seq<Order>,
    i: int,
) -> bool {
    let index = pick(slots[i].side, bids, asks);
    index.contains_key(slots[i].price) && index[slots[i].price].orders.contains(i as usize)
}

/// The resting orders by id.
spec fn orders_map(locate: Map<u64, usize>, slots: Seq<Order>) -> Map<u64, Order> {
    Map::new(|id: u64| locate.contains_key(id), |id: u64| slots[locate[id] as int])
}

/// Ids of the resting orders that `user` owns.
pub open spec fn owned(orders: Map<u64, Order>, user: u64) -> Set<u64> {
    Set::new(|id: u64| orders.contains_key(id) && orders[id].user == user)
}

/// `counts` holds the number of resting orders of every user that has any,
/// except user 0.
spec fn counts_ok(counts: Map<u64, usize>, orders: Map<u64, Order>) -> bool {
    forall|u: u64| #![trigger counts.contains_key(u)]
        {
            &&& counts.contains_key(u) <==> u != 0 && owned(orders, u).len() > 0
            &&& counts.contains_key(u) ==> counts[u] == owned(orders, u).len()
        }
}

/// All parts of the book agree, for the given levels.
spec fn consistent(
    pool: OrderPool,
    bids: Map<u64, LevelView>,
    asks: Map<u64, LevelView>,
    locate: Map<u64, usize>,
    counts: Map<u64, usize>,
) -> bool {
    let slots = pool.slots();
    &&& pool.wf()
    &&& side_ok(bids, slots, Side::Buy)
    &&& side_ok(asks, slots, Side::Sell)
    &&& forall|i: usize| #[trigger] pool.free().contains(i) ==> !queued(bids, asks, slots, i as int)
    &&& forall|i: int| #![trigger slots[i]]
        0 <= i < slots.len() && slots[i].remaining > 0 ==> {
            &&& queued(bids, asks, slots, i)
            &&& locate.contains_key(slots[i].id.0)
            &&& locate[slots[i].id.0] == i
        }
    &&& forall|id: u64| #[trigger]
        locate.contains_key(id) ==> {
            &&& locate[id] < slots.len()
            &&& slots[locate[id] as int].id.0 == id
            &&& slots[locate[id] as int].remaining > 0
        }
    &&& locate.dom().finite()
    &&& counts_ok(counts, orders_map(locate, slots))
}

/// Taking `by` lots from the live order in slot `i` of a queue.
proof fn lemma_live_reduce(queue: Seq<usize>, s1: Seq<Order>, s2: Seq<Order>, i: usize, by: nat)
    requires
        queue.no_duplicates(),
        queue.contains(i),
        i < s1.len(),
        s1[i as int].remaining >= by,
        s1[i as int].remaining > 0,
        s2 == s1.update(
            i as int,
            Order { remaining: (s1[i as int].remaining - by) as u64, ..s1[i as int] },
        ),
        forall|j: int| #![trigger queue[j]] 0 <= j < queue.len() ==> queue[j] < s1.len(),
        forall|j: int| #![trigger queue[j]]
            0 <= j < queue.len() && queue[j] != i && s1[queue[j] as int].remaining > 0 ==> s1[queue[j] as int].id
                != s1[i as int].id,
    ensures
        live(queue, s2) == reduced(live(queue, s1), s1[i as int].id, by),
        total(live(queue, s2)) == total(live(queue, s1)) - by,
        live(queue, s2).len() == live(queue, s1).len() - if s1[i as int].remaining == by {
            1int
        } else {
            0int
        },
    decreases queue.len(),
{
    let front = queue.drop_last();
    let id = s1[i as int].id;
    let a1 = live(queue, s1);
    let a2 = live(queue, s2);
    let f1 = live(front, s1);
    let f2 = live(front, s2);
    assert(queue[queue.len() - 1] == queue.last());
    if queue.last() == i {
        assert forall|j: int| #![trigger front[j]] 0 <= j < front.len() implies s1[front[j] as int]
            == s2[front[j] as int] by {
            assert(front[j] == queue[j]);
            assert(queue[j] != queue[queue.len() - 1]);
        }
        lemma_live_frame(front, s1, s2);
        lemma_live_sources(front, s1);
        assert forall|k: int| 0 <= k < f1.len() implies (#[trigger] f1[k]).id != id by {
            assert(sourced(front, s1, f1[k]));
            let j = choose|j: int|
                0 <= j < front.len() && s1[#[trigger] front[j] as int] == f1[k] && f1[k].remaining
                    > 0;
            assert(front[j] == queue[j]);
            assert(queue[j] != queue[queue.len() - 1]);
        }
        lemma_reduced_absent(f1, id, by);
        assert(a1.drop_last() =~= f1);
        if by < s1[i as int].remaining {
            assert(a2.drop_last() =~= f1);
        }
    } else {
        let k = choose|k: int| 0 <= k < queue.len() && queue[k] == i;
        assert(front[k] == i);
        assert forall|j: int| #![trigger front[j]] 0 <= j < front.len() implies front[j]
            < s1.len() by {
            assert(front[j] == queue[j]);
        }
        assert forall|j: int| #![trigger front[j]]
            0 <= j < front.len() && front[j] != i && s1[front[j] as int].remaining > 0 implies s1[front[j] as int].id
            != id by {
            assert(front[j] == queue[j]);
        }
        lemma_live_reduce(front, s1, s2, i, by);
        let last = s1[queue.last() as int];
        assert(s2[queue.last() as int] == last);
        if last.remaining > 0 {
            assert(last.id != id);
            assert(a1.drop_last() =~= f1);
            assert(a2.drop_last() =~= f2);
        }
    }
}

proof fn lemma_owned_finite(orders: Map<u64, Order>, user: u64)
    requires
        orders.dom().finite(),
    ensures
        owned(orders, user).finite(),
        owned(orders, user).len() <= orders.dom().len(),
{
    assert(owned(orders, user).subset_of(orders.dom()));
    vstd::set_lib::lemma_len_subset(owned(orders, user), orders.dom());
}

/// A slot in some queue stands in the queue of its own side and price.
proof fn lemma_in_queue(
    bids: Map<u64, LevelView>,
    asks: Map<u64, LevelView>,
    slots: Seq<Order>,
    side: Side,
    price: u64,
    i: usize,
)
    requires
        side_ok(bids, slots, Side::Buy),
        side_ok(asks, slots, Side::Sell),
        pick(side, bids, asks).contains_key(price),
        pick(side, bids, asks)[price].orders.contains(i),
    ensures
        i < slots.len(),
        slots[i as int].side == side,
        slots[i as int].price == price,
        queued(bids, asks, slots, i as int),
{
    let level = pick(side, bids, asks)[price];
    let j = choose|j: int| 0 <= j < level.orders.len() && level.orders[j] == i;
    assert(level_ok(level, slots, side, price));
    assert(level.orders[j] == i);
}

/// Levels whose queues lack slot `i` do not notice a change of that slot.
proof fn lemma_side_frame(
    index: Map<u64, LevelView>,
    s1: Seq<Order>,
    s2: Seq<Order>,
    side: Side,
    i: int,
    skip: Option<u64>,
)
    requires
        side_ok(index, s1, side),
        s1.len() <= s2.len(),
        forall|k: int| #![trigger s2[k]] 0 <= k < s1.len() && k != i ==> s2[k] == s1[k],
        forall|p: u64| #[trigger]
            index.contains_key(p) && Some(p) != skip ==> !index[p].orders.contains(i as usize),
        0 <= i <= usize::MAX,
    ensures
        forall|p: u64| #[trigger]
            index.contains_key(p) && Some(p) != skip ==> {
                &&& level_ok(index[p], s2, side, p)
                &&& live(index[p].orders, s2) == live(index[p].orders, s1)
            },
{
    assert forall|p: u64| #[trigger] index.contains_key(p) && Some(p) != skip implies {
        &&& level_ok(index[p], s2, side, p)
        &&& live(index[p].orders, s2) == live(index[p].orders, s1)
    } by {
        let q = index[p].orders;
        assert(level_ok(index[p], s1, side, p));
        assert forall|j: int| #![trigger q[j]] 0 <= j < q.len() implies s1[q[j] as int]
            == s2[q[j] as int] && q[j] < s1.len() by {
            assert(q[j] != i as usize) by {
                if q[j] == i as usize {
                    assert(q.contains(i as usize));
                }
            }
        }
        lemma_live_frame(q, s1, s2);
    }
}

/// The two descriptions of a book agree: by id and by level.
///
/// A resting order has something left, stands exactly once in the queue of its
/// side and price, and every order in a queue is resting; no level is empty.
pub open spec fn agree(orders: Map<u64, Order>, bids: Levels, asks: Levels) -> bool {
    &&& forall|id: u64| #[trigger]
        orders.contains_key(id) ==> {
            let order = orders[id];
            let levels = if order.side is Buy { bids } else { asks };
            &&& order.id.0 == id
            &&& order.remaining > 0
            &&& levels.contains_key(order.price)
            &&& levels[order.price].contains(order)
        }
    &&& levels_ok(orders, bids, Side::Buy)
    &&& levels_ok(orders, asks, Side::Sell)
}

/// Every level of the side is a non-empty queue of distinct resting orders of
/// that side and price.
pub open spec fn levels_ok(orders: Map<u64, Order>, levels: Levels, side: Side) -> bool {
    forall|p: u64| #[trigger] levels.contains_key(p) ==> queue_ok(orders, levels[p], side, p)
}

/// A non-empty queue of distinct resting orders of one side and price.
pub open spec fn queue_ok(orders: Map<u64, Order>, queue: Seq<Order>, side: Side, p: u64) -> bool {
    &&& queue.len() > 0
    &&& forall|i: int|
        0 <= i < queue.len() ==> {
            &&& orders.contains_key((#[trigger] queue[i]).id.0)
            &&& orders[queue[i].id.0] == queue[i]
            &&& queue[i].side == side
            &&& queue[i].price == p
            &&& queue[i].remaining > 0
        }
    &&& forall|i: int, j: int| 0 <= i < j < queue.len() ==> #[trigger] queue[i].id
        != #[trigger] queue[j].id
}

/// The resting orders after each of `fills` has taken its lots.
pub open spec fn filled(orders: Map<u64, Order>, fills: Seq<(OrderId, Qty)>) -> Map<u64, Order>
    decreases fills.len(),
{
    if fills.len() == 0 {
        orders
    } else {
        let before = filled(orders, fills.drop_last());
        let (id, qty) = fills.last();
        let order = before[id.0];
        if order.remaining <= qty {
            before.remove(id.0)
        } else {
            before.insert(id.0, Order { remaining: (order.remaining - qty) as u64, ..order })
        }
    }
}

/// `list` holds every one of `orders` exactly once.
pub open spec fn lists(list: Seq<Order>, orders: Map<u64, Order>) -> bool {
    &&& forall|i: int|
        0 <= i < list.len() ==> orders.contains_key((#[trigger] list[i]).id.0)
            && orders[list[i].id.0] == list[i]
    &&& forall|i: int, j: int| 0 <= i < j < list.len() ==> #[trigger] list[i].id
        != #[trigger] list[j].id
    &&& forall|id: u64| #[trigger] orders.contains_key(id) ==> list.contains(orders[id])
}

/// One of the first `n` orders has the id `id` and belongs to `user`.
spec fn owner_seen(all: Seq<Order>, n: int, user: u64, id: OrderId) -> bool {
    exists|j: int| 0 <= j < n && (#[trigger] all[j]).id == id && all[j].user == user
}

/// The live orders of a queue of distinct slots are distinct orders.
proof fn lemma_live_distinct(queue: Seq<usize>, slots: Seq<Order>)
    requires
        queue.no_duplicates(),
        forall|i: int, j: int| #![trigger queue[i], queue[j]]
            0 <= i < queue.len() && 0 <= j < queue.len() && i != j && slots[queue[i] as int].remaining
                > 0 && slots[queue[j] as int].remaining > 0 ==> slots[queue[i] as int].id
                != slots[queue[j] as int].id,
    ensures
        forall|i: int, j: int|
            0 <= i < j < live(queue, slots).len() ==> #[trigger] live(queue, slots)[i].id
                != #[trigger] live(queue, slots)[j].id,
    decreases queue.len(),
{
    if queue.len() > 0 {
        let front = queue.drop_last();
        assert forall|i: int, j: int| #![trigger front[i], front[j]]
            0 <= i < front.len() && 0 <= j < front.len() && i != j && slots[front[i] as int].remaining
                > 0 && slots[front[j] as int].remaining > 0 implies slots[front[i] as int].id
            != slots[front[j] as int].id by {
            assert(queue[i] == front[i] && queue[j] == front[j]);
        }
        lemma_live_distinct(front, slots);
        lemma_live_sources(front, slots);
        let all = live(queue, slots);
        let some = live(front, slots);
        assert forall|i: int, j: int| 0 <= i < j < all.len() implies #[trigger] all[i].id
            != #[trigger] all[j].id by {
            if j == some.len() {
                assert(all[i] == some[i]);
                assert(sourced(front, slots, some[i]));
                let k = choose|k: int|
                    0 <= k < front.len() && slots[#[trigger] front[k] as int] == some[i]
                        && some[i].remaining > 0;
                assert(queue[k] == front[k]);
                assert(queue[queue.len() - 1] == queue.last());
            } else {
                assert(all[i] == some[i] && all[j] == some[j]);
            }
        }
    }
}

/// What a book holds, by id and by level.
#[verifier::ext_equal]
pub struct BookView {
    pub orders: Map<u64, Order>,
    pub bids: Levels,
    pub asks: Levels,
}

impl BookView {
    /// The levels of one side.
    pub open spec fn side(self, side: Side) -> Levels {
        match side {
            Side::Buy => self.bids,
            Side::Sell => self.asks,
        }
    }

    /// The same book with other orders and other levels on one side.
    pub open spec fn with_side(
        self,
        side: Side,
        levels: Levels,
        orders: Map<u64, Order>,
    ) -> BookView {
        match side {
            Side::Buy => BookView { orders, bids: levels, asks: self.asks },
            Side::Sell => BookView { orders, bids: self.bids, asks: levels },
        }
    }

    /// The book without the order `id`.
    pub open spec fn cancelled(self, id: OrderId) -> BookView {
        let order = self.orders[id.0];
        let levels = self.side(order.side);
        self.with_side(
            order.side,
            set_level(levels, order.price, without(level_at(levels, order.price), id)),
            self.orders.remove(id.0),
        )
    }

    /// The book with a further order at the back of its level.
    pub open spec fn inserted(self, order: Order) -> BookView {
        let levels = self.side(order.side);
        self.with_side(
            order.side,
            levels.insert(order.price, level_at(levels, order.price).push(order)),
            self.orders.insert(order.id.0, order),
        )
    }

    /// The book with `left` lots left of the order `id`, its place kept.
    pub open spec fn resized(self, id: OrderId, left: u64) -> BookView {
        let order = self.orders[id.0];
        let levels = self.side(order.side);
        self.with_side(
            order.side,
            set_level(
                levels,
                order.price,
                reduced(level_at(levels, order.price), id, (order.remaining - left) as nat),
            ),
            self.orders.insert(id.0, Order { remaining: left, ..order }),
        )
    }

    /// The empty book.
    pub open spec fn empty() -> BookView {
        BookView { orders: Map::empty(), bids: Map::empty(), asks: Map::empty() }
    }
}

impl View for OrderBook {
    type V = BookView;

    open spec fn view(&self) -> BookView {
        BookView {
            orders: self.orders(),
            bids: self.levels(Side::Buy),
            asks: self.levels(Side::Sell),
        }
    }
}

/// A price-time ordered limit order book over a slab pool.
pub struct OrderBook {
    pool: OrderPool,
    bids: LevelIndex,
    asks: LevelIndex,
    locate: HashMap<u64, usize>,
    user_counts: HashMap<u64, usize>,
}

impl OrderBook {
    /// The resting orders by id.
    pub closed spec fn orders(self) -> Map<u64, Order> {
        orders_map(self.locate@, self.pool.slots())
    }

    /// The levels of one side: at each price the resting orders, oldest first.
    pub closed spec fn levels(self, side: Side) -> Levels {
        let index = pick(side, self.bids@, self.asks@);
        Map::new(
            |p: u64| index.contains_key(p),
            |p: u64| live(index[p].orders, self.pool.slots()),
        )
    }

    /// Slots reserved at construction.
    pub closed spec fn budget(self) -> usize {
        self.pool.budget()
    }

    /// Number of slots in use or waiting for reuse.
    pub closed spec fn slot_count(self) -> nat {
        self.pool.slots().len()
    }

    /// The book's invariant.
    pub closed spec fn wf(self) -> bool {
        &&& self.bids.wf()
        &&& self.asks.wf()
        &&& consistent(self.pool, self.bids@, self.asks@, self.locate@, self.user_counts@)
        &&& forall|p: u64| #[trigger] self.bids@.contains_key(p) ==> self.bids@[p].live > 0
        &&& forall|p: u64| #[trigger] self.asks@.contains_key(p) ==> self.asks@[p].live > 0
    }

    /// The invariant while the level at (`side`, `price`) is held outside the
    /// index as `level`.
    spec fn detached(self, side: Side, price: u64, level: LevelView) -> bool {
        &&& self.bids.wf()
        &&& self.asks.wf()
        &&& !pick(side, self.bids@, self.asks@).contains_key(price)
        &&& forall|p: u64| #[trigger] self.bids@.contains_key(p) ==> self.bids@[p].live > 0
        &&& forall|p: u64| #[trigger] self.asks@.contains_key(p) ==> self.asks@[p].live > 0
        &&& consistent(
            self.pool,
            with_level(self.bids@, Side::Buy, side, price, level),
            with_level(self.asks@, Side::Sell, side, price, level),
            self.locate@,
            self.user_counts@,
        )
    }

    /// Both books hold the same indexes, and their levels the same orders.
    spec fn others_kept(self, before: OrderBook) -> bool {
        &&& self.bids == before.bids
        &&& self.asks == before.asks
        &&& forall|p: u64| #[trigger]
            self.bids@.contains_key(p) ==> live(self.bids@[p].orders, self.pool.slots()) == live(
                self.bids@[p].orders,
                before.pool.slots(),
            )
        &&& forall|p: u64| #[trigger]
            self.asks@.contains_key(p) ==> live(self.asks@[p].orders, self.pool.slots()) == live(
                self.asks@[p].orders,
                before.pool.slots(),
            )
    }

    /// The book by id and the book by level agree.
    pub proof fn lemma_agree(&self)
        requires
            self.wf(),
        ensures
            agree(self.orders(), self.levels(Side::Buy), self.levels(Side::Sell)),
            self.orders().dom().finite(),
    {
        let slots = self.pool.slots();
        let orders = self.orders();
        assert(orders.dom() =~= self.locate@.dom());
        assert forall|side: Side, p: u64| #[trigger]
            pick(side, self.bids@, self.asks@).contains_key(p) implies queue_ok(
            orders,
            self.levels(side)[p],
            side,
            p,
        ) by {
            let level = pick(side, self.bids@, self.asks@)[p];
            assert(level_ok(level, slots, side, p));
            let q = level.orders;
            let all = live(q, slots);
            lemma_live_sources(q, slots);
            assert forall|i: int, j: int| #![trigger q[i], q[j]]
                0 <= i < q.len() && 0 <= j < q.len() && i != j && slots[q[i] as int].remaining > 0
                    && slots[q[j] as int].remaining > 0 implies slots[q[i] as int].id
                != slots[q[j] as int].id by {
                assert(self.locate@[slots[q[i] as int].id.0] == q[i]);
                assert(self.locate@[slots[q[j] as int].id.0] == q[j]);
            }
            lemma_live_distinct(q, slots);
            assert forall|i: int| 0 <= i < all.len() implies {
                &&& orders.contains_key((#[trigger] all[i]).id.0)
                &&& orders[all[i].id.0] == all[i]
                &&& all[i].side == side
                &&& all[i].price == p
                &&& all[i].remaining > 0
            } by {
                assert(sourced(q, slots, all[i]));
                let j = choose|j: int|
                    0 <= j < q.len() && slots[#[trigger] q[j] as int] == all[i] && all[i].remaining
                        > 0;
                assert(self.locate@[slots[q[j] as int].id.0] == q[j]);
            }
        }
        assert(levels_ok(orders, self.levels(Side::Buy), Side::Buy)) by {
            assert forall|p: u64| #[trigger] self.levels(Side::Buy).contains_key(p) implies queue_ok(
                orders,
                self.levels(Side::Buy)[p],
                Side::Buy,
                p,
            ) by {
                assert(pick(Side::Buy, self.bids@, self.asks@).contains_key(p));
            }
        }
        assert(levels_ok(orders, self.levels(Side::Sell), Side::Sell)) by {
            assert forall|p: u64| #[trigger] self.levels(Side::Sell).contains_key(
                p,
            ) implies queue_ok(orders, self.levels(Side::Sell)[p], Side::Sell, p) by {
                assert(pick(Side::Sell, self.bids@, self.asks@).contains_key(p));
            }
        }
        assert forall|id: u64| #[trigger] orders.contains_key(id) implies {
            let order = orders[id];
            let levels = if order.side is Buy {
                self.levels(Side::Buy)
            } else {
                self.levels(Side::Sell)
            };
            &&& order.id.0 == id
            &&& order.remaining > 0
            &&& levels.contains_key(order.price)
            &&& levels[order.price].contains(order)
        } by {
            assert(self.locate@.contains_key(id));
            let i = self.locate@[id];
            assert(slots[i as int].remaining > 0);
            assert(queued(self.bids@, self.asks@, slots, i as int));
            let q = pick(slots[i as int].side, self.bids@, self.asks@)[slots[i as int].price].orders;
            lemma_live_sources(q, slots);
            let j = choose|j: int| 0 <= j < q.len() && q[j] == (i as int) as usize;
            assert(q[j] == i);
        }
    }

    proof fn lemma_levels_kept(self, before: OrderBook)
        requires
            self.others_kept(before),
        ensures
            forall|side: Side| #[trigger] self.levels(side) == before.levels(side),
    {
        assert forall|side: Side| #[trigger] self.levels(side) == before.levels(side) by {
            assert(self.levels(side) =~= before.levels(side)) by {
                assert forall|p: u64| #[trigger] self.levels(side).contains_key(
                    p,
                ) implies self.levels(side)[p] == before.levels(side)[p] by {
                    match side {
                        Side::Buy => {
                            assert(self.bids@.contains_key(p));
                        },
                        Side::Sell => {
                            assert(self.asks@.contains_key(p));
                        },
                    }
                }
            }
        }
    }

    /// Leaves `left` lots of the resting order in `slot`.
    fn resize(&mut self, slot: usize, left: Qty)
        requires
            old(self).wf(),
            slot < old(self).pool.slots().len(),
            old(self).pool.slots()[slot as int].remaining > 0,
            left <= old(self).pool.slots()[slot as int].remaining,
        ensures
            final(self).wf(),
            final(self).budget() == old(self).budget(),
            ({
                let order = old(self).pool.slots()[slot as int];
                &&& final(self).orders() == if left == 0 {
                    old(self).orders().remove(order.id.0)
                } else {
                    old(self).orders().insert(order.id.0, Order { remaining: left, ..order })
                }
                &&& final(self).levels(order.side) == set_level(
                    old(self).levels(order.side),
                    order.price,
                    reduced(
                        old(self).levels(order.side)[order.price],
                        order.id,
                        (order.remaining - left) as nat,
                    ),
                )
                &&& final(self).levels(order.side.spec_opposite()) == old(self).levels(
                    order.side.spec_opposite(),
                )
            }),
    {
        let order = *self.pool.get(slot);
        let ghost s1 = self.pool.slots();
        assert(s1[slot as int].remaining > 0);
        assert(queued(self.bids@, self.asks@, s1, slot as int));
        let taken = self.detach(order.side, order.price);
        proof {
            assert(old(self).levels(order.side).contains_key(order.price));
        }
        if let Some(mut level) = taken {
            proof {
                let b = with_level(self.bids@, Side::Buy, order.side, order.price, level@);
                let a = with_level(self.asks@, Side::Sell, order.side, order.price, level@);
                assert(s1[slot as int] == order);
                assert(queued(b, a, s1, slot as int));
            }
            let ghost mid = *self;
            self.shrink(Ghost(order.side), Ghost(order.price), &mut level, slot, left);
            proof {
                self.lemma_levels_kept(mid);
            }
            let ghost queue = live(level@.orders, self.pool.slots());
            self.attach(order.side, order.price, level);
            proof {
                let l0 = old(self).levels(order.side);
                assert(set_level(l0.remove(order.price), order.price, queue) =~= set_level(
                    l0,
                    order.price,
                    queue,
                ));
            }
        }
    }

    /// Cancels a resting order; returns it, or `None` if it was not resting.
    pub fn cancel(&mut self, id: OrderId) -> (r: Option<Order>)
        requires
            old(self).wf(),
        ensures
            final(self).wf(),
            final(self).budget() == old(self).budget(),
            match r {
                Some(order) => {
                    &&& old(self).orders().contains_key(id.0)
                    &&& order == old(self).orders()[id.0]
                    &&& final(self).orders() == old(self).orders().remove(id.0)
                    &&& final(self).levels(order.side) == set_level(
                        old(self).levels(order.side),
                        order.price,
                        without(old(self).levels(order.side)[order.price], id),
                    )
                    &&& final(self).levels(order.side.spec_opposite()) == old(self).levels(
                        order.side.spec_opposite(),
                    )
                },
                None => !old(self).orders().contains_key(id.0) && *final(self) == *old(self),
            },
    {
        let slot: usize = match self.locate.get(&id.0) {
            Some(slot) => *slot,
            None => {
                return None;
            },
        };
        assert(self.locate@.contains_key(id.0));
        let order = *self.pool.get(slot);
        proof {
            self.lemma_agree();
            assert(self.orders().contains_key(id.0) && self.orders()[id.0] == order);
            let levels = self.levels(order.side);
            assert(levels.contains_key(order.price));
            assert(queue_ok(self.orders(), levels[order.price], order.side, order.price));
            lemma_reduced_all(levels[order.price], id, order.remaining as nat);
        }
        self.resize(slot, 0);
        Some(order)
    }

    /// Reduces what is left of a resting order in place, keeping its queue
    /// position; reducing to zero cancels it. Returns `false`, and changes
    /// nothing, if the order is not resting or has less than `new_remaining`
    /// left.
    pub fn reduce(&mut self, id: OrderId, new_remaining: Qty) -> (r: bool)
        requires
            old(self).wf(),
        ensures
            final(self).wf(),
            final(self).budget() == old(self).budget(),
            r == (old(self).orders().contains_key(id.0) && new_remaining <= old(
                self,
            ).orders()[id.0].remaining),
            !r ==> *final(self) == *old(self),
            r ==> ({
                let order = old(self).orders()[id.0];
                &&& final(self).orders() == if new_remaining == 0 {
                    old(self).orders().remove(id.0)
                } else {
                    old(self).orders().insert(
                        id.0,
                        Order { remaining: new_remaining, ..order },
                    )
                }
                &&& final(self).levels(order.side) == set_level(
                    old(self).levels(order.side),
                    order.price,
                    reduced(
                        old(self).levels(order.side)[order.price],
                        id,
                        (order.remaining - new_remaining) as nat,
                    ),
                )
                &&& final(self).levels(order.side.spec_opposite()) == old(self).levels(
                    order.side.spec_opposite(),
                )
            }),
    {
        let slot: usize = match self.locate.get(&id.0) {
            Some(slot) => *slot,
            None => {
                return false;
            },
        };
        assert(self.locate@.contains_key(id.0));
        let order = *self.pool.get(slot);
        proof {
            assert(self.orders().contains_key(id.0) && self.orders()[id.0] == order);
        }
        if new_remaining > order.remaining {
            return false;
        }
        self.resize(slot, new_remaining);
        true
    }

    /// Applies fills against the orders resting at (`side`, `price`): takes the
    /// lots from each maker, drops those with nothing left, and removes the
    /// level if it empties.
    pub fn apply_fills(&mut self, side: Side, price: Price, fills: &Vec<(OrderId, Qty)>)
        requires
            old(self).wf(),
            valid_fills(level_at(old(self).levels(side), price), fills@),
        ensures
            final(self).wf(),
            final(self).budget() == old(self).budget(),
            final(self).levels(side) == set_level(
                old(self).levels(side),
                price,
                settle(level_at(old(self).levels(side), price), fills@),
            ),
            final(self).levels(side.spec_opposite()) == old(self).levels(side.spec_opposite()),
            final(self).orders() == filled(old(self).orders(), fills@),
    {
        let ghost queue0 = level_at(self.levels(side), price);
        let mut level = match self.detach(side, price) {
            Some(level) => level,
            None => {
                proof {
                    if fills@.len() > 0 {
                        assert(fillable(queue0, fills@[0]));
                    }
                    assert(set_level(self.levels(side), price, queue0) =~= self.levels(side));
                }
                return;
            },
        };
        let ghost mid = *self;
        let mut k: usize = 0;
        proof {
            assert(fills@.take(0) =~= Seq::<(OrderId, Qty)>::empty());
            assert(self.others_kept(mid));
        }
        while k < fills.len()
            invariant
                k <= fills@.len(),
                valid_fills(queue0, fills@),
                self.detached(side, price, level@),
                self.others_kept(mid),
                self.budget() == old(self).budget(),
                live(level@.orders, self.pool.slots()) == settle(queue0, fills@.take(k as int)),
                self.orders() == filled(old(self).orders(), fills@.take(k as int)),
            decreases fills@.len() - k,
        {
            let (id, qty) = fills[k];
            let ghost before = *self;
            let ghost slots = self.pool.slots();
            let ghost q = level@.orders;
            let ghost j: int = 0;
            proof {
                lemma_settle_keeps(queue0, fills@, k as int);
                let cur = live(q, slots);
                let i = choose|i: int|
                    0 <= i < cur.len() && (#[trigger] cur[i]).id == id && qty <= cur[i].remaining;
                lemma_live_sources(q, slots);
                assert(sourced(q, slots, cur[i]));
                j = choose|j: int|
                    0 <= j < q.len() && slots[#[trigger] q[j] as int] == cur[i] && cur[i].remaining
                        > 0;
                let b = with_level(self.bids@, Side::Buy, side, price, level@);
                let a = with_level(self.asks@, Side::Sell, side, price, level@);
                assert(pick(side, b, a).contains_key(price));
                assert(pick(side, b, a)[price] == level@);
                assert(q.contains(q[j]));
                lemma_in_queue(b, a, slots, side, price, q[j]);
                assert(slots[q[j] as int].remaining > 0);
                assert(self.locate@[id.0] == q[j]);
            }
            let slot: usize = match self.locate.get(&id.0) {
                Some(slot) => *slot,
                None => 0,
            };
            assert(slot == q[j]);
            let left: Qty = self.pool.get(slot).remaining - qty;
            self.shrink(Ghost(side), Ghost(price), &mut level, slot, left);
            proof {
                assert(fills@.take(k as int + 1).drop_last() =~= fills@.take(k as int));
                assert(fills@.take(k as int + 1).last() == (id, qty));
                assert(before.orders().contains_key(id.0)) by {
                    assert(before.locate@.contains_key(id.0));
                }
                assert(before.orders()[id.0] == slots[slot as int]);
            }
            k = k + 1;
        }
        assert(fills@.take(k as int) =~= fills@);
        self.reclaim(Ghost(side), Ghost(price), &mut level);
        proof {
            self.lemma_levels_kept(mid);
        }
        let ghost queue = live(level@.orders, self.pool.slots());
        self.attach(side, price, level);
        proof {
            let l0 = old(self).levels(side);
            assert(set_level(l0.remove(price), price, queue) =~= set_level(l0, price, queue));
        }
    }

    /// Counts one more resting order of `user`, the new order `id`.
    fn count_added(
        counts: &mut HashMap<u64, usize>,
        user: u64,
        before: Ghost<Map<u64, Order>>,
        id: Ghost<u64>,
        order: Ghost<Order>,
        bound: usize,
    )
        requires
            counts_ok(old(counts)@, before@),
            before@.dom().finite(),
            !before@.contains_key(id@),
            order@.user == user,
            before@.dom().len() < bound,
        ensures
            counts_ok(final(counts)@, before@.insert(id@, order@)),
    {
        let ghost after = before@.insert(id@, order@);
        proof {
            assert forall|u: u64| #[trigger] owned(after, u) == if u == user {
                owned(before@, u).insert(id@)
            } else {
                owned(before@, u)
            } by {
                assert(owned(after, u) =~= if u == user {
                    owned(before@, u).insert(id@)
                } else {
                    owned(before@, u)
                });
            }
            lemma_owned_finite(before@, user);
            assert(!owned(before@, user).contains(id@));
            assert(counts@.contains_key(user) || !counts@.contains_key(user));
        }
        if user != 0 {
            let had: usize = match counts.get(&user) {
                Some(n) => *n,
                None => 0,
            };
            counts.insert(user, had + 1);
            proof {
                assert(had == owned(before@, user).len());
                assert forall|u: u64| #![trigger counts@.contains_key(u)]
                    {
                        &&& counts@.contains_key(u) <==> u != 0 && owned(after, u).len() > 0
                        &&& counts@.contains_key(u) ==> counts@[u] == owned(after, u).len()
                    } by {
                    assert(old(counts)@.contains_key(u) || !old(counts)@.contains_key(u));
                }
            }
        } else {
            proof {
                assert forall|u: u64| #![trigger counts@.contains_key(u)]
                    {
                        &&& counts@.contains_key(u) <==> u != 0 && owned(after, u).len() > 0
                        &&& counts@.contains_key(u) ==> counts@[u] == owned(after, u).len()
                    } by {}
            }
        }
    }

    /// Counts one resting order of `user` less, the order `id`.
    fn count_removed(
        counts: &mut HashMap<u64, usize>,
        user: u64,
        before: Ghost<Map<u64, Order>>,
        id: Ghost<u64>,
    )
        requires
            counts_ok(old(counts)@, before@),
            before@.dom().finite(),
            before@.contains_key(id@),
            before@[id@].user == user,
        ensures
            counts_ok(final(counts)@, before@.remove(id@)),
    {
        let ghost after = before@.remove(id@);
        proof {
            assert forall|u: u64| #[trigger] owned(after, u) == if u == user {
                owned(before@, u).remove(id@)
            } else {
                owned(before@, u)
            } by {
                assert(owned(after, u) =~= if u == user {
                    owned(before@, u).remove(id@)
                } else {
                    owned(before@, u)
                });
            }
            lemma_owned_finite(before@, user);
            assert(owned(before@, user).contains(id@));
            assert(owned(before@, user).len() > 0);
            assert(counts@.contains_key(user) || !counts@.contains_key(user));
        }
        if user != 0 {
            let had: usize = match counts.get(&user) {
                Some(n) => *n,
                None => 1,
            };
            if had == 1 {
                counts.remove(&user);
            } else {
                counts.insert(user, had - 1);
            }
            proof {
                assert forall|u: u64| #![trigger counts@.contains_key(u)]
                    {
                        &&& counts@.contains_key(u) <==> u != 0 && owned(after, u).len() > 0
                        &&& counts@.contains_key(u) ==> counts@[u] == owned(after, u).len()
                    } by {
                    assert(old(counts)@.contains_key(u) || !old(counts)@.contains_key(u));
                }
            }
        } else {
            proof {
                assert forall|u: u64| #![trigger counts@.contains_key(u)]
                    {
                        &&& counts@.contains_key(u) <==> u != 0 && owned(after, u).len() > 0
                        &&& counts@.contains_key(u) ==> counts@[u] == owned(after, u).len()
                    } by {}
            }
        }
    }

    /// Leaves `left` lots of the live order in `slot`, which stands in the
    /// detached level; an order with nothing left is no longer resting.
    fn shrink(&mut self, side: Ghost<Side>, price: Ghost<u64>, level: &mut Level, slot: usize, left: Qty)
        requires
            old(self).detached(side@, price@, old(level)@),
            old(level)@.orders.contains(slot),
            slot < old(self).pool.slots().len(),
            old(self).pool.slots()[slot as int].remaining > 0,
            left <= old(self).pool.slots()[slot as int].remaining,
        ensures
            final(self).detached(side@, price@, final(level)@),
            final(level)@.orders == old(level)@.orders,
            final(self).others_kept(*old(self)),
            final(self).budget() == old(self).budget(),
            ({
                let order = old(self).pool.slots()[slot as int];
                &&& live(final(level)@.orders, final(self).pool.slots()) == reduced(
                    live(old(level)@.orders, old(self).pool.slots()),
                    order.id,
                    (order.remaining - left) as nat,
                )
                &&& final(self).orders() == if left == 0 {
                    old(self).orders().remove(order.id.0)
                } else {
                    old(self).orders().insert(order.id.0, Order { remaining: left, ..order })
                }
            }),
    {
        let order = *self.pool.get(slot);
        let ghost s1 = self.pool.slots();
        let ghost bids1 = with_level(self.bids@, Side::Buy, side@, price@, level@);
        let ghost asks1 = with_level(self.asks@, Side::Sell, side@, price@, level@);
        let ghost q = level@.orders;
        let ghost orders1 = self.orders();
        let ghost by: nat = (order.remaining - left) as nat;
        let ghost s2 = s1.update(slot as int, Order { remaining: left, ..order });
        proof {
            assert(pick(side@, bids1, asks1)[price@] == level@);
            assert(side@ is Buy ==> bids1.contains_key(price@));
            assert(side@ is Sell ==> asks1.contains_key(price@));
            assert(level_ok(level@, s1, side@, price@));
            lemma_in_queue(bids1, asks1, s1, side@, price@, slot);
            assert(s1[slot as int] == order);
            assert forall|j: int| #![trigger q[j]]
                0 <= j < q.len() && q[j] != slot && s1[q[j] as int].remaining
                    > 0 implies s1[q[j] as int].id != order.id by {
                assert(s1[q[j] as int].remaining > 0);
            }
            lemma_live_reduce(q, s1, s2, slot, by);
        }
        self.pool.set_remaining(slot, left);
        level.qty = level.qty - (order.remaining - left) as u128;
        proof {
            assert(orders1.dom() =~= self.locate@.dom());
            assert(orders1.contains_key(order.id.0));
        }
        if left == 0 {
            level.live = level.live - 1;
            self.locate.remove(&order.id.0);
            OrderBook::count_removed(
                &mut self.user_counts,
                order.user,
                Ghost(orders1),
                Ghost(order.id.0),
            );
        }
        proof {
            self.lemma_shrunk(*old(self), side@, price@, old(level)@, level@, slot, left);
        }
    }

    /// What [`OrderBook::shrink`] leaves is consistent.
    proof fn lemma_shrunk(
        self,
        before: OrderBook,
        side: Side,
        price: u64,
        level1: LevelView,
        level2: LevelView,
        slot: usize,
        left: u64,
    )
        requires
            before.detached(side, price, level1),
            level1.orders.contains(slot),
            slot < before.pool.slots().len(),
            before.pool.slots()[slot as int].remaining > 0,
            left <= before.pool.slots()[slot as int].remaining,
            self.pool.wf(),
            self.pool.free() == before.pool.free(),
            self.pool.slots() == before.pool.slots().update(
                slot as int,
                Order { remaining: left, ..before.pool.slots()[slot as int] },
            ),
            self.bids == before.bids,
            self.asks == before.asks,
            level2.orders == level1.orders,
            level2.qty == total(live(level2.orders, self.pool.slots())),
            level2.live == live(level2.orders, self.pool.slots()).len(),
            self.locate@ == if left == 0 {
                before.locate@.remove(before.pool.slots()[slot as int].id.0)
            } else {
                before.locate@
            },
            left == 0 ==> counts_ok(
                self.user_counts@,
                before.orders().remove(before.pool.slots()[slot as int].id.0),
            ),
            left > 0 ==> self.user_counts == before.user_counts,
        ensures
            self.detached(side, price, level2),
            self.others_kept(before),
            self.orders() == if left == 0 {
                before.orders().remove(before.pool.slots()[slot as int].id.0)
            } else {
                before.orders().insert(
                    before.pool.slots()[slot as int].id.0,
                    Order { remaining: left, ..before.pool.slots()[slot as int] },
                )
            },
    {
        let s1 = before.pool.slots();
        let s2 = self.pool.slots();
        let order = s1[slot as int];
        let b1 = with_level(before.bids@, Side::Buy, side, price, level1);
        let a1 = with_level(before.asks@, Side::Sell, side, price, level1);
        let b2 = with_level(self.bids@, Side::Buy, side, price, level2);
        let a2 = with_level(self.asks@, Side::Sell, side, price, level2);
        assert(pick(side, b1, a1)[price] == level1);
        lemma_in_queue(b1, a1, s1, side, price, slot);
        assert forall|own: Side, p: u64| #[trigger]
            pick(own, b1, a1).contains_key(p) && !(own == side && p == price) implies !pick(
            own,
            b1,
            a1,
        )[p].orders.contains(slot) by {
            if pick(own, b1, a1)[p].orders.contains(slot) {
                lemma_in_queue(b1, a1, s1, own, p, slot);
            }
        }
        assert(pick(Side::Buy, b1, a1) == b1 && pick(Side::Sell, b1, a1) == a1);
        let skip_b = if side is Buy { Some(price) } else { None };
        let skip_a = if side is Sell { Some(price) } else { None };
        assert forall|p: u64| #[trigger] b1.contains_key(p) && Some(p) != skip_b implies !b1[p].orders.contains(slot) by {
            assert(pick(Side::Buy, b1, a1).contains_key(p));
        }
        assert forall|p: u64| #[trigger] a1.contains_key(p) && Some(p) != skip_a implies !a1[p].orders.contains(slot) by {
            assert(pick(Side::Sell, b1, a1).contains_key(p));
        }
        lemma_side_frame(b1, s1, s2, Side::Buy, slot as int, skip_b);
        lemma_side_frame(a1, s1, s2, Side::Sell, slot as int, skip_a);
        assert(level_ok(level1, s1, side, price));
        assert(level_ok(level2, s2, side, price)) by {
            assert forall|j: int| #![trigger level2.orders[j]]
                0 <= j < level2.orders.len() implies {
                &&& level2.orders[j] < s2.len()
                &&& s2[level2.orders[j] as int].side == side
                &&& s2[level2.orders[j] as int].price == price
            } by {
                assert(level1.orders[j] == level2.orders[j]);
            }
        }
        assert(side_ok(b2, s2, Side::Buy)) by {
            assert forall|p: u64| #[trigger] b2.contains_key(p) implies level_ok(
                b2[p],
                s2,
                Side::Buy,
                p,
            ) by {
                assert(b1.contains_key(p));
            }
        }
        assert(side_ok(a2, s2, Side::Sell)) by {
            assert forall|p: u64| #[trigger] a2.contains_key(p) implies level_ok(
                a2[p],
                s2,
                Side::Sell,
                p,
            ) by {
                assert(a1.contains_key(p));
            }
        }
        assert forall|i: int| 0 <= i < s2.len() implies (queued(b2, a2, s2, i) <==> queued(
            b1,
            a1,
            s1,
            i,
        )) by {
            assert(s2[i].side == s1[i].side && s2[i].price == s1[i].price);
        }
        assert forall|i: usize| #[trigger] self.pool.free().contains(i) implies !queued(
            b2,
            a2,
            s2,
            i as int,
        ) by {
            before.pool.lemma_free(i);
        }
        assert forall|i: int| #![trigger s2[i]]
            0 <= i < s2.len() && s2[i].remaining > 0 implies {
            &&& queued(b2, a2, s2, i)
            &&& self.locate@.contains_key(s2[i].id.0)
            &&& self.locate@[s2[i].id.0] == i
        } by {
            assert(s1[i].remaining > 0);
            assert(before.locate@[order.id.0] == slot);
        }
        assert forall|id: u64| #[trigger] self.locate@.contains_key(id) implies {
            &&& self.locate@[id] < s2.len()
            &&& s2[self.locate@[id] as int].id.0 == id
            &&& s2[self.locate@[id] as int].remaining > 0
        } by {
            assert(before.locate@.contains_key(id));
            assert(before.locate@[order.id.0] == slot);
        }
        let o2 = if left == 0 {
            before.orders().remove(order.id.0)
        } else {
            before.orders().insert(order.id.0, Order { remaining: left, ..order })
        };
        assert(before.locate@.contains_key(order.id.0) && before.locate@[order.id.0] == slot);
        assert(self.orders() =~= o2) by {
            assert forall|id: u64| self.locate@.contains_key(id) implies #[trigger] s2[self.locate@[id] as int]
                == o2[id] by {
                assert(before.locate@.contains_key(id));
                assert(s1[before.locate@[id] as int].id.0 == id);
            }
        }
        if left > 0 {
            assert forall|u: u64| owned(self.orders(), u) == owned(before.orders(), u) by {
                assert(owned(self.orders(), u) =~= owned(before.orders(), u));
            }
            assert(counts_ok(self.user_counts@, self.orders())) by {
                assert(counts_ok(before.user_counts@, before.orders()));
                assert forall|u: u64| #![trigger self.user_counts@.contains_key(u)]
                    {
                        &&& self.user_counts@.contains_key(u) <==> u != 0 && owned(
                            self.orders(),
                            u,
                        ).len() > 0
                        &&& self.user_counts@.contains_key(u) ==> self.user_counts@[u] == owned(
                            self.orders(),
                            u,
                        ).len()
                    } by {
                    assert(before.user_counts@.contains_key(u)
                        || !before.user_counts@.contains_key(u));
                }
            }
        }
        assert forall|p: u64| #[trigger] self.bids@.contains_key(p) implies live(
            self.bids@[p].orders,
            s2,
        ) == live(self.bids@[p].orders, s1) by {
            assert(b1.contains_key(p));
        }
        assert forall|p: u64| #[trigger] self.asks@.contains_key(p) implies live(
            self.asks@[p].orders,
            s2,
        ) == live(self.asks@[p].orders, s1) by {
            assert(a1.contains_key(p));
        }
    }

    /// Takes the level at (`side`, `price`) out of the index.
    fn detach(&mut self, side: Side, price: Price) -> (r: Option<Level>)
        requires
            old(self).wf(),
        ensures
            final(self).pool == old(self).pool,
            final(self).orders() == old(self).orders(),
            final(self).locate == old(self).locate,
            match r {
                Some(level) => {
                    &&& final(self).detached(side, price, level@)
                    &&& old(self).levels(side).contains_key(price)
                    &&& live(level@.orders, old(self).pool.slots()) == old(self).levels(side)[price]
                    &&& final(self).levels(side) == old(self).levels(side).remove(price)
                    &&& final(self).levels(side.spec_opposite()) == old(self).levels(
                        side.spec_opposite(),
                    )
                },
                None => *final(self) == *old(self) && !old(self).levels(side).contains_key(price),
            },
    {
        let taken = match side {
            Side::Buy => {
                if self.bids.get(price).is_none() {
                    return None;
                }
                self.bids.take(price)
            },
            Side::Sell => {
                if self.asks.get(price).is_none() {
                    return None;
                }
                self.asks.take(price)
            },
        };
        proof {
            if taken is Some {
                let level = taken->0@;
                let b = with_level(self.bids@, Side::Buy, side, price, level);
                let a = with_level(self.asks@, Side::Sell, side, price, level);
                assert(b =~= old(self).bids@);
                assert(a =~= old(self).asks@);
                assert(self.levels(side) =~= old(self).levels(side).remove(price));
                assert(self.levels(side.spec_opposite()) =~= old(self).levels(
                    side.spec_opposite(),
                ));
            }
        }
        taken
    }

    /// Recycles the dead slot at the front of the detached level.
    fn drop_front(&mut self, side: Ghost<Side>, price: Ghost<u64>, level: &mut Level)
        requires
            old(self).detached(side@, price@, old(level)@),
            old(level)@.orders.len() > 0,
            old(self).pool.slots()[old(level)@.orders[0] as int].remaining == 0,
        ensures
            final(self).detached(side@, price@, final(level)@),
            final(level)@.orders == old(level)@.orders.skip(1),
            final(level)@.qty == old(level)@.qty,
            final(level)@.live == old(level)@.live,
            final(self).pool.slots() == old(self).pool.slots(),
            final(self).pool.free() == old(self).pool.free().push(old(level)@.orders[0]),
            final(self).user_counts == old(self).user_counts,
            final(self).bids == old(self).bids,
            final(self).asks == old(self).asks,
            final(self).budget() == old(self).budget(),
            final(self).locate == old(self).locate,
            live(final(level)@.orders, final(self).pool.slots()) == live(
                old(level)@.orders,
                old(self).pool.slots(),
            ),
            final(self).orders() == old(self).orders(),
    {
        let ghost q1 = level@.orders;
        let ghost level1 = level@;
        let ghost s = self.pool.slots();
        let ghost b1 = with_level(self.bids@, Side::Buy, side@, price@, level@);
        let ghost a1 = with_level(self.asks@, Side::Sell, side@, price@, level@);
        let front: usize = level.orders[0];
        proof {
            assert(pick(side@, b1, a1)[price@] == level@);
            assert(side@ is Buy ==> b1.contains_key(price@));
            assert(side@ is Sell ==> a1.contains_key(price@));
            assert(level_ok(level@, s, side@, price@));
            assert(q1[0] == front);
            assert(q1.contains(front));
            lemma_in_queue(b1, a1, s, side@, price@, front);
            lemma_live_front(q1, s);
        }
        level.orders.pop_front();
        self.pool.release(front);
        proof {
            let q2 = level@.orders;
            assert(q2 =~= q1.skip(1));
            let b2 = with_level(self.bids@, Side::Buy, side@, price@, level@);
            let a2 = with_level(self.asks@, Side::Sell, side@, price@, level@);
            assert(level_ok(level@, s, side@, price@)) by {
                assert forall|j: int| #![trigger q2[j]] 0 <= j < q2.len() implies {
                    &&& q2[j] < s.len()
                    &&& s[q2[j] as int].side == side@
                    &&& s[q2[j] as int].price == price@
                } by {
                    assert(q2[j] == q1[j + 1]);
                }
            }
            assert(side_ok(b2, s, Side::Buy)) by {
                assert forall|p: u64| #[trigger] b2.contains_key(p) implies level_ok(
                    b2[p],
                    s,
                    Side::Buy,
                    p,
                ) by {
                    assert(b1.contains_key(p));
                }
            }
            assert(side_ok(a2, s, Side::Sell)) by {
                assert forall|p: u64| #[trigger] a2.contains_key(p) implies level_ok(
                    a2[p],
                    s,
                    Side::Sell,
                    p,
                ) by {
                    assert(a1.contains_key(p));
                }
            }
            assert forall|i: usize| i < s.len() implies (queued(b2, a2, s, i as int) <==> i != front
                && #[trigger] queued(b1, a1, s, i as int)) by {
                if s[i as int].side == side@ && s[i as int].price == price@ {
                    if q1.contains(i) && i != front {
                        let j = choose|j: int| 0 <= j < q1.len() && q1[j] == i;
                        assert(q2[j - 1] == i);
                    }
                    if q2.contains(i) {
                        let j = choose|j: int| 0 <= j < q2.len() && q2[j] == i;
                        assert(q1[j + 1] == i);
                    }
                }
            }
            assert forall|i: usize| #[trigger] self.pool.free().contains(i) implies !queued(
                b2,
                a2,
                s,
                i as int,
            ) by {
                if i != front {
                    assert(old(self).pool.free().contains(i));
                    old(self).pool.lemma_free(i);
                    assert(!queued(b1, a1, s, i as int));
                }
            }
            assert forall|i: int| #![trigger s[i]]
                0 <= i < s.len() && s[i].remaining > 0 implies queued(b2, a2, s, i) by {
                assert(queued(b1, a1, s, i));
                assert(queued(b1, a1, s, (i as usize) as int));
            }
        }
    }

    /// Recycles the dead slots at the front of the detached level: they leave its
    /// queue, up to the first live one, and become free in that order.
    fn reclaim(&mut self, side: Ghost<Side>, price: Ghost<u64>, level: &mut Level)
        requires
            old(self).detached(side@, price@, old(level)@),
        ensures
            final(self).detached(side@, price@, final(level)@),
            ({
                let queue = old(level)@.orders;
                let n = dead_front(queue, old(self).pool.slots()) as int;
                &&& final(level)@.orders == queue.skip(n)
                &&& final(self).pool.free() == old(self).pool.free() + queue.take(n)
            }),
            final(level)@.qty == old(level)@.qty,
            final(level)@.live == old(level)@.live,
            final(self).user_counts == old(self).user_counts,
            final(self).pool.slots() == old(self).pool.slots(),
            final(self).bids == old(self).bids,
            final(self).asks == old(self).asks,
            final(self).budget() == old(self).budget(),
            final(self).locate == old(self).locate,
            live(final(level)@.orders, final(self).pool.slots()) == live(
                old(level)@.orders,
                old(self).pool.slots(),
            ),
            final(self).orders() == old(self).orders(),
    {
        let ghost queue = level@.orders;
        let ghost slots = self.pool.slots();
        let ghost free = self.pool.free();
        let ghost mut n: int = 0;
        proof {
            lemma_dead_front(queue, slots);
            assert(queue.skip(0) =~= queue);
            assert(free + queue.take(0) =~= free);
        }
        while level.orders.len() > 0
            invariant
                self.detached(side@, price@, level@),
                queue == old(level)@.orders,
                slots == old(self).pool.slots(),
                free == old(self).pool.free(),
                0 <= n <= queue.len(),
                level@.orders == queue.skip(n),
                n + dead_front(level@.orders, slots) == dead_front(queue, slots),
                self.pool.free() == free + queue.take(n),
                level@.qty == old(level)@.qty,
                level@.live == old(level)@.live,
                self.user_counts == old(self).user_counts,
                self.pool.slots() == old(self).pool.slots(),
                self.bids == old(self).bids,
                self.asks == old(self).asks,
                self.budget() == old(self).budget(),
                self.locate == old(self).locate,
                live(level@.orders, self.pool.slots()) == live(
                    old(level)@.orders,
                    old(self).pool.slots(),
                ),
                self.orders() == old(self).orders(),
            decreases level.orders.len(),
        {
            let front: usize = level.orders[0];
            proof {
                let b = with_level(self.bids@, Side::Buy, side@, price@, level@);
                let a = with_level(self.asks@, Side::Sell, side@, price@, level@);
                assert(pick(side@, b, a).contains_key(price@));
                assert(pick(side@, b, a)[price@] == level@);
                assert(level@.orders[0] == front);
                lemma_in_queue(b, a, self.pool.slots(), side@, price@, front);
            }
            if self.pool.get(front).remaining > 0 {
                return;
            }
            self.drop_front(side, price, level);
            proof {
                assert(queue.skip(n).skip(1) =~= queue.skip(n + 1));
                assert(queue.skip(n)[0] == queue[n]);
                assert((free + queue.take(n)).push(queue[n]) =~= free + queue.take(n + 1));
                n = n + 1;
            }
        }
    }

    /// Puts a detached level back; one without live orders is given up and its
    /// slots are recycled.
    fn attach(&mut self, side: Side, price: Price, level: Level)
        requires
            old(self).detached(side, price, level@),
        ensures
            final(self).wf(),
            final(self).orders() == old(self).orders(),
            final(self).budget() == old(self).budget(),
            final(self).locate == old(self).locate,
            final(self).pool.slots() == old(self).pool.slots(),
            final(self).levels(side) == set_level(
                old(self).levels(side),
                price,
                live(level@.orders, old(self).pool.slots()),
            ),
            final(self).levels(side.spec_opposite()) == old(self).levels(side.spec_opposite()),
    {
        let ghost q0 = live(level@.orders, self.pool.slots());
        let ghost level0 = level@;
        let mut level = level;
        proof {
            let b = with_level(self.bids@, Side::Buy, side, price, level@);
            let a = with_level(self.asks@, Side::Sell, side, price, level@);
            assert(side is Buy ==> b.contains_key(price) && b[price] == level@);
            assert(side is Sell ==> a.contains_key(price) && a[price] == level@);
            assert(level_ok(level@, self.pool.slots(), side, price));
        }
        if level.live > 0 {
            proof {
                lemma_live_sources(level@.orders, self.pool.slots());
            }
            match side {
                Side::Buy => {
                    self.bids.put(price, level);
                },
                Side::Sell => {
                    self.asks.put(price, level);
                },
            }
            proof {
                assert(with_level(old(self).bids@, Side::Buy, side, price, level@) =~= self.bids@);
                assert(with_level(old(self).asks@, Side::Sell, side, price, level@) =~= self.asks@);
                assert(self.levels(side) =~= old(self).levels(side).insert(price, q0));
                assert(self.levels(side.spec_opposite()) =~= old(self).levels(
                    side.spec_opposite(),
                ));
            }
        } else {
            proof {
                assert(q0.len() == 0);
            }
            while level.orders.len() > 0
                invariant
                    self.detached(side, price, level@),
                    self.pool.slots() == old(self).pool.slots(),
                    self.bids == old(self).bids,
                    self.asks == old(self).asks,
                    self.budget() == old(self).budget(),
                    self.orders() == old(self).orders(),
                    self.locate == old(self).locate,
                    live(level@.orders, self.pool.slots()).len() == 0,
                decreases level.orders.len(),
            {
                proof {
                    lemma_live_front(level@.orders, self.pool.slots());
                }
                self.drop_front(Ghost(side), Ghost(price), &mut level);
            }
            proof {
                let b = with_level(self.bids@, Side::Buy, side, price, level@);
                let a = with_level(self.asks@, Side::Sell, side, price, level@);
                let s = self.pool.slots();
                assert forall|i: int| 0 <= i < s.len() implies (#[trigger] queued(
                    self.bids@,
                    self.asks@,
                    s,
                    i,
                ) <==> queued(b, a, s, i)) by {}
                assert(side_ok(self.bids@, s, Side::Buy)) by {
                    assert forall|p: u64| #[trigger] self.bids@.contains_key(p) implies level_ok(
                        self.bids@[p],
                        s,
                        Side::Buy,
                        p,
                    ) by {
                        assert(b.contains_key(p));
                    }
                }
                assert(side_ok(self.asks@, s, Side::Sell)) by {
                    assert forall|p: u64| #[trigger] self.asks@.contains_key(p) implies level_ok(
                        self.asks@[p],
                        s,
                        Side::Sell,
                        p,
                    ) by {
                        assert(a.contains_key(p));
                    }
                }
                assert forall|i: usize| #[trigger] self.pool.free().contains(i) implies !queued(
                    self.bids@,
                    self.asks@,
                    s,
                    i as int,
                ) by {
                    self.pool.lemma_free(i);
                }
                assert forall|i: int| #![trigger s[i]]
                    0 <= i < s.len() && s[i].remaining > 0 implies queued(
                    self.bids@,
                    self.asks@,
                    s,
                    i,
                ) by {
                    assert(queued(b, a, s, i));
                }
                assert(self.levels(side) =~= set_level(old(self).levels(side), price, q0));
                assert(self.levels(side.spec_opposite()) =~= old(self).levels(
                    side.spec_opposite(),
                ));
            }
        }
    }

    /// A book without orders whose pool reserves `max_orders` slots.
    pub fn with_capacity(max_orders: usize, prefault: bool) -> (r: OrderBook)
        ensures
            r.wf(),
            r.orders() == Map::<u64, Order>::empty(),
            forall|side: Side| #[trigger] r.levels(side) == Map::<u64, Seq<Order>>::empty(),
            r.budget() == max_orders,
            r.slot_count() == 0,
    {
        let r = OrderBook {
            pool: OrderPool::with_capacity(max_orders, prefault),
            bids: LevelIndex::new(),
            asks: LevelIndex::new(),
            locate: HashMap::new(),
            user_counts: HashMap::new(),
        };
        proof {
            assert(r.orders() =~= Map::<u64, Order>::empty());
            assert forall|u: u64| owned(r.orders(), u).len() == 0 by {
                assert(owned(r.orders(), u) =~= Set::<u64>::empty());
            }
            assert forall|i: usize| !#[trigger] r.pool.free().contains(i) by {}
            assert forall|side: Side| #[trigger]
                r.levels(side) == Map::<u64, Seq<Order>>::empty() by {
                assert(r.levels(side) =~= Map::<u64, Seq<Order>>::empty());
            }
        }
        r
    }

    /// Adds a resting order at the back of its level. An order with nothing left is
    /// dead: it does not come to rest.
    pub fn insert(&mut self, order: Order)
        requires
            old(self).wf(),
            !old(self).orders().contains_key(order.id.0),
        ensures
            final(self).wf(),
            final(self).budget() == old(self).budget(),
            order.remaining == 0 ==> *final(self) == *old(self),
            order.remaining > 0 ==> {
                &&& final(self).orders() == old(self).orders().insert(order.id.0, order)
                &&& final(self).levels(order.side) == old(self).levels(order.side).insert(
                    order.price,
                    level_at(old(self).levels(order.side), order.price).push(order),
                )
                &&& final(self).levels(order.side.spec_opposite()) == old(self).levels(
                    order.side.spec_opposite(),
                )
            },
    {
        if order.remaining == 0 {
            return;
        }
        let ghost s1 = self.pool.slots();
        let ghost b1 = self.bids@;
        let ghost a1 = self.asks@;
        let ghost o1 = self.orders();
        assert(o1.dom() =~= self.locate@.dom());
        let slot: usize = self.pool.store(order);
        let ghost s2 = self.pool.slots();
        self.locate.insert(order.id.0, slot);
        let bound: usize = self.locate.len();
        OrderBook::count_added(
            &mut self.user_counts,
            order.user,
            Ghost(o1),
            Ghost(order.id.0),
            Ghost(order),
            bound,
        );
        proof {
            if old(self).pool.free().contains(slot) {
                old(self).pool.lemma_free(slot);
            }
            assert forall|own: Side, p: u64| #[trigger]
                pick(own, b1, a1).contains_key(p) implies !pick(own, b1, a1)[p].orders.contains(
                slot,
            ) by {
                if pick(own, b1, a1)[p].orders.contains(slot) {
                    lemma_in_queue(b1, a1, s1, own, p, slot);
                }
            }
            assert forall|p: u64| #[trigger] b1.contains_key(p) implies !b1[p].orders.contains(slot) by {
                assert(pick(Side::Buy, b1, a1).contains_key(p));
            }
            assert forall|p: u64| #[trigger] a1.contains_key(p) implies !a1[p].orders.contains(slot) by {
                assert(pick(Side::Sell, b1, a1).contains_key(p));
            }
            lemma_side_frame(b1, s1, s2, Side::Buy, slot as int, None);
            lemma_side_frame(a1, s1, s2, Side::Sell, slot as int, None);
            if pick(order.side, b1, a1).contains_key(order.price) {
                let q = pick(order.side, b1, a1)[order.price].orders;
                lemma_live_sources(q, s1);
                assert(level_ok(
                    pick(order.side, b1, a1)[order.price],
                    s2,
                    order.side,
                    order.price,
                ));
            }
        }
        match order.side {
            Side::Buy => {
                self.bids.push(order.price, slot, order.remaining);
            },
            Side::Sell => {
                self.asks.push(order.price, slot, order.remaining);
            },
        }
        proof {
            if pick(order.side, b1, a1).contains_key(order.price) {
                let level = pick(order.side, b1, a1)[order.price];
                let n = level.orders.len();
                assert(n * u64::MAX + u64::MAX <= u128::MAX) by (nonlinear_arith)
                    requires
                        n < usize::MAX,
                        usize::MAX <= u64::MAX,
                ;
            }
            self.lemma_pushed(*old(self), order, slot);
        }
    }

    proof fn lemma_pushed(self, before: OrderBook, order: Order, slot: usize)
        requires
            before.wf(),
            order.remaining > 0,
            !before.orders().contains_key(order.id.0),
            before.pool.free().contains(slot) || slot == before.pool.slots().len(),
            self.pool.wf(),
            slot < self.pool.slots().len(),
            self.pool.slots() == if slot < before.pool.slots().len() {
                before.pool.slots().update(slot as int, order)
            } else {
                before.pool.slots().push(order)
            },
            forall|i: usize| #[trigger]
                self.pool.free().contains(i) <==> before.pool.free().contains(i) && i != slot,
            self.locate@ == before.locate@.insert(order.id.0, slot),
            counts_ok(self.user_counts@, before.orders().insert(order.id.0, order)),
            self.bids.wf(),
            self.asks.wf(),
            ({
                let index = pick(order.side, before.bids@, before.asks@);
                let level = if index.contains_key(order.price) {
                    LevelView {
                        orders: index[order.price].orders.push(slot),
                        qty: (index[order.price].qty + order.remaining) as u128,
                        live: (index[order.price].live + 1) as usize,
                    }
                } else {
                    LevelView { orders: seq![slot], qty: order.remaining as u128, live: 1 }
                };
                match order.side {
                    Side::Buy => self.bids@ == before.bids@.insert(order.price, level)
                        && self.asks == before.asks,
                    Side::Sell => self.asks@ == before.asks@.insert(order.price, level)
                        && self.bids == before.bids,
                }
            }),
            pick(order.side, before.bids@, before.asks@).contains_key(order.price) ==> {
                let level = pick(order.side, before.bids@, before.asks@)[order.price];
                level.orders.len() < usize::MAX && level.qty + order.remaining <= u128::MAX
                    && level.live < usize::MAX
            },
        ensures
            self.wf(),
            self.orders() == before.orders().insert(order.id.0, order),
            self.levels(order.side) == before.levels(order.side).insert(
                order.price,
                level_at(before.levels(order.side), order.price).push(order),
            ),
            self.levels(order.side.spec_opposite()) == before.levels(order.side.spec_opposite()),
    {
        let s1 = before.pool.slots();
        let s2 = self.pool.slots();
        let b1 = before.bids@;
        let a1 = before.asks@;
        let b2 = self.bids@;
        let a2 = self.asks@;
        if before.pool.free().contains(slot) {
            before.pool.lemma_free(slot);
        }
        assert forall|own: Side, p: u64| #[trigger]
            pick(own, b1, a1).contains_key(p) implies !pick(own, b1, a1)[p].orders.contains(slot) by {
            if pick(own, b1, a1)[p].orders.contains(slot) {
                lemma_in_queue(b1, a1, s1, own, p, slot);
            }
        }
        assert forall|p: u64| #[trigger] b1.contains_key(p) implies !b1[p].orders.contains(slot) by {
            assert(pick(Side::Buy, b1, a1).contains_key(p));
        }
        assert forall|p: u64| #[trigger] a1.contains_key(p) implies !a1[p].orders.contains(slot) by {
            assert(pick(Side::Sell, b1, a1).contains_key(p));
        }
        lemma_side_frame(b1, s1, s2, Side::Buy, slot as int, None);
        lemma_side_frame(a1, s1, s2, Side::Sell, slot as int, None);
        let index1 = pick(order.side, b1, a1);
        let index2 = pick(order.side, b2, a2);
        let q2 = index2[order.price].orders;
        let q1 = if index1.contains_key(order.price) {
            index1[order.price].orders
        } else {
            Seq::empty()
        };
        assert(q2 =~= q1.push(slot));
        assert(q2.drop_last() =~= q1);
        assert(!q1.contains(slot));
        assert(live(q2, s2) == live(q1, s2).push(order));
        assert(live(q2, s2).drop_last() =~= live(q1, s2));
        if index1.contains_key(order.price) {
            assert(level_ok(index1[order.price], s2, order.side, order.price));
        } else {
            assert(live(q1, s2).len() == 0);
            assert(total(live(q1, s2)) == 0);
        }
        assert(live(q2, s2).last() == order);
        assert(total(live(q2, s2)) == total(live(q1, s2)) + order.remaining);
        assert(level_ok(index2[order.price], s2, order.side, order.price)) by {
            assert forall|j: int| #![trigger q2[j]] 0 <= j < q2.len() implies {
                &&& q2[j] < s2.len()
                &&& s2[q2[j] as int].side == order.side
                &&& s2[q2[j] as int].price == order.price
            } by {
                if j < q1.len() {
                    assert(q2[j] == q1[j]);
                    assert(level_ok(index1[order.price], s2, order.side, order.price));
                }
            }
            assert forall|i: int, j: int|
                0 <= i < q2.len() && 0 <= j < q2.len() && i != j implies q2[i] != q2[j] by {
                if i == q1.len() {
                    assert(q1.contains(q1[j]));
                } else if j == q1.len() {
                    assert(q1.contains(q1[i]));
                } else {
                    assert(level_ok(index1[order.price], s2, order.side, order.price));
                    assert(q1[i] != q1[j]);
                }
            }
        }
        assert(side_ok(b2, s2, Side::Buy)) by {
            assert forall|p: u64| #[trigger] b2.contains_key(p) implies level_ok(
                b2[p],
                s2,
                Side::Buy,
                p,
            ) by {
                if !(order.side is Buy && p == order.price) {
                    assert(b1.contains_key(p));
                }
            }
        }
        assert(side_ok(a2, s2, Side::Sell)) by {
            assert forall|p: u64| #[trigger] a2.contains_key(p) implies level_ok(
                a2[p],
                s2,
                Side::Sell,
                p,
            ) by {
                if !(order.side is Sell && p == order.price) {
                    assert(a1.contains_key(p));
                }
            }
        }
        assert forall|i: int|
            0 <= i < s1.len() && i != slot && i <= usize::MAX implies (#[trigger] queued(b2, a2, s2, i) <==> queued(
            b1,
            a1,
            s1,
            i,
        )) by {
            assert(s2[i] == s1[i]);
            let x = i as usize;
            if s1[i].side == order.side && s1[i].price == order.price {
                if q2.contains(x) {
                    let j = choose|j: int| 0 <= j < q2.len() && q2[j] == x;
                    assert(q1[j] == x);
                }
                if q1.contains(x) {
                    let j = choose|j: int| 0 <= j < q1.len() && q1[j] == x;
                    assert(q2[j] == x);
                }
            }
        }
        assert forall|i: usize| #[trigger] self.pool.free().contains(i) implies !queued(
            b2,
            a2,
            s2,
            i as int,
        ) by {
            assert(before.pool.free().contains(i));
            before.pool.lemma_free(i);
        }
        assert(queued(b2, a2, s2, slot as int)) by {
            assert(q2[q1.len() as int] == slot);
        }
        assert forall|i: int| #![trigger s2[i]]
            0 <= i < s2.len() && s2[i].remaining > 0 implies {
            &&& queued(b2, a2, s2, i)
            &&& self.locate@.contains_key(s2[i].id.0)
            &&& self.locate@[s2[i].id.0] == i
        } by {
            if i != slot {
                assert(s1[i].remaining > 0);
                assert(before.locate@.contains_key(s1[i].id.0));
                assert(before.locate@[s1[i].id.0] == i);
                assert(queued(b1, a1, s1, i));
            }
        }
        assert forall|id: u64| #[trigger] self.locate@.contains_key(id) implies {
            &&& self.locate@[id] < s2.len()
            &&& s2[self.locate@[id] as int].id.0 == id
            &&& s2[self.locate@[id] as int].remaining > 0
        } by {
            if id != order.id.0 {
                assert(before.locate@.contains_key(id));
            }
        }
        assert(self.orders() =~= before.orders().insert(order.id.0, order)) by {
            assert forall|id: u64|
                id != order.id.0 && before.locate@.contains_key(id) implies s2[#[trigger] self.locate@[id] as int]
                == s1[before.locate@[id] as int] by {
                assert(before.locate@.contains_key(id));
            }
        }
        assert(self.levels(order.side) =~= before.levels(order.side).insert(
            order.price,
            level_at(before.levels(order.side), order.price).push(order),
        )) by {
            assert forall|p: u64| p != order.price && #[trigger] index1.contains_key(p) implies live(
                index2[p].orders,
                s2,
            ) == live(index1[p].orders, s1) by {}
        }
        assert(self.levels(order.side.spec_opposite()) =~= before.levels(
            order.side.spec_opposite(),
        )) by {
            let other1 = pick(order.side.spec_opposite(), b1, a1);
            let other2 = pick(order.side.spec_opposite(), b2, a2);
            assert forall|p: u64| #[trigger] other1.contains_key(p) implies live(
                other2[p].orders,
                s2,
            ) == live(other1[p].orders, s1) by {}
        }
    }

    /// A book without orders and with a small pool that grows on demand.
    pub fn new() -> (r: OrderBook)
        ensures
            r.wf(),
            r.orders() == Map::<u64, Order>::empty(),
            forall|side: Side| #[trigger] r.levels(side) == Map::<u64, Seq<Order>>::empty(),
            r.budget() == 1024,
            r.slot_count() == 0,
    {
        OrderBook::with_capacity(1024, false)
    }

    /// Number of orders `user` has resting, capped at the largest `u32`; user 0
    /// is not tracked.
    pub fn user_open_orders(&self, user: u64) -> (r: u32)
        requires
            self.wf(),
        ensures
            r == if user == 0 {
                0
            } else if owned(self.orders(), user).len() > u32::MAX {
                u32::MAX as int
            } else {
                owned(self.orders(), user).len() as int
            },
    {
        assert(self.user_counts@.contains_key(user) || !self.user_counts@.contains_key(user));
        match self.user_counts.get(&user) {
            Some(n) => if *n > u32::MAX as usize {
                u32::MAX
            } else {
                *n as u32
            },
            None => 0,
        }
    }

    /// A resting order by id.
    pub fn get(&self, id: OrderId) -> (r: Option<&Order>)
        requires
            self.wf(),
        ensures
            match r {
                Some(order) => self.orders().contains_key(id.0) && *order == self.orders()[id.0],
                None => !self.orders().contains_key(id.0),
            },
    {
        match self.locate.get(&id.0) {
            Some(slot) => {
                assert(self.locate@.contains_key(id.0));
                Some(self.pool.get(*slot))
            },
            None => None,
        }
    }

    /// True if no order rests.
    pub fn is_empty(&self) -> (r: bool)
        requires
            self.wf(),
        ensures
            r == (self.orders() == Map::<u64, Order>::empty()),
    {
        let r = self.locate.is_empty();
        proof {
            assert(self.orders().dom() =~= self.locate@.dom());
            if r {
                assert(self.orders() =~= Map::<u64, Order>::empty());
            } else {
                let id = choose|id: u64| self.locate@.contains_key(id);
                if forall|id: u64| !self.locate@.contains_key(id) {
                    assert(self.locate@ =~= Map::<u64, usize>::empty());
                }
                assert(self.orders().contains_key(id));
            }
        }
        r
    }

    /// Number of resting orders.
    pub fn len(&self) -> (r: usize)
        requires
            self.wf(),
        ensures
            r == self.orders().dom().len(),
    {
        assert(self.orders().dom() =~= self.locate@.dom());
        self.locate.len()
    }

    /// Pool statistics: reserved slots and live orders.
    pub fn pool_stats(&self) -> (r: (usize, usize))
        requires
            self.wf(),
        ensures
            r.0 >= self.budget(),
            r.0 >= self.slot_count(),
            r.0 == self.budget() || r.0 == self.slot_count(),
            r.1 == self.orders().dom().len(),
    {
        proof {
            self.lemma_live_slots();
        }
        (self.pool.capacity(), self.pool.in_use())
    }

    /// As many slots are live as orders rest.
    proof fn lemma_live_slots(&self)
        requires
            self.wf(),
        ensures
            crate::pool::live_count(self.pool.slots()) == self.orders().dom().len(),
    {
        let slots = self.pool.slots();
        assert(self.orders().dom() =~= self.locate@.dom());
        let n = slots.len() as int;
        let ids = Set::new(|id: u64| self.locate@.contains_key(id) && self.locate@[id] < n);
        assert(ids =~= self.locate@.dom());
        self.lemma_live_prefix(n);
    }

    proof fn lemma_live_prefix(&self, n: int)
        requires
            self.wf(),
            0 <= n <= self.pool.slots().len(),
        ensures
            crate::pool::live_count(self.pool.slots().take(n)) == Set::new(
                |id: u64| self.locate@.contains_key(id) && self.locate@[id] < n,
            ).len(),
            self.pool.slots().take(self.pool.slots().len() as int) == self.pool.slots(),
        decreases n,
    {
        let slots = self.pool.slots();
        assert(slots.take(slots.len() as int) =~= slots);
        let ids = Set::new(|id: u64| self.locate@.contains_key(id) && self.locate@[id] < n);
        assert(ids.subset_of(self.locate@.dom()));
        vstd::set_lib::lemma_len_subset(ids, self.locate@.dom());
        if n == 0 {
            assert(ids =~= Set::<u64>::empty());
            assert(slots.take(0) =~= Seq::<Order>::empty());
        } else {
            self.lemma_live_prefix(n - 1);
            let prev = Set::new(|id: u64| self.locate@.contains_key(id) && self.locate@[id] < n - 1);
            assert(slots.take(n).drop_last() =~= slots.take(n - 1));
            let order = slots[n - 1];
            assert(slots.take(n).last() == order);
            assert(prev.subset_of(self.locate@.dom()));
            vstd::set_lib::lemma_len_subset(prev, self.locate@.dom());
            if order.remaining > 0 {
                assert(self.locate@[order.id.0] == n - 1);
                assert(ids =~= prev.insert(order.id.0)) by {
                    assert forall|id: u64| ids.contains(id) implies prev.insert(
                        order.id.0,
                    ).contains(id) by {
                        assert(self.locate@.contains_key(id));
                        assert(slots[self.locate@[id] as int].id.0 == id);
                    }
                }
                assert(!prev.contains(order.id.0));
            } else {
                assert(ids =~= prev) by {
                    assert forall|id: u64| ids.contains(id) implies prev.contains(id) by {
                        assert(self.locate@.contains_key(id));
                        assert(slots[self.locate@[id] as int].remaining > 0);
                    }
                }
            }
        }
    }

    /// The best price on `side` that is worse than `after`, or the best of all.
    fn next_level(&self, side: Side, after: Option<Price>) -> (r: Option<Price>)
        requires
            self.wf(),
        ensures
            match r {
                Some(p) => is_best(beyond(self.levels(side), side, after), side, p),
                None => beyond(self.levels(side), side, after) == Map::<u64, Seq<Order>>::empty(),
            },
    {
        let ghost rest = beyond(self.levels(side), side, after);
        let r: Option<Price> = match side {
            Side::Buy => match after {
                None => self.bids.max_price(),
                Some(a) => self.bids.below(a),
            },
            Side::Sell => match after {
                None => self.asks.min_price(),
                Some(a) => self.asks.above(a),
            },
        };
        proof {
            let index = pick(side, self.bids@, self.asks@);
            assert forall|q: u64| #[trigger] self.levels(side).contains_key(q) <==> index.contains_key(
                q,
            ) by {}
            match r {
                Some(p) => {
                    assert(index.contains_key(p));
                    assert(self.levels(side).contains_key(p));
                    assert forall|q: u64| #[trigger] rest.contains_key(q) implies !crate::ladder::better(
                        side,
                        q,
                        p,
                    ) by {
                        assert(self.levels(side).contains_key(q));
                        assert(index.contains_key(q));
                    }
                },
                None => {
                    assert(rest =~= Map::<u64, Seq<Order>>::empty()) by {
                        assert forall|q: u64| !rest.contains_key(q) by {
                            if rest.contains_key(q) {
                                assert(self.levels(side).contains_key(q));
                                assert(index.contains_key(q));
                            }
                        }
                    }
                },
            }
        }
        r
    }

    /// Best price on the given resting side.
    pub fn best(&self, side: Side) -> (r: Option<Price>)
        requires
            self.wf(),
        ensures
            r == best_price(self.levels(side), side),
    {
        let r = self.next_level(side, None);
        proof {
            match r {
                Some(p) => {
                    lemma_best_price(self.levels(side), side, p);
                },
                None => {
                    if exists|p: u64| is_best(self.levels(side), side, p) {
                        let p = choose|p: u64| is_best(self.levels(side), side, p);
                        assert(self.levels(side).contains_key(p));
                    }
                },
            }
        }
        r
    }

    /// Highest bid price, if any.
    pub fn best_bid(&self) -> (r: Option<Price>)
        requires
            self.wf(),
        ensures
            r == best_price(self.levels(Side::Buy), Side::Buy),
    {
        self.best(Side::Buy)
    }

    /// Lowest ask price, if any.
    pub fn best_ask(&self) -> (r: Option<Price>)
        requires
            self.wf(),
        ensures
            r == best_price(self.levels(Side::Sell), Side::Sell),
    {
        self.best(Side::Sell)
    }

    /// The level at (`side`, `price`) as the index holds it.
    fn level(&self, side: Side, price: Price) -> (r: Option<&Level>)
        requires
            self.wf(),
        ensures
            match r {
                Some(level) => {
                    &&& self.levels(side).contains_key(price)
                    &&& pick(side, self.bids@, self.asks@).contains_key(price)
                    &&& pick(side, self.bids@, self.asks@)[price] == level@
                    &&& level_ok(level@, self.pool.slots(), side, price)
                    &&& self.levels(side)[price] == live(level@.orders, self.pool.slots())
                },
                None => !self.levels(side).contains_key(price),
            },
    {
        match side {
            Side::Buy => self.bids.get(price),
            Side::Sell => self.asks.get(price),
        }
    }

    /// Appends what a strategy sees of the live orders of a queue of slots, up
    /// to the order with which they hold `cap` lots.
    fn collect(&self, queue: &std::collections::VecDeque<usize>, cap: Option<Qty>, out: &mut Vec<RestingOrder>)
        requires
            forall|j: int| #![trigger queue@[j]]
                0 <= j < queue@.len() ==> queue@[j] < self.pool.slots().len(),
        ensures
            final(out)@ == old(out)@ + resting_seq(
                match cap {
                    Some(cap) => capped(live(queue@, self.pool.slots()), cap as int),
                    None => live(queue@, self.pool.slots()),
                },
            ),
    {
        let ghost slots = self.pool.slots();
        let ghost whole = match cap {
            Some(cap) => capped(live(queue@, slots), cap as int),
            None => live(queue@, slots),
        };
        let mut i: usize = 0;
        let mut left: Option<Qty> = cap;
        assert(queue@.skip(0) =~= queue@);
        while i < queue.len()
            invariant
                i <= queue@.len(),
                slots == self.pool.slots(),
                whole == match cap {
                    Some(cap) => capped(live(queue@, slots), cap as int),
                    None => live(queue@, slots),
                },
                forall|j: int| #![trigger queue@[j]]
                    0 <= j < queue@.len() ==> queue@[j] < self.pool.slots().len(),
                old(out)@ + resting_seq(whole) == out@ + resting_seq(
                    match left {
                        Some(left) => capped(live(queue@.skip(i as int), slots), left as int),
                        None => live(queue@.skip(i as int), slots),
                    },
                ),
            decreases queue@.len() - i,
        {
            let order = *self.pool.get(queue[i]);
            let ghost here = live(queue@.skip(i as int), slots);
            let ghost next = live(queue@.skip(i as int + 1), slots);
            proof {
                lemma_live_front(queue@.skip(i as int), slots);
                assert(queue@.skip(i as int).skip(1) =~= queue@.skip(i as int + 1));
                assert(queue@.skip(i as int)[0] == queue@[i as int]);
            }
            if order.remaining > 0 {
                let ghost was = out@;
                out.push(
                    RestingOrder {
                        id: order.id,
                        remaining: order.remaining,
                        timestamp: order.timestamp,
                        user: order.user,
                    },
                );
                proof {
                    assert(here == seq![order] + next);
                    assert(here[0] == order);
                    assert(here.skip(1) =~= next);
                    assert(here.take(1) =~= seq![order]);
                }
                match left {
                    Some(cap) => {
                        if order.remaining >= cap {
                            proof {
                                assert(resting_seq(seq![order]) =~= seq![resting_of(order)]);
                                assert(out@ =~= was + resting_seq(seq![order]));
                            }
                            return;
                        }
                        left = Some(cap - order.remaining);
                        proof {
                            let rest = capped(next, cap - order.remaining);
                            assert(resting_seq(seq![order] + rest) =~= seq![resting_of(order)]
                                + resting_seq(rest));
                            assert(out@ + resting_seq(rest) =~= was + resting_seq(
                                seq![order] + rest,
                            ));
                        }
                    },
                    None => {
                        proof {
                            assert(resting_seq(seq![order] + next) =~= seq![resting_of(order)]
                                + resting_seq(next));
                            assert(out@ + resting_seq(next) =~= was + resting_seq(
                                seq![order] + next,
                            ));
                        }
                    },
                }
            }
            i = i + 1;
        }
        proof {
            assert(queue@.skip(i as int) =~= Seq::<usize>::empty());
            assert(live(queue@.skip(i as int), slots) =~= Seq::<Order>::empty());
            assert(resting_seq(Seq::<Order>::empty()) =~= Seq::<RestingOrder>::empty());
            assert(out@ + Seq::<RestingOrder>::empty() =~= out@);
        }
    }

    /// The orders resting at (`side`, `price`), oldest first.
    pub fn level_view(&self, side: Side, price: Price) -> (r: Vec<RestingOrder>)
        requires
            self.wf(),
        ensures
            r@ == resting_seq(level_at(self.levels(side), price)),
    {
        let mut out: Vec<RestingOrder> = Vec::new();
        match self.level(side, price) {
            Some(level) => {
                self.collect(&level.orders, None, &mut out);
                proof {
                    assert(out@ =~= resting_seq(level_at(self.levels(side), price)));
                }
            },
            None => {
                assert(out@ =~= resting_seq(Seq::<Order>::empty()));
            },
        }
        out
    }

    /// Refills `out` with the orders resting at (`side`, `price`), oldest first,
    /// recycling dead slots at the front of the level.
    pub fn level_view_into(&mut self, side: Side, price: Price, out: &mut Vec<RestingOrder>)
        requires
            old(self).wf(),
        ensures
            final(self).wf(),
            final(self).budget() == old(self).budget(),
            final(self).orders() == old(self).orders(),
            forall|s: Side| #[trigger] final(self).levels(s) == old(self).levels(s),
            final(out)@ == resting_seq(level_at(old(self).levels(side), price)),
    {
        self.refill(side, price, None, out);
    }

    /// Like [`OrderBook::level_view_into`], but stops with the order that brings
    /// the total to `cap_qty`.
    pub fn level_view_capped(
        &mut self,
        side: Side,
        price: Price,
        cap_qty: Qty,
        out: &mut Vec<RestingOrder>,
    )
        requires
            old(self).wf(),
        ensures
            final(self).wf(),
            final(self).budget() == old(self).budget(),
            final(self).orders() == old(self).orders(),
            forall|s: Side| #[trigger] final(self).levels(s) == old(self).levels(s),
            final(out)@ == resting_seq(
                capped(level_at(old(self).levels(side), price), cap_qty as int),
            ),
    {
        self.refill(side, price, Some(cap_qty), out);
    }

    fn refill(
        &mut self,
        side: Side,
        price: Price,
        cap: Option<Qty>,
        out: &mut Vec<RestingOrder>,
    )
        requires
            old(self).wf(),
        ensures
            final(self).wf(),
            final(self).budget() == old(self).budget(),
            final(self).orders() == old(self).orders(),
            forall|s: Side| #[trigger] final(self).levels(s) == old(self).levels(s),
            final(out)@ == resting_seq(
                match cap {
                    Some(cap) => capped(level_at(old(self).levels(side), price), cap as int),
                    None => level_at(old(self).levels(side), price),
                },
            ),
    {
        out.clear();
        match self.detach(side, price) {
            Some(level) => {
                let mut level = level;
                let ghost mid = *self;
                self.reclaim(Ghost(side), Ghost(price), &mut level);
                proof {
                    let b = with_level(self.bids@, Side::Buy, side, price, level@);
                    let a = with_level(self.asks@, Side::Sell, side, price, level@);
                    assert(pick(side, b, a).contains_key(price));
                    assert(pick(side, b, a)[price] == level@);
                    assert(level_ok(level@, self.pool.slots(), side, price));
                    assert forall|j: int| #![trigger level.orders@[j]]
                        0 <= j < level.orders@.len() implies level.orders@[j]
                        < self.pool.slots().len() by {
                        assert(level@.orders[j] == level.orders@[j]);
                    }
                    assert(self.others_kept(mid));
                    self.lemma_levels_kept(mid);
                }
                self.collect(&level.orders, cap, out);
                let ghost queue = live(level@.orders, self.pool.slots());
                self.attach(side, price, level);
                proof {
                    old(self).lemma_agree();
                    let l0 = old(self).levels(side);
                    assert(queue_ok(old(self).orders(), l0[price], side, price));
                    assert(set_level(l0.remove(price), price, queue) =~= l0);
                    assert forall|s: Side| #[trigger] self.levels(s) == old(self).levels(s) by {
                        assert(s == side || s == side.spec_opposite());
                    }
                }
            },
            None => {
                assert(out@ =~= resting_seq(Seq::<Order>::empty()));
            },
        }
    }

    /// Total quantity that an aggressor with limit `limit` can reach.
    pub fn crossable_qty(&self, aggressor: Side, limit: Price) -> (r: u128)
        requires
            self.wf(),
        ensures
            r == crossable(self.levels(aggressor.spec_opposite()), aggressor, limit),
    {
        let side = aggressor.opposite();
        let ghost all = self.levels(side);
        let mut sum: u128 = 0;
        let mut after: Option<Price> = None;
        let mut next: Option<Price> = self.next_level(side, after);
        let total_orders: usize = self.locate.len();
        proof {
            self.lemma_agree();
            assert(self.orders().dom() =~= self.locate@.dom());
            lemma_crossable_bound(self.orders(), all, aggressor, limit);
            let n = crate::ladder::ids_on(self.orders(), all, side).len();
            assert(n * u64::MAX <= u128::MAX) by (nonlinear_arith)
                requires
                    n <= usize::MAX,
                    usize::MAX <= u64::MAX,
            ;
        }
        while next.is_some()
            invariant
                self.wf(),
                side == aggressor.spec_opposite(),
                all == self.levels(side),
                crossable(all, aggressor, limit) <= u128::MAX,
                crossable(all, aggressor, limit) == sum + crossable(
                    beyond(all, side, after),
                    aggressor,
                    limit,
                ),
                match next {
                    Some(p) => is_best(beyond(all, side, after), side, p),
                    None => beyond(all, side, after) == Map::<u64, Seq<Order>>::empty(),
                },
            decreases beyond(all, side, after).dom().len(),
        {
            let p: Price = match next {
                Some(p) => p,
                None => 0,
            };
            let ghost rest = beyond(all, side, after);
            proof {
                lemma_prices_finite(rest.dom());
                lemma_best_price(rest, side, p);
                lemma_beyond_step(all, side, after, p);
                assert(all.contains_key(p) && rest[p] == all[p]);
            }
            let within = match aggressor {
                Side::Buy => p <= limit,
                Side::Sell => p >= limit,
            };
            if !within {
                return sum;
            }
            match self.level(side, p) {
                Some(level) => {
                    sum = sum + level.qty;
                },
                None => {},
            }
            after = Some(p);
            next = self.next_level(side, after);
        }
        proof {
            let rest = beyond(all, side, after);
            lemma_prices_finite(rest.dom());
            self.lemma_rows_empty(rest, aggressor, limit);
        }
        sum
    }

    proof fn lemma_rows_empty(&self, levels: Levels, aggressor: Side, limit: u64)
        requires
            levels == Map::<u64, Seq<Order>>::empty(),
        ensures
            crossable(levels, aggressor, limit) == 0,
            forall|qty: nat| #[trigger] sweep_cost(levels, aggressor, qty) == (0nat, 0nat),
            forall|side: Side| #[trigger] rows(levels, side).len() == 0,
    {
        lemma_prices_finite(levels.dom());
        assert forall|side: Side, p: u64| !is_best(levels, side, p) by {}
    }

    /// Lots an aggressor can fill at any price, at most `qty`, and their cost.
    pub fn cost_to_fill(&self, aggressor: Side, qty: Qty) -> (r: (Qty, u128))
        requires
            self.wf(),
        ensures
            r.0 == sweep_cost(self.levels(aggressor.spec_opposite()), aggressor, qty as nat).0,
            r.1 == sweep_cost(self.levels(aggressor.spec_opposite()), aggressor, qty as nat).1,
    {
        let side = aggressor.opposite();
        let ghost all = self.levels(side);
        let mut got: Qty = 0;
        let mut cost: u128 = 0;
        let mut after: Option<Price> = None;
        let mut next: Option<Price> = self.next_level(side, after);
        while next.is_some() && got < qty
            invariant
                self.wf(),
                side == aggressor.spec_opposite(),
                all == self.levels(side),
                got <= qty,
                cost <= got * u64::MAX,
                sweep_cost(all, aggressor, qty as nat).0 == got + sweep_cost(
                    beyond(all, side, after),
                    aggressor,
                    (qty - got) as nat,
                ).0,
                sweep_cost(all, aggressor, qty as nat).1 == cost + sweep_cost(
                    beyond(all, side, after),
                    aggressor,
                    (qty - got) as nat,
                ).1,
                match next {
                    Some(p) => is_best(beyond(all, side, after), side, p),
                    None => beyond(all, side, after) == Map::<u64, Seq<Order>>::empty(),
                },
            decreases beyond(all, side, after).dom().len(),
        {
            let p: Price = match next {
                Some(p) => p,
                None => 0,
            };
            let ghost rest = beyond(all, side, after);
            proof {
                lemma_prices_finite(rest.dom());
                lemma_best_price(rest, side, p);
                lemma_beyond_step(all, side, after, p);
                assert(all.contains_key(p) && rest[p] == all[p]);
            }
            let here: Qty = match self.level(side, p) {
                Some(level) => if level.qty <= (qty - got) as u128 {
                    level.qty as u64
                } else {
                    qty - got
                },
                None => 0,
            };
            proof {
                assert(here * p <= here * u64::MAX) by (nonlinear_arith)
                    requires
                        p <= u64::MAX,
                ;
                assert((got + here) * u64::MAX == got * u64::MAX + here * u64::MAX)
                    by (nonlinear_arith);
                assert((got + here) * u64::MAX <= u128::MAX) by (nonlinear_arith)
                    requires
                        got + here <= u64::MAX,
                ;
            }
            cost = cost + here as u128 * p as u128;
            got = got + here;
            after = Some(p);
            next = self.next_level(side, after);
        }
        proof {
            let rest = beyond(all, side, after);
            lemma_prices_finite(rest.dom());
            if next is None {
                self.lemma_rows_empty(rest, aggressor, 0);
            }
        }
        (got, cost)
    }

    /// The book as `(price, total quantity, order count)` rows, best price first.
    pub fn depth(&self, side: Side) -> (r: Vec<(Price, u128, usize)>)
        requires
            self.wf(),
        ensures
            r@.len() == rows(self.levels(side), side).len(),
            forall|i: int| #![trigger r@[i]]
                0 <= i < r@.len() ==> {
                    let row = rows(self.levels(side), side)[i];
                    &&& r@[i].0 == row.0
                    &&& r@[i].1 == row.1
                    &&& r@[i].2 == row.2
                },
    {
        let mut out: Vec<(Price, u128, usize)> = Vec::new();
        let ghost all = self.levels(side);
        let ghost want = rows(all, side);
        let mut after: Option<Price> = None;
        let mut next: Option<Price> = self.next_level(side, after);
        proof {
            assert(want.skip(0) =~= want);
        }
        while next.is_some()
            invariant
                self.wf(),
                all == self.levels(side),
                out@.len() <= want.len(),
                want.skip(out@.len() as int) == rows(beyond(all, side, after), side),
                forall|i: int| #![trigger out@[i]]
                    0 <= i < out@.len() ==> {
                        &&& out@[i].0 == want[i].0
                        &&& out@[i].1 == want[i].1
                        &&& out@[i].2 == want[i].2
                    },
                match next {
                    Some(p) => is_best(beyond(all, side, after), side, p),
                    None => beyond(all, side, after) == Map::<u64, Seq<Order>>::empty(),
                },
            decreases beyond(all, side, after).dom().len(),
        {
            let p: Price = match next {
                Some(p) => p,
                None => 0,
            };
            let ghost rest = beyond(all, side, after);
            let ghost n = out@.len() as int;
            proof {
                lemma_prices_finite(rest.dom());
                lemma_best_price(rest, side, p);
                lemma_beyond_step(all, side, after, p);
                assert(all.contains_key(p) && rest[p] == all[p]);
                let first = (p, total(rest[p]), rest[p].len());
                let more = rows(rest.remove(p), side);
                assert(rows(rest, side) == seq![first] + more);
                assert(want.skip(n)[0] == first);
                assert(want.skip(n + 1) =~= want.skip(n).skip(1));
                assert((seq![first] + more).skip(1) =~= more);
            }
            match self.level(side, p) {
                Some(level) => {
                    out.push((p, level.qty, level.live));
                },
                None => {},
            }
            after = Some(p);
            next = self.next_level(side, after);
        }
        proof {
            let rest = beyond(all, side, after);
            lemma_prices_finite(rest.dom());
            self.lemma_rows_empty(rest, side, 0);
            assert(want.skip(out@.len() as int).len() == 0);
        }
        out
    }

    /// The `n` best levels of `side` as `(price, total quantity)`, best first.
    pub fn top_levels(&self, side: Side, n: usize) -> (r: Vec<(Price, u128)>)
        requires
            self.wf(),
        ensures
            r@.len() == if rows(self.levels(side), side).len() < n {
                rows(self.levels(side), side).len()
            } else {
                n as nat
            },
            forall|i: int| #![trigger r@[i]]
                0 <= i < r@.len() ==> {
                    let row = rows(self.levels(side), side)[i];
                    &&& r@[i].0 == row.0
                    &&& r@[i].1 == row.1
                },
    {
        let mut out: Vec<(Price, u128)> = Vec::new();
        let ghost all = self.levels(side);
        let ghost want = rows(all, side);
        let mut after: Option<Price> = None;
        let mut next: Option<Price> = self.next_level(side, after);
        proof {
            assert(want.skip(0) =~= want);
        }
        while next.is_some() && out.len() < n
            invariant
                self.wf(),
                all == self.levels(side),
                out@.len() <= want.len(),
                out@.len() <= n,
                want.skip(out@.len() as int) == rows(beyond(all, side, after), side),
                forall|i: int| #![trigger out@[i]]
                    0 <= i < out@.len() ==> {
                        &&& out@[i].0 == want[i].0
                        &&& out@[i].1 == want[i].1
                    },
                match next {
                    Some(p) => is_best(beyond(all, side, after), side, p),
                    None => beyond(all, side, after) == Map::<u64, Seq<Order>>::empty(),
                },
            decreases beyond(all, side, after).dom().len(),
        {
            let p: Price = match next {
                Some(p) => p,
                None => 0,
            };
            let ghost rest = beyond(all, side, after);
            let ghost k = out@.len() as int;
            proof {
                lemma_prices_finite(rest.dom());
                lemma_best_price(rest, side, p);
                lemma_beyond_step(all, side, after, p);
                assert(all.contains_key(p) && rest[p] == all[p]);
                let first = (p, total(rest[p]), rest[p].len());
                let more = rows(rest.remove(p), side);
                assert(rows(rest, side) == seq![first] + more);
                assert(want.skip(k)[0] == first);
                assert(want.skip(k + 1) =~= want.skip(k).skip(1));
                assert((seq![first] + more).skip(1) =~= more);
            }
            match self.level(side, p) {
                Some(level) => {
                    out.push((p, level.qty));
                },
                None => {},
            }
            after = Some(p);
            next = self.next_level(side, after);
        }
        proof {
            let rest = beyond(all, side, after);
            lemma_prices_finite(rest.dom());
            if next is None {
                self.lemma_rows_empty(rest, side, 0);
                assert(want.skip(out@.len() as int).len() == 0);
            }
        }
        out
    }

    /// Every resting order once, in no particular order.
    pub fn iter_orders(&self) -> (r: Vec<Order>)
        requires
            self.wf(),
        ensures
            lists(r@, self.orders()),
    {
        let mut out: Vec<Order> = Vec::new();
        let ghost slots = self.pool.slots();
        let n: usize = self.pool.len();
        let mut i: usize = 0;
        while i < n
            invariant
                self.wf(),
                slots == self.pool.slots(),
                n == slots.len(),
                i <= n,
                forall|k: int|
                    0 <= k < out@.len() ==> {
                        let id = (#[trigger] out@[k]).id.0;
                        &&& self.locate@.contains_key(id)
                        &&& self.locate@[id] < i
                        &&& slots[self.locate@[id] as int] == out@[k]
                    },
                forall|j: int, k: int| 0 <= j < k < out@.len() ==> #[trigger] out@[j].id
                    != #[trigger] out@[k].id,
                forall|k: int| #![trigger slots[k]]
                    0 <= k < i && slots[k].remaining > 0 ==> out@.contains(slots[k]),
            decreases n - i,
        {
            let order = *self.pool.get(i);
            let ghost was = out@;
            if order.remaining > 0 {
                assert(slots[i as int].remaining > 0);
                out.push(order);
                proof {
                    assert(out@[was.len() as int] == order);
                    assert forall|k: int| #![trigger slots[k]]
                        0 <= k < i + 1 && slots[k].remaining > 0 implies out@.contains(slots[k]) by {
                        if k < i {
                            let c = choose|c: int| 0 <= c < was.len() && was[c] == slots[k];
                            assert(out@[c] == slots[k]);
                        }
                    }
                }
            }
            i = i + 1;
        }
        proof {
            assert forall|id: u64| #[trigger] self.orders().contains_key(id) implies out@.contains(
                self.orders()[id],
            ) by {
                assert(self.locate@.contains_key(id));
                assert(slots[self.locate@[id] as int].remaining > 0);
            }
        }
        out
    }

    /// Ids of the orders resting for `user`, in ascending order.
    pub fn orders_of_user(&self, user: u64) -> (r: Vec<OrderId>)
        requires
            self.wf(),
        ensures
            forall|i: int, j: int| 0 <= i < j < r@.len() ==> #[trigger] r@[i].0 < #[trigger] r@[j].0,
            forall|id: u64| #[trigger] owned(self.orders(), user).contains(id) <==> r@.contains(
                OrderId(id),
            ),
    {
        let all = self.iter_orders();
        let mut out: Vec<OrderId> = Vec::new();
        let mut i: usize = 0;
        while i < all.len()
            invariant
                lists(all@, self.orders()),
                i <= all@.len(),
                forall|j: int, k: int| 0 <= j < k < out@.len() ==> #[trigger] out@[j].0
                    < #[trigger] out@[k].0,
                forall|k: int| #![trigger all@[k]]
                    0 <= k < i && all@[k].user == user ==> out@.contains(all@[k].id),
                forall|k: int|
                    0 <= k < out@.len() ==> owner_seen(all@, i as int, user, #[trigger] out@[k]),
            decreases all@.len() - i,
        {
            let order = all[i];
            if order.user == user {
                let ghost was = out@;
                let mut at: usize = out.len();
                proof {
                    assert forall|k: int| 0 <= k < was.len() implies (#[trigger] was[k]).0
                        != order.id.0 by {
                        assert(owner_seen(all@, i as int, user, was[k]));
                        let j = choose|j: int|
                            0 <= j < i && (#[trigger] all@[j]).id == was[k] && all@[j].user == user;
                        assert(all@[j].id != all@[i as int].id);
                    }
                }
                while at > 0 && out[at - 1].0 > order.id.0
                    invariant
                        at <= out@.len(),
                        out@ == was,
                        forall|j: int, k: int| 0 <= j < k < out@.len() ==> #[trigger] out@[j].0
                            < #[trigger] out@[k].0,
                        forall|k: int| at <= k < out@.len() ==> (#[trigger] out@[k]).0 > order.id.0,
                    decreases at,
                {
                    at = at - 1;
                }
                out.insert(at, order.id);
                proof {
                    assert(out@ == was.insert(at as int, order.id));
                    assert forall|j: int, k: int| 0 <= j < k < out@.len() implies #[trigger] out@[j].0
                        < #[trigger] out@[k].0 by {
                        let a = if j < at { j } else { j - 1 };
                        let b = if k < at { k } else { k - 1 };
                        if j == at {
                            assert(out@[k] == was[b]);
                        } else if k == at {
                            assert(out@[j] == was[a]);
                            if at > 0 {
                                let c = at - 1;
                                assert(was[c].0 < order.id.0);
                                if a < c {
                                    assert(was[a].0 < was[c].0);
                                }
                            }
                        } else {
                            assert(out@[j] == was[a] && out@[k] == was[b]);
                        }
                    }
                    assert forall|k: int| #![trigger all@[k]]
                        0 <= k < i + 1 && all@[k].user == user implies out@.contains(all@[k].id) by {
                        if k < i {
                            let c = choose|c: int| 0 <= c < was.len() && was[c] == all@[k].id;
                            let d = if c < at { c } else { c + 1 };
                            assert(out@[d] == was[c]);
                        } else {
                            assert(out@[at as int] == order.id);
                        }
                    }
                    assert forall|k: int| 0 <= k < out@.len() implies owner_seen(
                        all@,
                        i + 1,
                        user,
                        #[trigger] out@[k],
                    ) by {
                        if k == at {
                            assert(all@[i as int].id == out@[k]);
                        } else {
                            let c = if k < at { k } else { k - 1 };
                            assert(out@[k] == was[c]);
                            assert(owner_seen(all@, i as int, user, was[c]));
                            let j = choose|j: int|
                                0 <= j < i && (#[trigger] all@[j]).id == was[c] && all@[j].user
                                    == user;
                            assert(all@[j].id == out@[k]);
                        }
                    }
                }
            } else {
                proof {
                    assert forall|k: int| 0 <= k < out@.len() implies owner_seen(
                        all@,
                        i + 1,
                        user,
                        #[trigger] out@[k],
                    ) by {
                        assert(owner_seen(all@, i as int, user, out@[k]));
                        let j = choose|j: int|
                            0 <= j < i && (#[trigger] all@[j]).id == out@[k] && all@[j].user
                                == user;
                        assert(all@[j].id == out@[k]);
                    }
                }
            }
            i = i + 1;
        }
        proof {
            assert forall|id: u64| #[trigger] owned(self.orders(), user).contains(
                id,
            ) <==> out@.contains(OrderId(id)) by {
                if owned(self.orders(), user).contains(id) {
                    let order = self.orders()[id];
                    assert(all@.contains(order));
                    let k = choose|k: int| 0 <= k < all@.len() && all@[k] == order;
                    assert(out@.contains(all@[k].id));
                    self.lemma_agree();
                    assert(order.id == OrderId(id));
                }
                if out@.contains(OrderId(id)) {
                    let k = choose|k: int| 0 <= k < out@.len() && out@[k] == OrderId(id);
                    assert(owner_seen(all@, all@.len() as int, user, out@[k]));
                    let j = choose|j: int|
                        0 <= j < all@.len() && (#[trigger] all@[j]).id == out@[k] && all@[j].user
                            == user;
                    assert(self.orders()[id] == all@[j]);
                }
            }
        }
        out
    }
}

} // verus!
