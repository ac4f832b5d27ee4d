//! Mathematical description of one side of the book: levels by price, each a
//! queue of resting orders, oldest first.

use vstd::prelude::*;

use crate::order::Order;
use crate::strategy::RestingOrder;
use crate::types::{OrderId, Qty, Side};

verus! {

/// One side of the book.
pub type Levels = Map<u64, Seq<Order>>;

/// What a strategy sees of an order.
pub open spec fn resting_of(order: Order) -> RestingOrder {
    RestingOrder {
        id: order.id,
        remaining: order.remaining,
        timestamp: order.timestamp,
        user: order.user,
    }
}

/// What a strategy sees of a queue.
pub open spec fn resting_seq(queue: Seq<Order>) -> Seq<RestingOrder> {
    Seq::new(queue.len(), |i: int| resting_of(queue[i]))
}

/// Total quantity left in a queue.
pub open spec fn total(queue: Seq<Order>) -> nat
    decreases queue.len(),
{
    if queue.len() == 0 {
        0
    } else {
        total(queue.drop_last()) + queue.last().remaining as nat
    }
}

/// The queue with `by` lots taken from the order `id`; an order with nothing
/// left is gone, the others keep their places.
pub open spec fn reduced(queue: Seq<Order>, id: OrderId, by: nat) -> Seq<Order>
    decreases queue.len(),
{
    if queue.len() == 0 {
        queue
    } else {
        let order = queue.last();
        let front = reduced(queue.drop_last(), id, by);
        if order.id != id {
            front.push(order)
        } else if by < order.remaining {
            front.push(Order { remaining: (order.remaining - by) as u64, ..order })
        } else {
            front
        }
    }
}

/// The queue without the order `id`.
pub open spec fn without(queue: Seq<Order>, id: OrderId) -> Seq<Order> {
    reduced(queue, id, u64::MAX as nat)
}

/// The queue after each of `fills` has taken its lots.
pub open spec fn settle(queue: Seq<Order>, fills: Seq<(OrderId, Qty)>) -> Seq<Order>
    decreases fills.len(),
{
    if fills.len() == 0 {
        queue
    } else {
        reduced(settle(queue, fills.drop_last()), fills.last().0, fills.last().1 as nat)
    }
}

/// Each fill names another order of the queue and does not overfill it.
pub open spec fn valid_fills(queue: Seq<Order>, fills: Seq<(OrderId, Qty)>) -> bool {
    &&& forall|k: int| 0 <= k < fills.len() ==> fillable(queue, #[trigger] fills[k])
    &&& forall|j: int, k: int| 0 <= j < k < fills.len() ==> #[trigger] fills[j].0
        != #[trigger] fills[k].0
}

/// The queue holds the order that `fill` names with at least that much left.
pub open spec fn fillable(queue: Seq<Order>, fill: (OrderId, Qty)) -> bool {
    exists|i: int|
        0 <= i < queue.len() && (#[trigger] queue[i]).id == fill.0 && fill.1 <= queue[i].remaining
}

/// Taking lots from one order leaves the others as they are, and adds none.
pub proof fn lemma_reduced_others(queue: Seq<Order>, id: OrderId, by: nat)
    ensures
        forall|i: int|
            0 <= i < queue.len() && (#[trigger] queue[i]).id != id ==> reduced(
                queue,
                id,
                by,
            ).contains(queue[i]),
        reduced(queue, id, by).len() <= queue.len(),
    decreases queue.len(),
{
    if queue.len() > 0 {
        let front = queue.drop_last();
        lemma_reduced_others(front, id, by);
        let r = reduced(queue, id, by);
        let rf = reduced(front, id, by);
        assert forall|i: int| 0 <= i < queue.len() && (#[trigger] queue[i]).id != id implies r.contains(
            queue[i],
        ) by {
            if i < front.len() {
                assert(front[i] == queue[i]);
                let k = choose|k: int| 0 <= k < rf.len() && rf[k] == queue[i];
                assert(r[k] == rf[k]);
            } else {
                assert(r[r.len() - 1] == queue[i]);
            }
        }
    }
}

/// A queue without the order `id` stays as it is.
pub proof fn lemma_reduced_absent(queue: Seq<Order>, id: OrderId, by: nat)
    requires
        forall|i: int| 0 <= i < queue.len() ==> (#[trigger] queue[i]).id != id,
    ensures
        reduced(queue, id, by) == queue,
    decreases queue.len(),
{
    if queue.len() > 0 {
        let front = queue.drop_last();
        assert forall|i: int| 0 <= i < front.len() implies (#[trigger] front[i]).id != id by {
            assert(front[i] == queue[i]);
        }
        lemma_reduced_absent(front, id, by);
        assert(front.push(queue.last()) =~= queue);
    }
}

/// Taking all of an order, or more, removes it.
pub proof fn lemma_reduced_all(queue: Seq<Order>, id: OrderId, by: nat)
    requires
        forall|i: int|
            0 <= i < queue.len() && (#[trigger] queue[i]).id == id ==> queue[i].remaining <= by,
    ensures
        reduced(queue, id, by) == without(queue, id),
    decreases queue.len(),
{
    if queue.len() > 0 {
        let front = queue.drop_last();
        assert forall|i: int|
            0 <= i < front.len() && (#[trigger] front[i]).id == id implies front[i].remaining
            <= by by {
            assert(front[i] == queue[i]);
        }
        lemma_reduced_all(front, id, by);
        assert(queue[queue.len() - 1] == queue.last());
    }
}

/// Later fills stay possible while earlier ones are settled.
pub proof fn lemma_settle_keeps(queue: Seq<Order>, fills: Seq<(OrderId, Qty)>, k: int)
    requires
        valid_fills(queue, fills),
        0 <= k < fills.len(),
    ensures
        fillable(settle(queue, fills.take(k)), fills[k]),
{
    assert(fillable(queue, fills[k]));
    lemma_settle_keeps_from(queue, fills, k, k);
}

proof fn lemma_settle_keeps_from(queue: Seq<Order>, fills: Seq<(OrderId, Qty)>, k: int, m: int)
    requires
        valid_fills(queue, fills),
        0 <= m <= k < fills.len(),
    ensures
        fillable(settle(queue, fills.take(m)), fills[k]),
    decreases m,
{
    assert(fillable(queue, fills[k]));
    if m > 0 {
        lemma_settle_keeps_from(queue, fills, k, m - 1);
        assert(fills.take(m).drop_last() =~= fills.take(m - 1));
        let before = settle(queue, fills.take(m - 1));
        let i = choose|i: int|
            0 <= i < before.len() && (#[trigger] before[i]).id == fills[k].0 && fills[k].1
                <= before[i].remaining;
        assert(fills[m - 1].0 != fills[k].0);
        lemma_reduced_others(before, fills[m - 1].0, fills[m - 1].1 as nat);
        let after = settle(queue, fills.take(m));
        assert(after.contains(before[i]));
        let c = choose|c: int| 0 <= c < after.len() && after[c] == before[i];
        assert(after[c].id == fills[k].0);
    }
}

/// No two orders of the queue share an id.
pub open spec fn distinct(queue: Seq<Order>) -> bool {
    forall|i: int, j: int| 0 <= i < j < queue.len() ==> #[trigger] queue[i].id
        != #[trigger] queue[j].id
}

/// Lots that `fills` take in all.
pub open spec fn handed(fills: Seq<(OrderId, Qty)>) -> nat
    decreases fills.len(),
{
    if fills.len() == 0 {
        0
    } else {
        handed(fills.drop_last()) + fills.last().1 as nat
    }
}

/// Taking lots from an order leaves ids distinct.
pub proof fn lemma_reduced_distinct(queue: Seq<Order>, id: OrderId, by: nat)
    requires
        distinct(queue),
    ensures
        distinct(reduced(queue, id, by)),
        forall|i: int|
            0 <= i < reduced(queue, id, by).len() ==> exists|j: int|
                0 <= j < queue.len() && (#[trigger] queue[j]).id == (#[trigger] reduced(
                    queue,
                    id,
                    by,
                )[i]).id,
    decreases queue.len(),
{
    if queue.len() > 0 {
        let front = queue.drop_last();
        assert(distinct(front)) by {
            assert forall|i: int, j: int| 0 <= i < j < front.len() implies #[trigger] front[i].id
                != #[trigger] front[j].id by {
                assert(queue[i].id != queue[j].id);
            }
        }
        lemma_reduced_distinct(front, id, by);
        let rf = reduced(front, id, by);
        let r = reduced(queue, id, by);
        let last = queue[queue.len() - 1];
        assert forall|i: int| 0 <= i < r.len() implies exists|j: int|
            0 <= j < queue.len() && (#[trigger] queue[j]).id == (#[trigger] r[i]).id by {
            if i < rf.len() {
                assert(r[i] == rf[i]);
                let j = choose|j: int| 0 <= j < front.len() && (#[trigger] front[j]).id == rf[i].id;
                assert(queue[j].id == r[i].id);
            } else {
                assert(last.id == r[i].id);
            }
        }
        assert forall|i: int, j: int| 0 <= i < j < r.len() implies #[trigger] r[i].id
            != #[trigger] r[j].id by {
            assert(r[i] == rf[i]);
            if j < rf.len() {
                assert(r[j] == rf[j]);
            } else {
                let k = choose|k: int| 0 <= k < front.len() && (#[trigger] front[k]).id == rf[i].id;
                assert(queue[k].id != last.id);
            }
        }
    }
}

proof fn lemma_reduced_total(queue: Seq<Order>, id: OrderId, by: nat)
    requires
        distinct(queue),
        exists|i: int|
            0 <= i < queue.len() && (#[trigger] queue[i]).id == id && by <= queue[i].remaining,
    ensures
        total(reduced(queue, id, by)) + by == total(queue),
    decreases queue.len(),
{
    let front = queue.drop_last();
    let last = queue.last();
    let w = choose|i: int|
        0 <= i < queue.len() && (#[trigger] queue[i]).id == id && by <= queue[i].remaining;
    let r = reduced(queue, id, by);
    let rf = reduced(front, id, by);
    assert(queue[queue.len() - 1] == last);
    if last.id == id {
        assert forall|i: int| 0 <= i < front.len() implies (#[trigger] front[i]).id != id by {
            assert(queue[i].id != queue[queue.len() - 1].id);
        }
        lemma_reduced_absent(front, id, by);
        if w < queue.len() - 1 {
            assert(front[w].id != id);
        }
        if by < last.remaining {
            assert(r.drop_last() =~= front);
        }
    } else {
        assert(front[w] == queue[w]);
        assert forall|i: int, j: int| 0 <= i < j < front.len() implies #[trigger] front[i].id
            != #[trigger] front[j].id by {
            assert(queue[i].id != queue[j].id);
        }
        lemma_reduced_total(front, id, by);
        assert(r.drop_last() =~= rf);
        assert(r.last() == last);
    }
}

/// Settling fills takes exactly their lots from the queue.
pub proof fn lemma_settle_total(queue: Seq<Order>, fills: Seq<(OrderId, Qty)>)
    requires
        distinct(queue),
        valid_fills(queue, fills),
    ensures
        distinct(settle(queue, fills)),
        total(settle(queue, fills)) + handed(fills) == total(queue),
    decreases fills.len(),
{
    if fills.len() > 0 {
        let front = fills.drop_last();
        assert forall|k: int| 0 <= k < front.len() implies fillable(queue, #[trigger] front[k]) by {
            assert(fillable(queue, fills[k]));
        }
        assert forall|j: int, k: int| 0 <= j < k < front.len() implies #[trigger] front[j].0
            != #[trigger] front[k].0 by {
            assert(fills[j].0 != fills[k].0);
        }
        lemma_settle_total(queue, front);
        let n = fills.len() - 1;
        lemma_settle_keeps(queue, fills, n);
        assert(fills.take(n) =~= front);
        let before = settle(queue, front);
        assert(fillable(before, fills[n]));
        lemma_reduced_distinct(before, fills.last().0, fills.last().1 as nat);
        lemma_reduced_total(before, fills.last().0, fills.last().1 as nat);
    }
}

/// The side with `queue` at `price`; an empty queue leaves no level.
pub open spec fn set_level(levels: Levels, price: u64, queue: Seq<Order>) -> Levels {
    if queue.len() == 0 {
        levels.remove(price)
    } else {
        levels.insert(price, queue)
    }
}

/// The queue at `price`, empty when there is no level.
pub open spec fn level_at(levels: Levels, price: u64) -> Seq<Order> {
    if levels.contains_key(price) {
        levels[price]
    } else {
        Seq::empty()
    }
}

/// Whether `p` is a better price than `q` on `side`: higher for bids, lower for
/// asks.
pub open spec fn better(side: Side, p: u64, q: u64) -> bool {
    match side {
        Side::Buy => p > q,
        Side::Sell => p < q,
    }
}

/// `p` is the best price on the side.
pub open spec fn is_best(levels: Levels, side: Side, p: u64) -> bool {
    &&& levels.contains_key(p)
    &&& forall|q: u64| #[trigger] levels.contains_key(q) ==> !better(side, q, p)
}

/// The best price on the side, if it has a level.
pub open spec fn best_price(levels: Levels, side: Side) -> Option<u64> {
    if exists|p: u64| is_best(levels, side, p) {
        Some(choose|p: u64| is_best(levels, side, p))
    } else {
        None
    }
}

/// There is only one best price.
pub proof fn lemma_best_price(levels: Levels, side: Side, p: u64)
    requires
        is_best(levels, side, p),
    ensures
        best_price(levels, side) == Some(p),
{
    let c = choose|q: u64| is_best(levels, side, q);
    assert(is_best(levels, side, c));
    assert(levels.contains_key(c) && levels.contains_key(p));
}

/// A side with a level has a best price.
pub proof fn lemma_some_best(levels: Levels, side: Side, p: u64)
    requires
        levels.contains_key(p),
    ensures
        best_price(levels, side) is Some,
    decreases (if side is Buy { u64::MAX - p } else { p as int }),
{
    if !is_best(levels, side, p) {
        let q = choose|q: u64| #[trigger] levels.contains_key(q) && better(side, q, p);
        lemma_some_best(levels, side, q);
    }
}

/// The shortest front of the queue that holds at least `cap` lots, at least one
/// order, and the whole queue when it holds less.
pub open spec fn capped(queue: Seq<Order>, cap: int) -> Seq<Order>
    decreases queue.len(),
{
    if queue.len() == 0 {
        queue
    } else if queue[0].remaining >= cap {
        queue.take(1)
    } else {
        queue.take(1) + capped(queue.skip(1), cap - queue[0].remaining)
    }
}

/// Whether a resting order at `price` is within the aggressor's limit.
pub open spec fn crosses(aggressor: Side, limit: u64, price: u64) -> bool {
    match aggressor {
        Side::Buy => price <= limit,
        Side::Sell => price >= limit,
    }
}

/// The levels with prices worse than `after`, or all of them.
pub open spec fn beyond(levels: Levels, side: Side, after: Option<u64>) -> Levels {
    match after {
        None => levels,
        Some(a) => levels.restrict(Set::new(|p: u64| better(side, a, p))),
    }
}

/// Moving past the best remaining level removes just that level.
pub proof fn lemma_beyond_step(levels: Levels, side: Side, after: Option<u64>, p: u64)
    requires
        is_best(beyond(levels, side, after), side, p),
    ensures
        beyond(levels, side, Some(p)) == beyond(levels, side, after).remove(p),
{
    let rest = beyond(levels, side, after);
    assert forall|q: u64| beyond(levels, side, Some(p)).contains_key(q) <==> rest.remove(
        p,
    ).contains_key(q) by {
        if rest.contains_key(q) {
            assert(!better(side, q, p));
        }
        assert(rest.contains_key(p));
    }
    assert(beyond(levels, side, Some(p)) =~= rest.remove(p));
}

/// Every set of 64-bit prices is finite.
pub proof fn lemma_prices_finite(prices: Set<u64>)
    ensures
        prices.finite(),
{
    let ints = vstd::set_lib::set_int_range(0, u64::MAX + 1);
    vstd::set_lib::lemma_int_range(0, u64::MAX + 1);
    let all = ints.map(|i: int| i as u64);
    ints.lemma_map_finite(|i: int| i as u64);
    assert forall|p: u64| #[trigger] prices.contains(p) implies all.contains(p) by {
        assert(ints.contains(p as int));
        assert((p as int) as u64 == p);
    }
    vstd::set_lib::lemma_set_subset_finite(all, prices);
}

/// Quantity that an aggressor with limit `limit` can reach on the other side.
pub open spec fn crossable(levels: Levels, aggressor: Side, limit: u64) -> nat
    decreases levels.dom().len(),
    when levels.dom().finite()
{
    match best_price(levels, aggressor.spec_opposite()) {
        None => 0,
        Some(p) => if levels.contains_key(p) && crosses(aggressor, limit, p) {
            total(levels[p]) + crossable(levels.remove(p), aggressor, limit)
        } else {
            0
        },
    }
}

/// What can be reached when the best level, within the limit, holds another queue.
pub proof fn lemma_crossable_step(
    levels: Levels,
    aggressor: Side,
    limit: u64,
    px: u64,
    queue: Seq<Order>,
)
    requires
        is_best(levels, aggressor.spec_opposite(), px),
        crosses(aggressor, limit, px),
    ensures
        crossable(levels, aggressor, limit) == total(levels[px]) + crossable(
            levels.remove(px),
            aggressor,
            limit,
        ),
        crossable(set_level(levels, px, queue), aggressor, limit) == total(queue) + crossable(
            levels.remove(px),
            aggressor,
            limit,
        ),
{
    let side = aggressor.spec_opposite();
    lemma_prices_finite(levels.dom());
    lemma_best_price(levels, side, px);
    let after = set_level(levels, px, queue);
    lemma_prices_finite(after.dom());
    lemma_prices_finite(levels.remove(px).dom());
    if queue.len() > 0 {
        assert(is_best(after, side, px)) by {
            assert forall|q: u64| #[trigger] after.contains_key(q) implies !better(side, q, px) by {
                assert(q == px || levels.contains_key(q));
            }
        }
        lemma_best_price(after, side, px);
        assert(after.remove(px) =~= levels.remove(px));
    } else {
        assert(total(queue) == 0);
    }
}

/// Nothing can be reached when the best level is beyond the limit, or there is
/// none.
pub proof fn lemma_nothing_crossable(levels: Levels, aggressor: Side, limit: u64)
    requires
        match best_price(levels, aggressor.spec_opposite()) {
            Some(px) => !crosses(aggressor, limit, px),
            None => true,
        },
    ensures
        crossable(levels, aggressor, limit) == 0,
{
    lemma_prices_finite(levels.dom());
}

/// Ids of the orders of `side` whose price has a level.
pub open spec fn ids_on(orders: Map<u64, Order>, levels: Levels, side: Side) -> Set<u64> {
    Set::new(
        |id: u64|
            orders.contains_key(id) && orders[id].side == side && levels.contains_key(
                orders[id].price,
            ),
    )
}

proof fn lemma_total_bound(queue: Seq<Order>)
    ensures
        total(queue) <= queue.len() * u64::MAX,
    decreases queue.len(),
{
    if queue.len() > 0 {
        lemma_total_bound(queue.drop_last());
        assert(queue.len() * u64::MAX == queue.drop_last().len() * u64::MAX + u64::MAX);
    }
}

/// What can be reached is bounded by the number of resting orders.
pub proof fn lemma_crossable_bound(
    orders: Map<u64, Order>,
    levels: Levels,
    aggressor: Side,
    limit: u64,
)
    requires
        orders.dom().finite(),
        crate::book::levels_ok(orders, levels, aggressor.spec_opposite()),
    ensures
        crossable(levels, aggressor, limit) <= ids_on(
            orders,
            levels,
            aggressor.spec_opposite(),
        ).len() * u64::MAX,
        ids_on(orders, levels, aggressor.spec_opposite()).len() <= orders.dom().len(),
    decreases levels.dom().len(),
{
    let side = aggressor.spec_opposite();
    let ids = ids_on(orders, levels, side);
    lemma_prices_finite(levels.dom());
    assert(ids.subset_of(orders.dom()));
    vstd::set_lib::lemma_len_subset(ids, orders.dom());
    match best_price(levels, side) {
        None => {},
        Some(p) => {
            if levels.contains_key(p) && crosses(aggressor, limit, p) {
                let queue = levels[p];
                let rest = levels.remove(p);
                assert(crate::book::levels_ok(orders, rest, side)) by {
                    assert forall|q: u64| #[trigger] rest.contains_key(
                        q,
                    ) implies crate::book::queue_ok(orders, rest[q], side, q) by {
                        assert(levels.contains_key(q));
                    }
                }
                lemma_crossable_bound(orders, rest, aggressor, limit);
                lemma_total_bound(queue);
                assert(crate::book::queue_ok(orders, queue, side, p));
                let here = Seq::new(queue.len(), |i: int| queue[i].id.0);
                assert(here.no_duplicates()) by {
                    assert forall|i: int, j: int|
                        0 <= i < here.len() && 0 <= j < here.len() && i != j implies here[i]
                        != here[j] by {
                        if i < j {
                            assert(queue[i].id != queue[j].id);
                        } else {
                            assert(queue[j].id != queue[i].id);
                        }
                    }
                }
                here.unique_seq_to_set();
                let rest_ids = ids_on(orders, rest, side);
                assert(here.to_set().finite());
                assert(rest_ids.subset_of(ids));
                vstd::set_lib::lemma_len_subset(rest_ids, ids);
                assert forall|id: u64| here.to_set().contains(id) implies ids.contains(id)
                    && !rest_ids.contains(id) by {
                    let i = choose|i: int| 0 <= i < here.len() && here[i] == id;
                    assert(orders[queue[i].id.0] == queue[i]);
                }
                vstd::set_lib::lemma_set_disjoint_lens(here.to_set(), rest_ids);
                assert(here.to_set().union(rest_ids).subset_of(ids));
                vstd::set_lib::lemma_len_subset(here.to_set().union(rest_ids), ids);
                let n = ids.len();
                let a = queue.len();
                let b = rest_ids.len();
                assert(a * u64::MAX + b * u64::MAX <= n * u64::MAX) by (nonlinear_arith)
                    requires
                        a + b <= n,
                ;
            } else {
                let n = ids.len();
                assert(0 <= n * u64::MAX);
            }
        },
    }
}

/// Lots that an aggressor can fill, best price first and at most `qty`, and
/// their total cost.
pub open spec fn sweep_cost(levels: Levels, aggressor: Side, qty: nat) -> (nat, nat)
    decreases levels.dom().len(),
    when levels.dom().finite()
{
    match best_price(levels, aggressor.spec_opposite()) {
        None => (0, 0),
        Some(p) => if qty == 0 || !levels.contains_key(p) {
            (0, 0)
        } else {
            let here = if total(levels[p]) <= qty { total(levels[p]) } else { qty };
            let rest = sweep_cost(levels.remove(p), aggressor, (qty - here) as nat);
            (here + rest.0, here * p as nat + rest.1)
        },
    }
}

/// The levels as `(price, quantity, orders)` rows, best price first.
pub open spec fn rows(levels: Levels, side: Side) -> Seq<(u64, nat, nat)>
    decreases levels.dom().len(),
    when levels.dom().finite()
{
    match best_price(levels, side) {
        None => Seq::empty(),
        Some(p) => if levels.contains_key(p) {
            seq![(p, total(levels[p]), levels[p].len())] + rows(levels.remove(p), side)
        } else {
            Seq::empty()
        },
    }
}

/// Depth lists every level once, with all that is left at it and the number of its orders,
/// from the best price on: the bids from the highest, the asks from the lowest.
pub proof fn law_depth_lists_every_level(levels: Levels, side: Side)
    ensures
        ({
            let list = rows(levels, side);
            &&& forall|i: int, j: int|
                0 <= i < j < list.len() ==> if side == Side::Buy {
                    (#[trigger] list[i]).0 > (#[trigger] list[j]).0
                } else {
                    list[i].0 < list[j].0
                }
            &&& forall|i: int|
                0 <= i < list.len() ==> {
                    let (p, lots, n) = #[trigger] list[i];
                    levels.contains_key(p) && lots == total(levels[p]) && n == levels[p].len()
                }
            &&& forall|p: u64| #[trigger]
                levels.contains_key(p) ==> list.contains((p, total(levels[p]), levels[p].len()))
        }),
    decreases levels.dom().len(),
{
    lemma_prices_finite(levels.dom());
    let list = rows(levels, side);
    match best_price(levels, side) {
        None => {
            assert forall|p: u64| #[trigger] levels.contains_key(p) implies list.contains(
                (p, total(levels[p]), levels[p].len()),
            ) by {
                lemma_some_best(levels, side, p);
            }
        },
        Some(b) => {
            assert(is_best(levels, side, b));
            let rest = levels.remove(b);
            let tail = rows(rest, side);
            law_depth_lists_every_level(rest, side);
            assert(list =~= seq![(b, total(levels[b]), levels[b].len())] + tail);
            assert forall|i: int| 0 <= i < list.len() implies {
                let (p, lots, n) = #[trigger] list[i];
                levels.contains_key(p) && lots == total(levels[p]) && n == levels[p].len()
            } by {
                if i > 0 {
                    assert(list[i] == tail[i - 1]);
                    assert(rest.contains_key(tail[i - 1].0));
                }
            }
            assert forall|i: int, j: int| 0 <= i < j < list.len() implies if side == Side::Buy {
                (#[trigger] list[i]).0 > (#[trigger] list[j]).0
            } else {
                list[i].0 < list[j].0
            } by {
                assert(list[j] == tail[j - 1]);
                assert(rest.contains_key(tail[j - 1].0));
                if i > 0 {
                    assert(list[i] == tail[i - 1]);
                } else {
                    let p = tail[j - 1].0;
                    assert(levels.contains_key(p) && p != b);
                    assert(!better(side, p, b));
                }
            }
            assert forall|p: u64| #[trigger] levels.contains_key(p) implies list.contains(
                (p, total(levels[p]), levels[p].len()),
            ) by {
                if p == b {
                    assert(list[0] == (p, total(levels[p]), levels[p].len()));
                } else {
                    assert(rest.contains_key(p));
                    let row = (p, total(levels[p]), levels[p].len());
                    let k = choose|k: int| 0 <= k < tail.len() && tail[k] == row;
                    assert(list[k + 1] == tail[k]);
                }
            }
        },
    }
}

} // verus!
