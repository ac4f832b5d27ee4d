//! Orders that must be filled completely within a budget or not at all.

use vstd::prelude::*;

use crate::book::{levels_ok, queue_ok};
use crate::crossing::{
    advance, affordable, fills_of, lemma_fills, lemma_handed, lemma_shown, reachable, self_trade,
    shown, Crossing, Taker,
};
use crate::ladder::{
    best_price, better, crosses, distinct, is_best, lemma_best_price, lemma_prices_finite,
    lemma_settle_total, set_level, settle, sweep_cost, total, Levels,
};
use crate::order::Order;
use crate::strategy::{allocated, generous, valid_allocations, MatchingStrategy};
use crate::types::Side;

verus! {

/// The asks hold all that is left of a buy order, and the budget pays for it; no
/// ask is at price zero.
pub open spec fn covered(s: Crossing) -> bool {
    let (lots, cost) = sweep_cost(s.levels, Side::Buy, s.remaining);
    &&& lots == s.remaining
    &&& cost <= s.budget
    &&& !s.levels.contains_key(0)
}

/// Sweeping a side whose best level holds `queue`: that level first, then the rest.
pub proof fn lemma_sweep_best(levels: Levels, px: u64, queue: Seq<Order>, qty: nat)
    requires
        is_best(levels, Side::Sell, px),
    ensures
        ({
            let here = if total(queue) <= qty {
                total(queue)
            } else {
                qty
            };
            let rest = sweep_cost(levels.remove(px), Side::Buy, (qty - here) as nat);
            sweep_cost(set_level(levels, px, queue), Side::Buy, qty) == (
                here + rest.0,
                here * px as nat + rest.1,
            )
        }),
{
    let after = set_level(levels, px, queue);
    let rest = levels.remove(px);
    lemma_prices_finite(after.dom());
    lemma_prices_finite(rest.dom());
    if queue.len() > 0 {
        assert(is_best(after, Side::Sell, px)) by {
            assert forall|q: u64| #[trigger] after.contains_key(q) implies !better(
                Side::Sell,
                q,
                px,
            ) by {
                assert(q == px || levels.contains_key(q));
            }
        }
        lemma_best_price(after, Side::Sell, px);
        assert(after.remove(px) =~= rest);
        if qty == 0 {
            assert(sweep_cost(rest, Side::Buy, 0) == (0nat, 0nat));
        }
    } else {
        assert(total(queue) == 0);
    }
}

/// Lots that are swept cost at least the lowest price each.
proof fn lemma_sweep_floor(levels: Levels, px: u64, qty: nat)
    requires
        forall|p: u64| #[trigger] levels.contains_key(p) ==> p >= px,
    ensures
        sweep_cost(levels, Side::Buy, qty).1 >= sweep_cost(levels, Side::Buy, qty).0 * px,
    decreases levels.dom().len(),
{
    lemma_prices_finite(levels.dom());
    if let Some(p) = best_price(levels, Side::Sell) {
        if qty > 0 && levels.contains_key(p) {
            let here = if total(levels[p]) <= qty {
                total(levels[p])
            } else {
                qty
            };
            let rest = levels.remove(p);
            lemma_sweep_floor(rest, px, (qty - here) as nat);
            let more = sweep_cost(rest, Side::Buy, (qty - here) as nat);
            assert((here + more.0) * px <= here * p + more.1) by (nonlinear_arith)
                requires
                    more.1 >= more.0 * px,
                    p >= px,
                    here >= 0,
            ;
        }
    }
}

/// No more is swept than asked for.
pub proof fn lemma_sweep_at_most(levels: Levels, qty: nat)
    ensures
        sweep_cost(levels, Side::Buy, qty).0 <= qty,
    decreases levels.dom().len(),
{
    lemma_prices_finite(levels.dom());
    if let Some(p) = best_price(levels, Side::Sell) {
        if qty > 0 && levels.contains_key(p) {
            let here = if total(levels[p]) <= qty {
                total(levels[p])
            } else {
                qty
            };
            lemma_sweep_at_most(levels.remove(p), (qty - here) as nat);
        }
    }
}

/// The order is never short of budget: at the best price it can take all that is
/// left.
proof fn lemma_room(taker: Taker, s: Crossing, px: u64)
    requires
        taker.order.side is Buy,
        covered(s),
        is_best(s.levels, Side::Sell, px),
    ensures
        px > 0,
        s.remaining * px <= s.budget,
        affordable(s, px) == s.remaining,
{
    assert(s.levels.contains_key(px));
    assert forall|p: u64| #[trigger] s.levels.contains_key(p) implies p >= px by {
        assert(!better(Side::Sell, p, px));
    }
    lemma_sweep_floor(s.levels, px, s.remaining);
    let room = s.budget / px as nat;
    assert(room >= s.remaining) by (nonlinear_arith)
        requires
            s.remaining * px <= s.budget,
            px > 0,
            room == s.budget / px as nat,
    ;
}

/// A step that fills keeps the order covered.
pub proof fn lemma_covered_step<S: MatchingStrategy>(
    strategy: S,
    taker: Taker,
    s: Crossing,
    t: Crossing,
    px: u64,
)
    requires
        taker.order.side is Buy,
        covered(s),
        levels_ok(s.orders, s.levels, Side::Sell),
        s.remaining <= u64::MAX,
        reachable(taker, s) == Some(px),
        !self_trade(taker, shown(strategy, s, px)),
        valid_allocations(
            shown(strategy, s, px),
            affordable(s, px),
            strategy.allocation(shown(strategy, s, px), affordable(s, px)),
        ),
        advance(strategy, taker, s) == Some(t),
    ensures
        covered(t),
{
    assert(is_best(s.levels, Side::Sell, px));
    let queue = s.levels[px];
    assert(queue_ok(s.orders, queue, Side::Sell, px));
    lemma_shown(strategy, taker, s, px);
    let view = shown(strategy, s, px);
    let allocs = strategy.allocation(view, affordable(s, px));
    let fills = fills_of(allocs);
    lemma_fills(queue, view, affordable(s, px), allocs);
    lemma_handed(allocs);
    assert(distinct(queue));
    lemma_settle_total(queue, fills);
    lemma_room(taker, s, px);
    let n = allocated(allocs);
    let left = settle(queue, fills);
    assert(set_level(s.levels, px, queue) =~= s.levels);
    lemma_sweep_best(s.levels, px, queue, s.remaining);
    lemma_sweep_best(s.levels, px, left, t.remaining);
    let here: nat = if total(queue) <= s.remaining {
        total(queue)
    } else {
        s.remaining
    };
    let there: nat = if total(left) <= t.remaining {
        total(left)
    } else {
        t.remaining
    };
    assert(total(left) + n == total(queue));
    assert(there + n == here);
    assert(t.remaining - there == s.remaining - here);
    assert(here * px == there * px + n * px) by (nonlinear_arith)
        requires
            there + n == here,
    ;
    assert(n * px <= s.remaining * px) by (nonlinear_arith)
        requires
            n <= s.remaining,
            px > 0,
    ;
    assert(!t.levels.contains_key(0));
}

/// A covered order with something left goes on.
pub proof fn lemma_covered_goes_on<S: MatchingStrategy>(strategy: S, taker: Taker, s: Crossing)
    requires
        taker.order.side is Buy,
        taker.order.price == u64::MAX,
        taker.stp is Allow,
        covered(s),
        levels_ok(s.orders, s.levels, Side::Sell),
        generous(strategy),
        !s.stopped,
        0 < s.remaining <= u64::MAX,
    ensures
        advance(strategy, taker, s) is Some,
{
    lemma_prices_finite(s.levels.dom());
    let px = best_price(s.levels, Side::Sell)->0;
    assert(best_price(s.levels, Side::Sell) is Some);
    assert(is_best(s.levels, Side::Sell, px));
    lemma_room(taker, s, px);
    assert(crosses(Side::Buy, u64::MAX, px));
    assert(reachable(taker, s) == Some(px));
    assert(queue_ok(s.orders, s.levels[px], Side::Sell, px));
    lemma_shown(strategy, taker, s, px);
    let view = shown(strategy, s, px);
    let allocs = strategy.allocation(view, affordable(s, px));
    assert(allocated(allocs) > 0);
    lemma_handed(allocs);
    assert(fills_of(allocs).len() > 0);
}

} // verus!
