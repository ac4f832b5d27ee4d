//! Synchronous pre-trade checks: static limits and the price band.

use std::collections::HashMap;

use vstd::prelude::*;

use crate::exchange::RejectReason;
use crate::order::Order;
use crate::types::{InstrumentId, OrderType, Price, Side, TimeInForce};

verus! {

broadcast use vstd::std_specs::hash::group_hash_axioms;

/// Static limits on one order and on a user's open orders; 0 switches a limit
/// off.
#[derive(Clone, Copy, Debug, PartialEq, Eq, Structural)]
pub struct RiskLimits {
    pub max_order_qty: u64,
    pub max_notional: u64,
    pub max_user_orders: u32,
}

impl RiskLimits {
    /// The limit that an order breaks by its shape alone.
    pub open spec fn broken(self, order: Order) -> Option<RejectReason> {
        if self.max_order_qty > 0 && order.quantity > self.max_order_qty {
            Some(RejectReason::MaxOrderQty)
        } else if self.max_notional > 0 && order.order_type is Limit && notional(order)
            > self.max_notional {
            Some(RejectReason::MaxNotional)
        } else {
            None
        }
    }

    /// Checks an order's shape.
    pub fn check_static(&self, order: &Order) -> (r: Result<(), RejectReason>)
        ensures
            match r {
                Ok(()) => self.broken(*order) is None,
                Err(reason) => self.broken(*order) == Some(reason),
            },
    {
        if self.max_order_qty > 0 && order.quantity > self.max_order_qty {
            return Err(RejectReason::MaxOrderQty);
        }
        if self.max_notional > 0 && order.order_type == OrderType::Limit {
            let worth: u128 = if order.tif == TimeInForce::IocBudget || order.tif
                == TimeInForce::FokBudget {
                order.price as u128
            } else {
                proof {
                    let p = order.price;
                    let q = order.quantity;
                    assert(p * q <= u128::MAX) by (nonlinear_arith)
                        requires
                            0 <= p <= u64::MAX,
                            0 <= q <= u64::MAX,
                    ;
                }
                order.price as u128 * order.quantity as u128
            };
            if worth > self.max_notional as u128 {
                return Err(RejectReason::MaxNotional);
            }
        }
        Ok(())
    }
}

/// What a limit order is worth: its budget if it has one, else price times
/// quantity.
pub open spec fn notional(order: Order) -> int {
    if order.tif is IocBudget || order.tif is FokBudget {
        order.price as int
    } else {
        order.price * order.quantity
    }
}

/// The anti-spike price band: orders may not be priced through a band around
/// the instrument's reference price.
pub struct PriceGuard {
    band_bps: u64,
    references: HashMap<u32, u64>,
}

/// Half the width of the band around `reference`.
pub open spec fn half_band(reference: u64, bps: u64) -> int {
    reference * bps / 10_000
}

/// Lowest price in the band.
pub open spec fn band_low(reference: u64, bps: u64) -> u64 {
    if half_band(reference, bps) >= reference {
        0
    } else {
        (reference - half_band(reference, bps)) as u64
    }
}

/// Highest price in the band.
pub open spec fn band_high(reference: u64, bps: u64) -> u64 {
    if reference + half_band(reference, bps) > u64::MAX {
        u64::MAX
    } else {
        (reference + half_band(reference, bps)) as u64
    }
}

/// The order as the band lets it through, or `None` if it is priced through the
/// band. A market order becomes a limit order at the band's edge.
pub open spec fn banded(reference: u64, bps: u64, order: Order) -> Option<Order> {
    if order.tif is IocBudget || order.tif is FokBudget {
        Some(order)
    } else if order.order_type is Market {
        Some(
            Order {
                order_type: OrderType::Limit,
                price: if order.side is Buy {
                    band_high(reference, bps)
                } else {
                    band_low(reference, bps)
                },
                ..order
            },
        )
    } else if order.side is Buy && order.price > band_high(reference, bps) {
        None
    } else if order.side is Sell && order.price < band_low(reference, bps) {
        None
    } else {
        Some(order)
    }
}

impl PriceGuard {
    /// Half-width of the band in basis points.
    pub closed spec fn width(self) -> u64 {
        self.band_bps
    }

    /// The reference prices by instrument.
    pub closed spec fn refs(self) -> Map<u32, u64> {
        self.references@
    }

    /// A guard without reference prices; it lets every order through until one
    /// is set.
    pub fn new(band_bps: u64) -> (r: PriceGuard)
        ensures
            r.width() == band_bps,
            r.refs() == Map::<u32, u64>::empty(),
    {
        PriceGuard { band_bps, references: HashMap::new() }
    }

    /// Sets an instrument's reference price.
    pub fn set_reference(&mut self, instrument: InstrumentId, price: Price)
        ensures
            final(self).width() == old(self).width(),
            final(self).refs() == old(self).refs().insert(instrument.0, price),
    {
        self.references.insert(instrument.0, price);
    }

    /// The order as it may go on, or the reason why not.
    pub open spec fn verdict(self, order: Order) -> Result<Order, RejectReason> {
        if !self.refs().contains_key(order.instrument.0) {
            Ok(order)
        } else {
            match banded(self.refs()[order.instrument.0], self.width(), order) {
                Some(order) => Ok(order),
                None => Err(RejectReason::PriceBand),
            }
        }
    }

    /// Holds an order against the band.
    pub fn vet(&self, order: &Order) -> (r: Result<Order, RejectReason>)
        ensures
            r == self.verdict(*order),
    {
        let reference: u64 = match self.references.get(&order.instrument.0) {
            Some(price) => *price,
            None => {
                return Ok(*order);
            },
        };
        if order.tif == TimeInForce::IocBudget || order.tif == TimeInForce::FokBudget {
            return Ok(*order);
        }
        proof {
            let b = self.band_bps;
            assert(reference * b <= u128::MAX) by (nonlinear_arith)
                requires
                    0 <= reference <= u64::MAX,
                    0 <= b <= u64::MAX,
            ;
        }
        let half: u128 = reference as u128 * self.band_bps as u128 / 10_000;
        let low: u64 = if half >= reference as u128 {
            0
        } else {
            reference - half as u64
        };
        let high: u64 = if half > (u64::MAX - reference) as u128 {
            u64::MAX
        } else {
            reference + half as u64
        };
        if order.order_type == OrderType::Market {
            let mut capped = *order;
            capped.order_type = OrderType::Limit;
            capped.price = match order.side {
                Side::Buy => high,
                Side::Sell => low,
            };
            return Ok(capped);
        }
        match order.side {
            Side::Buy => if order.price > high {
                Err(RejectReason::PriceBand)
            } else {
                Ok(*order)
            },
            Side::Sell => if order.price < low {
                Err(RejectReason::PriceBand)
            } else {
                Ok(*order)
            },
        }
    }
}

/// A limit on the size lets through what is not above it, and 0 lets everything
/// through; the worth of a limit order, its budget or else its price times its
/// quantity, is held to its own limit in the same way. The size is looked at first.
pub proof fn law_limits_hold_what_is_above_them(limits: RiskLimits, order: Order)
    ensures
        ({
            let too_large = limits.max_order_qty != 0 && order.quantity > limits.max_order_qty;
            let budgeted = order.tif == TimeInForce::IocBudget || order.tif
                == TimeInForce::FokBudget;
            let too_dear = limits.max_notional != 0 && order.order_type == OrderType::Limit && (
            budgeted && order.price > limits.max_notional || !budgeted && order.price
                * order.quantity > limits.max_notional);
            &&& too_large ==> limits.broken(order) == Some(RejectReason::MaxOrderQty)
            &&& !too_large && too_dear ==> limits.broken(order) == Some(RejectReason::MaxNotional)
            &&& !too_large && !too_dear ==> limits.broken(order) is None
        }),
{
}

/// A limit buy may be priced up to the reference and as far above it as the band is
/// wide; a limit sell down to the reference and as far below it. The width is the
/// given share of the reference, in ten-thousandths. What is let through is not
/// changed.
pub proof fn law_band_is_a_share_of_the_reference(guard: PriceGuard, order: Order)
    requires
        guard.refs().contains_key(order.instrument.0),
        order.order_type == OrderType::Limit,
        order.tif != TimeInForce::IocBudget,
        order.tif != TimeInForce::FokBudget,
    ensures
        ({
            let reference = guard.refs()[order.instrument.0];
            let off = if order.side == Side::Buy {
                order.price - reference
            } else {
                reference - order.price
            };
            if off * 10_000 <= reference * guard.width() {
                guard.verdict(order) == Ok::<Order, RejectReason>(order)
            } else {
                guard.verdict(order) == Err::<Order, RejectReason>(RejectReason::PriceBand)
            }
        }),
{
    let reference = guard.refs()[order.instrument.0];
    let share = reference * guard.width();
    assert(share >= 0) by (nonlinear_arith)
        requires
            share == reference * guard.width(),
    ;
    let half = share / 10_000;
    let off = if order.side == Side::Buy {
        order.price - reference
    } else {
        reference - order.price
    };
    assert(off * 10_000 <= share <==> off <= half) by (nonlinear_arith)
        requires
            half == share / 10_000,
    ;
    assert(half == half_band(reference, guard.width()));
}

/// A market order goes on as a limit order that is the same but for its price: a buy at
/// the highest price at which a limit buy is let through, which is not below the
/// reference; a sell at the lowest price at which a limit sell is let through, which is
/// not above it.
pub proof fn law_market_orders_stop_at_the_edge(guard: PriceGuard, order: Order)
    requires
        guard.refs().contains_key(order.instrument.0),
        order.order_type == OrderType::Market,
        order.tif != TimeInForce::IocBudget,
        order.tif != TimeInForce::FokBudget,
    ensures
        ({
            let reference = guard.refs()[order.instrument.0];
            let edge = guard.verdict(order)->Ok_0.price;
            &&& guard.verdict(order) == Ok::<Order, RejectReason>(
                Order { order_type: OrderType::Limit, price: edge, ..order },
            )
            &&& order.side == Side::Buy ==> edge >= reference
            &&& order.side == Side::Sell ==> edge <= reference
            &&& forall|p: u64|
                #![trigger guard.verdict(
                    Order { order_type: OrderType::Limit, price: p, ..order },
                )]
                guard.verdict(Order { order_type: OrderType::Limit, price: p, ..order }) is Ok
                    <==> (if order.side == Side::Buy {
                    p <= edge
                } else {
                    p >= edge
                })
        }),
{
    let reference = guard.refs()[order.instrument.0];
    let half = half_band(reference, guard.width());
    assert(half >= 0) by (nonlinear_arith)
        requires
            half == reference * guard.width() / 10_000,
    ;
}

/// An order on an instrument without a reference goes on as it is, and so does one with
/// a budget.
pub proof fn law_unguarded_orders_go_on(guard: PriceGuard, order: Order)
    requires
        !guard.refs().contains_key(order.instrument.0) || order.tif == TimeInForce::IocBudget
            || order.tif == TimeInForce::FokBudget,
    ensures
        guard.verdict(order) == Ok::<Order, RejectReason>(order),
{
}

} // verus!
