//! Orders submitted to the engine.

use vstd::prelude::*;

use crate::types::{InstrumentId, OrderId, OrderType, Price, Qty, Side, TimeInForce, Timestamp};

verus! {

/// An order as it lives inside the engine.
///
/// `quantity` is the submitted size and never changes; `remaining` is the
/// unfilled part. `timestamp` is assigned by the engine on accept and is the
/// time-priority key.
#[derive(Clone, Copy, Debug, PartialEq, Eq, Structural)]
pub struct Order {
    pub id: OrderId,
    pub instrument: InstrumentId,
    /// Owner; 0 means unattributed.
    pub user: u64,
    pub side: Side,
    pub order_type: OrderType,
    pub tif: TimeInForce,
    pub price: Price,
    pub quantity: Qty,
    pub remaining: Qty,
    pub timestamp: Timestamp,
}

impl Order {
    /// A good-till-cancel limit order on instrument 0, owned by nobody.
    pub fn limit(id: OrderId, side: Side, price: Price, quantity: Qty) -> (r: Order)
        ensures
            r == (Order {
                id,
                instrument: InstrumentId(0),
                user: 0,
                side,
                order_type: OrderType::Limit,
                tif: TimeInForce::Gtc,
                price,
                quantity,
                remaining: quantity,
                timestamp: 0,
            }),
    {
        Order {
            id,
            instrument: InstrumentId(0),
            user: 0,
            side,
            order_type: OrderType::Limit,
            tif: TimeInForce::Gtc,
            price,
            quantity,
            remaining: quantity,
            timestamp: 0,
        }
    }

    /// An immediate-or-cancel market order; its sentinel price crosses
    /// everything on the other side.
    pub fn market(id: OrderId, side: Side, quantity: Qty) -> (r: Order)
        ensures
            r == (Order {
                id,
                instrument: InstrumentId(0),
                user: 0,
                side,
                order_type: OrderType::Market,
                tif: TimeInForce::Ioc,
                price: (if side is Buy { u64::MAX } else { 0u64 }),
                quantity,
                remaining: quantity,
                timestamp: 0,
            }),
    {
        Order {
            id,
            instrument: InstrumentId(0),
            user: 0,
            side,
            order_type: OrderType::Market,
            tif: TimeInForce::Ioc,
            price: match side {
                Side::Buy => u64::MAX,
                Side::Sell => 0,
            },
            quantity,
            remaining: quantity,
            timestamp: 0,
        }
    }

    /// The same order with another time in force.
    pub fn with_tif(self, tif: TimeInForce) -> (r: Order)
        ensures
            r == (Order { tif, ..self }),
    {
        let mut out = self;
        out.tif = tif;
        out
    }

    /// The same order on another instrument.
    pub fn on(self, instrument: InstrumentId) -> (r: Order)
        ensures
            r == (Order { instrument, ..self }),
    {
        let mut out = self;
        out.instrument = instrument;
        out
    }

    /// The same order owned by `user`.
    pub fn owned_by(self, user: u64) -> (r: Order)
        ensures
            r == (Order { user, ..self }),
    {
        let mut out = self;
        out.user = user;
        out
    }

    /// Quantity filled so far.
    pub fn filled(&self) -> (r: Qty)
        requires
            self.remaining <= self.quantity,
        ensures
            r == self.quantity - self.remaining,
    {
        self.quantity - self.remaining
    }
}

} // verus!
