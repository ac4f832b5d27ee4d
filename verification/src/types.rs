//! Primitive identifiers and enumerations shared by every module.

use vstd::prelude::*;

verus! {

/// A price in integer ticks.
pub type Price = u64;

/// A quantity in lots.
pub type Qty = u64;

/// A logical time stamp; the engine's sequence counter is its only source.
pub type Timestamp = u64;

/// A tradable instrument.
#[derive(Clone, Copy, Debug, PartialEq, Eq, PartialOrd, Ord, Hash, Structural)]
pub struct InstrumentId(pub u32);

/// An order identifier, unique among resting orders.
#[derive(Clone, Copy, Debug, PartialEq, Eq, PartialOrd, Ord, Hash, Structural)]
pub struct OrderId(pub u64);

/// Which side of the book an order is on.
#[derive(Clone, Copy, Debug, PartialEq, Eq, Hash, Structural)]
pub enum Side {
    Buy,
    Sell,
}

impl Side {
    /// The side an order of this side trades against.
    pub open spec fn spec_opposite(self) -> Side {
        match self {
            Side::Buy => Side::Sell,
            Side::Sell => Side::Buy,
        }
    }

    /// The side an order of this side trades against.
    #[verifier::when_used_as_spec(spec_opposite)]
    pub fn opposite(self) -> (r: Side)
        ensures
            r == self.spec_opposite(),
    {
        match self {
            Side::Buy => Side::Sell,
            Side::Sell => Side::Buy,
        }
    }
}

/// Limit orders carry a price; market orders cross at any price.
#[derive(Clone, Copy, Debug, PartialEq, Eq, Hash, Structural)]
pub enum OrderType {
    Limit,
    Market,
}

/// How long an order stays in force.
///
/// For the two budget variants `price` carries the total notional budget.
#[derive(Clone, Copy, Debug, PartialEq, Eq, Hash, Structural)]
pub enum TimeInForce {
    /// Rest until filled or cancelled.
    Gtc,
    /// Fill what crosses now, cancel the rest.
    Ioc,
    /// Fill completely now, or not at all.
    Fok,
    /// Immediate-or-cancel with a cap on the total notional.
    IocBudget,
    /// Fill-or-kill with a cap on the total notional.
    FokBudget,
}

} // verus!
