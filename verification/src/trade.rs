//! Executions and the reports that an order's submission yields.

use vstd::prelude::*;

use crate::types::{OrderId, Price, Qty, Side, Timestamp};

verus! {

/// One execution between an incoming order and a resting one.
#[derive(Clone, Copy, Debug, PartialEq, Eq, Structural)]
pub struct Trade {
    pub taker: OrderId,
    pub maker: OrderId,
    /// Side of the incoming order.
    pub aggressor: Side,
    /// The maker's price.
    pub price: Price,
    pub quantity: Qty,
    pub timestamp: Timestamp,
    pub maker_user: u64,
    pub taker_user: u64,
}

/// What became of a submitted order.
#[derive(Clone, Copy, Debug, PartialEq, Eq, Structural)]
pub enum OrderStatus {
    Filled,
    PartiallyFilled,
    Resting,
    Cancelled,
    Rejected,
}

/// The outcome of one submission.
#[derive(Debug)]
pub struct SubmitReport {
    pub order_id: OrderId,
    pub status: OrderStatus,
    pub filled: Qty,
    pub trades: Vec<Trade>,
    /// Whether the remainder rests on the book.
    pub resting: bool,
}

/// The outcome of amending a resting order.
#[derive(Debug)]
pub enum ModifyOutcome {
    NotFound,
    /// Reduced in place; queue position kept.
    Reduced { order_id: OrderId, remaining: Qty },
    /// Reduced to nothing.
    Cancelled { order_id: OrderId },
    /// Re-entered at the back of the queue.
    Requoted(SubmitReport),
}

} // verus!
