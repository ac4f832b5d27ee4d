//! A matching-engine core whose behaviour is stated and proved.
//!
//! The crate holds the order book, the matching engine, the deterministic
//! command processor, and the codecs, routing rules and state machines that
//! surround them. Sockets, files, clocks and threads live in the programs that
//! use it.

pub mod asset_log;
pub mod backpressure;
pub mod book;
pub mod budget;
pub mod calendar;
pub mod candle_file;
pub mod cluster;
pub mod codec;
pub mod command_laws;
pub mod crossing;
pub mod dead_letters;
pub mod engine;
pub mod exchange;
pub mod execution_outbox;
pub mod fees;
pub mod fingerprint;
pub mod forwarding;
pub mod gateway;
pub mod http;
pub mod idgen;
pub mod ingress;
pub mod inspection;
pub mod journal;
pub mod journal_inspect;
pub mod kline;
pub mod ladder;
mod levels;
mod occupancy;
pub mod lockfree;
pub mod market;
pub mod market_http;
pub mod matching_laws;
pub mod metrics;
pub mod migration;
pub mod oblog;
pub mod order;
pub mod order_queue;
pub mod peers;
pub mod pool;
pub mod priority;
pub mod projection;
pub mod publishing;
pub mod queue_settings;
pub mod record;
pub mod replay;
pub mod retry;
pub mod risk;
pub mod runtime;
pub mod settings;
pub mod shard;
pub mod sharding;
pub mod simulation;
pub mod snapshot;
mod sorted;
pub mod strategy;
pub mod submission_laws;
pub mod text;
pub mod trade;
pub mod types;
pub mod websocket;
pub mod wire;

pub use crate::book::OrderBook;
pub use crate::crossing::SelfTradePolicy;
pub use crate::engine::MatchingEngine;
pub use crate::exchange::{Command, ExecReport};
pub use crate::order::Order;
pub use crate::pool::OrderPool;
pub use crate::replay::{recover_into, replay_journal};
pub use crate::risk::{PriceGuard, RiskLimits};
pub use crate::shard::{OrderGateway, ResultSink};
pub use crate::strategy::{Allocation, MatchingStrategy, PriceTimePriority, RestingOrder};
pub use crate::trade::{ModifyOutcome, OrderStatus, SubmitReport, Trade};
pub use crate::types::{InstrumentId, OrderId, OrderType, Price, Qty, Side, TimeInForce, Timestamp};
