//! The order service's ingress: what a request asks for, which commands it
//! carries, and how they go to the queues.

use vstd::prelude::*;
use vstd::string::StringExecFns;

use crate::backpressure::{error_status, ingress_error_status, Backpressure, OrderPipelineMetrics};
use crate::codec::{
    be, from_le, get_le, law_bytes_round_trip, le, lemma_le_len, lemma_pow256, put_be,
};
use crate::exchange::Command;
use crate::http::{
    error_json, format_error, query_param, query_value, required, required_value, split_target,
    target_path, target_query, RequestHead, RequestView,
};
use crate::order::Order;
use crate::order_queue::{encode_envelope, envelope, QueueRouter, ENVELOPE_LEN};
use crate::sharding::{asset_category, category};
use crate::text::{chars_of, decimal, is_text, push_decimal};
use crate::types::{InstrumentId, OrderId, OrderType, Side, TimeInForce};
use crate::wire::{
    command_frame, command_of, decode_command, encode_cancel, encode_new, frame_at,
    law_command_round_trip, MSG_LEN,
};

verus! {

/// Size of a record of a batch: the user and a command frame.
pub const BATCH_RECORD_LEN: usize = 48;

/// A command of a batch.
#[derive(Debug)]
pub struct BatchRecord {
    pub category_id: u32,
    pub user: u64,
    pub frame: [u8; MSG_LEN],
}

/// What a record of a batch holds.
#[verifier::ext_equal]
pub struct BatchView {
    pub category_id: u32,
    pub user: u64,
    pub frame: Seq<u8>,
}

impl View for BatchRecord {
    type V = BatchView;

    open spec fn view(&self) -> BatchView {
        BatchView { category_id: self.category_id, user: self.user, frame: self.frame@ }
    }
}

/// What the records of a batch hold.
pub open spec fn batch_views(records: Seq<BatchRecord>) -> Seq<BatchView> {
    Seq::new(records.len(), |i: int| records[i]@)
}

/// A record as it travels: the user and the command frame.
pub open spec fn batch_record(user: u64, frame: Seq<u8>) -> Seq<u8> {
    le(user as nat, 8) + frame
}

/// Why a batch of this size is none.
pub open spec fn size_error() -> Seq<char> {
    "batch body must contain one or more 48-byte records"@
}

/// Why a record is refused.
pub open spec fn frame_error() -> Seq<char> {
    "batch contains an invalid command frame"@
}

/// Why a new order in the name of another user is refused.
pub open spec fn user_error(user: u64, order: Order) -> Seq<char> {
    "batch user "@ + decimal(user as nat) + " does not match order "@ + decimal(order.id.0 as nat)
        + " user "@ + decimal(order.user as nat)
}

/// The record in `chunk`, or why it is refused.
pub open spec fn record_in(chunk: Seq<u8>, category_size: u32) -> Result<BatchView, Seq<char>> {
    let user = from_le(chunk.subrange(0, 8)) as u64;
    let frame = chunk.subrange(8, BATCH_RECORD_LEN as int);
    match command_of(frame) {
        None => Err(frame_error()),
        Some(command) => match command {
            Command::New(order) => if order.user != user {
                Err(user_error(user, order))
            } else {
                Ok(
                    BatchView {
                        category_id: category(order.instrument.0, category_size),
                        user,
                        frame,
                    },
                )
            },
            other => Ok(
                BatchView {
                    category_id: category(other.target().0, category_size),
                    user,
                    frame,
                },
            ),
        },
    }
}

/// The first `n` records of a batch, or why the first bad one of them is refused.
pub open spec fn records_in(body: Seq<u8>, n: nat, category_size: u32) -> Result<
    Seq<BatchView>,
    Seq<char>,
>
    decreases n,
{
    if n == 0 {
        Ok(Seq::empty())
    } else {
        match records_in(body, (n - 1) as nat, category_size) {
            Err(e) => Err(e),
            Ok(list) => match record_in(
                body.subrange((n - 1) * BATCH_RECORD_LEN, n * BATCH_RECORD_LEN),
                category_size,
            ) {
                Err(e) => Err(e),
                Ok(record) => Ok(list.push(record)),
            },
        }
    }
}

/// The records of a batch, or why it is refused.
pub open spec fn batch_in(body: Seq<u8>, category_size: u32) -> Result<
    Seq<BatchView>,
    Seq<char>,
> {
    if body.len() == 0 || body.len() % BATCH_RECORD_LEN as nat != 0 {
        Err(size_error())
    } else {
        records_in(body, body.len() / BATCH_RECORD_LEN as nat, category_size)
    }
}

/// A batch is refused for the first of its records that is refused.
proof fn lemma_records_stop(body: Seq<u8>, n: nat, all: nat, category_size: u32)
    requires
        n <= all,
        records_in(body, n, category_size) is Err,
    ensures
        records_in(body, all, category_size) == records_in(body, n, category_size),
    decreases all,
{
    if n < all {
        lemma_records_stop(body, n, (all - 1) as nat, category_size);
    }
}

fn format_user_error(user: u64, order: &Order) -> (r: String)
    ensures
        r@ == user_error(user, *order),
{
    let mut e = String::new();
    e.append("batch user ");
    assert(e@ =~= "batch user "@);
    push_decimal(&mut e, user);
    e.append(" does not match order ");
    push_decimal(&mut e, order.id.0);
    e.append(" user ");
    push_decimal(&mut e, order.user);
    e
}

/// Decodes one record of a batch.
fn decode_record(body: &[u8], at: usize, category_size: u32) -> (r: Result<BatchRecord, String>)
    requires
        at + BATCH_RECORD_LEN <= body@.len(),
        category_size > 0,
    ensures
        match r {
            Ok(record) => record_in(
                body@.subrange(at as int, at + BATCH_RECORD_LEN),
                category_size,
            ) == Ok::<BatchView, Seq<char>>(record@),
            Err(e) => record_in(body@.subrange(at as int, at + BATCH_RECORD_LEN), category_size)
                == Err::<BatchView, Seq<char>>(e@),
        },
{
    let ghost chunk = body@.subrange(at as int, at + BATCH_RECORD_LEN);
    let size: usize = body.len();
    assert(chunk.subrange(0, 8) =~= body@.subrange(at as int, at + 8));
    assert(chunk.subrange(8, BATCH_RECORD_LEN as int) =~= body@.subrange(
        at + 8,
        at + 8 + MSG_LEN,
    ));
    let user: u64 = get_le(body, at, 8);
    let frame = frame_at(body, at + 8);
    let command = match decode_command(frame.as_slice()) {
        Some(command) => command,
        None => {
            return Err(String::from_str("batch contains an invalid command frame"));
        },
    };
    if let Command::New(order) = &command {
        if order.user != user {
            return Err(format_user_error(user, order));
        }
    }
    Ok(
        BatchRecord {
            category_id: asset_category(command.instrument(), category_size),
            user,
            frame,
        },
    )
}

/// Decodes a batch of commands. A new order has to be in the name of the user
/// who sends it.
pub fn decode_batch(body: &[u8], category_size: u32) -> (r: Result<Vec<BatchRecord>, String>)
    requires
        category_size > 0,
    ensures
        match r {
            Ok(records) => batch_in(body@, category_size) == Ok::<Seq<BatchView>, Seq<char>>(
                batch_views(records@),
            ),
            Err(e) => batch_in(body@, category_size) == Err::<Seq<BatchView>, Seq<char>>(e@),
        },
{
    let size: usize = body.len();
    if size == 0 || size % BATCH_RECORD_LEN != 0 {
        return Err(String::from_str("batch body must contain one or more 48-byte records"));
    }
    let n: usize = size / BATCH_RECORD_LEN;
    let mut records: Vec<BatchRecord> = Vec::new();
    let mut i: usize = 0;
    assert(batch_views(records@) =~= Seq::<BatchView>::empty());
    while i < n
        invariant
            i <= n,
            size == body@.len(),
            n * BATCH_RECORD_LEN == size,
            category_size > 0,
            batch_in(body@, category_size) == records_in(body@, n as nat, category_size),
            records_in(body@, i as nat, category_size) == Ok::<Seq<BatchView>, Seq<char>>(
                batch_views(records@),
            ),
        decreases n - i,
    {
        assert(records_in(body@, (i + 1) as nat, category_size) == match record_in(
            body@.subrange(i * BATCH_RECORD_LEN, i * BATCH_RECORD_LEN + BATCH_RECORD_LEN),
            category_size,
        ) {
            Err(e) => Err(e),
            Ok(record) => Ok(batch_views(records@).push(record)),
        });
        match decode_record(body, i * BATCH_RECORD_LEN, category_size) {
            Err(e) => {
                proof {
                    lemma_records_stop(body@, (i + 1) as nat, n as nat, category_size);
                }
                return Err(e);
            },
            Ok(record) => {
                let ghost was = batch_views(records@);
                records.push(record);
                assert(batch_views(records@) =~= was.push(record@));
            },
        }
        i += 1;
    }
    Ok(records)
}

/// A record that holds a new order of its user is decoded to that user, the
/// order's frame and the category of its instrument.
pub proof fn law_record_round_trip(order: Order, category_size: u32)
    ensures
        record_in(batch_record(order.user, command_frame(Command::New(order))), category_size)
            == Ok::<BatchView, Seq<char>>(
            BatchView {
                category_id: category(order.instrument.0, category_size),
                user: order.user,
                frame: command_frame(Command::New(order)),
            },
        ),
{
    let frame = command_frame(Command::New(order));
    let chunk = batch_record(order.user, frame);
    law_command_round_trip(Command::New(order));
    lemma_le_len(order.user as nat, 8);
    lemma_pow256();
    law_bytes_round_trip(order.user as nat, 8);
    assert(chunk.subrange(0, 8) =~= le(order.user as nat, 8));
    assert(frame.len() == MSG_LEN);
    assert(chunk.subrange(8, BATCH_RECORD_LEN as int) =~= frame);
}

/// All commands of a batch on one instrument are of one category, and so go to
/// one partition.
pub proof fn law_instrument_keeps_its_category(
    a: Seq<u8>,
    b: Seq<u8>,
    category_size: u32,
)
    requires
        record_in(a, category_size) is Ok,
        record_in(b, category_size) is Ok,
        command_of(a.subrange(8, BATCH_RECORD_LEN as int))->0.target() == command_of(
            b.subrange(8, BATCH_RECORD_LEN as int),
        )->0.target(),
    ensures
        record_in(a, category_size)->Ok_0.category_id == record_in(
            b,
            category_size,
        )->Ok_0.category_id,
{
}

/// The side that a query names.
pub open spec fn side_in(query: Seq<char>) -> Option<Side> {
    match query_value(query, "side"@) {
        Some(v) => if v == "buy"@ {
            Some(Side::Buy)
        } else if v == "sell"@ {
            Some(Side::Sell)
        } else {
            None
        },
        None => None,
    }
}

fn parse_side(query: &[char]) -> (r: Option<Side>)
    ensures
        r == side_in(query@),
{
    match query_param(query, "side") {
        Some(v) => if is_text(v.as_slice(), "buy") {
            Some(Side::Buy)
        } else if is_text(v.as_slice(), "sell") {
            Some(Side::Sell)
        } else {
            None
        },
        None => None,
    }
}

/// The limit order that a query describes, or why it describes none.
pub open spec fn order_in(query: Seq<char>) -> Result<Order, Seq<char>> {
    match side_in(query) {
        None => Err("side must be buy or sell"@),
        Some(side) => match required_value(query, "order_id"@, u64::MAX as nat) {
            Err(e) => Err(e),
            Ok(id) => match required_value(query, "price"@, u64::MAX as nat) {
                Err(e) => Err(e),
                Ok(price) => match required_value(query, "qty"@, u64::MAX as nat) {
                    Err(e) => Err(e),
                    Ok(qty) => match required_value(query, "instrument"@, u32::MAX as nat) {
                        Err(e) => Err(e),
                        Ok(instrument) => match required_value(
                            query,
                            "user"@,
                            u64::MAX as nat,
                        ) {
                            Err(e) => Err(e),
                            Ok(user) => Ok(
                                Order {
                                    id: OrderId(id),
                                    instrument: InstrumentId(instrument as u32),
                                    user,
                                    side,
                                    order_type: OrderType::Limit,
                                    tif: TimeInForce::Gtc,
                                    price,
                                    quantity: qty,
                                    remaining: qty,
                                    timestamp: 0,
                                },
                            ),
                        },
                    },
                },
            },
        },
    }
}

/// Reads the limit order that a query describes.
pub fn order_from_query(query: &[char]) -> (r: Result<Order, String>)
    ensures
        match r {
            Ok(order) => order_in(query@) == Ok::<Order, Seq<char>>(order),
            Err(e) => order_in(query@) == Err::<Order, Seq<char>>(e@),
        },
{
    let side = match parse_side(query) {
        Some(side) => side,
        None => {
            return Err(String::from_str("side must be buy or sell"));
        },
    };
    let id: u64 = match required(query, "order_id", u64::MAX) {
        Ok(v) => v,
        Err(e) => {
            return Err(e);
        },
    };
    let price: u64 = match required(query, "price", u64::MAX) {
        Ok(v) => v,
        Err(e) => {
            return Err(e);
        },
    };
    let qty: u64 = match required(query, "qty", u64::MAX) {
        Ok(v) => v,
        Err(e) => {
            return Err(e);
        },
    };
    let instrument: u64 = match required(query, "instrument", u32::MAX as u64) {
        Ok(v) => v,
        Err(e) => {
            return Err(e);
        },
    };
    let user: u64 = match required(query, "user", u64::MAX) {
        Ok(v) => v,
        Err(e) => {
            return Err(e);
        },
    };
    Ok(
        Order::limit(OrderId(id), side, price, qty).on(InstrumentId(instrument as u32)).owned_by(
            user,
        ),
    )
}

/// A cancel that a query describes.
#[derive(Clone, Copy, Debug, PartialEq, Eq, Structural)]
pub struct CancelRequest {
    pub instrument: InstrumentId,
    pub order_id: OrderId,
    pub cmd_id: u64,
    pub user: u64,
}

/// The cancel that a query describes, or why it describes none.
pub open spec fn cancel_in(query: Seq<char>) -> Result<CancelRequest, Seq<char>> {
    match required_value(query, "instrument"@, u32::MAX as nat) {
        Err(e) => Err(e),
        Ok(instrument) => match required_value(query, "order_id"@, u64::MAX as nat) {
            Err(e) => Err(e),
            Ok(order_id) => match required_value(query, "cmd_id"@, u64::MAX as nat) {
                Err(e) => Err(e),
                Ok(cmd_id) => match required_value(query, "user"@, u64::MAX as nat) {
                    Err(e) => Err(e),
                    Ok(user) => Ok(
                        CancelRequest {
                            instrument: InstrumentId(instrument as u32),
                            order_id: OrderId(order_id),
                            cmd_id,
                            user,
                        },
                    ),
                },
            },
        },
    }
}

/// Reads the cancel that a query describes.
pub fn cancel_from_query(query: &[char]) -> (r: Result<CancelRequest, String>)
    ensures
        match r {
            Ok(cancel) => cancel_in(query@) == Ok::<CancelRequest, Seq<char>>(cancel),
            Err(e) => cancel_in(query@) == Err::<CancelRequest, Seq<char>>(e@),
        },
{
    let instrument: u64 = match required(query, "instrument", u32::MAX as u64) {
        Ok(v) => v,
        Err(e) => {
            return Err(e);
        },
    };
    let order_id: u64 = match required(query, "order_id", u64::MAX) {
        Ok(v) => v,
        Err(e) => {
            return Err(e);
        },
    };
    let cmd_id: u64 = match required(query, "cmd_id", u64::MAX) {
        Ok(v) => v,
        Err(e) => {
            return Err(e);
        },
    };
    let user: u64 = match required(query, "user", u64::MAX) {
        Ok(v) => v,
        Err(e) => {
            return Err(e);
        },
    };
    Ok(
        CancelRequest {
            instrument: InstrumentId(instrument as u32),
            order_id: OrderId(order_id),
            cmd_id,
            user,
        },
    )
}

/// What is to be done about a request.
#[derive(Debug)]
pub enum Decision {
    /// Answer with the metrics.
    Metrics,
    /// Answer with this status and this body.
    Reply { status: &'static str, body: String },
    /// Publish a command.
    Publish { category_id: u32, user: u64, frame: [u8; MSG_LEN], order_id: u64 },
    /// Publish a batch.
    PublishBatch(Vec<BatchRecord>),
}

/// What is to be done about a request.
pub enum DecisionView {
    Metrics,
    Reply { status: Seq<char>, body: Seq<char> },
    Publish { category_id: u32, user: u64, frame: Seq<u8>, order_id: u64 },
    PublishBatch(Seq<BatchView>),
}

impl View for Decision {
    type V = DecisionView;

    open spec fn view(&self) -> DecisionView {
        match self {
            Decision::Metrics => DecisionView::Metrics,
            Decision::Reply { status, body } => DecisionView::Reply { status: status@, body: body@ },
            Decision::Publish { category_id, user, frame, order_id } => DecisionView::Publish {
                category_id: *category_id,
                user: *user,
                frame: frame@,
                order_id: *order_id,
            },
            Decision::PublishBatch(records) => DecisionView::PublishBatch(batch_views(records@)),
        }
    }
}

/// What is to be done about a request: metrics are for everyone, everything else
/// needs the token, and writes need the ingress to be on.
pub open spec fn decision(
    head: RequestView,
    body: Seq<u8>,
    category_size: u32,
    ingress_enabled: bool,
) -> DecisionView {
    let path = target_path(head.target);
    let query = target_query(head.target);
    let post = head.method == "POST"@;
    if head.method == "GET"@ && path == "/metrics"@ {
        DecisionView::Metrics
    } else if !head.authorized {
        DecisionView::Reply { status: "401 Unauthorized"@, body: error_json("unauthorized"@) }
    } else if !ingress_enabled && post {
        DecisionView::Reply {
            status: "503 Service Unavailable"@,
            body: error_json("HTTP ingress disabled for this worker role"@),
        }
    } else if post && path == "/commands/batch"@ {
        match batch_in(body, category_size) {
            Ok(records) => DecisionView::PublishBatch(records),
            Err(e) => DecisionView::Reply { status: "400 Bad Request"@, body: error_json(e) },
        }
    } else if post && path == "/orders"@ {
        match order_in(query) {
            Ok(order) => DecisionView::Publish {
                category_id: category(order.instrument.0, category_size),
                user: order.user,
                frame: command_frame(Command::New(order)),
                order_id: order.id.0,
            },
            Err(e) => DecisionView::Reply { status: error_status(e), body: error_json(e) },
        }
    } else if post && path == "/cancels"@ {
        match cancel_in(query) {
            Ok(c) => DecisionView::Publish {
                category_id: category(c.instrument.0, category_size),
                user: c.user,
                frame: command_frame(
                    Command::Cancel {
                        instrument: c.instrument,
                        order_id: c.order_id,
                        cmd_id: c.cmd_id,
                    },
                ),
                order_id: c.order_id.0,
            },
            Err(e) => DecisionView::Reply { status: error_status(e), body: error_json(e) },
        }
    } else {
        DecisionView::Reply { status: "404 Not Found"@, body: error_json("not found"@) }
    }
}

fn refusal(status: &'static str, error: &str) -> (r: Decision)
    ensures
        r@ == (DecisionView::Reply { status: status@, body: error_json(error@) }),
{
    Decision::Reply { status, body: format_error(error) }
}

/// Decides what is to be done about a request.
pub fn decide(
    head: &RequestHead,
    body: &[u8],
    category_size: u32,
    ingress_enabled: bool,
) -> (r: Decision)
    requires
        category_size > 0,
    ensures
        r@ == decision(head@, body@, category_size, ingress_enabled),
{
    let target = chars_of(head.target.as_str());
    let (path, query) = split_target(target.as_slice());
    let method = chars_of(head.method.as_str());
    let post: bool = is_text(method.as_slice(), "POST");
    if is_text(method.as_slice(), "GET") && is_text(path, "/metrics") {
        return Decision::Metrics;
    }
    if !head.authorized {
        return refusal("401 Unauthorized", "unauthorized");
    }
    if !ingress_enabled && post {
        return refusal("503 Service Unavailable", "HTTP ingress disabled for this worker role");
    }
    if post && is_text(path, "/commands/batch") {
        return match decode_batch(body, category_size) {
            Ok(records) => Decision::PublishBatch(records),
            Err(e) => refusal("400 Bad Request", e.as_str()),
        };
    }
    if post && is_text(path, "/orders") {
        return match order_from_query(query) {
            Ok(order) => Decision::Publish {
                category_id: asset_category(order.instrument, category_size),
                user: order.user,
                frame: encode_new(&order),
                order_id: order.id.0,
            },
            Err(e) => refusal(ingress_error_status(e.as_str()), e.as_str()),
        };
    }
    if post && is_text(path, "/cancels") {
        return match cancel_from_query(query) {
            Ok(c) => Decision::Publish {
                category_id: asset_category(c.instrument, category_size),
                user: c.user,
                frame: encode_cancel(c.instrument, c.order_id, c.cmd_id),
                order_id: c.order_id.0,
            },
            Err(e) => refusal(ingress_error_status(e.as_str()), e.as_str()),
        };
    }
    refusal("404 Not Found", "not found")
}

/// Without the token a request gets the metrics or is refused as unauthorized.
pub proof fn law_writes_need_the_token(
    head: RequestView,
    body: Seq<u8>,
    category_size: u32,
    ingress_enabled: bool,
)
    requires
        !head.authorized,
    ensures
        decision(head, body, category_size, ingress_enabled) is Metrics || decision(
            head,
            body,
            category_size,
            ingress_enabled,
        ) == (DecisionView::Reply {
            status: "401 Unauthorized"@,
            body: error_json("unauthorized"@),
        }),
{
}

/// With the ingress off nothing is published.
pub proof fn law_nothing_is_published_while_off(head: RequestView, body: Seq<u8>, category_size: u32)
    ensures
        !(decision(head, body, category_size, false) is Publish),
        !(decision(head, body, category_size, false) is PublishBatch),
{
}

/// A place in the order of a category.
#[derive(Clone, Copy, Debug, PartialEq, Eq, Structural)]
pub struct CategorySequence {
    pub category_id: u32,
    pub category_seq: u64,
}

/// Body of the answer to a command that was taken.
pub open spec fn accepted_json(seq: CategorySequence) -> Seq<char> {
    "{\"accepted\":true,\"status\":\"PENDING\",\"category_id\":"@ + decimal(seq.category_id as nat)
        + ",\"category_seq\":"@ + decimal(seq.category_seq as nat) + "}"@
}

/// Status and body of the answer to a command, from what became of it.
pub fn publish_reply(outcome: &Result<CategorySequence, String>) -> (r: (&'static str, String))
    ensures
        match outcome {
            Ok(seq) => r.0@ == "202 Accepted"@ && r.1@ == accepted_json(*seq),
            Err(e) => r.0@ == error_status(e@) && r.1@ == error_json(e@),
        },
{
    match outcome {
        Ok(seq) => {
            let mut out = String::new();
            out.append("{\"accepted\":true,\"status\":\"PENDING\",\"category_id\":");
            assert(out@ =~= "{\"accepted\":true,\"status\":\"PENDING\",\"category_id\":"@);
            push_decimal(&mut out, seq.category_id as u64);
            out.append(",\"category_seq\":");
            push_decimal(&mut out, seq.category_seq);
            out.append("}");
            ("202 Accepted", out)
        },
        Err(e) => (ingress_error_status(e.as_str()), format_error(e.as_str())),
    }
}

/// Status and body of the answer to a batch: how many commands were taken, or
/// why they were not.
pub fn batch_reply(outcome: &Result<usize, String>) -> (r: (&'static str, String))
    ensures
        match outcome {
            Ok(count) => r.0@ == "202 Accepted"@ && r.1@
                == "{\"accepted\":true,\"status\":\"PENDING\",\"count\":"@ + decimal(*count as nat)
                + "}"@,
            Err(e) => r.0@ == error_status(e@) && r.1@ == error_json(e@),
        },
{
    match outcome {
        Ok(count) => {
            let mut out = String::new();
            out.append("{\"accepted\":true,\"status\":\"PENDING\",\"count\":");
            assert(out@ =~= "{\"accepted\":true,\"status\":\"PENDING\",\"count\":"@);
            push_decimal(&mut out, *count as u64);
            out.append("}");
            ("202 Accepted", out)
        },
        Err(e) => (ingress_error_status(e.as_str()), format_error(e.as_str())),
    }
}

/// A message on its way to a queue.
#[derive(Debug)]
pub struct Outgoing {
    pub topic: String,
    pub partition: i32,
    pub key: Vec<u8>,
    pub payload: [u8; ENVELOPE_LEN],
}

/// What a message holds.
#[verifier::ext_equal]
pub struct OutgoingView {
    pub topic: Seq<char>,
    pub partition: i32,
    pub key: Seq<u8>,
    pub payload: Seq<u8>,
}

impl View for Outgoing {
    type V = OutgoingView;

    open spec fn view(&self) -> OutgoingView {
        OutgoingView {
            topic: self.topic@,
            partition: self.partition,
            key: self.key@,
            payload: self.payload@,
        }
    }
}

/// What messages hold.
pub open spec fn outgoing_views(list: Seq<Outgoing>) -> Seq<OutgoingView> {
    Seq::new(list.len(), |i: int| list[i]@)
}

/// The message of a command: on the partition of its category, keyed by it.
pub open spec fn message(router: QueueRouter, command: BatchView) -> OutgoingView {
    OutgoingView {
        topic: router.names()[router.topic_of(command.category_id)]@,
        partition: router.partition_of(command.category_id) as u32 as i32,
        key: be(command.category_id as nat, 4),
        payload: envelope(command.user, router.revision(), command.frame),
    }
}

/// The messages of commands.
pub open spec fn messages(router: QueueRouter, commands: Seq<BatchView>) -> Seq<OutgoingView> {
    Seq::new(commands.len(), |i: int| message(router, commands[i]))
}

/// The way of commands to the queues.
#[derive(Debug)]
pub struct Ingress {
    pub router: QueueRouter,
    pub metrics: OrderPipelineMetrics,
    pub backpressure: Backpressure,
    pub max_pipeline_backlog: u64,
}

/// The categories of commands.
pub open spec fn categories(commands: Seq<BatchView>) -> Seq<u32> {
    Seq::new(commands.len(), |i: int| commands[i].category_id)
}

impl Ingress {
    /// Its parts are in order.
    pub open spec fn wf(self) -> bool {
        self.router.wf() && self.backpressure.wf()
    }

    /// Why commands are refused when the backlog is too long.
    pub open spec fn backlog_error(self) -> Seq<char> {
        "backpressure: pipeline backlog "@ + decimal(self.metrics.pending() as nat)
            + " reached limit "@ + decimal(self.max_pipeline_backlog as nat)
    }

    /// Whether `commands` that the backpressure lets through, after `delay`, are
    /// taken.
    pub open spec fn room(self, delay: Result<u64, Seq<char>>, commands: u64) -> Result<
        u64,
        Seq<char>,
    > {
        match delay {
            Err(e) => Err(e),
            Ok(d) => if self.metrics.overfull(commands, self.max_pipeline_backlog) {
                Err(self.backlog_error())
            } else {
                Ok(d)
            },
        }
    }

    /// The metrics after commands that the backpressure let through, or not.
    pub open spec fn counted(self, passed: bool, commands: u64) -> OrderPipelineMetrics {
        if passed {
            self.metrics.reserved(commands, self.max_pipeline_backlog)
        } else {
            self.metrics
        }
    }

    fn reserve(&mut self, commands: u64) -> (r: Result<(), String>)
        ensures
            *final(self) == (Ingress {
                metrics: old(self).metrics.reserved(commands, old(self).max_pipeline_backlog),
                ..*old(self)
            }),
            match r {
                Ok(()) => !old(self).metrics.overfull(commands, old(self).max_pipeline_backlog),
                Err(e) => {
                    &&& old(self).metrics.overfull(commands, old(self).max_pipeline_backlog)
                    &&& e@ == old(self).backlog_error()
                },
            },
    {
        match self.metrics.try_reserve(commands, self.max_pipeline_backlog) {
            Ok(()) => Ok(()),
            Err(backlog) => {
                let mut e = String::new();
                e.append("backpressure: pipeline backlog ");
                assert(e@ =~= "backpressure: pipeline backlog "@);
                push_decimal(&mut e, backlog);
                e.append(" reached limit ");
                push_decimal(&mut e, self.max_pipeline_backlog);
                Err(e)
            },
        }
    }

    fn prepare(&self, category_id: u32, user: u64, frame: &[u8; MSG_LEN]) -> (r: Outgoing)
        requires
            self.wf(),
        ensures
            r@ == message(self.router, BatchView { category_id, user, frame: frame@ }),
    {
        let route = self.router.route(category_id);
        let mut key: Vec<u8> = Vec::new();
        put_be(&mut key, category_id as u64, 4);
        assert(key@ =~= be(category_id as nat, 4));
        Outgoing {
            topic: route.topic,
            partition: route.partition,
            key,
            payload: encode_envelope(user, route.version, frame),
        }
    }

    /// Begins to publish a command, if neither the tier of its category nor the
    /// backlog of the pipeline is against it: how many milliseconds its caller is
    /// held up, and the message to send.
    pub fn begin_publish(&mut self, category_id: u32, user: u64, frame: &[u8; MSG_LEN]) -> (r:
        Result<(u64, Outgoing), String>)
        requires
            old(self).wf(),
        ensures
            final(self).wf(),
            *final(self) == (Ingress {
                backpressure: old(self).backpressure.noted(
                    old(self).backpressure.tier_of(category_id),
                ),
                metrics: old(self).counted(
                    old(self).backpressure.admission(category_id) is Ok,
                    1,
                ),
                ..*old(self)
            }),
            match r {
                Ok((delay, out)) => {
                    &&& old(self).room(old(self).backpressure.admission(category_id), 1)
                        == Ok::<u64, Seq<char>>(delay)
                    &&& out@ == message(
                        old(self).router,
                        BatchView { category_id, user, frame: frame@ },
                    )
                },
                Err(e) => old(self).room(old(self).backpressure.admission(category_id), 1)
                    == Err::<u64, Seq<char>>(e@),
            },
    {
        let delay: u64 = match self.backpressure.admit_write(category_id) {
            Ok(delay) => delay,
            Err(e) => {
                return Err(e);
            },
        };
        match self.reserve(1) {
            Ok(()) => {},
            Err(e) => {
                return Err(e);
            },
        }
        let out = self.prepare(category_id, user, frame);
        Ok((delay, out))
    }

    /// Takes over what became of a command that was sent: where it was put, or
    /// nothing. Places count from one on.
    pub fn end_publish(&mut self, category_id: u32, delivered: Option<i64>) -> (r: Option<
        CategorySequence,
    >)
        ensures
            match delivered {
                Some(offset) => {
                    &&& r == Some(
                        CategorySequence {
                            category_id,
                            category_seq: crate::backpressure::capped_sum(offset as u64, 1),
                        },
                    )
                    &&& *final(self) == (Ingress {
                        metrics: OrderPipelineMetrics {
                            inflight_publish_commands: old(
                                self,
                            ).metrics.inflight_publish_commands.wrapping_sub(1),
                            published_commands: old(self).metrics.published_commands.wrapping_add(
                                1,
                            ),
                            ..old(self).metrics
                        },
                        ..*old(self)
                    })
                },
                None => {
                    &&& r is None
                    &&& *final(self) == (Ingress {
                        metrics: OrderPipelineMetrics {
                            inflight_publish_commands: old(
                                self,
                            ).metrics.inflight_publish_commands.wrapping_sub(1),
                            ..old(self).metrics
                        },
                        ..*old(self)
                    })
                },
            },
    {
        match delivered {
            Some(offset) => {
                self.metrics.finish_reservation(1, 1);
                let place: u64 = offset as u64;
                let next: u64 = if place < u64::MAX {
                    place + 1
                } else {
                    u64::MAX
                };
                Some(CategorySequence { category_id, category_seq: next })
            },
            None => {
                self.metrics.rollback_reservation(1);
                None
            },
        }
    }

    /// Whether the backpressure lets a batch through: by its worst category.
    pub open spec fn batch_admission(self, commands: Seq<BatchView>) -> Result<u64, Seq<char>> {
        match self.backpressure.worst(categories(commands)) {
            Some(worst) => self.backpressure.admission(worst),
            None => Ok(0),
        }
    }

    /// The backpressure after a batch.
    pub open spec fn batch_noted(self, commands: Seq<BatchView>) -> Backpressure {
        match self.backpressure.worst(categories(commands)) {
            Some(worst) => self.backpressure.noted(self.backpressure.tier_of(worst)),
            None => self.backpressure,
        }
    }

    fn admit_batch(&mut self, records: &Vec<BatchRecord>) -> (r: Result<u64, String>)
        requires
            old(self).wf(),
        ensures
            final(self).wf(),
            *final(self) == (Ingress {
                backpressure: old(self).batch_noted(batch_views(records@)),
                ..*old(self)
            }),
            match r {
                Ok(delay) => old(self).batch_admission(batch_views(records@)) == Ok::<
                    u64,
                    Seq<char>,
                >(delay),
                Err(e) => old(self).batch_admission(batch_views(records@)) == Err::<
                    u64,
                    Seq<char>,
                >(e@),
            },
    {
        let mut list: Vec<u32> = Vec::new();
        let mut i: usize = 0;
        while i < records.len()
            invariant
                i <= records@.len(),
                list@ == categories(batch_views(records@)).take(i as int),
            decreases records@.len() - i,
        {
            list.push(records[i].category_id);
            i += 1;
            assert(list@ =~= categories(batch_views(records@)).take(i as int));
        }
        assert(list@ =~= categories(batch_views(records@)));
        match self.backpressure.worst_category(list.as_slice()) {
            Some(worst) => self.backpressure.admit_write(worst),
            None => Ok(0),
        }
    }

    /// Begins to publish a batch, if neither the tier of its worst category nor
    /// the backlog is against it: how many milliseconds its caller is held up,
    /// and the messages to send, in the order of the commands.
    pub fn begin_batch(&mut self, records: &Vec<BatchRecord>) -> (r: Result<
        (u64, Vec<Outgoing>),
        String,
    >)
        requires
            old(self).wf(),
        ensures
            final(self).wf(),
            *final(self) == (Ingress {
                backpressure: old(self).batch_noted(batch_views(records@)),
                metrics: old(self).counted(
                    old(self).batch_admission(batch_views(records@)) is Ok,
                    records@.len() as u64,
                ),
                ..*old(self)
            }),
            match r {
                Ok((delay, out)) => {
                    &&& old(self).room(
                        old(self).batch_admission(batch_views(records@)),
                        records@.len() as u64,
                    ) == Ok::<u64, Seq<char>>(delay)
                    &&& outgoing_views(out@) == messages(old(self).router, batch_views(records@))
                },
                Err(e) => old(self).room(
                    old(self).batch_admission(batch_views(records@)),
                    records@.len() as u64,
                ) == Err::<u64, Seq<char>>(e@),
            },
    {
        let ghost was = *self;
        let delay: u64 = match self.admit_batch(records) {
            Ok(delay) => delay,
            Err(e) => {
                return Err(e);
            },
        };
        match self.reserve(records.len() as u64) {
            Ok(()) => {},
            Err(e) => {
                return Err(e);
            },
        }
        let ghost commands = batch_views(records@);
        let mut out: Vec<Outgoing> = Vec::new();
        let mut i: usize = 0;
        assert(outgoing_views(out@) =~= messages(was.router, commands).take(0));
        while i < records.len()
            invariant
                i <= records@.len(),
                self.wf(),
                self.router == was.router,
                commands == batch_views(records@),
                outgoing_views(out@) == messages(was.router, commands).take(i as int),
            decreases records@.len() - i,
        {
            let record = &records[i];
            let next = self.prepare(record.category_id, record.user, &record.frame);
            let ghost before = outgoing_views(out@);
            out.push(next);
            proof {
                assert(commands[i as int] == record@);
                assert(outgoing_views(out@) =~= before.push(next@));
                assert(messages(was.router, commands).take(i + 1) =~= messages(
                    was.router,
                    commands,
                ).take(i as int).push(message(was.router, commands[i as int])));
            }
            i += 1;
        }
        assert(messages(was.router, commands).take(i as int) =~= messages(was.router, commands));
        Ok((delay, out))
    }

    /// Takes over what became of a batch: how many of its commands were not
    /// delivered.
    pub fn end_batch(&mut self, commands: u64, failed: u64) -> (r: bool)
        requires
            failed <= commands,
        ensures
            r == (failed == 0),
            *final(self) == (Ingress {
                metrics: OrderPipelineMetrics {
                    inflight_publish_commands: old(
                        self,
                    ).metrics.inflight_publish_commands.wrapping_sub(commands),
                    published_commands: old(self).metrics.published_commands.wrapping_add(
                        (commands - failed) as u64,
                    ),
                    ..old(self).metrics
                },
                ..*old(self)
            }),
    {
        self.metrics.finish_reservation(commands, commands - failed);
        failed == 0
    }
}

/// A command that was taken and then not delivered leaves no trace in the
/// backlog.
pub proof fn law_undelivered_leaves_no_backlog(i: Ingress)
    requires
        i.metrics.inflight_publish_commands < u64::MAX,
        !i.metrics.overfull(1, i.max_pipeline_backlog),
    ensures
        ({
            let taken = i.counted(true, 1);
            (OrderPipelineMetrics {
                inflight_publish_commands: taken.inflight_publish_commands.wrapping_sub(1),
                ..taken
            }).pending() == i.metrics.pending()
        }),
{
}

/// An order that a query describes is what its parameters say: the side by its word, the
/// numbers as they are read; it is a limit order that rests until it is cancelled.
pub proof fn law_queried_orders(query: Seq<char>)
    ensures
        order_in(query) matches Ok(o) ==> {
            &&& query_value(query, "side"@) == Some(
                if o.side == Side::Buy {
                    "buy"@
                } else {
                    "sell"@
                },
            )
            &&& required_value(query, "order_id"@, u64::MAX as nat) == Ok::<u64, Seq<char>>(o.id.0)
            &&& required_value(query, "price"@, u64::MAX as nat) == Ok::<u64, Seq<char>>(o.price)
            &&& required_value(query, "qty"@, u64::MAX as nat) == Ok::<u64, Seq<char>>(o.quantity)
            &&& required_value(query, "instrument"@, u32::MAX as nat) == Ok::<u64, Seq<char>>(
                o.instrument.0 as u64,
            )
            &&& required_value(query, "user"@, u64::MAX as nat) == Ok::<u64, Seq<char>>(o.user)
            &&& o.order_type == OrderType::Limit
            &&& o.tif == TimeInForce::Gtc
            &&& o.remaining == o.quantity
        },
        order_in(query) is Ok <==> (query_value(query, "side"@) == Some("buy"@) || query_value(
            query,
            "side"@,
        ) == Some("sell"@)) && required_value(query, "order_id"@, u64::MAX as nat) is Ok
            && required_value(query, "price"@, u64::MAX as nat) is Ok && required_value(
            query,
            "qty"@,
            u64::MAX as nat,
        ) is Ok && required_value(query, "instrument"@, u32::MAX as nat) is Ok && required_value(
            query,
            "user"@,
            u64::MAX as nat,
        ) is Ok,
{
    reveal_strlit("buy");
    reveal_strlit("sell");
    assert("buy"@.len() != "sell"@.len());
}

/// A cancellation that a query describes is what its parameters say.
pub proof fn law_queried_cancels(query: Seq<char>)
    ensures
        cancel_in(query) matches Ok(c) ==> {
            &&& required_value(query, "instrument"@, u32::MAX as nat) == Ok::<u64, Seq<char>>(
                c.instrument.0 as u64,
            )
            &&& required_value(query, "order_id"@, u64::MAX as nat) == Ok::<u64, Seq<char>>(
                c.order_id.0,
            )
            &&& required_value(query, "cmd_id"@, u64::MAX as nat) == Ok::<u64, Seq<char>>(c.cmd_id)
            &&& required_value(query, "user"@, u64::MAX as nat) == Ok::<u64, Seq<char>>(c.user)
        },
{
}

/// A request that is authorized, while the ingress is on, publishes the order that it posts to
/// the orders, and the cancellation that it posts to the cancels, each in its user's name, as
/// the command's frame, and under the category of its instrument.
pub proof fn law_posted_commands_are_published(
    head: RequestView,
    body: Seq<u8>,
    category_size: u32,
)
    requires
        head.authorized,
        head.method == "POST"@,
    ensures
        ({
            let path = target_path(head.target);
            let query = target_query(head.target);
            let d = decision(head, body, category_size, true);
            &&& path == "/orders"@ && order_in(query) is Ok ==> {
                let order = order_in(query)->Ok_0;
                d == (DecisionView::Publish {
                    category_id: category(order.instrument.0, category_size),
                    user: order.user,
                    frame: command_frame(Command::New(order)),
                    order_id: order.id.0,
                })
            }
            &&& path == "/cancels"@ && cancel_in(query) is Ok ==> {
                let c = cancel_in(query)->Ok_0;
                d == (DecisionView::Publish {
                    category_id: category(c.instrument.0, category_size),
                    user: c.user,
                    frame: command_frame(
                        Command::Cancel {
                            instrument: c.instrument,
                            order_id: c.order_id,
                            cmd_id: c.cmd_id,
                        },
                    ),
                    order_id: c.order_id.0,
                })
            }
            &&& path == "/commands/batch"@ && batch_in(body, category_size) is Ok ==> d
                == DecisionView::PublishBatch(batch_in(body, category_size)->Ok_0)
            &&& d is Publish ==> path == "/orders"@ && order_in(query) is Ok || path == "/cancels"@
                && cancel_in(query) is Ok
            &&& d is PublishBatch ==> path == "/commands/batch"@ && batch_in(
                body,
                category_size,
            ) is Ok
        }),
{
    reveal_strlit("POST");
    reveal_strlit("GET");
    reveal_strlit("/orders");
    reveal_strlit("/cancels");
    reveal_strlit("/commands/batch");
    assert("POST"@.len() != "GET"@.len());
    assert("/orders"@.len() != "/cancels"@.len());
    assert("/orders"@.len() != "/commands/batch"@.len());
    assert("/cancels"@.len() != "/commands/batch"@.len());
}

/// A record is refused if it holds no command, or a new order in another user's name; else it
/// keeps the user and the frame and goes to the category of the command's instrument.
pub proof fn law_records_are_in_their_users_name(chunk: Seq<u8>, category_size: u32)
    ensures
        ({
            let user = from_le(chunk.subrange(0, 8)) as u64;
            let frame = chunk.subrange(8, 48);
            match command_of(frame) {
                None => record_in(chunk, category_size) is Err,
                Some(Command::New(order)) => {
                    &&& order.user != user <==> record_in(chunk, category_size) is Err
                    &&& record_in(chunk, category_size) matches Ok(r) ==> r.user == order.user
                        && r.frame == frame && r.category_id == category(
                        order.instrument.0,
                        category_size,
                    )
                },
                Some(other) => record_in(chunk, category_size) matches Ok(r) && r.user == user
                    && r.frame == frame && r.category_id == category(
                    other.target().0,
                    category_size,
                ),
            }
        }),
{
}

/// The message of a command is on the queue of its category, keyed by the category, and
/// carries the command in its envelope.
pub proof fn law_messages_carry_their_command(router: QueueRouter, command: BatchView)
    requires
        router.wf(),
        crate::wire::is_command_frame(command.frame),
    ensures
        ({
            let m = message(router, command);
            &&& crate::codec::from_be(m.key) == command.category_id
            &&& crate::order_queue::is_envelope(m.payload)
            &&& from_le(m.payload.subrange(8, 16)) == command.user
            &&& from_le(m.payload.subrange(4, 8)) == router.revision()
            &&& m.payload.skip(16) == command.frame
        }),
{
    crate::order_queue::law_envelope_round_trip(command.user, router.revision(), command.frame);
    crate::codec::lemma_pow256();
    crate::codec::law_bytes_round_trip(command.category_id as nat, 4);
}

} // verus!
