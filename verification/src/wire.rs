//! The binary protocol: fixed-size command and report frames.
//!
//! Every frame starts with a type code, three bytes whose meaning depends on it,
//! and the instrument; 64-bit fields follow. All integers are little-endian.
//!
//! | command | code | byte 1 | byte 2 | byte 3 | words                              |
//! |---------|------|--------|--------|--------|------------------------------------|
//! | new     | 1    | side   | type   | tif    | order id, user, price, quantity    |
//! | cancel  | 2    |        |        |        | order id, command id               |
//! | modify  | 3    |        |        |        | order id, command id, price, qty   |
//! | close   | 4    | side   |        |        | close order id, user, -, quantity  |
//!
//! A report frame carries the order id, a second id, price, quantity and the
//! two fees.

use vstd::prelude::*;

use crate::codec::{
    from_le, get_le, has_at, law_bytes_round_trip, le, lemma_le_len, lemma_pow256, put_le,
    put_slice,
};
use crate::exchange::{Command, ExecReport, RejectReason};
use crate::order::Order;
use crate::types::{InstrumentId, OrderId, OrderType, Price, Qty, Side, TimeInForce};

verus! {

/// Bytes in a command frame.
pub const MSG_LEN: usize = 40;

/// Bytes in a report frame.
pub const REPORT_LEN: usize = 56;

/// Bytes in an execution event: a 32-byte header and a report frame.
pub const EXECUTION_EVENT_LEN: usize = 88;

/// Commands that one consensus entry may carry.
pub const RAFT_BATCH_MAX_COMMANDS: usize = 1024;

pub const RT_ACCEPTED: u8 = 1;

pub const RT_TRADE: u8 = 2;

pub const RT_FILLED: u8 = 3;

pub const RT_PARTIAL: u8 = 4;

pub const RT_RESTING: u8 = 5;

pub const RT_CANCELLED: u8 = 6;

pub const RT_REJECTED: u8 = 7;

pub const RT_MODIFIED: u8 = 8;

pub const RT_NOT_FOUND: u8 = 9;

/// One row of a market-data depth snapshot.
pub const RT_DEPTH_LEVEL: u8 = 10;

/// The end of a market-data depth snapshot.
pub const RT_DEPTH_END: u8 = 11;

/// A frame of `words` 64-bit fields: head, instrument, fields.
pub open spec fn framed(head: Seq<u8>, instrument: u32, words: Seq<u64>) -> Seq<u8> {
    head + le(instrument as nat, 4) + words_le(words)
}

/// 64-bit fields one after the other.
pub open spec fn words_le(words: Seq<u64>) -> Seq<u8>
    decreases words.len(),
{
    if words.len() == 0 {
        Seq::empty()
    } else {
        words_le(words.drop_last()) + le(words.last() as nat, 8)
    }
}

/// Field `k` of a frame.
pub open spec fn word(frame: Seq<u8>, k: int) -> u64 {
    from_le(frame.subrange(8 + 8 * k, 16 + 8 * k)) as u64
}

/// The instrument of a frame.
pub open spec fn instrument_of(frame: Seq<u8>) -> u32 {
    from_le(frame.subrange(4, 8)) as u32
}

pub proof fn lemma_words_len(words: Seq<u64>)
    ensures
        words_le(words).len() == 8 * words.len(),
    decreases words.len(),
{
    if words.len() > 0 {
        lemma_words_len(words.drop_last());
        lemma_le_len(words.last() as nat, 8);
    }
}

pub proof fn lemma_words_at(words: Seq<u64>, k: int)
    requires
        0 <= k < words.len(),
    ensures
        words_le(words).subrange(8 * k, 8 * k + 8) == le(words[k] as nat, 8),
    decreases words.len(),
{
    lemma_words_len(words);
    lemma_words_len(words.drop_last());
    lemma_le_len(words.last() as nat, 8);
    if k == words.len() - 1 {
        assert(words_le(words).subrange(8 * k, 8 * k + 8) =~= le(words[k] as nat, 8));
    } else {
        lemma_words_at(words.drop_last(), k);
        assert(words_le(words).subrange(8 * k, 8 * k + 8) =~= words_le(
            words.drop_last(),
        ).subrange(8 * k, 8 * k + 8));
    }
}

/// The fields of a frame read back as they were written.
pub proof fn law_frame_fields(head: Seq<u8>, instrument: u32, words: Seq<u64>)
    requires
        head.len() == 4,
    ensures
        framed(head, instrument, words).len() == 8 + 8 * words.len(),
        forall|i: int| 0 <= i < 4 ==> #[trigger] framed(head, instrument, words)[i] == head[i],
        instrument_of(framed(head, instrument, words)) == instrument,
        forall|k: int|
            0 <= k < words.len() ==> word(framed(head, instrument, words), k)
                == #[trigger] words[k],
{
    let s = framed(head, instrument, words);
    lemma_le_len(instrument as nat, 4);
    lemma_words_len(words);
    lemma_pow256();
    assert(s.subrange(4, 8) =~= le(instrument as nat, 4));
    law_bytes_round_trip(instrument as nat, 4);
    assert forall|k: int| 0 <= k < words.len() implies word(s, k) == #[trigger] words[k] by {
        lemma_words_at(words, k);
        assert(s.subrange(8 + 8 * k, 16 + 8 * k) =~= words_le(words).subrange(8 * k, 8 * k + 8));
        law_bytes_round_trip(words[k] as nat, 8);
    }
}

/// Code of a side.
pub open spec fn side_code(side: Side) -> u8 {
    match side {
        Side::Buy => 0,
        Side::Sell => 1,
    }
}

/// Side with a code.
pub open spec fn side_of(code: u8) -> Option<Side> {
    if code == 0 {
        Some(Side::Buy)
    } else if code == 1 {
        Some(Side::Sell)
    } else {
        None
    }
}

/// Code of an order type.
pub open spec fn type_code(order_type: OrderType) -> u8 {
    match order_type {
        OrderType::Limit => 0,
        OrderType::Market => 1,
    }
}

/// Order type with a code.
pub open spec fn type_of(code: u8) -> Option<OrderType> {
    if code == 0 {
        Some(OrderType::Limit)
    } else if code == 1 {
        Some(OrderType::Market)
    } else {
        None
    }
}

/// Code of a time in force.
pub open spec fn tif_code(tif: TimeInForce) -> u8 {
    match tif {
        TimeInForce::Gtc => 0,
        TimeInForce::Ioc => 1,
        TimeInForce::Fok => 2,
        TimeInForce::IocBudget => 3,
        TimeInForce::FokBudget => 4,
    }
}

/// Time in force with a code.
pub open spec fn tif_of(code: u8) -> Option<TimeInForce> {
    if code == 0 {
        Some(TimeInForce::Gtc)
    } else if code == 1 {
        Some(TimeInForce::Ioc)
    } else if code == 2 {
        Some(TimeInForce::Fok)
    } else if code == 3 {
        Some(TimeInForce::IocBudget)
    } else if code == 4 {
        Some(TimeInForce::FokBudget)
    } else {
        None
    }
}

/// The frame of a command.
pub open spec fn command_frame(command: Command) -> Seq<u8> {
    match command {
        Command::New(o) => framed(
            seq![1u8, side_code(o.side), type_code(o.order_type), tif_code(o.tif)],
            o.instrument.0,
            seq![o.id.0, o.user, o.price, o.quantity],
        ),
        Command::Cancel { instrument, order_id, cmd_id } => framed(
            seq![2u8, 0u8, 0u8, 0u8],
            instrument.0,
            seq![order_id.0, cmd_id, 0u64, 0u64],
        ),
        Command::Modify { instrument, order_id, new_price, new_qty, cmd_id } => framed(
            seq![3u8, 0u8, 0u8, 0u8],
            instrument.0,
            seq![order_id.0, cmd_id, new_price, new_qty],
        ),
        Command::ForceClose { instrument, user, close_order_id, close_side, close_qty } => framed(
            seq![4u8, side_code(close_side), 0u8, 0u8],
            instrument.0,
            seq![close_order_id.0, user, 0u64, close_qty],
        ),
    }
}

/// A frame is a command frame: of the right size and with a known code.
pub open spec fn is_command_frame(frame: Seq<u8>) -> bool {
    frame.len() == MSG_LEN && 1 <= frame[0] <= 4
}

/// The command in a frame.
pub open spec fn command_of(frame: Seq<u8>) -> Option<Command> {
    if !is_command_frame(frame) {
        None
    } else {
        let instrument = InstrumentId(instrument_of(frame));
        if frame[0] == 1 {
            match (side_of(frame[1]), type_of(frame[2]), tif_of(frame[3])) {
                (Some(side), Some(order_type), Some(tif)) => Some(
                    Command::New(
                        Order {
                            id: OrderId(word(frame, 0)),
                            instrument,
                            user: word(frame, 1),
                            side,
                            order_type,
                            tif,
                            price: word(frame, 2),
                            quantity: word(frame, 3),
                            remaining: word(frame, 3),
                            timestamp: 0,
                        },
                    ),
                ),
                _ => None,
            }
        } else if frame[0] == 2 {
            Some(
                Command::Cancel {
                    instrument,
                    order_id: OrderId(word(frame, 0)),
                    cmd_id: word(frame, 1),
                },
            )
        } else if frame[0] == 3 {
            Some(
                Command::Modify {
                    instrument,
                    order_id: OrderId(word(frame, 0)),
                    new_price: word(frame, 2),
                    new_qty: word(frame, 3),
                    cmd_id: word(frame, 1),
                },
            )
        } else {
            match side_of(frame[1]) {
                Some(close_side) => Some(
                    Command::ForceClose {
                        instrument,
                        user: word(frame, 1),
                        close_order_id: OrderId(word(frame, 0)),
                        close_side,
                        close_qty: word(frame, 3),
                    },
                ),
                None => None,
            }
        }
    }
}

/// A frame carries a command unchanged; of a new order it carries all but the
/// engine's own fields.
pub proof fn law_command_round_trip(command: Command)
    ensures
        command_of(command_frame(command)) == Some(
            match command {
                Command::New(o) => Command::New(
                    Order { remaining: o.quantity, timestamp: 0, ..o },
                ),
                other => other,
            },
        ),
{
    match command {
        Command::New(o) => {
            let head = seq![1u8, side_code(o.side), type_code(o.order_type), tif_code(o.tif)];
            let words = seq![o.id.0, o.user, o.price, o.quantity];
            law_frame_fields(head, o.instrument.0, words);
            assert(words[0] == o.id.0 && words[1] == o.user && words[2] == o.price && words[3]
                == o.quantity);
        },
        Command::Cancel { instrument, order_id, cmd_id } => {
            let words = seq![order_id.0, cmd_id, 0u64, 0u64];
            law_frame_fields(seq![2u8, 0u8, 0u8, 0u8], instrument.0, words);
            assert(words[0] == order_id.0 && words[1] == cmd_id);
        },
        Command::Modify { instrument, order_id, new_price, new_qty, cmd_id } => {
            let words = seq![order_id.0, cmd_id, new_price, new_qty];
            law_frame_fields(seq![3u8, 0u8, 0u8, 0u8], instrument.0, words);
            assert(words[0] == order_id.0 && words[1] == cmd_id && words[2] == new_price && words[3]
                == new_qty);
        },
        Command::ForceClose { instrument, user, close_order_id, close_side, close_qty } => {
            let words = seq![close_order_id.0, user, 0u64, close_qty];
            law_frame_fields(seq![4u8, side_code(close_side), 0u8, 0u8], instrument.0, words);
            assert(words[0] == close_order_id.0 && words[1] == user && words[3] == close_qty);
        },
    }
}

fn code_of_side(side: Side) -> (r: u8)
    ensures
        r == side_code(side),
{
    match side {
        Side::Buy => 0,
        Side::Sell => 1,
    }
}

fn side_from(code: u8) -> (r: Option<Side>)
    ensures
        r == side_of(code),
{
    if code == 0 {
        Some(Side::Buy)
    } else if code == 1 {
        Some(Side::Sell)
    } else {
        None
    }
}

fn type_from(code: u8) -> (r: Option<OrderType>)
    ensures
        r == type_of(code),
{
    if code == 0 {
        Some(OrderType::Limit)
    } else if code == 1 {
        Some(OrderType::Market)
    } else {
        None
    }
}

fn tif_from(code: u8) -> (r: Option<TimeInForce>)
    ensures
        r == tif_of(code),
{
    if code == 0 {
        Some(TimeInForce::Gtc)
    } else if code == 1 {
        Some(TimeInForce::Ioc)
    } else if code == 2 {
        Some(TimeInForce::Fok)
    } else if code == 3 {
        Some(TimeInForce::IocBudget)
    } else if code == 4 {
        Some(TimeInForce::FokBudget)
    } else {
        None
    }
}

fn command_bytes(head: (u8, u8, u8, u8), instrument: u32, words: (u64, u64, u64, u64)) -> (r:
    [u8; MSG_LEN])
    ensures
        r@ == framed(
            seq![head.0, head.1, head.2, head.3],
            instrument,
            seq![words.0, words.1, words.2, words.3],
        ),
{
    let mut v: Vec<u8> = Vec::new();
    v.push(head.0);
    v.push(head.1);
    v.push(head.2);
    v.push(head.3);
    put_le(&mut v, instrument as u64, 4);
    put_le(&mut v, words.0, 8);
    put_le(&mut v, words.1, 8);
    put_le(&mut v, words.2, 8);
    put_le(&mut v, words.3, 8);
    let ghost h = seq![head.0, head.1, head.2, head.3];
    let ghost w = seq![words.0, words.1, words.2, words.3];
    proof {
        law_frame_fields(h, instrument, w);
        reveal_with_fuel(words_le, 5);
        assert(w.drop_last() =~= seq![words.0, words.1, words.2]);
        assert(w.drop_last().drop_last() =~= seq![words.0, words.1]);
        assert(w.drop_last().drop_last().drop_last() =~= seq![words.0]);
        assert(w.drop_last().drop_last().drop_last().drop_last() =~= Seq::<u64>::empty());
        assert(v@ =~= framed(h, instrument, w));
    }
    let mut out = [0u8; MSG_LEN];
    let mut i: usize = 0;
    while i < MSG_LEN
        invariant
            i <= MSG_LEN,
            v@.len() == MSG_LEN,
            out@.len() == MSG_LEN,
            forall|k: int| 0 <= k < i ==> out@[k] == v@[k],
        decreases MSG_LEN - i,
    {
        out[i] = v[i];
        i = i + 1;
    }
    assert(out@ =~= v@);
    out
}

/// The frame of a new order.
pub fn encode_new(order: &Order) -> (r: [u8; MSG_LEN])
    ensures
        r@ == command_frame(Command::New(*order)),
{
    let kind: u8 = match order.order_type {
        OrderType::Limit => 0,
        OrderType::Market => 1,
    };
    let tif: u8 = match order.tif {
        TimeInForce::Gtc => 0,
        TimeInForce::Ioc => 1,
        TimeInForce::Fok => 2,
        TimeInForce::IocBudget => 3,
        TimeInForce::FokBudget => 4,
    };
    command_bytes(
        (1, code_of_side(order.side), kind, tif),
        order.instrument.0,
        (order.id.0, order.user, order.price, order.quantity),
    )
}

/// The frame of a cancel.
pub fn encode_cancel(instrument: InstrumentId, order_id: OrderId, cmd_id: u64) -> (r: [u8; MSG_LEN])
    ensures
        r@ == command_frame(Command::Cancel { instrument, order_id, cmd_id }),
{
    command_bytes((2, 0, 0, 0), instrument.0, (order_id.0, cmd_id, 0, 0))
}

/// The frame of an amendment.
pub fn encode_modify(
    instrument: InstrumentId,
    order_id: OrderId,
    new_price: Price,
    new_qty: Qty,
    cmd_id: u64,
) -> (r: [u8; MSG_LEN])
    ensures
        r@ == command_frame(
            Command::Modify { instrument, order_id, new_price, new_qty, cmd_id },
        ),
{
    command_bytes((3, 0, 0, 0), instrument.0, (order_id.0, cmd_id, new_price, new_qty))
}

/// The frame of a forced liquidation.
pub fn encode_force_close(
    instrument: InstrumentId,
    user: u64,
    close_order_id: OrderId,
    close_side: Side,
    close_qty: Qty,
) -> (r: [u8; MSG_LEN])
    ensures
        r@ == command_frame(
            Command::ForceClose { instrument, user, close_order_id, close_side, close_qty },
        ),
{
    command_bytes(
        (4, code_of_side(close_side), 0, 0),
        instrument.0,
        (close_order_id.0, user, 0, close_qty),
    )
}

/// The frame of a command.
pub fn encode_command(command: &Command) -> (r: [u8; MSG_LEN])
    ensures
        r@ == command_frame(*command),
{
    match command {
        Command::New(order) => encode_new(order),
        Command::Cancel { instrument, order_id, cmd_id } => encode_cancel(
            *instrument,
            *order_id,
            *cmd_id,
        ),
        Command::Modify { instrument, order_id, new_price, new_qty, cmd_id } => encode_modify(
            *instrument,
            *order_id,
            *new_price,
            *new_qty,
            *cmd_id,
        ),
        Command::ForceClose { instrument, user, close_order_id, close_side, close_qty } =>
            encode_force_close(*instrument, *user, *close_order_id, *close_side, *close_qty),
    }
}

/// Copies the frame that starts at `at`.
pub fn frame_at(bytes: &[u8], at: usize) -> (r: [u8; MSG_LEN])
    requires
        at + MSG_LEN <= bytes@.len(),
    ensures
        r@ == bytes@.subrange(at as int, at + MSG_LEN),
{
    let mut out: [u8; MSG_LEN] = [0;MSG_LEN];
    let size: usize = bytes.len();
    let mut i: usize = 0;
    while i < MSG_LEN
        invariant
            i <= MSG_LEN,
            at + MSG_LEN <= size == bytes@.len(),
            out@.len() == MSG_LEN,
            forall|j: int| 0 <= j < i ==> #[trigger] out@[j] == bytes@[at + j],
        decreases MSG_LEN - i,
    {
        out[i] = bytes[at + i];
        i += 1;
    }
    assert(out@ =~= bytes@.subrange(at as int, at + MSG_LEN));
    out
}

/// A command frame in a receive buffer, read in place.
pub struct WireView<'a> {
    bytes: &'a [u8],
    at: usize,
}

impl<'a> WireView<'a> {
    /// The bytes of the frame.
    pub closed spec fn frame(self) -> Seq<u8> {
        self.bytes@.subrange(self.at as int, self.at + MSG_LEN)
    }

    /// The view lies in its buffer and holds a command frame.
    pub closed spec fn wf(self) -> bool {
        &&& self.at + MSG_LEN <= self.bytes@.len()
        &&& is_command_frame(self.frame())
    }

    /// The frame that starts at `at`, if it is a command frame.
    pub fn parse_at(bytes: &'a [u8], at: usize) -> (r: Option<WireView<'a>>)
        requires
            at + MSG_LEN <= bytes@.len(),
        ensures
            r is Some <==> is_command_frame(bytes@.subrange(at as int, at + MSG_LEN)),
            r matches Some(view) ==> {
                &&& view.wf()
                &&& view.frame() == bytes@.subrange(at as int, at + MSG_LEN)
            },
    {
        let code: u8 = bytes[at];
        assert(bytes@.subrange(at as int, at + MSG_LEN)[0] == code);
        if code >= 1 && code <= 4 {
            Some(WireView { bytes, at })
        } else {
            None
        }
    }

    /// The frame that is all of `bytes`, if it is a command frame.
    pub fn parse(bytes: &'a [u8]) -> (r: Option<WireView<'a>>)
        ensures
            r is Some <==> is_command_frame(bytes@),
            r matches Some(view) ==> view.wf() && view.frame() == bytes@,
    {
        if bytes.len() != MSG_LEN {
            return None;
        }
        assert(bytes@.subrange(0, MSG_LEN as int) =~= bytes@);
        WireView::parse_at(bytes, 0)
    }

    /// The instrument the command targets.
    pub fn instrument(&self) -> (r: InstrumentId)
        requires
            self.wf(),
        ensures
            r == InstrumentId(instrument_of(self.frame())),
    {
        assert(self.frame().subrange(4, 8) =~= self.bytes@.subrange(self.at + 4, self.at + 8));
        let size: usize = self.bytes.len();
        InstrumentId(get_le(self.bytes, self.at + 4, 4) as u32)
    }

    fn field(&self, k: usize) -> (r: u64)
        requires
            self.wf(),
            k < 4,
        ensures
            r == word(self.frame(), k as int),
    {
        assert(self.frame().subrange(8 + 8 * k, 16 + 8 * k) =~= self.bytes@.subrange(
            self.at + 8 + 8 * k,
            self.at + 16 + 8 * k,
        ));
        let size: usize = self.bytes.len();
        get_le(self.bytes, self.at + 8 + 8 * k, 8)
    }

    /// The command in the frame, unless one of its codes is unknown.
    pub fn to_command(&self) -> (r: Option<Command>)
        requires
            self.wf(),
        ensures
            r == command_of(self.frame()),
    {
        let size: usize = self.bytes.len();
        let code: u8 = self.bytes[self.at];
        let b1: u8 = self.bytes[self.at + 1];
        let b2: u8 = self.bytes[self.at + 2];
        let b3: u8 = self.bytes[self.at + 3];
        assert(self.frame()[0] == code && self.frame()[1] == b1 && self.frame()[2] == b2
            && self.frame()[3] == b3);
        let instrument = self.instrument();
        let w0: u64 = self.field(0);
        let w1: u64 = self.field(1);
        let w2: u64 = self.field(2);
        let w3: u64 = self.field(3);
        if code == 1 {
            match (side_from(b1), type_from(b2), tif_from(b3)) {
                (Some(side), Some(order_type), Some(tif)) => Some(
                    Command::New(
                        Order {
                            id: OrderId(w0),
                            instrument,
                            user: w1,
                            side,
                            order_type,
                            tif,
                            price: w2,
                            quantity: w3,
                            remaining: w3,
                            timestamp: 0,
                        },
                    ),
                ),
                _ => None,
            }
        } else if code == 2 {
            Some(Command::Cancel { instrument, order_id: OrderId(w0), cmd_id: w1 })
        } else if code == 3 {
            Some(
                Command::Modify {
                    instrument,
                    order_id: OrderId(w0),
                    new_price: w2,
                    new_qty: w3,
                    cmd_id: w1,
                },
            )
        } else {
            match side_from(b1) {
                Some(close_side) => Some(
                    Command::ForceClose {
                        instrument,
                        user: w1,
                        close_order_id: OrderId(w0),
                        close_side,
                        close_qty: w3,
                    },
                ),
                None => None,
            }
        }
    }
}

/// The command in a frame.
pub fn decode_command(frame: &[u8]) -> (r: Option<Command>)
    ensures
        r == command_of(frame@),
{
    match WireView::parse(frame) {
        Some(view) => view.to_command(),
        None => None,
    }
}

/// Code of a reason for turning an order away.
pub open spec fn reason_code(reason: RejectReason) -> u8 {
    match reason {
        RejectReason::MaxOrderQty => 1,
        RejectReason::MaxNotional => 2,
        RejectReason::PriceBand => 3,
        RejectReason::MaxUserOrders => 4,
        RejectReason::Unfillable => 5,
    }
}

/// The frame of a report.
pub open spec fn report_frame(report: ExecReport) -> Seq<u8> {
    match report {
        ExecReport::Accepted { instrument, order_id } => plain_report(
            RT_ACCEPTED,
            0,
            instrument,
            order_id,
            0,
        ),
        ExecReport::Trade {
            instrument,
            taker,
            maker,
            aggressor,
            price,
            qty,
            maker_fee,
            taker_fee,
        } => framed(
            seq![RT_TRADE, side_code(aggressor), 0u8, 0u8],
            instrument.0,
            seq![taker.0, maker.0, price, qty, maker_fee, taker_fee],
        ),
        ExecReport::Filled { instrument, order_id } => plain_report(
            RT_FILLED,
            0,
            instrument,
            order_id,
            0,
        ),
        ExecReport::PartiallyFilled { instrument, order_id, filled } => plain_report(
            RT_PARTIAL,
            0,
            instrument,
            order_id,
            filled,
        ),
        ExecReport::Resting { instrument, order_id } => plain_report(
            RT_RESTING,
            0,
            instrument,
            order_id,
            0,
        ),
        ExecReport::Cancelled { instrument, order_id } => plain_report(
            RT_CANCELLED,
            0,
            instrument,
            order_id,
            0,
        ),
        ExecReport::Rejected { instrument, order_id, reason } => plain_report(
            RT_REJECTED,
            reason_code(reason),
            instrument,
            order_id,
            0,
        ),
        ExecReport::Modified { instrument, order_id, remaining } => plain_report(
            RT_MODIFIED,
            0,
            instrument,
            order_id,
            remaining,
        ),
        ExecReport::NotFound { instrument, order_id } => plain_report(
            RT_NOT_FOUND,
            0,
            instrument,
            order_id,
            0,
        ),
    }
}

/// The frame of a report about one order.
pub open spec fn plain_report(
    code: u8,
    reason: u8,
    instrument: InstrumentId,
    order_id: OrderId,
    qty: u64,
) -> Seq<u8> {
    framed(
        seq![code, 0u8, reason, 0u8],
        instrument.0,
        seq![order_id.0, 0u64, 0u64, qty, 0u64, 0u64],
    )
}

/// The fields of a report frame.
#[derive(Clone, Copy, Debug, PartialEq, Eq, Structural)]
pub struct DecodedReport {
    pub type_code: u8,
    pub side: Side,
    pub instrument: InstrumentId,
    pub order_id: OrderId,
    pub aux_id: u64,
    pub price: Price,
    pub qty: Qty,
    pub maker_fee: u64,
    pub taker_fee: u64,
}

/// The fields of a report frame, if it has the right size and known codes.
pub open spec fn report_of(frame: Seq<u8>) -> Option<DecodedReport> {
    if frame.len() != REPORT_LEN || frame[0] < 1 || frame[0] > RT_DEPTH_END {
        None
    } else {
        match side_of(frame[1]) {
            None => None,
            Some(side) => Some(
                DecodedReport {
                    type_code: frame[0],
                    side,
                    instrument: InstrumentId(instrument_of(frame)),
                    order_id: OrderId(word(frame, 0)),
                    aux_id: word(frame, 1),
                    price: word(frame, 2),
                    qty: word(frame, 3),
                    maker_fee: word(frame, 4),
                    taker_fee: word(frame, 5),
                },
            ),
        }
    }
}

/// What a report says, as fields.
pub open spec fn decoded(report: ExecReport) -> DecodedReport {
    let plain = |code: u8, instrument: InstrumentId, order_id: OrderId, qty: u64|
        DecodedReport {
            type_code: code,
            side: Side::Buy,
            instrument,
            order_id,
            aux_id: 0,
            price: 0,
            qty,
            maker_fee: 0,
            taker_fee: 0,
        };
    match report {
        ExecReport::Accepted { instrument, order_id } => plain(RT_ACCEPTED, instrument, order_id, 0),
        ExecReport::Trade {
            instrument,
            taker,
            maker,
            aggressor,
            price,
            qty,
            maker_fee,
            taker_fee,
        } => DecodedReport {
            type_code: RT_TRADE,
            side: aggressor,
            instrument,
            order_id: taker,
            aux_id: maker.0,
            price,
            qty,
            maker_fee,
            taker_fee,
        },
        ExecReport::Filled { instrument, order_id } => plain(RT_FILLED, instrument, order_id, 0),
        ExecReport::PartiallyFilled { instrument, order_id, filled } => plain(
            RT_PARTIAL,
            instrument,
            order_id,
            filled,
        ),
        ExecReport::Resting { instrument, order_id } => plain(RT_RESTING, instrument, order_id, 0),
        ExecReport::Cancelled { instrument, order_id } => plain(
            RT_CANCELLED,
            instrument,
            order_id,
            0,
        ),
        ExecReport::Rejected { instrument, order_id, reason } => plain(
            RT_REJECTED,
            instrument,
            order_id,
            0,
        ),
        ExecReport::Modified { instrument, order_id, remaining } => plain(
            RT_MODIFIED,
            instrument,
            order_id,
            remaining,
        ),
        ExecReport::NotFound { instrument, order_id } => plain(RT_NOT_FOUND, instrument, order_id, 0),
    }
}

/// A report frame reads back as the report's fields.
pub proof fn law_report_round_trip(report: ExecReport)
    ensures
        report_frame(report).len() == REPORT_LEN,
        report_of(report_frame(report)) == Some(decoded(report)),
{
    match report {
        ExecReport::Trade {
            instrument,
            taker,
            maker,
            aggressor,
            price,
            qty,
            maker_fee,
            taker_fee,
        } => {
            let words = seq![taker.0, maker.0, price, qty, maker_fee, taker_fee];
            law_frame_fields(seq![RT_TRADE, side_code(aggressor), 0u8, 0u8], instrument.0, words);
            assert(words[0] == taker.0 && words[1] == maker.0 && words[2] == price && words[3]
                == qty && words[4] == maker_fee && words[5] == taker_fee);
        },
        ExecReport::Accepted { instrument, order_id } => lemma_plain(
            RT_ACCEPTED,
            0,
            instrument,
            order_id,
            0,
        ),
        ExecReport::Filled { instrument, order_id } => lemma_plain(
            RT_FILLED,
            0,
            instrument,
            order_id,
            0,
        ),
        ExecReport::PartiallyFilled { instrument, order_id, filled } => lemma_plain(
            RT_PARTIAL,
            0,
            instrument,
            order_id,
            filled,
        ),
        ExecReport::Resting { instrument, order_id } => lemma_plain(
            RT_RESTING,
            0,
            instrument,
            order_id,
            0,
        ),
        ExecReport::Cancelled { instrument, order_id } => lemma_plain(
            RT_CANCELLED,
            0,
            instrument,
            order_id,
            0,
        ),
        ExecReport::Rejected { instrument, order_id, reason } => lemma_plain(
            RT_REJECTED,
            reason_code(reason),
            instrument,
            order_id,
            0,
        ),
        ExecReport::Modified { instrument, order_id, remaining } => lemma_plain(
            RT_MODIFIED,
            0,
            instrument,
            order_id,
            remaining,
        ),
        ExecReport::NotFound { instrument, order_id } => lemma_plain(
            RT_NOT_FOUND,
            0,
            instrument,
            order_id,
            0,
        ),
    }
}

/// Different reports have different frames.
pub proof fn law_frames_tell_reports_apart(a: ExecReport, b: ExecReport)
    requires
        report_frame(a) == report_frame(b),
    ensures
        a == b,
{
    law_report_round_trip(a);
    law_report_round_trip(b);
    assert(decoded(a) == decoded(b));
    if let ExecReport::Rejected { instrument: ia, order_id: oa, reason: ra } = a {
        if let ExecReport::Rejected { instrument: ib, order_id: ob, reason: rb } = b {
            let head_a = seq![RT_REJECTED, 0u8, reason_code(ra), 0u8];
            let head_b = seq![RT_REJECTED, 0u8, reason_code(rb), 0u8];
            law_frame_fields(head_a, ia.0, seq![oa.0, 0u64, 0u64, 0u64, 0u64, 0u64]);
            law_frame_fields(head_b, ib.0, seq![ob.0, 0u64, 0u64, 0u64, 0u64, 0u64]);
            assert(report_frame(a)[2] == head_a[2]);
            assert(report_frame(b)[2] == head_b[2]);
        }
    }
}

proof fn lemma_plain(
    code: u8,
    reason: u8,
    instrument: InstrumentId,
    order_id: OrderId,
    qty: u64,
)
    requires
        1 <= code <= RT_DEPTH_END,
    ensures
        plain_report(code, reason, instrument, order_id, qty).len() == REPORT_LEN,
        report_of(plain_report(code, reason, instrument, order_id, qty)) == Some(
            DecodedReport {
                type_code: code,
                side: Side::Buy,
                instrument,
                order_id,
                aux_id: 0,
                price: 0,
                qty,
                maker_fee: 0,
                taker_fee: 0,
            },
        ),
{
    let words = seq![order_id.0, 0u64, 0u64, qty, 0u64, 0u64];
    law_frame_fields(seq![code, 0u8, reason, 0u8], instrument.0, words);
    assert(words[0] == order_id.0 && words[1] == 0 && words[2] == 0 && words[3] == qty && words[4]
        == 0 && words[5] == 0);
}

fn report_bytes(
    head: (u8, u8, u8),
    instrument: InstrumentId,
    ids: (u64, u64),
    terms: (u64, u64),
    fees: (u64, u64),
) -> (r: [u8; REPORT_LEN])
    ensures
        r@ == framed(
            seq![head.0, head.1, head.2, 0u8],
            instrument.0,
            seq![ids.0, ids.1, terms.0, terms.1, fees.0, fees.1],
        ),
{
    let mut v: Vec<u8> = Vec::new();
    v.push(head.0);
    v.push(head.1);
    v.push(head.2);
    v.push(0);
    put_le(&mut v, instrument.0 as u64, 4);
    put_le(&mut v, ids.0, 8);
    put_le(&mut v, ids.1, 8);
    put_le(&mut v, terms.0, 8);
    put_le(&mut v, terms.1, 8);
    put_le(&mut v, fees.0, 8);
    put_le(&mut v, fees.1, 8);
    let ghost h = seq![head.0, head.1, head.2, 0u8];
    let ghost w = seq![ids.0, ids.1, terms.0, terms.1, fees.0, fees.1];
    proof {
        law_frame_fields(h, instrument.0, w);
        reveal_with_fuel(words_le, 7);
        let w5 = w.drop_last();
        let w4 = w5.drop_last();
        let w3 = w4.drop_last();
        let w2 = w3.drop_last();
        let w1 = w2.drop_last();
        assert(w1.drop_last() =~= Seq::<u64>::empty());
        assert(v@ =~= framed(h, instrument.0, w));
    }
    let mut out = [0u8; REPORT_LEN];
    let mut i: usize = 0;
    while i < REPORT_LEN
        invariant
            i <= REPORT_LEN,
            v@.len() == REPORT_LEN,
            out@.len() == REPORT_LEN,
            forall|k: int| 0 <= k < i ==> out@[k] == v@[k],
        decreases REPORT_LEN - i,
    {
        out[i] = v[i];
        i = i + 1;
    }
    assert(out@ =~= v@);
    out
}

/// The frame of a report.
pub fn encode_report(report: &ExecReport) -> (r: [u8; REPORT_LEN])
    ensures
        r@ == report_frame(*report),
{
    match report {
        ExecReport::Accepted { instrument, order_id } => report_bytes(
            (RT_ACCEPTED, 0, 0),
            *instrument,
            (order_id.0, 0),
            (0, 0),
            (0, 0),
        ),
        ExecReport::Trade {
            instrument,
            taker,
            maker,
            aggressor,
            price,
            qty,
            maker_fee,
            taker_fee,
        } => report_bytes(
            (RT_TRADE, code_of_side(*aggressor), 0),
            *instrument,
            (taker.0, maker.0),
            (*price, *qty),
            (*maker_fee, *taker_fee),
        ),
        ExecReport::Filled { instrument, order_id } => report_bytes(
            (RT_FILLED, 0, 0),
            *instrument,
            (order_id.0, 0),
            (0, 0),
            (0, 0),
        ),
        ExecReport::PartiallyFilled { instrument, order_id, filled } => report_bytes(
            (RT_PARTIAL, 0, 0),
            *instrument,
            (order_id.0, 0),
            (0, *filled),
            (0, 0),
        ),
        ExecReport::Resting { instrument, order_id } => report_bytes(
            (RT_RESTING, 0, 0),
            *instrument,
            (order_id.0, 0),
            (0, 0),
            (0, 0),
        ),
        ExecReport::Cancelled { instrument, order_id } => report_bytes(
            (RT_CANCELLED, 0, 0),
            *instrument,
            (order_id.0, 0),
            (0, 0),
            (0, 0),
        ),
        ExecReport::Rejected { instrument, order_id, reason } => {
            let code: u8 = match reason {
                RejectReason::MaxOrderQty => 1,
                RejectReason::MaxNotional => 2,
                RejectReason::PriceBand => 3,
                RejectReason::MaxUserOrders => 4,
                RejectReason::Unfillable => 5,
            };
            report_bytes((RT_REJECTED, 0, code), *instrument, (order_id.0, 0), (0, 0), (0, 0))
        },
        ExecReport::Modified { instrument, order_id, remaining } => report_bytes(
            (RT_MODIFIED, 0, 0),
            *instrument,
            (order_id.0, 0),
            (0, *remaining),
            (0, 0),
        ),
        ExecReport::NotFound { instrument, order_id } => report_bytes(
            (RT_NOT_FOUND, 0, 0),
            *instrument,
            (order_id.0, 0),
            (0, 0),
            (0, 0),
        ),
    }
}

/// The report frame that starts at `at`.
pub fn decode_report_at(bytes: &[u8], at: usize) -> (r: Option<DecodedReport>)
    requires
        at + REPORT_LEN <= bytes@.len(),
    ensures
        r == report_of(bytes@.subrange(at as int, at + REPORT_LEN)),
{
    let size: usize = bytes.len();
    let ghost frame = bytes@.subrange(at as int, at + REPORT_LEN);
    let code: u8 = bytes[at];
    let side_byte: u8 = bytes[at + 1];
    assert(frame[0] == code && frame[1] == side_byte);
    if code < 1 || code > RT_DEPTH_END {
        return None;
    }
    let side = match side_from(side_byte) {
        Some(side) => side,
        None => {
            return None;
        },
    };
    proof {
        assert(frame.subrange(4, 8) =~= bytes@.subrange(at + 4, at + 8));
        assert(frame.subrange(8, 16) =~= bytes@.subrange(at + 8, at + 16));
        assert(frame.subrange(16, 24) =~= bytes@.subrange(at + 16, at + 24));
        assert(frame.subrange(24, 32) =~= bytes@.subrange(at + 24, at + 32));
        assert(frame.subrange(32, 40) =~= bytes@.subrange(at + 32, at + 40));
        assert(frame.subrange(40, 48) =~= bytes@.subrange(at + 40, at + 48));
        assert(frame.subrange(48, 56) =~= bytes@.subrange(at + 48, at + 56));
    }
    Some(
        DecodedReport {
            type_code: code,
            side,
            instrument: InstrumentId(get_le(bytes, at + 4, 4) as u32),
            order_id: OrderId(get_le(bytes, at + 8, 8)),
            aux_id: get_le(bytes, at + 16, 8),
            price: get_le(bytes, at + 24, 8),
            qty: get_le(bytes, at + 32, 8),
            maker_fee: get_le(bytes, at + 40, 8),
            taker_fee: get_le(bytes, at + 48, 8),
        },
    )
}

/// The fields of a report frame.
pub fn decode_report(bytes: &[u8]) -> (r: Option<DecodedReport>)
    ensures
        r == report_of(bytes@),
{
    if bytes.len() != REPORT_LEN {
        return None;
    }
    assert(bytes@.subrange(0, REPORT_LEN as int) =~= bytes@);
    decode_report_at(bytes, 0)
}

/// A report with its place in the consensus log.
#[derive(Clone, Copy, Debug, PartialEq, Eq, Structural)]
pub struct ExecutionEvent {
    pub raft_group: u32,
    pub raft_index: u64,
    pub ordinal: u32,
    pub report: DecodedReport,
}

/// Magic of an execution event.
pub open spec fn event_magic() -> Seq<u8> {
    seq![0x45u8, 0x58u8, 0x30u8, 0x31u8]
}

/// An execution event: magic, format version, group, padding, index, ordinal,
/// padding, and the report frame.
pub open spec fn event_payload(group: u32, index: u64, ordinal: u32, frame: Seq<u8>) -> Seq<u8> {
    event_magic() + le(1, 4) + le(group as nat, 4) + le(0, 4) + le(index as nat, 8) + le(
        ordinal as nat,
        4,
    ) + le(0, 4) + frame
}

/// The event in a message: an event of the current format, or a bare report
/// frame, which has no place in a log.
pub open spec fn event_of(payload: Seq<u8>) -> Option<ExecutionEvent> {
    if payload.len() == REPORT_LEN {
        match report_of(payload) {
            Some(report) => Some(
                ExecutionEvent { raft_group: 0, raft_index: 0, ordinal: 0, report },
            ),
            None => None,
        }
    } else if payload.len() == EXECUTION_EVENT_LEN && payload.subrange(0, 4) == event_magic()
        && from_le(payload.subrange(4, 8)) == 1 {
        match report_of(payload.subrange(32, 88)) {
            Some(report) => Some(
                ExecutionEvent {
                    raft_group: from_le(payload.subrange(8, 12)) as u32,
                    raft_index: from_le(payload.subrange(16, 24)) as u64,
                    ordinal: from_le(payload.subrange(24, 28)) as u32,
                    report,
                },
            ),
            None => None,
        }
    } else {
        None
    }
}

/// An event reads back with its report and its place.
pub proof fn law_event_round_trip(group: u32, index: u64, ordinal: u32, frame: Seq<u8>)
    requires
        frame.len() == REPORT_LEN,
    ensures
        event_payload(group, index, ordinal, frame).len() == EXECUTION_EVENT_LEN,
        event_of(event_payload(group, index, ordinal, frame)) == match report_of(frame) {
            Some(report) => Some(
                ExecutionEvent { raft_group: group, raft_index: index, ordinal, report },
            ),
            None => None,
        },
{
    let s = event_payload(group, index, ordinal, frame);
    lemma_pow256();
    lemma_le_len(1, 4);
    lemma_le_len(group as nat, 4);
    lemma_le_len(0, 4);
    lemma_le_len(index as nat, 8);
    lemma_le_len(ordinal as nat, 4);
    assert(s.subrange(0, 4) =~= event_magic());
    assert(s.subrange(4, 8) =~= le(1, 4));
    assert(s.subrange(8, 12) =~= le(group as nat, 4));
    assert(s.subrange(16, 24) =~= le(index as nat, 8));
    assert(s.subrange(24, 28) =~= le(ordinal as nat, 4));
    assert(s.subrange(32, 88) =~= frame);
    law_bytes_round_trip(1, 4);
    law_bytes_round_trip(group as nat, 4);
    law_bytes_round_trip(index as nat, 8);
    law_bytes_round_trip(ordinal as nat, 4);
}

/// The event in a message.
pub fn decode_execution_event(payload: &[u8]) -> (r: Option<ExecutionEvent>)
    ensures
        r == event_of(payload@),
{
    if payload.len() == REPORT_LEN {
        return match decode_report(payload) {
            Some(report) => Some(
                ExecutionEvent { raft_group: 0, raft_index: 0, ordinal: 0, report },
            ),
            None => None,
        };
    }
    if payload.len() != EXECUTION_EVENT_LEN {
        return None;
    }
    let magic: [u8; 4] = [0x45, 0x58, 0x30, 0x31];
    assert(magic@ =~= event_magic());
    if !has_at(payload, 0, magic.as_slice()) || get_le(payload, 4, 4) != 1 {
        return None;
    }
    match decode_report_at(payload, 32) {
        Some(report) => Some(
            ExecutionEvent {
                raft_group: get_le(payload, 8, 4) as u32,
                raft_index: get_le(payload, 16, 8),
                ordinal: get_le(payload, 24, 4) as u32,
                report,
            },
        ),
        None => None,
    }
}

/// Magic of a command batch.
pub open spec fn batch_magic() -> Seq<u8> {
    seq![0x54u8, 0x43u8, 0x42u8, 0x31u8]
}

/// Frames one after the other.
pub open spec fn frames_of(commands: Seq<Command>) -> Seq<u8>
    decreases commands.len(),
{
    if commands.len() == 0 {
        Seq::empty()
    } else {
        frames_of(commands.drop_last()) + command_frame(commands.last())
    }
}

/// A command batch: magic, big-endian count, frames.
pub open spec fn batch_payload(commands: Seq<Command>) -> Seq<u8> {
    batch_magic() + crate::codec::be(commands.len(), 4) + frames_of(commands)
}

/// The commands in `n` frames from `at` on, if each holds one.
pub open spec fn commands_in(bytes: Seq<u8>, at: int, n: nat) -> Option<Seq<Command>>
    decreases n,
{
    if n == 0 {
        Some(Seq::empty())
    } else {
        match commands_in(bytes, at, (n - 1) as nat) {
            None => None,
            Some(front) => {
                let start = at + (n - 1) * MSG_LEN;
                match command_of(bytes.subrange(start, start + MSG_LEN)) {
                    None => None,
                    Some(command) => Some(front.push(command)),
                }
            },
        }
    }
}

/// The commands in a consensus entry: a single frame, or a batch.
pub open spec fn entry_commands(entry: Seq<u8>) -> Option<Seq<Command>> {
    if entry.len() == MSG_LEN {
        commands_in(entry, 0, 1)
    } else if entry.len() < 8 || entry.subrange(0, 4) != batch_magic() {
        None
    } else {
        let n = crate::codec::from_be(entry.subrange(4, 8));
        if n == 0 || n > RAFT_BATCH_MAX_COMMANDS || entry.len() != 8 + n * MSG_LEN {
            None
        } else {
            commands_in(entry, 8, n)
        }
    }
}

/// Decodes `n` frames from `at` on.
pub fn decode_frames(bytes: &[u8], at: usize, n: usize) -> (r: Option<Vec<Command>>)
    requires
        at + n * MSG_LEN <= bytes@.len(),
    ensures
        match r {
            Some(v) => commands_in(bytes@, at as int, n as nat) == Some(v@),
            None => commands_in(bytes@, at as int, n as nat) is None,
        },
{
    let size: usize = bytes.len();
    let mut out: Vec<Command> = Vec::new();
    let mut i: usize = 0;
    while i < n
        invariant
            i <= n,
            size == bytes@.len(),
            at + n * MSG_LEN <= size,
            commands_in(bytes@, at as int, i as nat) == Some(out@),
        decreases n - i,
    {
        proof {
            assert((i + 1) * MSG_LEN <= n * MSG_LEN) by (nonlinear_arith)
                requires
                    i + 1 <= n,
            ;
        }
        let start: usize = at + i * MSG_LEN;
        let command = match WireView::parse_at(bytes, start) {
            Some(view) => view.to_command(),
            None => None,
        };
        match command {
            Some(command) => {
                out.push(command);
            },
            None => {
                proof {
                    lemma_commands_fail(bytes@, at as int, (i + 1) as nat, n as nat);
                }
                return None;
            },
        }
        i = i + 1;
    }
    Some(out)
}

proof fn lemma_commands_fail(bytes: Seq<u8>, at: int, k: nat, n: nat)
    requires
        k <= n,
        commands_in(bytes, at, k) is None,
    ensures
        commands_in(bytes, at, n) is None,
    decreases n,
{
    if k < n {
        lemma_commands_fail(bytes, at, k, (n - 1) as nat);
    }
}

/// The commands in a consensus entry.
pub fn decode_raft_entry(entry: &[u8]) -> (r: Option<Vec<Command>>)
    ensures
        match r {
            Some(v) => entry_commands(entry@) == Some(v@),
            None => entry_commands(entry@) is None,
        },
{
    if entry.len() == MSG_LEN {
        return decode_frames(entry, 0, 1);
    }
    let magic: [u8; 4] = [0x54, 0x43, 0x42, 0x31];
    assert(magic@ =~= batch_magic());
    if entry.len() < 8 || !has_at(entry, 0, magic.as_slice()) {
        return None;
    }
    let n: u64 = crate::codec::get_be(entry, 4, 4);
    if n == 0 || n > RAFT_BATCH_MAX_COMMANDS as u64 {
        return None;
    }
    let count: usize = n as usize;
    if entry.len() != 8 + count * MSG_LEN {
        return None;
    }
    decode_frames(entry, 8, count)
}

/// A consensus entry that carries `commands`, unless there are none or too many.
pub fn encode_raft_batch(commands: &Vec<Command>) -> (r: Option<Vec<u8>>)
    ensures
        r is Some <==> 0 < commands@.len() <= RAFT_BATCH_MAX_COMMANDS,
        r matches Some(v) ==> v@ == batch_payload(commands@),
{
    if commands.len() == 0 || commands.len() > RAFT_BATCH_MAX_COMMANDS {
        return None;
    }
    let mut out: Vec<u8> = Vec::new();
    out.push(0x54);
    out.push(0x43);
    out.push(0x42);
    out.push(0x31);
    assert(out@ =~= batch_magic());
    crate::codec::put_be(&mut out, commands.len() as u64, 4);
    let ghost head = out@;
    let mut i: usize = 0;
    proof {
        assert(commands@.take(0) =~= Seq::<Command>::empty());
        assert(head + Seq::<u8>::empty() =~= head);
    }
    while i < commands.len()
        invariant
            i <= commands@.len(),
            out@ == head + frames_of(commands@.take(i as int)),
        decreases commands@.len() - i,
    {
        let frame = encode_command(&commands[i]);
        proof {
            assert(commands@.take(i as int + 1).drop_last() =~= commands@.take(i as int));
            assert(frame@.subrange(0, MSG_LEN as int) =~= frame@);
        }
        put_slice(&mut out, frame.as_slice(), 0, MSG_LEN);
        proof {
            assert(out@ =~= head + frames_of(commands@.take(i as int + 1)));
        }
        i = i + 1;
    }
    assert(commands@.take(i as int) =~= commands@);
    Some(out)
}

/// A command as a frame carries it.
pub open spec fn carried(command: Command) -> Command {
    match command {
        Command::New(o) => Command::New(Order { remaining: o.quantity, timestamp: 0, ..o }),
        other => other,
    }
}

proof fn lemma_frames(commands: Seq<Command>, prefix: Seq<u8>, suffix: Seq<u8>)
    ensures
        frames_of(commands).len() == commands.len() * MSG_LEN,
        commands_in(prefix + frames_of(commands) + suffix, prefix.len() as int, commands.len())
            == Some(Seq::new(commands.len(), |i: int| carried(commands[i]))),
    decreases commands.len(),
{
    let bytes = prefix + frames_of(commands) + suffix;
    let want = Seq::new(commands.len(), |i: int| carried(commands[i]));
    if commands.len() > 0 {
        let front = commands.drop_last();
        let last = commands.last();
        law_command_round_trip(last);
        lemma_command_len(last);
        lemma_frames(front, prefix, command_frame(last) + suffix);
        assert(prefix + frames_of(front) + (command_frame(last) + suffix) =~= bytes);
        let start = prefix.len() + (commands.len() - 1) * MSG_LEN;
        assert(bytes.subrange(start, start + MSG_LEN) =~= command_frame(last));
        assert(want =~= Seq::new(front.len(), |i: int| carried(front[i])).push(carried(last)));
    } else {
        assert(want =~= Seq::<Command>::empty());
    }
}

/// Every command frame has the same size.
pub proof fn lemma_command_len(command: Command)
    ensures
        command_frame(command).len() == MSG_LEN,
{
    match command {
        Command::New(o) => law_frame_fields(
            seq![1u8, side_code(o.side), type_code(o.order_type), tif_code(o.tif)],
            o.instrument.0,
            seq![o.id.0, o.user, o.price, o.quantity],
        ),
        Command::Cancel { instrument, order_id, cmd_id } => law_frame_fields(
            seq![2u8, 0u8, 0u8, 0u8],
            instrument.0,
            seq![order_id.0, cmd_id, 0u64, 0u64],
        ),
        Command::Modify { instrument, order_id, new_price, new_qty, cmd_id } => law_frame_fields(
            seq![3u8, 0u8, 0u8, 0u8],
            instrument.0,
            seq![order_id.0, cmd_id, new_price, new_qty],
        ),
        Command::ForceClose { instrument, user, close_order_id, close_side, close_qty } =>
            law_frame_fields(
            seq![4u8, side_code(close_side), 0u8, 0u8],
            instrument.0,
            seq![close_order_id.0, user, 0u64, close_qty],
        ),
    }
}

/// A batch entry yields the commands it was made from, in order.
pub proof fn law_batch_round_trip(commands: Seq<Command>)
    requires
        0 < commands.len() <= RAFT_BATCH_MAX_COMMANDS,
    ensures
        entry_commands(batch_payload(commands)) == Some(
            Seq::new(commands.len(), |i: int| carried(commands[i])),
        ),
{
    let s = batch_payload(commands);
    let head = batch_magic() + crate::codec::be(commands.len(), 4);
    lemma_le_len(commands.len(), 4);
    lemma_pow256();
    law_bytes_round_trip(commands.len(), 4);
    lemma_frames(commands, head, Seq::empty());
    assert(head + frames_of(commands) + Seq::<u8>::empty() =~= s);
    assert(s.subrange(0, 4) =~= batch_magic());
    assert(s.subrange(4, 8) =~= crate::codec::be(commands.len(), 4));
}

/// The bytes of a command: its kind, its codes, the instrument, and four fields, each in
/// little-endian order. Kinds are counted from one, sides, types and times in force from
/// zero. An order's fields are its id, its user, its price and its size.
pub proof fn law_command_layout(command: Command)
    ensures
        ({
            let f = command_frame(command);
            let at = |k: int| from_le(f.subrange(8 + 8 * k, 16 + 8 * k));
            &&& f.len() == 40
            &&& match command {
                Command::New(o) => {
                    &&& f[0] == 1
                    &&& f[1] == (if o.side == Side::Buy {
                        0u8
                    } else {
                        1u8
                    })
                    &&& f[2] == (if o.order_type == OrderType::Limit {
                        0u8
                    } else {
                        1u8
                    })
                    &&& f[3] == (match o.tif {
                        TimeInForce::Gtc => 0u8,
                        TimeInForce::Ioc => 1u8,
                        TimeInForce::Fok => 2u8,
                        TimeInForce::IocBudget => 3u8,
                        TimeInForce::FokBudget => 4u8,
                    })
                    &&& from_le(f.subrange(4, 8)) == o.instrument.0
                    &&& at(0) == o.id.0 && at(1) == o.user && at(2) == o.price && at(3)
                        == o.quantity
                },
                Command::Cancel { instrument, order_id, cmd_id } => {
                    &&& f[0] == 2
                    &&& from_le(f.subrange(4, 8)) == instrument.0
                    &&& at(0) == order_id.0 && at(1) == cmd_id
                },
                Command::Modify { instrument, order_id, new_price, new_qty, cmd_id } => {
                    &&& f[0] == 3
                    &&& from_le(f.subrange(4, 8)) == instrument.0
                    &&& at(0) == order_id.0 && at(1) == cmd_id && at(2) == new_price && at(3)
                        == new_qty
                },
                Command::ForceClose { instrument, user, close_order_id, close_side, close_qty } => {
                    &&& f[0] == 4
                    &&& f[1] == (if close_side == Side::Buy {
                        0u8
                    } else {
                        1u8
                    })
                    &&& from_le(f.subrange(4, 8)) == instrument.0
                    &&& at(0) == close_order_id.0 && at(1) == user && at(3) == close_qty
                },
            }
        }),
{
    let (head, instrument, words) = match command {
        Command::New(o) => (
            seq![1u8, side_code(o.side), type_code(o.order_type), tif_code(o.tif)],
            o.instrument.0,
            seq![o.id.0, o.user, o.price, o.quantity],
        ),
        Command::Cancel { instrument, order_id, cmd_id } => (
            seq![2u8, 0u8, 0u8, 0u8],
            instrument.0,
            seq![order_id.0, cmd_id, 0u64, 0u64],
        ),
        Command::Modify { instrument, order_id, new_price, new_qty, cmd_id } => (
            seq![3u8, 0u8, 0u8, 0u8],
            instrument.0,
            seq![order_id.0, cmd_id, new_price, new_qty],
        ),
        Command::ForceClose { instrument, user, close_order_id, close_side, close_qty } => (
            seq![4u8, side_code(close_side), 0u8, 0u8],
            instrument.0,
            seq![close_order_id.0, user, 0u64, close_qty],
        ),
    };
    assert(command_frame(command) == framed(head, instrument, words));
    lemma_layout(head, instrument, words);
    assert(words[0] == words[0] && words[1] == words[1] && words[2] == words[2] && words[3]
        == words[3]);
}

proof fn lemma_layout(head: Seq<u8>, instrument: u32, words: Seq<u64>)
    requires
        head.len() == 4,
    ensures
        ({
            let f = framed(head, instrument, words);
            &&& f.len() == 8 + 8 * words.len()
            &&& forall|i: int| 0 <= i < 4 ==> #[trigger] f[i] == head[i]
            &&& from_le(f.subrange(4, 8)) == instrument
            &&& forall|k: int|
                0 <= k < words.len() ==> from_le(f.subrange(8 + 8 * k, 16 + 8 * k))
                    == #[trigger] words[k]
        }),
{
    let f = framed(head, instrument, words);
    law_frame_fields(head, instrument, words);
    lemma_le_len(instrument as nat, 4);
    lemma_words_len(words);
    lemma_pow256();
    assert(f.subrange(4, 8) =~= le(instrument as nat, 4));
    law_bytes_round_trip(instrument as nat, 4);
    assert forall|k: int| 0 <= k < words.len() implies from_le(f.subrange(8 + 8 * k, 16 + 8 * k))
        == #[trigger] words[k] by {
        lemma_words_at(words, k);
        assert(f.subrange(8 + 8 * k, 16 + 8 * k) =~= words_le(words).subrange(8 * k, 8 * k + 8));
        law_bytes_round_trip(words[k] as nat, 8);
    }
}

/// The bytes of a report: its kind, counted from one, the aggressor's side, the reason, the
/// instrument, and six fields: the order, the maker, the price, the lots and the fees of
/// maker and taker.
pub proof fn law_report_layout(report: ExecReport)
    ensures
        ({
            let f = report_frame(report);
            let at = |k: int| from_le(f.subrange(8 + 8 * k, 16 + 8 * k));
            &&& f.len() == 56
            &&& match report {
                ExecReport::Accepted { instrument, order_id } => f[0] == 1 && from_le(
                    f.subrange(4, 8),
                ) == instrument.0 && at(0) == order_id.0,
                ExecReport::Trade {
                    instrument,
                    taker,
                    maker,
                    aggressor,
                    price,
                    qty,
                    maker_fee,
                    taker_fee,
                } => {
                    &&& f[0] == 2
                    &&& f[1] == (if aggressor == Side::Buy {
                        0u8
                    } else {
                        1u8
                    })
                    &&& from_le(f.subrange(4, 8)) == instrument.0
                    &&& at(0) == taker.0 && at(1) == maker.0 && at(2) == price && at(3) == qty
                    &&& at(4) == maker_fee && at(5) == taker_fee
                },
                ExecReport::Filled { instrument, order_id } => f[0] == 3 && from_le(
                    f.subrange(4, 8),
                ) == instrument.0 && at(0) == order_id.0,
                ExecReport::PartiallyFilled { instrument, order_id, filled } => f[0] == 4
                    && from_le(f.subrange(4, 8)) == instrument.0 && at(0) == order_id.0 && at(3)
                    == filled,
                ExecReport::Resting { instrument, order_id } => f[0] == 5 && from_le(
                    f.subrange(4, 8),
                ) == instrument.0 && at(0) == order_id.0,
                ExecReport::Cancelled { instrument, order_id } => f[0] == 6 && from_le(
                    f.subrange(4, 8),
                ) == instrument.0 && at(0) == order_id.0,
                ExecReport::Rejected { instrument, order_id, reason } => f[0] == 7 && from_le(
                    f.subrange(4, 8),
                ) == instrument.0 && at(0) == order_id.0 && f[2] == (match reason {
                    RejectReason::MaxOrderQty => 1u8,
                    RejectReason::MaxNotional => 2u8,
                    RejectReason::PriceBand => 3u8,
                    RejectReason::MaxUserOrders => 4u8,
                    RejectReason::Unfillable => 5u8,
                }),
                ExecReport::Modified { instrument, order_id, remaining } => f[0] == 8 && from_le(
                    f.subrange(4, 8),
                ) == instrument.0 && at(0) == order_id.0 && at(3) == remaining,
                ExecReport::NotFound { instrument, order_id } => f[0] == 9 && from_le(
                    f.subrange(4, 8),
                ) == instrument.0 && at(0) == order_id.0,
            }
        }),
{
    let (head, instrument, words) = match report {
        ExecReport::Trade {
            instrument,
            taker,
            maker,
            aggressor,
            price,
            qty,
            maker_fee,
            taker_fee,
        } => (
            seq![RT_TRADE, side_code(aggressor), 0u8, 0u8],
            instrument.0,
            seq![taker.0, maker.0, price, qty, maker_fee, taker_fee],
        ),
        ExecReport::Accepted { instrument, order_id } => (
            seq![RT_ACCEPTED, 0u8, 0u8, 0u8],
            instrument.0,
            seq![order_id.0, 0u64, 0u64, 0u64, 0u64, 0u64],
        ),
        ExecReport::Filled { instrument, order_id } => (
            seq![RT_FILLED, 0u8, 0u8, 0u8],
            instrument.0,
            seq![order_id.0, 0u64, 0u64, 0u64, 0u64, 0u64],
        ),
        ExecReport::PartiallyFilled { instrument, order_id, filled } => (
            seq![RT_PARTIAL, 0u8, 0u8, 0u8],
            instrument.0,
            seq![order_id.0, 0u64, 0u64, filled, 0u64, 0u64],
        ),
        ExecReport::Resting { instrument, order_id } => (
            seq![RT_RESTING, 0u8, 0u8, 0u8],
            instrument.0,
            seq![order_id.0, 0u64, 0u64, 0u64, 0u64, 0u64],
        ),
        ExecReport::Cancelled { instrument, order_id } => (
            seq![RT_CANCELLED, 0u8, 0u8, 0u8],
            instrument.0,
            seq![order_id.0, 0u64, 0u64, 0u64, 0u64, 0u64],
        ),
        ExecReport::Rejected { instrument, order_id, reason } => (
            seq![RT_REJECTED, 0u8, reason_code(reason), 0u8],
            instrument.0,
            seq![order_id.0, 0u64, 0u64, 0u64, 0u64, 0u64],
        ),
        ExecReport::Modified { instrument, order_id, remaining } => (
            seq![RT_MODIFIED, 0u8, 0u8, 0u8],
            instrument.0,
            seq![order_id.0, 0u64, 0u64, remaining, 0u64, 0u64],
        ),
        ExecReport::NotFound { instrument, order_id } => (
            seq![RT_NOT_FOUND, 0u8, 0u8, 0u8],
            instrument.0,
            seq![order_id.0, 0u64, 0u64, 0u64, 0u64, 0u64],
        ),
    };
    assert(report_frame(report) == framed(head, instrument, words));
    lemma_layout(head, instrument, words);
    assert(words[0] == words[0] && words[1] == words[1] && words[2] == words[2] && words[3]
        == words[3] && words[4] == words[4] && words[5] == words[5]);
}

/// The bytes of an execution event: the mark, the version, the group, the place in the log,
/// the number of the report there, and the report.
pub proof fn law_event_layout(group: u32, index: u64, ordinal: u32, frame: Seq<u8>)
    ensures
        ({
            let e = event_payload(group, index, ordinal, frame);
            &&& e.take(4) == seq!['E' as u8, 'X' as u8, '0' as u8, '1' as u8]
            &&& from_le(e.subrange(4, 8)) == 1
            &&& from_le(e.subrange(8, 12)) == group
            &&& from_le(e.subrange(16, 24)) == index
            &&& from_le(e.subrange(24, 28)) == ordinal
            &&& e.skip(32) == frame
        }),
{
    let s = event_payload(group, index, ordinal, frame);
    lemma_pow256();
    lemma_le_len(1, 4);
    lemma_le_len(group as nat, 4);
    lemma_le_len(0, 4);
    lemma_le_len(index as nat, 8);
    lemma_le_len(ordinal as nat, 4);
    assert(s.take(4) =~= seq!['E' as u8, 'X' as u8, '0' as u8, '1' as u8]);
    assert(s.subrange(4, 8) =~= le(1, 4));
    assert(s.subrange(8, 12) =~= le(group as nat, 4));
    assert(s.subrange(16, 24) =~= le(index as nat, 8));
    assert(s.subrange(24, 28) =~= le(ordinal as nat, 4));
    assert(s.skip(32) =~= frame);
    law_bytes_round_trip(1, 4);
    law_bytes_round_trip(group as nat, 4);
    law_bytes_round_trip(index as nat, 8);
    law_bytes_round_trip(ordinal as nat, 4);
}

} // verus!
