//! Offline inspection of journals and execution outboxes: reading, filtering,
//! verifying and comparing them.

use vstd::prelude::*;
use vstd::string::StringExecFns;

use crate::codec::same_bytes;
use crate::exchange::Command;
use crate::execution_outbox::{
    outbox_header, outbox_records, record_views, ExecutionOutboxReader, OutboxError, OutboxRecord,
    OutboxView,
};
use crate::journal::{journal_records, views, JournalReader, Record, RecordView};
use crate::order::Order;
use crate::text::{chars_of, decimal, is_text, number, parse_number, push_decimal};
use crate::types::{OrderType, Side, TimeInForce};
use crate::wire::{decode_raft_entry, decode_report, entry_commands, report_of, DecodedReport};

verus! {

/// Which records are shown; a missing bound is open.
#[derive(Clone, Copy, Debug)]
pub struct DumpFilter {
    pub from_seq: Option<u64>,
    pub to_seq: Option<u64>,
    pub from_ts: Option<u64>,
    pub to_ts: Option<u64>,
}

impl Default for DumpFilter {
    fn default() -> (r: DumpFilter)
        ensures
            r == (DumpFilter { from_seq: None, to_seq: None, from_ts: None, to_ts: None }),
    {
        DumpFilter { from_seq: None, to_seq: None, from_ts: None, to_ts: None }
    }
}

/// `v` is within inclusive bounds.
pub open spec fn within(v: u64, from: Option<u64>, to: Option<u64>) -> bool {
    (from is Some ==> v >= from->0) && (to is Some ==> v <= to->0)
}

fn is_within(v: u64, from: Option<u64>, to: Option<u64>) -> (r: bool)
    ensures
        r == within(v, from, to),
{
    let above: bool = match from {
        Some(low) => v >= low,
        None => true,
    };
    let below: bool = match to {
        Some(high) => v <= high,
        None => true,
    };
    above && below
}

impl DumpFilter {
    /// A record passes the filter.
    pub open spec fn passes(self, seq: u64, ts_nanos: u64) -> bool {
        within(seq, self.from_seq, self.to_seq) && within(ts_nanos, self.from_ts, self.to_ts)
    }

    /// Whether a record passes the filter.
    pub fn accepts(&self, seq: u64, ts_nanos: u64) -> (r: bool)
        ensures
            r == self.passes(seq, ts_nanos),
    {
        is_within(seq, self.from_seq, self.to_seq) && is_within(
            ts_nanos,
            self.from_ts,
            self.to_ts,
        )
    }
}

/// A side by name.
pub open spec fn side_text(side: Side) -> Seq<char> {
    match side {
        Side::Buy => "Buy"@,
        Side::Sell => "Sell"@,
    }
}

fn side_name(side: Side) -> (r: &'static str)
    ensures
        r@ == side_text(side),
{
    match side {
        Side::Buy => "Buy",
        Side::Sell => "Sell",
    }
}

/// An order type by name.
pub open spec fn type_text(order_type: OrderType) -> Seq<char> {
    match order_type {
        OrderType::Limit => "Limit"@,
        OrderType::Market => "Market"@,
    }
}

fn kind_name(order_type: OrderType) -> (r: &'static str)
    ensures
        r@ == type_text(order_type),
{
    match order_type {
        OrderType::Limit => "Limit",
        OrderType::Market => "Market",
    }
}

/// A time in force by name.
pub open spec fn tif_text(tif: TimeInForce) -> Seq<char> {
    match tif {
        TimeInForce::Gtc => "Gtc"@,
        TimeInForce::Ioc => "Ioc"@,
        TimeInForce::Fok => "Fok"@,
        TimeInForce::IocBudget => "IocBudget"@,
        TimeInForce::FokBudget => "FokBudget"@,
    }
}

fn tif_name(tif: TimeInForce) -> (r: &'static str)
    ensures
        r@ == tif_text(tif),
{
    match tif {
        TimeInForce::Gtc => "Gtc",
        TimeInForce::Ioc => "Ioc",
        TimeInForce::Fok => "Fok",
        TimeInForce::IocBudget => "IocBudget",
        TimeInForce::FokBudget => "FokBudget",
    }
}

/// An order with all its fields.
pub open spec fn order_text(o: Order) -> Seq<char> {
    "Order { id: OrderId("@ + decimal(o.id.0 as nat) + "), instrument: InstrumentId("@ + decimal(
        o.instrument.0 as nat,
    ) + "), user: "@ + decimal(o.user as nat) + ", side: "@ + side_text(o.side)
        + ", order_type: "@ + type_text(o.order_type) + ", tif: "@ + tif_text(o.tif)
        + ", price: "@ + decimal(o.price as nat) + ", quantity: "@ + decimal(o.quantity as nat)
        + ", remaining: "@ + decimal(o.remaining as nat) + ", timestamp: "@ + decimal(
        o.timestamp as nat,
    ) + " }"@
}

fn format_order(o: &Order) -> (r: String)
    ensures
        r@ == order_text(*o),
{
    let mut out = String::new();
    out.append("Order { id: OrderId(");
    assert(out@ =~= "Order { id: OrderId("@);
    push_decimal(&mut out, o.id.0);
    out.append("), instrument: InstrumentId(");
    push_decimal(&mut out, o.instrument.0 as u64);
    out.append("), user: ");
    push_decimal(&mut out, o.user);
    out.append(", side: ");
    out.append(side_name(o.side));
    out.append(", order_type: ");
    out.append(kind_name(o.order_type));
    out.append(", tif: ");
    out.append(tif_name(o.tif));
    out.append(", price: ");
    push_decimal(&mut out, o.price);
    out.append(", quantity: ");
    push_decimal(&mut out, o.quantity);
    out.append(", remaining: ");
    push_decimal(&mut out, o.remaining);
    out.append(", timestamp: ");
    push_decimal(&mut out, o.timestamp);
    out.append(" }");
    out
}

/// A command with all its fields.
pub open spec fn command_text(command: Command) -> Seq<char> {
    match command {
        Command::New(order) => "New("@ + order_text(order) + ")"@,
        Command::Cancel { instrument, order_id, cmd_id } => "Cancel { instrument: InstrumentId("@
            + decimal(instrument.0 as nat) + "), order_id: OrderId("@ + decimal(order_id.0 as nat)
            + "), cmd_id: "@ + decimal(cmd_id as nat) + " }"@,
        Command::Modify { instrument, order_id, new_price, new_qty, cmd_id } =>
            "Modify { instrument: InstrumentId("@ + decimal(instrument.0 as nat)
            + "), order_id: OrderId("@ + decimal(order_id.0 as nat) + "), new_price: "@ + decimal(
            new_price as nat,
        ) + ", new_qty: "@ + decimal(new_qty as nat) + ", cmd_id: "@ + decimal(cmd_id as nat)
            + " }"@,
        Command::ForceClose { instrument, user, close_order_id, close_side, close_qty } =>
            "ForceClose { instrument: InstrumentId("@ + decimal(instrument.0 as nat)
            + "), user: "@ + decimal(user as nat) + ", close_order_id: OrderId("@ + decimal(
            close_order_id.0 as nat,
        ) + "), close_side: "@ + side_text(close_side) + ", close_qty: "@ + decimal(
            close_qty as nat,
        ) + " }"@,
    }
}

fn format_command(command: &Command) -> (r: String)
    ensures
        r@ == command_text(*command),
{
    let mut out = String::new();
    match command {
        Command::New(order) => {
            let text = format_order(order);
            out.append("New(");
            assert(out@ =~= "New("@);
            out.append(text.as_str());
            out.append(")");
        },
        Command::Cancel { instrument, order_id, cmd_id } => {
            out.append("Cancel { instrument: InstrumentId(");
            assert(out@ =~= "Cancel { instrument: InstrumentId("@);
            push_decimal(&mut out, instrument.0 as u64);
            out.append("), order_id: OrderId(");
            push_decimal(&mut out, order_id.0);
            out.append("), cmd_id: ");
            push_decimal(&mut out, *cmd_id);
            out.append(" }");
        },
        Command::Modify { instrument, order_id, new_price, new_qty, cmd_id } => {
            out.append("Modify { instrument: InstrumentId(");
            assert(out@ =~= "Modify { instrument: InstrumentId("@);
            push_decimal(&mut out, instrument.0 as u64);
            out.append("), order_id: OrderId(");
            push_decimal(&mut out, order_id.0);
            out.append("), new_price: ");
            push_decimal(&mut out, *new_price);
            out.append(", new_qty: ");
            push_decimal(&mut out, *new_qty);
            out.append(", cmd_id: ");
            push_decimal(&mut out, *cmd_id);
            out.append(" }");
        },
        Command::ForceClose { instrument, user, close_order_id, close_side, close_qty } => {
            out.append("ForceClose { instrument: InstrumentId(");
            assert(out@ =~= "ForceClose { instrument: InstrumentId("@);
            push_decimal(&mut out, instrument.0 as u64);
            out.append("), user: ");
            push_decimal(&mut out, *user);
            out.append(", close_order_id: OrderId(");
            push_decimal(&mut out, close_order_id.0);
            out.append("), close_side: ");
            out.append(side_name(*close_side));
            out.append(", close_qty: ");
            push_decimal(&mut out, *close_qty);
            out.append(" }");
        },
    }
    out
}

/// One line for a journal record, without its end.
pub open spec fn record_text(r: RecordView) -> Seq<char> {
    "seq="@ + decimal(r.seq as nat) + " ts_nanos="@ + decimal(r.ts_nanos as nat) + " "@ + (
    match entry_commands(r.frame) {
        Some(commands) => if commands.len() > 0 {
            command_text(commands.last())
        } else {
            "<undecodable frame>"@
        },
        None => "<undecodable frame>"@,
    })
}

/// One line for a journal record: its number, its time, and its command.
pub fn format_record(record: &Record) -> (r: String)
    ensures
        r@ == record_text(record@),
{
    let mut out = String::new();
    out.append("seq=");
    assert(out@ =~= "seq="@);
    push_decimal(&mut out, record.seq);
    out.append(" ts_nanos=");
    push_decimal(&mut out, record.ts_nanos);
    out.append(" ");
    match decode_raft_entry(record.frame.as_slice()) {
        Some(mut commands) => match commands.pop() {
            Some(command) => {
                let text = format_command(&command);
                out.append(text.as_str());
            },
            None => {
                out.append("<undecodable frame>");
            },
        },
        None => {
            out.append("<undecodable frame>");
        },
    }
    out
}

/// The records that pass a filter.
pub open spec fn selected(records: Seq<RecordView>, filter: DumpFilter) -> Seq<RecordView>
    decreases records.len(),
{
    if records.len() == 0 {
        Seq::empty()
    } else {
        let front = selected(records.drop_last(), filter);
        if filter.passes(records.last().seq, records.last().ts_nanos) {
            front.push(records.last())
        } else {
            front
        }
    }
}

/// One line for each record.
pub open spec fn record_lines(records: Seq<RecordView>) -> Seq<char>
    decreases records.len(),
{
    if records.len() == 0 {
        Seq::empty()
    } else {
        record_lines(records.drop_last()) + record_text(records.last()) + "\n"@
    }
}

/// The lines for the records of a journal that pass a filter, and their number;
/// `None` if the journal is of another format.
pub fn dump_journal(journal: &[u8], filter: &DumpFilter) -> (r: Option<(String, usize)>)
    ensures
        match journal_records(journal@) {
            None => r is None,
            Some(records) => {
                let shown = selected(records, *filter);
                match r {
                    Some((text, count)) => text@ == record_lines(shown) && count == shown.len(),
                    None => false,
                }
            },
        },
{
    let reader = match JournalReader::open(journal) {
        Some(reader) => reader,
        None => {
            return None;
        },
    };
    let records = reader.records();
    let ghost all = views(records@);
    let mut out = String::new();
    let mut written: usize = 0;
    let mut i: usize = 0;
    proof {
        assert(all.take(0) =~= Seq::<RecordView>::empty());
        assert(out@ =~= Seq::<char>::empty());
    }
    while i < records.len()
        invariant
            i <= records@.len(),
            all == views(records@),
            written <= i,
            written == selected(all.take(i as int), *filter).len(),
            out@ == record_lines(selected(all.take(i as int), *filter)),
        decreases records@.len() - i,
    {
        let record = &records[i];
        let ghost before = selected(all.take(i as int), *filter);
        proof {
            assert(all.take(i + 1).drop_last() =~= all.take(i as int));
            assert(all.take(i + 1).last() == record@);
            assert(before.push(record@).drop_last() =~= before);
        }
        if filter.accepts(record.seq, record.ts_nanos) {
            let line = format_record(record);
            out.append(line.as_str());
            out.append("\n");
            written += 1;
        }
        i += 1;
    }
    assert(all.take(i as int) =~= all);
    Some((out, written))
}

/// What verifying a journal found.
#[derive(Clone, Copy, Debug, PartialEq, Eq, Structural)]
pub struct VerifyReport {
    /// Records read before the end or the first corruption.
    pub records: u64,
    pub first_seq: Option<u64>,
    /// Number of the last record that read back.
    pub last_valid_seq: Option<u64>,
    /// Whether the numbers increase by one each.
    pub contiguous: bool,
    /// Number of the record before the first gap.
    pub first_gap_after: Option<u64>,
}

/// The record before the first gap in the numbers.
pub open spec fn first_gap(records: Seq<RecordView>) -> Option<u64>
    decreases records.len(),
{
    if records.len() < 2 {
        None
    } else {
        match first_gap(records.drop_last()) {
            Some(seq) => Some(seq),
            None => {
                let prev = records[records.len() - 2].seq;
                if records.last().seq != prev + 1 {
                    Some(prev)
                } else {
                    None
                }
            },
        }
    }
}

/// What verifying the records of a journal finds.
pub open spec fn verified(records: Seq<RecordView>) -> VerifyReport {
    VerifyReport {
        records: records.len() as u64,
        first_seq: if records.len() > 0 {
            Some(records[0].seq)
        } else {
            None
        },
        last_valid_seq: if records.len() > 0 {
            Some(records.last().seq)
        } else {
            None
        },
        contiguous: first_gap(records) is None,
        first_gap_after: first_gap(records),
    }
}

/// A journal without a gap counts up by one.
pub proof fn law_contiguous_counts_up(records: Seq<RecordView>)
    requires
        first_gap(records) is None,
    ensures
        forall|i: int| 0 <= i < records.len() ==> (#[trigger] records[i]).seq == records[0].seq + i,
    decreases records.len(),
{
    if records.len() >= 2 {
        let front = records.drop_last();
        law_contiguous_counts_up(front);
        assert forall|i: int| 0 <= i < records.len() implies (#[trigger] records[i]).seq
            == records[0].seq + i by {
            if i < front.len() {
                assert(front[i].seq == front[0].seq + i);
            } else {
                assert(front[i - 1].seq == front[0].seq + (i - 1));
                assert(records[records.len() - 2] == front[i - 1]);
            }
        }
    }
}

/// Reads a journal to its first inconsistency; `None` if it is of another format.
pub fn verify_journal(journal: &[u8]) -> (r: Option<VerifyReport>)
    ensures
        r == match journal_records(journal@) {
            None => None,
            Some(records) => Some(verified(records)),
        },
{
    let reader = match JournalReader::open(journal) {
        Some(reader) => reader,
        None => {
            return None;
        },
    };
    let records = reader.records();
    let ghost all = views(records@);
    let n: usize = records.len();
    let mut gap: Option<u64> = None;
    let mut i: usize = 0;
    while i < n
        invariant
            i <= n == records@.len(),
            all == views(records@),
            gap == first_gap(all.take(i as int)),
        decreases n - i,
    {
        proof {
            let next = all.take(i + 1);
            assert(next.drop_last() =~= all.take(i as int));
            assert(next.last() == records@[i as int]@);
            if i > 0 {
                assert(next[next.len() - 2] == records@[i - 1]@);
            }
        }
        if i > 0 && gap.is_none() {
            let prev: u64 = records[i - 1].seq;
            if prev == u64::MAX || records[i].seq != prev + 1 {
                gap = Some(prev);
            }
        }
        i += 1;
    }
    assert(all.take(i as int) =~= all);
    Some(
        VerifyReport {
            records: n as u64,
            first_seq: if n > 0 {
                Some(records[0].seq)
            } else {
                None
            },
            last_valid_seq: if n > 0 {
                Some(records[n - 1].seq)
            } else {
                None
            },
            contiguous: gap.is_none(),
            first_gap_after: gap,
        },
    )
}

/// Where two journals first differ.
#[derive(Clone, Copy, Debug, PartialEq, Eq, Structural)]
pub enum JournalDiff {
    /// They hold the same commands under the same numbers.
    Identical,
    /// The commands with this number differ.
    FrameDiffers { seq: u64 },
    /// Records at the same position have different numbers.
    SeqMismatch { a_seq: u64, b_seq: u64 },
    /// One journal goes on with this record.
    LengthMismatch { at_seq: u64, longer_is_a: bool },
}

/// Where two journals first differ from position `i` on.
pub open spec fn difference(a: Seq<RecordView>, b: Seq<RecordView>, i: int) -> JournalDiff
    decreases a.len() - i,
{
    if i < 0 || (i >= a.len() && i >= b.len()) {
        JournalDiff::Identical
    } else if i >= b.len() {
        JournalDiff::LengthMismatch { at_seq: a[i].seq, longer_is_a: true }
    } else if i >= a.len() {
        JournalDiff::LengthMismatch { at_seq: b[i].seq, longer_is_a: false }
    } else if a[i].seq != b[i].seq {
        JournalDiff::SeqMismatch { a_seq: a[i].seq, b_seq: b[i].seq }
    } else if a[i].frame != b[i].frame {
        JournalDiff::FrameDiffers { seq: a[i].seq }
    } else {
        difference(a, b, i + 1)
    }
}

/// Journals without a difference hold the same commands under the same numbers.
pub proof fn law_identical_journals(a: Seq<RecordView>, b: Seq<RecordView>, i: int)
    requires
        difference(a, b, i) is Identical,
        0 <= i <= a.len(),
        i <= b.len(),
    ensures
        a.len() == b.len(),
        forall|j: int|
            i <= j < a.len() ==> (#[trigger] a[j]).seq == b[j].seq && a[j].frame == b[j].frame,
    decreases a.len() - i,
{
    if i < a.len() && i < b.len() {
        law_identical_journals(a, b, i + 1);
    }
}

/// Finds where two journals first differ; `None` if one is of another format.
pub fn diff_journals(a: &[u8], b: &[u8]) -> (r: Option<JournalDiff>)
    ensures
        r == match (journal_records(a@), journal_records(b@)) {
            (Some(x), Some(y)) => Some(difference(x, y, 0)),
            _ => None,
        },
{
    let left = match JournalReader::open(a) {
        Some(reader) => reader,
        None => {
            return None;
        },
    };
    let right = match JournalReader::open(b) {
        Some(reader) => reader,
        None => {
            return None;
        },
    };
    let x = left.records();
    let y = right.records();
    let ghost (u, v) = (views(x@), views(y@));
    let mut i: usize = 0;
    while i < x.len() && i < y.len()
        invariant
            i <= x@.len(),
            i <= y@.len(),
            u == views(x@),
            v == views(y@),
            journal_records(a@) == Some(u),
            journal_records(b@) == Some(v),
            difference(u, v, i as int) == difference(u, v, 0),
        decreases x@.len() - i,
    {
        if x[i].seq != y[i].seq {
            return Some(JournalDiff::SeqMismatch { a_seq: x[i].seq, b_seq: y[i].seq });
        }
        if !same_bytes(x[i].frame.as_slice(), y[i].frame.as_slice()) {
            return Some(JournalDiff::FrameDiffers { seq: x[i].seq });
        }
        i += 1;
    }
    if i < x.len() {
        Some(JournalDiff::LengthMismatch { at_seq: x[i].seq, longer_is_a: true })
    } else if i < y.len() {
        Some(JournalDiff::LengthMismatch { at_seq: y[i].seq, longer_is_a: false })
    } else {
        Some(JournalDiff::Identical)
    }
}

/// A report with all its fields.
pub open spec fn report_text(r: DecodedReport) -> Seq<char> {
    "type="@ + decimal(r.type_code as nat) + " side="@ + side_text(r.side) + " instrument="@
        + decimal(r.instrument.0 as nat) + " order="@ + decimal(r.order_id.0 as nat) + " aux="@
        + decimal(r.aux_id as nat) + " price="@ + decimal(r.price as nat) + " qty="@ + decimal(
        r.qty as nat,
    ) + " maker_fee="@ + decimal(r.maker_fee as nat) + " taker_fee="@ + decimal(
        r.taker_fee as nat,
    )
}

fn format_report(r: &DecodedReport) -> (out: String)
    ensures
        out@ == report_text(*r),
{
    let mut out = String::new();
    out.append("type=");
    assert(out@ =~= "type="@);
    push_decimal(&mut out, r.type_code as u64);
    out.append(" side=");
    out.append(side_name(r.side));
    out.append(" instrument=");
    push_decimal(&mut out, r.instrument.0 as u64);
    out.append(" order=");
    push_decimal(&mut out, r.order_id.0);
    out.append(" aux=");
    push_decimal(&mut out, r.aux_id);
    out.append(" price=");
    push_decimal(&mut out, r.price);
    out.append(" qty=");
    push_decimal(&mut out, r.qty);
    out.append(" maker_fee=");
    push_decimal(&mut out, r.maker_fee);
    out.append(" taker_fee=");
    push_decimal(&mut out, r.taker_fee);
    out
}

/// One line for an outbox record, without its end.
pub open spec fn outbox_text(r: OutboxView) -> Seq<char> {
    "raft_group="@ + decimal(r.group as nat) + " raft_index="@ + decimal(r.index as nat)
        + " ordinal="@ + decimal(r.ordinal as nat) + " "@ + (match report_of(r.frame) {
        Some(report) => report_text(report),
        None => "<undecodable report>"@,
    })
}

/// One line for an outbox record: its place in the log, and its report.
pub fn format_outbox_record(record: &OutboxRecord) -> (r: String)
    ensures
        r@ == outbox_text(record@),
{
    let mut out = String::new();
    out.append("raft_group=");
    assert(out@ =~= "raft_group="@);
    push_decimal(&mut out, record.raft_group as u64);
    out.append(" raft_index=");
    push_decimal(&mut out, record.raft_index);
    out.append(" ordinal=");
    push_decimal(&mut out, record.ordinal as u64);
    out.append(" ");
    match decode_report(record.report_frame.as_slice()) {
        Some(report) => {
            let text = format_report(&report);
            out.append(text.as_str());
        },
        None => {
            out.append("<undecodable report>");
        },
    }
    out
}

/// The outbox records whose index is within the filter's numbers.
pub open spec fn selected_reports(records: Seq<OutboxView>, filter: DumpFilter) -> Seq<OutboxView>
    decreases records.len(),
{
    if records.len() == 0 {
        Seq::empty()
    } else {
        let front = selected_reports(records.drop_last(), filter);
        if within(records.last().index, filter.from_seq, filter.to_seq) {
            front.push(records.last())
        } else {
            front
        }
    }
}

/// One line for each outbox record.
pub open spec fn outbox_lines(records: Seq<OutboxView>) -> Seq<char>
    decreases records.len(),
{
    if records.len() == 0 {
        Seq::empty()
    } else {
        outbox_lines(records.drop_last()) + outbox_text(records.last()) + "\n"@
    }
}

/// The lines for the records of an outbox whose index is within the filter's
/// numbers, and their number. The filter's times do not matter: outbox records
/// carry none.
pub fn dump_outbox(outbox: &[u8], filter: &DumpFilter) -> (r: Result<(String, usize), OutboxError>)
    ensures
        match r {
            Ok((text, count)) => {
                let shown = selected_reports(outbox_records(outbox@, 8), *filter);
                &&& outbox@.len() >= 8 && outbox@.take(8) == outbox_header()
                &&& text@ == outbox_lines(shown)
                &&& count == shown.len()
            },
            Err(error) => error is Header && !(outbox@.len() >= 8 && outbox@.take(8)
                == outbox_header()),
        },
{
    let reader = match ExecutionOutboxReader::open(outbox) {
        Ok(reader) => reader,
        Err(error) => {
            return Err(error);
        },
    };
    let mut reader = reader;
    let (records, _) = reader.read_available(outbox);
    let ghost all = record_views(records@);
    let mut out = String::new();
    let mut written: usize = 0;
    let mut i: usize = 0;
    proof {
        assert(all.take(0) =~= Seq::<OutboxView>::empty());
        assert(out@ =~= Seq::<char>::empty());
    }
    while i < records.len()
        invariant
            i <= records@.len(),
            all == record_views(records@),
            written <= i,
            written == selected_reports(all.take(i as int), *filter).len(),
            out@ == outbox_lines(selected_reports(all.take(i as int), *filter)),
        decreases records@.len() - i,
    {
        let record = &records[i];
        let ghost before = selected_reports(all.take(i as int), *filter);
        proof {
            assert(all.take(i + 1).drop_last() =~= all.take(i as int));
            assert(all.take(i + 1).last() == record@);
            assert(before.push(record@).drop_last() =~= before);
        }
        if is_within(record.raft_index, filter.from_seq, filter.to_seq) {
            let line = format_outbox_record(record);
            out.append(line.as_str());
            out.append("\n");
            written += 1;
        }
        i += 1;
    }
    assert(all.take(i as int) =~= all);
    Ok((out, written))
}

/// An optional number.
pub open spec fn option_text(v: Option<u64>) -> Seq<char> {
    match v {
        Some(n) => "Some("@ + decimal(n as nat) + ")"@,
        None => "None"@,
    }
}

fn format_option(v: Option<u64>) -> (r: String)
    ensures
        r@ == option_text(v),
{
    let mut out = String::new();
    match v {
        Some(n) => {
            out.append("Some(");
            assert(out@ =~= "Some("@);
            push_decimal(&mut out, n);
            out.append(")");
        },
        None => {
            out.append("None");
            assert(out@ =~= "None"@);
        },
    }
    out
}

/// The line for what verifying a journal found.
pub open spec fn verify_text(r: VerifyReport) -> Seq<char> {
    "records="@ + decimal(r.records as nat) + " first_seq="@ + option_text(r.first_seq)
        + " last_valid_seq="@ + option_text(r.last_valid_seq) + " contiguous="@ + (
    if r.contiguous {
        "true"@
    } else {
        "false"@
    }) + " first_gap_after="@ + option_text(r.first_gap_after) + "\n"@
}

/// The line for what verifying a journal found.
pub fn format_verify(report: &VerifyReport) -> (r: String)
    ensures
        r@ == verify_text(*report),
{
    let first = format_option(report.first_seq);
    let last = format_option(report.last_valid_seq);
    let gap = format_option(report.first_gap_after);
    let mut out = String::new();
    out.append("records=");
    assert(out@ =~= "records="@);
    push_decimal(&mut out, report.records);
    out.append(" first_seq=");
    out.append(first.as_str());
    out.append(" last_valid_seq=");
    out.append(last.as_str());
    out.append(" contiguous=");
    if report.contiguous {
        out.append("true");
    } else {
        out.append("false");
    }
    out.append(" first_gap_after=");
    out.append(gap.as_str());
    out.append("\n");
    out
}

/// The line for the difference of two journals.
pub open spec fn diff_text(diff: JournalDiff) -> Seq<char> {
    match diff {
        JournalDiff::Identical => "identical\n"@,
        JournalDiff::FrameDiffers { seq } => "diverges: frame differs at seq="@ + decimal(
            seq as nat,
        ) + "\n"@,
        JournalDiff::SeqMismatch { a_seq, b_seq } => "diverges: seq mismatch a="@ + decimal(
            a_seq as nat,
        ) + " b="@ + decimal(b_seq as nat) + "\n"@,
        JournalDiff::LengthMismatch { at_seq, longer_is_a } => "diverges: length mismatch, "@ + (
        if longer_is_a {
            "path"@
        } else {
            "path2"@
        }) + " has extra record at seq="@ + decimal(at_seq as nat) + "\n"@,
    }
}

/// The line for the difference of two journals.
pub fn format_diff(diff: &JournalDiff) -> (r: String)
    ensures
        r@ == diff_text(*diff),
{
    let mut out = String::new();
    match diff {
        JournalDiff::Identical => {
            out.append("identical\n");
            assert(out@ =~= "identical\n"@);
        },
        JournalDiff::FrameDiffers { seq } => {
            out.append("diverges: frame differs at seq=");
            assert(out@ =~= "diverges: frame differs at seq="@);
            push_decimal(&mut out, *seq);
            out.append("\n");
        },
        JournalDiff::SeqMismatch { a_seq, b_seq } => {
            out.append("diverges: seq mismatch a=");
            assert(out@ =~= "diverges: seq mismatch a="@);
            push_decimal(&mut out, *a_seq);
            out.append(" b=");
            push_decimal(&mut out, *b_seq);
            out.append("\n");
        },
        JournalDiff::LengthMismatch { at_seq, longer_is_a } => {
            out.append("diverges: length mismatch, ");
            assert(out@ =~= "diverges: length mismatch, "@);
            if *longer_is_a {
                out.append("path");
            } else {
                out.append("path2");
            }
            out.append(" has extra record at seq=");
            push_decimal(&mut out, *at_seq);
            out.append("\n");
        },
    }
    out
}

/// What the command line asks for. Paths are given by their position on it.
#[derive(Clone, Copy, Debug)]
pub struct Args {
    pub path: Option<usize>,
    pub path2: Option<usize>,
    pub outbox: bool,
    pub filter: DumpFilter,
}

/// Why a command line is refused; `at` is the position of the flag.
#[derive(Clone, Copy, Debug, PartialEq, Eq, Structural)]
pub enum ArgError {
    /// There is no sub-command.
    MissingCommand,
    /// The flag needs a value.
    MissingValue { at: usize },
    /// The flag's value is no number.
    NotANumber { at: usize },
    /// There is no such flag.
    UnknownFlag { at: usize },
}

/// A number on the command line.
pub open spec fn arg_number(args: Seq<String>, at: int) -> Option<u64> {
    match number(args[at]@) {
        Some(n) => if n <= u64::MAX {
            Some(n as u64)
        } else {
            None
        },
        None => None,
    }
}

/// The flags from `at` on, added to what was read before.
pub open spec fn flags_from(args: Seq<String>, at: int, acc: Args) -> Result<Args, ArgError>
    decreases args.len() - at,
{
    if at < 0 || at >= args.len() {
        Ok(acc)
    } else {
        let flag = args[at]@;
        let here = at as usize;
        if flag == "--outbox"@ {
            flags_from(args, at + 1, Args { outbox: true, ..acc })
        } else if !(flag == "--path"@ || flag == "--path2"@ || flag == "--from-seq"@ || flag
            == "--to-seq"@ || flag == "--from-ts"@ || flag == "--to-ts"@) {
            Err(ArgError::UnknownFlag { at: here })
        } else if at + 1 >= args.len() {
            Err(ArgError::MissingValue { at: here })
        } else if flag == "--path"@ {
            flags_from(args, at + 2, Args { path: Some((at + 1) as usize), ..acc })
        } else if flag == "--path2"@ {
            flags_from(args, at + 2, Args { path2: Some((at + 1) as usize), ..acc })
        } else {
            match arg_number(args, at + 1) {
                None => Err(ArgError::NotANumber { at: here }),
                Some(n) => {
                    let filter = if flag == "--from-seq"@ {
                        DumpFilter { from_seq: Some(n), ..acc.filter }
                    } else if flag == "--to-seq"@ {
                        DumpFilter { to_seq: Some(n), ..acc.filter }
                    } else if flag == "--from-ts"@ {
                        DumpFilter { from_ts: Some(n), ..acc.filter }
                    } else {
                        DumpFilter { to_ts: Some(n), ..acc.filter }
                    };
                    flags_from(args, at + 2, Args { filter, ..acc })
                },
            }
        }
    }
}

/// Reads a command line: a sub-command, which is its first word, and flags.
pub fn parse_args(args: &Vec<String>) -> (r: Result<Args, ArgError>)
    ensures
        r == if args@.len() == 0 {
            Err(ArgError::MissingCommand)
        } else {
            flags_from(
                args@,
                1,
                (Args {
                    path: None,
                    path2: None,
                    outbox: false,
                    filter: DumpFilter {
                        from_seq: None,
                        to_seq: None,
                        from_ts: None,
                        to_ts: None,
                    },
                }),
            )
        },
{
    let n: usize = args.len();
    if n == 0 {
        return Err(ArgError::MissingCommand);
    }
    let mut acc = Args {
        path: None,
        path2: None,
        outbox: false,
        filter: DumpFilter { from_seq: None, to_seq: None, from_ts: None, to_ts: None },
    };
    let ghost whole = flags_from(args@, 1, acc);
    let mut at: usize = 1;
    while at < n
        invariant
            1 <= at,
            n == args@.len(),
            n > 0,
            whole == flags_from(
                args@,
                1,
                (Args {
                    path: None,
                    path2: None,
                    outbox: false,
                    filter: DumpFilter {
                        from_seq: None,
                        to_seq: None,
                        from_ts: None,
                        to_ts: None,
                    },
                }),
            ),
            flags_from(args@, at as int, acc) == whole,
        decreases n - at,
    {
        let chars = chars_of(args[at].as_str());
        let flag = chars.as_slice();
        if is_text(flag, "--outbox") {
            acc.outbox = true;
            at += 1;
        } else {
            let path: bool = is_text(flag, "--path");
            let path2: bool = is_text(flag, "--path2");
            let from_seq: bool = is_text(flag, "--from-seq");
            let to_seq: bool = is_text(flag, "--to-seq");
            let from_ts: bool = is_text(flag, "--from-ts");
            let to_ts: bool = is_text(flag, "--to-ts");
            if !(path || path2 || from_seq || to_seq || from_ts || to_ts) {
                return Err(ArgError::UnknownFlag { at });
            }
            if n - at < 2 {
                return Err(ArgError::MissingValue { at });
            }
            if path {
                acc.path = Some(at + 1);
            } else if path2 {
                acc.path2 = Some(at + 1);
            } else {
                let value = chars_of(args[at + 1].as_str());
                let v: u64 = match parse_number(value.as_slice(), u64::MAX) {
                    Some(v) => v,
                    None => {
                        return Err(ArgError::NotANumber { at });
                    },
                };
                if from_seq {
                    acc.filter.from_seq = Some(v);
                } else if to_seq {
                    acc.filter.to_seq = Some(v);
                } else if from_ts {
                    acc.filter.from_ts = Some(v);
                } else {
                    acc.filter.to_ts = Some(v);
                }
            }
            at += 2;
        }
    }
    Ok(acc)
}

/// What is dumped are the records within the bounds, both of which belong to them, in the
/// order of the journal.
pub proof fn law_dumps_keep_to_the_bounds(records: Seq<RecordView>, filter: DumpFilter)
    ensures
        selected(records, filter) == records.filter(
            |r: RecordView|
                {
                    &&& filter.from_seq is Some ==> filter.from_seq->0 <= r.seq
                    &&& filter.to_seq is Some ==> r.seq <= filter.to_seq->0
                    &&& filter.from_ts is Some ==> filter.from_ts->0 <= r.ts_nanos
                    &&& filter.to_ts is Some ==> r.ts_nanos <= filter.to_ts->0
                },
        ),
    decreases records.len(),
{
    reveal(Seq::filter);
    if records.len() > 0 {
        law_dumps_keep_to_the_bounds(records.drop_last(), filter);
    }
}

/// Dumped reports are those whose index is within the bounds, in the order of the outbox.
pub proof fn law_dumped_reports_keep_to_the_bounds(records: Seq<OutboxView>, filter: DumpFilter)
    ensures
        selected_reports(records, filter) == records.filter(
            |r: OutboxView|
                {
                    &&& filter.from_seq is Some ==> filter.from_seq->0 <= r.index
                    &&& filter.to_seq is Some ==> r.index <= filter.to_seq->0
                },
        ),
    decreases records.len(),
{
    reveal(Seq::filter);
    if records.len() > 0 {
        law_dumped_reports_keep_to_the_bounds(records.drop_last(), filter);
    }
}

/// A gap that is reported stands behind the number that it is reported with, and there is
/// none before it.
pub proof fn law_the_first_gap_is_reported(records: Seq<RecordView>) -> (k: int)
    requires
        first_gap(records) is Some,
    ensures
        0 <= k < records.len() - 1,
        records[k].seq == first_gap(records)->0,
        records[k + 1].seq != records[k].seq + 1,
        forall|j: int| 0 <= j <= k ==> (#[trigger] records[j]).seq == records[0].seq + j,
    decreases records.len(),
{
    let front = records.drop_last();
    assert(forall|j: int| 0 <= j < front.len() ==> (#[trigger] records[j]) == front[j]);
    if first_gap(front) is Some {
        law_the_first_gap_is_reported(front)
    } else {
        law_contiguous_counts_up(front);
        records.len() - 2
    }
}

/// Two journals hold the same number and the same command at a position.
pub open spec fn agree(a: Seq<RecordView>, b: Seq<RecordView>, j: int) -> bool {
    a[j].seq == b[j].seq && a[j].frame == b[j].frame
}

/// The difference that is reported is the first one: up to it the journals agree, and at it
/// they differ in what is reported.
pub proof fn law_the_first_difference_is_reported(
    a: Seq<RecordView>,
    b: Seq<RecordView>,
    i: int,
) -> (k: int)
    requires
        0 <= i <= a.len(),
        i <= b.len(),
        forall|j: int| 0 <= j < i ==> #[trigger] agree(a, b, j),
    ensures
        0 <= k <= a.len(),
        k <= b.len(),
        forall|j: int| 0 <= j < k ==> #[trigger] agree(a, b, j),
        match difference(a, b, i) {
            JournalDiff::Identical => k == a.len() && k == b.len(),
            JournalDiff::LengthMismatch { at_seq, longer_is_a } => if longer_is_a {
                k == b.len() && k < a.len() && a[k].seq == at_seq
            } else {
                k == a.len() && k < b.len() && b[k].seq == at_seq
            },
            JournalDiff::SeqMismatch { a_seq, b_seq } => {
                &&& k < a.len() && k < b.len()
                &&& a[k].seq == a_seq && b[k].seq == b_seq && a_seq != b_seq
            },
            JournalDiff::FrameDiffers { seq } => {
                &&& k < a.len() && k < b.len()
                &&& a[k].seq == seq && b[k].seq == seq && a[k].frame != b[k].frame
            },
        },
    decreases a.len() - i,
{
    if i < a.len() && i < b.len() && agree(a, b, i) {
        law_the_first_difference_is_reported(a, b, i + 1)
    } else {
        i
    }
}

} // verus!
