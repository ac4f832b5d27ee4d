//! Publishing what an execution outbox holds: a look at one outbox, step by step.
//!
//! A look ends in an outcome, of which the metrics take note. Only when every
//! message of a batch was taken, and that is on record, does the reader move on;
//! in every other case the same records are sent again.

use vstd::prelude::*;

use crate::codec::be;
use crate::execution_outbox::{
    first, outbox_records, record_views, ExecutionOutboxReader, OutboxRecord, OutboxView,
};
use crate::runtime::PublishOutcome;
use crate::settings::{env_number, numeric, setting};
use crate::wire::{decode_report, event_payload, report_of};

verus! {

/// An execution event as it is sent.
#[derive(Debug)]
pub struct EventMessage {
    pub key: Vec<u8>,
    pub payload: Vec<u8>,
}

/// What an [`EventMessage`] holds.
#[verifier::ext_equal]
pub struct EventMessageView {
    pub key: Seq<u8>,
    pub payload: Seq<u8>,
}

impl View for EventMessage {
    type V = EventMessageView;

    open spec fn view(&self) -> EventMessageView {
        EventMessageView { key: self.key@, payload: self.payload@ }
    }
}

/// What `list` holds, message by message.
pub open spec fn event_views(list: Seq<EventMessage>) -> Seq<EventMessageView> {
    Seq::new(list.len(), |i: int| list[i]@)
}

/// The message of a record that holds a report: its key is the order's id.
pub open spec fn event_of_record(r: OutboxView) -> EventMessageView {
    EventMessageView {
        key: be(report_of(r.frame)->0.order_id.0 as nat, 8),
        payload: event_payload(r.group, r.index, r.ordinal, r.frame),
    }
}

/// Every record holds a report.
pub open spec fn all_reports(records: Seq<OutboxView>) -> bool {
    forall|i: int| 0 <= i < records.len() ==> report_of((#[trigger] records[i]).frame) is Some
}

/// The records that a look finds: the next ones of the file, at most `max` of
/// them, and none in a file that has been deleted.
pub open spec fn found(position: u64, content: Option<Seq<u8>>, max: nat) -> Seq<OutboxView> {
    match content {
        Some(bytes) => if position <= bytes.len() {
            first(outbox_records(bytes, position as int), max)
        } else {
            Seq::empty()
        },
        None => Seq::empty(),
    }
}

/// What a look at an outbox asks for.
#[derive(Debug)]
pub enum Look {
    /// It is over.
    Over(PublishOutcome),
    /// These messages are to be sent.
    Send(Vec<EventMessage>),
    /// A record holds no report.
    Corrupt,
}

fn messages(records: &Vec<OutboxRecord>, category_size: u32) -> (r: Option<Vec<EventMessage>>)
    ensures
        match r {
            Some(list) => all_reports(record_views(records@)) && event_views(list@)
                == record_views(records@).map_values(|r: OutboxView| event_of_record(r)),
            None => !all_reports(record_views(records@)),
        },
{
    let ghost all = record_views(records@);
    let mut out: Vec<EventMessage> = Vec::new();
    let mut i: usize = 0;
    while i < records.len()
        invariant
            i <= records@.len(),
            all == record_views(records@),
            out@.len() == i,
            forall|k: int|
                0 <= k < i ==> report_of((#[trigger] all[k]).frame) is Some && out@[k]@
                    == event_of_record(all[k]),
        decreases records@.len() - i,
    {
        let record = records[i];
        assert(all[i as int] == record@);
        if decode_report(record.report_frame.as_slice()).is_none() {
            return None;
        }
        let key = record.kafka_key(category_size);
        let payload = record.kafka_payload();
        let message = EventMessage { key, payload };
        assert(message@ =~= event_of_record(all[i as int]));
        out.push(message);
        i += 1;
    }
    assert(event_views(out@) =~= all.map_values(|r: OutboxView| event_of_record(r)));
    Some(out)
}

/// Looks at an outbox. A node that does not lead keeps the outbox and publishes
/// nothing. `readable` tells whether the file could be read or was found deleted,
/// `content` what it holds.
pub fn look(
    leader: bool,
    readable: bool,
    reader: &ExecutionOutboxReader,
    content: Option<&[u8]>,
    max_records: usize,
    category_size: u32,
) -> (r: Look)
    ensures
        ({
            let records = found(
                reader.position(),
                match content {
                    Some(bytes) => Some(bytes@),
                    None => None,
                },
                max_records as nat,
            );
            match r {
                Look::Over(PublishOutcome::Follower) => !leader,
                Look::Over(PublishOutcome::ReadFailed) => leader && !readable,
                Look::Over(PublishOutcome::Idle) => leader && readable && records.len() == 0,
                Look::Over(_) => false,
                Look::Send(list) => {
                    &&& leader && readable && records.len() > 0
                    &&& all_reports(records)
                    &&& event_views(list@) == records.map_values(
                        |r: OutboxView| event_of_record(r),
                    )
                },
                Look::Corrupt => leader && readable && !all_reports(records),
            }
        }),
{
    if !leader {
        return Look::Over(PublishOutcome::Follower);
    }
    if !readable {
        return Look::Over(PublishOutcome::ReadFailed);
    }
    let records = reader.read_batch(content, max_records);
    assert(record_views(records@).len() == records@.len());
    if records.len() == 0 {
        return Look::Over(PublishOutcome::Idle);
    }
    match messages(&records, category_size) {
        Some(list) => Look::Send(list),
        None => Look::Corrupt,
    }
}

/// What is to be done once the messages were sent.
#[derive(Debug)]
pub enum Settlement {
    /// Not all were taken.
    NotAcknowledged,
    /// They cannot be acknowledged.
    Refused,
    /// The reader goes on as `next` once the cursor, if there is one, is stored.
    Acknowledged { next: ExecutionOutboxReader, cursor: Option<Vec<u8>> },
}

/// Every delivery succeeded.
pub open spec fn all_taken(deliveries: Seq<bool>) -> bool {
    forall|i: int| 0 <= i < deliveries.len() ==> #[trigger] deliveries[i]
}

/// Settles a batch, one of `deliveries` for each of its messages. The file has
/// `len` bytes.
pub fn settle_batch(reader: &ExecutionOutboxReader, deliveries: &[bool], len: u64) -> (r: Settlement)
    ensures
        ({
            let next_position = reader.position() + 80 * deliveries@.len();
            match r {
                Settlement::NotAcknowledged => !all_taken(deliveries@),
                Settlement::Refused => all_taken(deliveries@) && deliveries@.len() > 0
                    && next_position > len,
                Settlement::Acknowledged { next, cursor } => {
                    &&& all_taken(deliveries@)
                    &&& deliveries@.len() > 0 ==> next_position <= len
                    &&& next.position() == next_position
                    &&& next.persistent() == reader.persistent()
                    &&& cursor is Some <==> deliveries@.len() > 0 && reader.persistent()
                    &&& cursor matches Some(bytes) ==> bytes@
                        == crate::execution_outbox::cursor_of(next.position())
                },
            }
        }),
{
    let mut i: usize = 0;
    while i < deliveries.len()
        invariant
            i <= deliveries@.len(),
            forall|k: int| 0 <= k < i ==> #[trigger] deliveries@[k],
        decreases deliveries@.len() - i,
    {
        if !deliveries[i] {
            return Settlement::NotAcknowledged;
        }
        i += 1;
    }
    let mut next = *reader;
    match next.acknowledge(deliveries.len(), len) {
        Ok(cursor) => Settlement::Acknowledged { next, cursor },
        Err(_) => Settlement::Refused,
    }
}

/// Ends a look. `stored` tells whether the cursor, if there was one, is on disk.
/// The reader moves on only when the batch counts as published.
pub fn conclude(
    reader: &mut ExecutionOutboxReader,
    settlement: Settlement,
    stored: bool,
    records: u64,
    elapsed_ns: u64,
) -> (r: PublishOutcome)
    ensures
        match settlement {
            Settlement::NotAcknowledged => r is NotAcknowledged && *final(reader) == *old(reader),
            Settlement::Refused => r == (PublishOutcome::CursorFailed { elapsed_ns })
                && *final(reader) == *old(reader),
            Settlement::Acknowledged { next, cursor } => if cursor is None || stored {
                &&& r == (PublishOutcome::Published { records, elapsed_ns })
                &&& *final(reader) == next
            } else {
                &&& r == (PublishOutcome::CursorFailed { elapsed_ns })
                &&& *final(reader) == *old(reader)
            },
        },
        !(r is Published) ==> *final(reader) == *old(reader),
{
    match settlement {
        Settlement::NotAcknowledged => PublishOutcome::NotAcknowledged,
        Settlement::Refused => PublishOutcome::CursorFailed { elapsed_ns },
        Settlement::Acknowledged { next, cursor } => {
            if cursor.is_none() || stored {
                *reader = next;
                PublishOutcome::Published { records, elapsed_ns }
            } else {
                PublishOutcome::CursorFailed { elapsed_ns }
            }
        },
    }
}

/// Nothing in an outbox is left out or published twice by looks that succeed:
/// what the look after one that sent `n` records finds begins with the record
/// after them.
pub proof fn law_looks_go_through_the_outbox(bytes: Seq<u8>, position: u64, max: nat, n: nat)
    requires
        8 <= position <= bytes.len() <= u64::MAX,
        n == found(position, Some(bytes), max).len(),
    ensures
        position + 80 * n <= bytes.len(),
        found((position + 80 * n) as u64, Some(bytes), max) == first(
            outbox_records(bytes, position as int).skip(n as int),
            max,
        ),
        found(position, Some(bytes), max) == outbox_records(bytes, position as int).take(n as int),
{
    let all = outbox_records(bytes, position as int);
    assert(n <= all.len());
    crate::execution_outbox::law_acknowledged_records_are_passed(bytes, position as int, n);
    assert(found(position, Some(bytes), max) =~= all.take(n as int));
}

/// Records that a publisher takes together: 512, unless the setting says
/// otherwise, and never none or more than 10000.
pub fn publish_batch_size(value: Option<&str>) -> (r: usize)
    ensures
        ({
            let asked = numeric(setting(value), 512, usize::MAX as u64);
            r == if asked < 1 {
                1
            } else if asked > 10_000 {
                10_000
            } else {
                asked as int
            }
        }),
{
    let asked: u64 = env_number(value, 512, usize::MAX as u64);
    if asked < 1 {
        1
    } else if asked > 10_000 {
        10_000
    } else {
        asked as usize
    }
}

/// The message of a record is keyed by the order that its report is about, and reads back as
/// the report with its place in the log.
pub proof fn law_messages_read_back(r: OutboxView)
    requires
        report_of(r.frame) is Some,
    ensures
        ({
            let m = event_of_record(r);
            let e = crate::wire::event_of(m.payload);
            &&& crate::codec::from_be(m.key) == report_of(r.frame)->0.order_id.0
            &&& e is Some
            &&& e->0.report == report_of(r.frame)->0
            &&& e->0.raft_group == r.group && e->0.raft_index == r.index && e->0.ordinal == r.ordinal
        }),
{
    crate::codec::lemma_pow256();
    crate::codec::law_bytes_round_trip(report_of(r.frame)->0.order_id.0 as nat, 8);
    crate::wire::law_event_round_trip(r.group, r.index, r.ordinal, r.frame);
}

} // verus!
