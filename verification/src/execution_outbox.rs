//! The execution outbox: reports that wait to be published, in the order in
//! which they were produced.
//!
//! Records are durable before the application watermark moves past them. On
//! recovery the outbox is cut back to the watermark, so the batches that are
//! applied again append their reports exactly once. A publisher's cursor moves
//! only past records that the broker acknowledged.

use vstd::prelude::*;
use vstd::string::StringExecFns;

use crate::codec::{
    fnv, from_le, get_le, has_at, law_bytes_round_trip, le, lemma_le_len, lemma_pow256, put_be,
    put_le, put_slice,
};
use crate::exchange::ExecReport;
use crate::record::{
    bodies, intact, intact_at, law_log_reads_back, lemma_bodies_step, lemma_bodies_take,
    lemma_sealed, log_of, seal, sealed,
};
use crate::text::{
    chars_of, is_text, number, padded, parse_number, push_padded, has_prefix, strip_prefix,
};
use crate::wire::{
    decode_report, encode_report, event_payload, report_frame, report_of, EXECUTION_EVENT_LEN,
    REPORT_LEN,
};

verus! {

/// First bytes of an outbox file.
pub const OUTBOX_HEADER: [u8; 8] = [84, 67, 69, 88, 1, 0, 0, 0];

/// Size of a record.
pub const OUTBOX_RECORD_LEN: usize = 80;

/// First bytes of a cursor file.
pub const CURSOR_HEADER: [u8; 8] = [84, 67, 69, 67, 1, 0, 0, 0];

/// Size of a cursor file.
pub const CURSOR_LEN: usize = 24;

/// The bytes `TCEX`, version 1.
pub open spec fn outbox_header() -> Seq<u8> {
    seq![84u8, 67, 69, 88, 1, 0, 0, 0]
}

/// The bytes `TCEC`, version 1.
pub open spec fn cursor_header() -> Seq<u8> {
    seq![84u8, 67, 69, 67, 1, 0, 0, 0]
}

/// One report with its place in the replicated log.
#[derive(Clone, Copy, Debug, PartialEq, Eq)]
pub struct OutboxRecord {
    pub raft_group: u32,
    pub raft_index: u64,
    pub ordinal: u32,
    pub report_frame: [u8; REPORT_LEN],
}

/// What an [`OutboxRecord`] holds.
#[verifier::ext_equal]
pub struct OutboxView {
    pub group: u32,
    pub index: u64,
    pub ordinal: u32,
    pub frame: Seq<u8>,
}

impl View for OutboxRecord {
    type V = OutboxView;

    open spec fn view(&self) -> OutboxView {
        OutboxView {
            group: self.raft_group,
            index: self.raft_index,
            ordinal: self.ordinal,
            frame: self.report_frame@,
        }
    }
}

/// The body of a record.
pub open spec fn outbox_body(r: OutboxView) -> Seq<u8> {
    le(r.group as nat, 4) + le(r.index as nat, 8) + le(r.ordinal as nat, 4) + r.frame
}

/// The record in a body.
pub open spec fn outbox_in(body: Seq<u8>) -> OutboxView {
    OutboxView {
        group: from_le(body.subrange(0, 4)) as u32,
        index: from_le(body.subrange(4, 12)) as u64,
        ordinal: from_le(body.subrange(12, 16)) as u32,
        frame: body.subrange(16, 72),
    }
}

/// The records of an outbox file from `offset` on, up to the first one that is
/// torn or corrupt.
pub open spec fn outbox_records(bytes: Seq<u8>, offset: int) -> Seq<OutboxView> {
    bodies(bytes.skip(offset), OUTBOX_RECORD_LEN as nat).map_values(|b: Seq<u8>| outbox_in(b))
}

/// The file that holds `records`.
pub open spec fn outbox_of(records: Seq<OutboxView>) -> Seq<u8> {
    outbox_header() + log_of(records.map_values(|r: OutboxView| outbox_body(r)))
}

proof fn lemma_outbox_body(r: OutboxView)
    requires
        r.frame.len() == REPORT_LEN,
    ensures
        outbox_body(r).len() == 72,
        outbox_in(outbox_body(r)) == r,
{
    lemma_le_len(r.group as nat, 4);
    lemma_le_len(r.index as nat, 8);
    lemma_le_len(r.ordinal as nat, 4);
    lemma_pow256();
    law_bytes_round_trip(r.group as nat, 4);
    law_bytes_round_trip(r.index as nat, 8);
    law_bytes_round_trip(r.ordinal as nat, 4);
    let body = outbox_body(r);
    assert(body.subrange(0, 4) =~= le(r.group as nat, 4));
    assert(body.subrange(4, 12) =~= le(r.index as nat, 8));
    assert(body.subrange(12, 16) =~= le(r.ordinal as nat, 4));
    assert(body.subrange(16, 72) =~= r.frame);
}

/// An outbox reads back as what was appended, even when it ends in a record that
/// was only partly written.
pub proof fn law_outbox_reads_back(records: Seq<OutboxView>, torn: Seq<u8>)
    requires
        forall|i: int| 0 <= i < records.len() ==> (#[trigger] records[i]).frame.len() == REPORT_LEN,
        torn.len() < OUTBOX_RECORD_LEN,
    ensures
        outbox_records(outbox_of(records) + torn, 8) == records,
{
    let list = records.map_values(|r: OutboxView| outbox_body(r));
    assert forall|i: int| 0 <= i < list.len() implies (#[trigger] list[i]).len() == 72 by {
        lemma_outbox_body(records[i]);
    }
    law_log_reads_back(list, torn, OUTBOX_RECORD_LEN as nat);
    assert((outbox_of(records) + torn).skip(8) =~= log_of(list) + torn);
    assert forall|i: int| 0 <= i < list.len() implies outbox_in(#[trigger] list[i])
        == records[i] by {
        lemma_outbox_body(records[i]);
    }
    assert(outbox_records(outbox_of(records) + torn, 8) =~= records);
}

impl OutboxRecord {
    /// Key of the published event: the order id, so that an order's events stay
    /// in order.
    pub fn kafka_key(&self, _category_size: u32) -> (r: Vec<u8>)
        requires
            report_of(self.report_frame@) is Some,
        ensures
            r@ == crate::codec::be(report_of(self.report_frame@)->0.order_id.0 as nat, 8),
    {
        let mut out: Vec<u8> = Vec::new();
        if let Some(report) = decode_report(self.report_frame.as_slice()) {
            put_be(&mut out, report.order_id.0, 8);
            assert(out@ =~= crate::codec::be(report.order_id.0 as nat, 8));
        }
        out
    }

    /// Payload of the published event.
    pub fn kafka_payload(&self) -> (r: Vec<u8>)
        ensures
            r@ == event_payload(
                self.raft_group,
                self.raft_index,
                self.ordinal,
                self.report_frame@,
            ),
            r@.len() == EXECUTION_EVENT_LEN,
    {
        let mut out: Vec<u8> = Vec::new();
        out.push(69);
        out.push(88);
        out.push(48);
        out.push(49);
        put_le(&mut out, 1, 4);
        put_le(&mut out, self.raft_group as u64, 4);
        put_le(&mut out, 0, 4);
        put_le(&mut out, self.raft_index, 8);
        put_le(&mut out, self.ordinal as u64, 4);
        put_le(&mut out, 0, 4);
        assert(self.report_frame@.subrange(0, REPORT_LEN as int) =~= self.report_frame@);
        put_slice(&mut out, self.report_frame.as_slice(), 0, REPORT_LEN);
        proof {
            lemma_le_len(1, 4);
            lemma_le_len(0, 4);
            lemma_le_len(self.raft_group as nat, 4);
            lemma_le_len(self.raft_index as nat, 8);
            lemma_le_len(self.ordinal as nat, 4);
            assert(out@ =~= event_payload(
                self.raft_group,
                self.raft_index,
                self.ordinal,
                self.report_frame@,
            ));
        }
        out
    }
}

/// Reads the record that starts at `at`.
fn read_record(bytes: &[u8], at: usize) -> (r: OutboxRecord)
    requires
        at + OUTBOX_RECORD_LEN <= bytes@.len(),
    ensures
        r@ == outbox_in(bytes@.subrange(at as int, at + 72)),
{
    let size: usize = bytes.len();
    let ghost body = bytes@.subrange(at as int, at + 72);
    proof {
        assert(body.subrange(0, 4) =~= bytes@.subrange(at as int, at + 4));
        assert(body.subrange(4, 12) =~= bytes@.subrange(at + 4, at + 12));
        assert(body.subrange(12, 16) =~= bytes@.subrange(at + 12, at + 16));
    }
    let raft_group: u32 = get_le(bytes, at, 4) as u32;
    let raft_index: u64 = get_le(bytes, at + 4, 8);
    let ordinal: u32 = get_le(bytes, at + 12, 4) as u32;
    let mut frame: [u8; REPORT_LEN] = [0;REPORT_LEN];
    let mut i: usize = 0;
    while i < REPORT_LEN
        invariant
            i <= REPORT_LEN,
            size == bytes@.len(),
            at + OUTBOX_RECORD_LEN <= size,
            frame@.len() == REPORT_LEN,
            forall|j: int| 0 <= j < i ==> #[trigger] frame@[j] == bytes@[at + 16 + j],
        decreases REPORT_LEN - i,
    {
        frame[i] = bytes[at + 16 + i];
        i += 1;
    }
    assert(frame@ =~= body.subrange(16, 72));
    OutboxRecord { raft_group, raft_index, ordinal, report_frame: frame }
}

/// What records hold.
pub open spec fn record_views(records: Seq<OutboxRecord>) -> Seq<OutboxView> {
    Seq::new(records.len(), |i: int| records[i]@)
}

/// The first `max` of `records`.
pub open spec fn first(records: Seq<OutboxView>, max: nat) -> Seq<OutboxView> {
    if records.len() <= max {
        records
    } else {
        records.take(max as int)
    }
}

/// Records from the front whose index is covered by the watermark.
pub open spec fn covered(records: Seq<OutboxView>, watermark: Option<u64>) -> nat
    decreases records.len(),
{
    if records.len() == 0 || watermark is None || records[0].index > watermark->0 {
        0
    } else {
        1 + covered(records.skip(1), watermark)
    }
}

proof fn lemma_covered_bound(records: Seq<OutboxView>, watermark: Option<u64>)
    ensures
        covered(records, watermark) <= records.len(),
    decreases records.len(),
{
    if records.len() > 0 {
        lemma_covered_bound(records.skip(1), watermark);
    }
}

/// What reading an outbox can fail with.
#[derive(Clone, Copy, Debug, PartialEq, Eq, Structural)]
pub enum OutboxError {
    /// The file is of another format or version.
    Header,
    /// The cursor file is of another format or version.
    CursorHeader,
    /// The cursor is corrupt or ahead of the file.
    Cursor,
    /// The cursor cannot move that far.
    CursorOverflow,
    /// More records acknowledged than there are.
    BeyondEnd,
}

/// One more record from `at` on.
proof fn lemma_records_step(bytes: Seq<u8>, at: int)
    requires
        0 <= at <= bytes.len(),
    ensures
        ({
            let here = at + 80 <= bytes.len() && intact(bytes.subrange(at, at + 80));
            &&& here ==> outbox_records(bytes, at) == seq![outbox_in(bytes.subrange(at, at + 72))]
                + outbox_records(bytes, at + 80)
            &&& !here ==> outbox_records(bytes, at) == Seq::<OutboxView>::empty()
        }),
{
    let f = |b: Seq<u8>| outbox_in(b);
    lemma_bodies_step(bytes, at, 80);
    if at + 80 <= bytes.len() && intact(bytes.subrange(at, at + 80)) {
        let body = bytes.subrange(at, at + 72);
        let rest = bodies(bytes.skip(at + 80), 80);
        assert((seq![body] + rest).map_values(f) =~= seq![outbox_in(body)] + rest.map_values(f));
    } else {
        assert(Seq::<Seq<u8>>::empty().map_values(f) =~= Seq::<OutboxView>::empty());
    }
}

/// Length to which an outbox file is cut on recovery, so that it ends at the
/// last batch that the watermark covers. Records come in ascending order of
/// index; a torn record at the end goes too. A file without a whole header is
/// left alone.
pub fn truncate_after_applied(bytes: &[u8], max_applied_index: Option<u64>) -> (r: Result<
    usize,
    OutboxError,
>)
    ensures
        match r {
            Ok(keep) => if bytes@.len() < 8 {
                keep == bytes@.len()
            } else {
                let n = covered(outbox_records(bytes@, 8), max_applied_index);
                &&& bytes@.take(8) == outbox_header()
                &&& n <= outbox_records(bytes@, 8).len()
                &&& keep == 8 + 80 * n
                &&& keep <= bytes@.len()
                &&& outbox_records(bytes@.take(keep as int), 8) == outbox_records(bytes@, 8).take(
                    n as int,
                )
            },
            Err(error) => error is Header && bytes@.len() >= 8 && bytes@.take(8)
                != outbox_header(),
        },
{
    let size: usize = bytes.len();
    if size < 8 {
        return Ok(size);
    }
    let want = OUTBOX_HEADER;
    assert(want@ =~= outbox_header());
    assert(bytes@.subrange(0, 8) =~= bytes@.take(8));
    if !has_at(bytes, 0, want.as_slice()) {
        return Err(OutboxError::Header);
    }
    let ghost all = outbox_records(bytes@, 8);
    let ghost total = covered(all, max_applied_index);
    let mut keep: usize = 8;
    let ghost mut n: nat = 0;
    proof {
        assert(all.skip(0) =~= all);
    }
    loop
        invariant_except_break
            size == bytes@.len(),
            keep == 8 + 80 * n <= size,
            all == outbox_records(bytes@, 8),
            total == covered(all, max_applied_index),
            n <= all.len(),
            all.skip(n as int) == outbox_records(bytes@, keep as int),
            total == n + covered(all.skip(n as int), max_applied_index),
        ensures
            keep == 8 + 80 * n <= size,
            n == total,
            n <= all.len(),
        decreases size - keep,
    {
        proof {
            lemma_records_step(bytes@, keep as int);
        }
        if !intact_at(bytes, keep, OUTBOX_RECORD_LEN) {
            break ;
        }
        assert(bytes@.subrange(keep as int, keep + 72).subrange(4, 12) =~= bytes@.subrange(
            keep + 4,
            keep + 12,
        ));
        let index: u64 = get_le(bytes, keep + 4, 8);
        assert(all.skip(n as int)[0].index == index);
        let applied: bool = match max_applied_index {
            Some(max) => index <= max,
            None => false,
        };
        if !applied {
            break ;
        }
        proof {
            assert(all.skip(n as int).skip(1) =~= all.skip(n as int + 1));
            assert((seq![outbox_in(bytes@.subrange(keep as int, keep + 72))] + outbox_records(
                bytes@,
                keep + 80,
            )).skip(1) =~= outbox_records(bytes@, keep + 80));
            n = n + 1;
        }
        keep = keep + OUTBOX_RECORD_LEN;
    }
    proof {
        let f = |b: Seq<u8>| outbox_in(b);
        let rest = bytes@.skip(8);
        lemma_bodies_take(rest, 80, n);
        assert(bytes@.take(keep as int).skip(8) =~= rest.take((n * 80) as int));
        assert(bodies(rest, 80).take(n as int).map_values(f) =~= all.take(n as int));
    }
    Ok(keep)
}

/// Cutting to the same watermark twice changes nothing more, and what is left is
/// covered by it.
pub proof fn law_truncation_is_stable(records: Seq<OutboxView>, watermark: Option<u64>)
    ensures
        ({
            let kept = records.take(covered(records, watermark) as int);
            &&& covered(records, watermark) <= records.len()
            &&& covered(kept, watermark) == kept.len()
            &&& forall|i: int|
                0 <= i < kept.len() ==> watermark is Some && (#[trigger] kept[i]).index
                    <= watermark->0
        }),
    decreases records.len(),
{
    lemma_covered_bound(records, watermark);
    let n = covered(records, watermark);
    let kept = records.take(n as int);
    if n > 0 {
        let rest = records.skip(1);
        law_truncation_is_stable(rest, watermark);
        let less = rest.take((n - 1) as int);
        assert(kept.skip(1) =~= less);
        assert forall|i: int| 0 <= i < kept.len() implies watermark is Some && (
        #[trigger] kept[i]).index <= watermark->0 by {
            if i > 0 {
                assert(kept[i] == less[i - 1]);
            }
        }
    }
}

/// An outbox whose indexes ascend keeps exactly the records that the watermark
/// covers: none is lost, none stays that will be appended again.
pub proof fn law_truncation_keeps_the_applied(records: Seq<OutboxView>, watermark: u64)
    requires
        forall|i: int, j: int| 0 <= i < j < records.len() ==> (#[trigger] records[i]).index <= (
        #[trigger] records[j]).index,
    ensures
        covered(records, Some(watermark)) <= records.len(),
        forall|i: int|
            0 <= i < records.len() ==> ((#[trigger] records[i]).index <= watermark <==> i < covered(
                records,
                Some(watermark),
            )),
    decreases records.len(),
{
    lemma_covered_bound(records, Some(watermark));
    if records.len() > 0 {
        let rest = records.skip(1);
        assert forall|i: int, j: int| 0 <= i < j < rest.len() implies (#[trigger] rest[i]).index
            <= (#[trigger] rest[j]).index by {
            assert(records[i + 1].index <= records[j + 1].index);
        }
        law_truncation_keeps_the_applied(rest, watermark);
        assert forall|i: int| 0 <= i < records.len() implies ((#[trigger] records[i]).index
            <= watermark <==> i < covered(records, Some(watermark))) by {
            if i > 0 {
                assert(rest[i - 1] == records[i]);
                assert(records[0].index <= records[i].index);
            }
        }
    }
}

/// Content of a cursor file.
pub open spec fn cursor_of(offset: u64) -> Seq<u8> {
    sealed(cursor_header() + le(offset as nat, 8))
}

/// The offset in a cursor file, unless the file is of another format or corrupt.
pub open spec fn cursor_in(bytes: Seq<u8>) -> Option<u64> {
    if bytes.len() == CURSOR_LEN && bytes.take(8) == cursor_header() && intact(bytes) {
        Some(from_le(bytes.subrange(8, 16)) as u64)
    } else {
        None
    }
}

/// A cursor reads back.
pub proof fn law_cursor_round_trip(offset: u64)
    ensures
        cursor_in(cursor_of(offset)) == Some(offset),
{
    let body = cursor_header() + le(offset as nat, 8);
    lemma_le_len(offset as nat, 8);
    lemma_pow256();
    law_bytes_round_trip(offset as nat, 8);
    lemma_sealed(body);
    assert(cursor_of(offset).take(8) =~= cursor_header());
    assert(cursor_of(offset).subrange(8, 16) =~= le(offset as nat, 8));
}

/// Encodes a cursor file.
pub fn encode_cursor(offset: u64) -> (r: Vec<u8>)
    ensures
        r@ == cursor_of(offset),
{
    let head = CURSOR_HEADER;
    let mut out: Vec<u8> = Vec::new();
    assert(head@ =~= cursor_header());
    assert(head@.subrange(0, 8) =~= head@);
    put_slice(&mut out, head.as_slice(), 0, 8);
    put_le(&mut out, offset, 8);
    proof {
        assert(out@ =~= cursor_header() + le(offset as nat, 8));
        assert(out@.skip(0) =~= out@);
        assert(out@.take(0) + sealed(out@) =~= sealed(out@));
    }
    seal(&mut out, 0);
    out
}

/// Reads a cursor file; `None` if it is of another format or corrupt.
pub fn read_cursor_offset(bytes: &[u8]) -> (r: Option<u64>)
    ensures
        r == cursor_in(bytes@),
{
    if bytes.len() != CURSOR_LEN {
        return None;
    }
    let want = CURSOR_HEADER;
    assert(want@ =~= cursor_header());
    assert(bytes@.subrange(0, 8) =~= bytes@.take(8));
    if !has_at(bytes, 0, want.as_slice()) {
        return None;
    }
    assert(bytes@.subrange(0, 24) =~= bytes@);
    if !intact_at(bytes, 0, CURSOR_LEN) {
        return None;
    }
    Some(get_le(bytes, 8, 8))
}

/// Whether a sealed segment of `len` bytes may be deleted: its cursor shows that
/// every record was acknowledged.
pub fn fully_published(cursor: Option<u64>, len: u64) -> (r: bool)
    ensures
        r == (cursor is Some && cursor->0 >= len),
{
    match cursor {
        Some(offset) => offset >= len,
        None => false,
    }
}

/// A position in an outbox file that a cursor may point at.
pub open spec fn on_boundary(offset: u64, len: nat) -> bool {
    8 <= offset <= len && (offset - 8) % 80 == 0
}

/// The reading side of an outbox file.
#[derive(Clone, Copy, Debug)]
pub struct ExecutionOutboxReader {
    offset: u64,
    keeps_cursor: bool,
}

impl ExecutionOutboxReader {
    /// Where the next batch starts.
    pub closed spec fn position(self) -> u64 {
        self.offset
    }

    /// Whether acknowledgements are kept in a cursor file.
    pub closed spec fn persistent(self) -> bool {
        self.keeps_cursor
    }

    /// Opens an outbox file with the given content, at its first record.
    pub fn open(bytes: &[u8]) -> (r: Result<ExecutionOutboxReader, OutboxError>)
        ensures
            match r {
                Ok(reader) => {
                    &&& bytes@.len() >= 8 && bytes@.take(8) == outbox_header()
                    &&& reader.position() == 8
                    &&& !reader.persistent()
                },
                Err(error) => error is Header && !(bytes@.len() >= 8 && bytes@.take(8)
                    == outbox_header()),
            },
    {
        if bytes.len() < 8 {
            return Err(OutboxError::Header);
        }
        let want = OUTBOX_HEADER;
        assert(want@ =~= outbox_header());
        assert(bytes@.subrange(0, 8) =~= bytes@.take(8));
        if has_at(bytes, 0, want.as_slice()) {
            Ok(ExecutionOutboxReader { offset: 8, keeps_cursor: false })
        } else {
            Err(OutboxError::Header)
        }
    }

    /// Opens an outbox file at the last acknowledged record, which the content
    /// of its cursor file tells; without one, at the first record.
    pub fn open_with_cursor(bytes: &[u8], cursor: Option<&[u8]>) -> (r: Result<
        ExecutionOutboxReader,
        OutboxError,
    >)
        ensures
            ({
                let headed = bytes@.len() >= 8 && bytes@.take(8) == outbox_header();
                let offset = match cursor {
                    Some(file) => cursor_in(file@),
                    None => Some(8),
                };
                match r {
                    Ok(reader) => {
                        &&& headed
                        &&& offset == Some(reader.position())
                        &&& on_boundary(reader.position(), bytes@.len())
                        &&& reader.persistent()
                    },
                    Err(OutboxError::Header) => !headed,
                    Err(OutboxError::CursorHeader) => headed && offset is None,
                    Err(error) => error is Cursor && headed && offset is Some && !on_boundary(
                        offset->0,
                        bytes@.len(),
                    ),
                }
            }),
    {
        let mut reader = match Self::open(bytes) {
            Ok(reader) => reader,
            Err(error) => {
                return Err(error);
            },
        };
        reader.keeps_cursor = true;
        if let Some(file) = cursor {
            let offset: u64 = match read_cursor_offset(file) {
                Some(offset) => offset,
                None => {
                    return Err(OutboxError::CursorHeader);
                },
            };
            if offset < 8 || (offset - 8) % 80 != 0 || offset > bytes.len() as u64 {
                return Err(OutboxError::Cursor);
            }
            reader.offset = offset;
        }
        Ok(reader)
    }

    /// The next records of the file with the given content, at most
    /// `max_records`. A file that has been deleted was published completely and
    /// has none.
    pub fn read_batch(&self, bytes: Option<&[u8]>, max_records: usize) -> (r: Vec<OutboxRecord>)
        ensures
            record_views(r@) == match bytes {
                Some(content) => if self.position() <= content@.len() {
                    first(outbox_records(content@, self.position() as int), max_records as nat)
                } else {
                    Seq::<OutboxView>::empty()
                },
                None => Seq::<OutboxView>::empty(),
            },
    {
        let mut records: Vec<OutboxRecord> = Vec::new();
        assert(record_views(records@) =~= Seq::<OutboxView>::empty());
        let content = match bytes {
            Some(content) => content,
            None => {
                return records;
            },
        };
        if self.offset > content.len() as u64 {
            return records;
        }
        let mut at: usize = self.offset as usize;
        let size: usize = content.len();
        let ghost all = outbox_records(content@, at as int);
        assert(record_views(records@) + all =~= all);
        while records.len() < max_records && intact_at(content, at, OUTBOX_RECORD_LEN)
            invariant
                at <= size == content@.len(),
                records@.len() <= max_records,
                record_views(records@) + outbox_records(content@, at as int) == all,
            decreases size - at,
        {
            proof {
                lemma_records_step(content@, at as int);
            }
            let record = read_record(content, at);
            let ghost was = record_views(records@);
            records.push(record);
            proof {
                assert(record_views(records@) =~= was.push(record@));
                let rest = outbox_records(content@, at + 80);
                assert(was + (seq![record@] + rest) =~= record_views(records@) + rest);
            }
            at = at + OUTBOX_RECORD_LEN;
        }
        proof {
            lemma_records_step(content@, at as int);
            let got = record_views(records@);
            assert(all.take(got.len() as int) =~= got);
            if got.len() < max_records {
                assert(got + Seq::<OutboxView>::empty() =~= got);
            }
        }
        records
    }

    /// Moves past `records` acknowledged records of a file of `len` bytes.
    /// Returns the content of the cursor file to persist, if one is kept; it must
    /// be persisted before this reader is used further.
    pub fn acknowledge(&mut self, records: usize, len: u64) -> (r: Result<
        Option<Vec<u8>>,
        OutboxError,
    >)
        ensures
            final(self).persistent() == old(self).persistent(),
            ({
                let next = old(self).position() + 80 * records;
                match r {
                    Ok(cursor) => {
                        &&& records > 0 ==> next <= len
                        &&& final(self).position() == next
                        &&& cursor is Some <==> records > 0 && old(self).persistent()
                        &&& cursor matches Some(bytes) ==> bytes@ == cursor_of(
                            final(self).position(),
                        )
                    },
                    Err(error) => {
                        &&& records > 0
                        &&& final(self).position() == old(self).position()
                        &&& match error {
                            OutboxError::CursorOverflow => next > u64::MAX,
                            OutboxError::BeyondEnd => len < next <= u64::MAX,
                            _ => false,
                        }
                    },
                }
            }),
    {
        if records == 0 {
            return Ok(None);
        }
        let next: u64 = match (records as u64).checked_mul(80) {
            Some(advance) => match self.offset.checked_add(advance) {
                Some(next) => next,
                None => {
                    return Err(OutboxError::CursorOverflow);
                },
            },
            None => {
                return Err(OutboxError::CursorOverflow);
            },
        };
        if next > len {
            return Err(OutboxError::BeyondEnd);
        }
        self.offset = next;
        if self.keeps_cursor {
            Ok(Some(encode_cursor(next)))
        } else {
            Ok(None)
        }
    }

    /// Records not yet acknowledged in a file of `len` bytes; none in a file that
    /// has been deleted.
    pub fn pending_records(&self, len: Option<u64>) -> (r: u64)
        ensures
            r == match len {
                Some(len) => if len >= self.position() {
                    (len - self.position()) / 80
                } else {
                    0
                },
                None => 0,
            },
    {
        match len {
            Some(len) => if len >= self.offset {
                (len - self.offset) / 80
            } else {
                0
            },
            None => 0,
        }
    }

    /// Where the next batch starts.
    pub fn offset(&self) -> (r: u64)
        ensures
            r == self.position(),
    {
        self.offset
    }

    /// Reads and acknowledges every record there is; a file that ends before the
    /// cursor has none.
    pub fn read_available(&mut self, bytes: &[u8]) -> (r: (Vec<OutboxRecord>, Option<Vec<u8>>))
        ensures
            record_views(r.0@) == if old(self).position() <= bytes@.len() {
                outbox_records(bytes@, old(self).position() as int)
            } else {
                Seq::<OutboxView>::empty()
            },
            final(self).persistent() == old(self).persistent(),
            final(self).position() == old(self).position() + 80 * r.0@.len(),
            r.1 is Some <==> r.0@.len() > 0 && old(self).persistent(),
            r.1 matches Some(cursor) ==> cursor@ == cursor_of(final(self).position()),
    {
        let len: usize = bytes.len();
        let records = self.read_batch(Some(bytes), usize::MAX);
        proof {
            let at = self.offset as int;
            if at <= bytes@.len() {
                let all = outbox_records(bytes@, at);
                lemma_bodies_take(bytes@.skip(at), 80, bodies(bytes@.skip(at), 80).len());
                assert(all.len() * 80 <= bytes@.len() - at);
            } else {
                assert(record_views(records@).len() == records@.len());
            }
        }
        match self.acknowledge(records.len(), len as u64) {
            Ok(cursor) => (records, cursor),
            Err(_) => (records, None),
        }
    }
}

/// After `n` records were acknowledged, reading goes on with the next one: none
/// is skipped and none of them comes again.
pub proof fn law_acknowledged_records_are_passed(bytes: Seq<u8>, offset: int, n: nat)
    requires
        0 <= offset <= bytes.len(),
        n <= outbox_records(bytes, offset).len(),
    ensures
        offset + 80 * n <= bytes.len(),
        outbox_records(bytes, offset + 80 * n) == outbox_records(bytes, offset).skip(n as int),
    decreases n,
{
    if n == 0 {
        assert(outbox_records(bytes, offset).skip(0) =~= outbox_records(bytes, offset));
    } else {
        lemma_records_step(bytes, offset);
        let rest = outbox_records(bytes, offset + 80);
        law_acknowledged_records_are_passed(bytes, offset + 80, (n - 1) as nat);
        assert((seq![outbox_in(bytes.subrange(offset, offset + 72))] + rest).skip(n as int)
            =~= rest.skip(n - 1));
    }
}

/// What a rotation asks for: the buffered bytes that belong to the old segment,
/// if any, and the number of the new one.
#[derive(Debug)]
pub struct Rotation {
    pub seal: Option<Vec<u8>>,
    pub segment: u64,
}

/// The appending side of an outbox.
pub struct ExecutionOutboxWriter {
    pending: Vec<u8>,
    segment: u64,
    segment_bytes: u64,
    rotate_bytes: Option<u64>,
    flush_interval: u64,
    last_flush: u64,
    written_since_flush: usize,
    sync_every: usize,
}

/// The writer's state.
#[verifier::ext_equal]
pub struct OutboxWriterView {
    /// Bytes not yet handed to the file.
    pub buffered: Seq<u8>,
    /// Number of the segment that is appended to.
    pub segment: u64,
    /// Size of that segment with everything that was appended.
    pub size: u64,
    /// Size from which on the writer rotates.
    pub rotate_at: Option<u64>,
    /// Records appended since the last sync.
    pub unsynced: usize,
    /// Records after which a sync is due.
    pub sync_every: usize,
    /// Time after which a sync is due.
    pub interval: u64,
    /// Time of the last sync.
    pub synced_at: u64,
}

impl View for ExecutionOutboxWriter {
    type V = OutboxWriterView;

    closed spec fn view(&self) -> OutboxWriterView {
        OutboxWriterView {
            buffered: self.pending@,
            segment: self.segment,
            size: self.segment_bytes,
            rotate_at: self.rotate_bytes,
            unsynced: self.written_since_flush,
            sync_every: self.sync_every,
            interval: self.flush_interval,
            synced_at: self.last_flush,
        }
    }
}

/// The writer after one more record.
pub open spec fn with_record(w: OutboxWriterView, record: OutboxView) -> OutboxWriterView {
    OutboxWriterView {
        buffered: w.buffered + sealed(outbox_body(record)),
        size: (w.size + 80) as u64,
        unsynced: (w.unsynced + 1) as usize,
        ..w
    }
}

impl ExecutionOutboxWriter {
    /// Resumes the newest segment, number `segment`, of `len` bytes. Times are in
    /// nanoseconds of one clock. Rotation is off.
    pub fn open(segment: u64, len: u64, flush_interval: u64, sync_every: usize, now: u64) -> (r:
        ExecutionOutboxWriter)
        ensures
            r@ == (OutboxWriterView {
                buffered: Seq::empty(),
                segment,
                size: len,
                rotate_at: None,
                unsynced: 0,
                sync_every: if sync_every == 0 {
                    1
                } else {
                    sync_every
                },
                interval: flush_interval,
                synced_at: now,
            }),
    {
        ExecutionOutboxWriter {
            pending: Vec::new(),
            segment,
            segment_bytes: len,
            rotate_bytes: None,
            flush_interval,
            last_flush: now,
            written_since_flush: 0,
            sync_every: if sync_every == 0 {
                1
            } else {
                sync_every
            },
        }
    }

    /// Sets the size from which on the writer rotates; `None` or 0 switches
    /// rotation off.
    pub fn with_rotate_bytes(self, rotate_bytes: Option<u64>) -> (r: ExecutionOutboxWriter)
        ensures
            r@ == (OutboxWriterView {
                rotate_at: match rotate_bytes {
                    Some(bytes) => if bytes > 0 {
                        Some(bytes)
                    } else {
                        None
                    },
                    None => None,
                },
                ..self@
            }),
    {
        let mut out = self;
        out.rotate_bytes = match rotate_bytes {
            Some(bytes) => if bytes > 0 {
                Some(bytes)
            } else {
                None
            },
            None => None,
        };
        out
    }

    /// Appends a record; the caller syncs once for a whole batch.
    pub fn append_deferred(
        &mut self,
        raft_group: u32,
        raft_index: u64,
        ordinal: u32,
        report: &ExecReport,
    )
        requires
            old(self)@.size <= u64::MAX - 80,
            old(self)@.unsynced < usize::MAX,
        ensures
            final(self)@ == with_record(
                old(self)@,
                OutboxView {
                    group: raft_group,
                    index: raft_index,
                    ordinal,
                    frame: report_frame(*report),
                },
            ),
    {
        let frame = encode_report(report);
        let from: usize = self.pending.len();
        let ghost before = self.pending@;
        put_le(&mut self.pending, raft_group as u64, 4);
        put_le(&mut self.pending, raft_index, 8);
        put_le(&mut self.pending, ordinal as u64, 4);
        assert(frame@.subrange(0, REPORT_LEN as int) =~= frame@);
        put_slice(&mut self.pending, frame.as_slice(), 0, REPORT_LEN);
        proof {
            let body = outbox_body(
                OutboxView { group: raft_group, index: raft_index, ordinal, frame: frame@ },
            );
            assert(self.pending@ =~= before + body);
            assert(self.pending@.skip(from as int) =~= body);
            assert(self.pending@.take(from as int) =~= before);
        }
        seal(&mut self.pending, from);
        self.segment_bytes = self.segment_bytes + 80;
        self.written_since_flush = self.written_since_flush + 1;
    }

    /// Appends a record; `true` if a sync is due now.
    pub fn append(
        &mut self,
        raft_group: u32,
        raft_index: u64,
        ordinal: u32,
        report: &ExecReport,
        now: u64,
    ) -> (due: bool)
        requires
            old(self)@.size <= u64::MAX - 80,
            old(self)@.unsynced < usize::MAX,
        ensures
            final(self)@ == with_record(
                old(self)@,
                OutboxView {
                    group: raft_group,
                    index: raft_index,
                    ordinal,
                    frame: report_frame(*report),
                },
            ),
            due == (final(self)@.unsynced >= final(self)@.sync_every || (now >= old(
                self,
            )@.synced_at && now - old(self)@.synced_at >= old(self)@.interval)),
    {
        self.append_deferred(raft_group, raft_index, ordinal, report);
        self.written_since_flush >= self.sync_every || (now >= self.last_flush && now
            - self.last_flush >= self.flush_interval)
    }

    /// Hands the buffered bytes out for writing.
    pub fn flush_to_os(&mut self) -> (r: Vec<u8>)
        ensures
            r@ == old(self)@.buffered,
            final(self)@ == (OutboxWriterView { buffered: Seq::empty(), ..old(self)@ }),
    {
        let mut out: Vec<u8> = Vec::new();
        std::mem::swap(&mut out, &mut self.pending);
        out
    }

    /// Records that everything handed out so far is durable.
    pub fn mark_synced(&mut self, now: u64)
        ensures
            final(self)@ == (OutboxWriterView { unsynced: 0, synced_at: now, ..old(self)@ }),
    {
        self.written_since_flush = 0;
        self.last_flush = now;
    }

    /// Moves on to a fresh segment if the current one has reached the size limit;
    /// `next_len` is the length of the new segment's file. To be called between
    /// batches, after the watermark was persisted, so that every record of an
    /// older segment is covered by it.
    pub fn maybe_rotate(&mut self, next_len: u64, now: u64) -> (r: Option<Rotation>)
        requires
            old(self)@.segment < u64::MAX,
        ensures
            ({
                let before = old(self)@;
                let due = before.rotate_at is Some && before.size >= before.rotate_at->0;
                match r {
                    Some(rotation) => {
                        &&& due
                        &&& rotation.segment == before.segment + 1
                        &&& rotation.seal is Some <==> before.unsynced > 0
                        &&& rotation.seal matches Some(bytes) ==> bytes@ == before.buffered
                        &&& final(self)@ == (OutboxWriterView {
                            buffered: if before.unsynced > 0 {
                                Seq::empty()
                            } else {
                                before.buffered
                            },
                            segment: (before.segment + 1) as u64,
                            size: next_len,
                            unsynced: 0,
                            synced_at: if before.unsynced > 0 {
                                now
                            } else {
                                before.synced_at
                            },
                            ..before
                        })
                    },
                    None => !due && final(self)@ == before,
                }
            }),
    {
        match self.rotate_bytes {
            Some(limit) => if self.segment_bytes < limit {
                return None;
            },
            None => {
                return None;
            },
        }
        let seal: Option<Vec<u8>> = if self.written_since_flush > 0 {
            let bytes = self.flush_to_os();
            self.mark_synced(now);
            Some(bytes)
        } else {
            None
        };
        self.segment = self.segment + 1;
        self.segment_bytes = next_len;
        Some(Rotation { seal, segment: self.segment })
    }

    /// Number of the segment that is appended to.
    pub fn current_segment(&self) -> (r: u64)
        ensures
            r == self@.segment,
    {
        self.segment
    }
}

/// A segment number as it is written in a file name: ten digits at least.
pub open spec fn segment_digits(seq: u64) -> Seq<char> {
    if seq < 10_000_000_000 {
        padded(seq as nat, 10)
    } else {
        crate::text::decimal(seq as nat)
    }
}

/// File name of segment `seq` of the outbox `stem`; segment 0 is the base file.
pub open spec fn segment_name(stem: Seq<char>, seq: u64) -> Seq<char> {
    if seq == 0 {
        stem + seq!['.', 'b', 'i', 'n']
    } else {
        stem + seq!['-', 's', 'e', 'g', '-'] + segment_digits(seq) + seq!['.', 'b', 'i', 'n']
    }
}

/// The segment number in a file name, if it is a segment of the outbox `stem`.
pub open spec fn segment_in(stem: Seq<char>, name: Seq<char>) -> Option<u64> {
    let n = name.len() - 4;
    if n < 0 || name.skip(n) != seq!['.', 'b', 'i', 'n'] || !has_prefix(name.take(n), stem) {
        None
    } else {
        let tail = name.take(n).skip(stem.len() as int);
        if tail.len() == 0 {
            Some(0)
        } else if has_prefix(tail, seq!['-', 's', 'e', 'g', '-']) {
            match number(tail.skip(5)) {
                Some(v) => if v <= u64::MAX {
                    Some(v as u64)
                } else {
                    None
                },
                None => None,
            }
        } else {
            None
        }
    }
}

/// File name of segment `seq` of the outbox `stem`.
pub fn segment_path(stem: &str, seq: u64) -> (r: String)
    ensures
        r@ == segment_name(stem@, seq),
{
    proof {
        reveal_strlit(".bin");
        reveal_strlit("-seg-");
        assert(".bin"@ =~= seq!['.', 'b', 'i', 'n']);
        assert("-seg-"@ =~= seq!['-', 's', 'e', 'g', '-']);
    }
    let mut out = String::new();
    out.append(stem);
    assert(out@ =~= stem@);
    if seq > 0 {
        out.append("-seg-");
        if seq < 10_000_000_000 {
            push_padded(&mut out, seq, 10);
        } else {
            crate::text::push_decimal(&mut out, seq);
        }
    }
    out.append(".bin");
    out
}

/// The segment number in a file name, if it is a segment of the outbox `stem`.
pub fn segment_seq_of(stem: &str, name: &str) -> (r: Option<u64>)
    ensures
        r == segment_in(stem@, name@),
{
    proof {
        reveal_strlit(".bin");
        reveal_strlit("-seg-");
        assert(".bin"@ =~= seq!['.', 'b', 'i', 'n']);
        assert("-seg-"@ =~= seq!['-', 's', 'e', 'g', '-']);
    }
    let chars = chars_of(name);
    if chars.len() < 4 {
        return None;
    }
    let n: usize = chars.len() - 4;
    let all = chars.as_slice();
    assert(all@.subrange(n as int, all@.len() as int) =~= all@.skip(n as int));
    if !is_text(vstd::slice::slice_subrange(all, n, all.len()), ".bin") {
        return None;
    }
    assert(all@.subrange(0, n as int) =~= all@.take(n as int));
    let base = vstd::slice::slice_subrange(all, 0, n);
    match strip_prefix(base, stem) {
        Some(tail) => {
            if tail.len() == 0 {
                Some(0)
            } else {
                match strip_prefix(tail, "-seg-") {
                    Some(digits) => parse_number(digits, u64::MAX),
                    None => None,
                }
            }
        },
        None => None,
    }
}

/// A segment's number is found again in its file name.
pub proof fn law_segment_name_round_trip(stem: Seq<char>, seq: u64)
    ensures
        segment_in(stem, segment_name(stem, seq)) == Some(seq),
{
    let name = segment_name(stem, seq);
    let n = name.len() - 4;
    assert(name.skip(n) =~= seq!['.', 'b', 'i', 'n']);
    if seq == 0 {
        assert(name.take(n) =~= stem);
        assert(stem.take(stem.len() as int) =~= stem);
    } else {
        let dash = seq!['-', 's', 'e', 'g', '-'];
        let digits = segment_digits(seq);
        assert(name.take(n) =~= stem + dash + digits);
        assert(name.take(n).take(stem.len() as int) =~= stem);
        let tail = name.take(n).skip(stem.len() as int);
        assert(tail =~= dash + digits);
        assert(tail.take(5) =~= dash);
        assert(tail.skip(5) =~= digits);
        if seq < 10_000_000_000 {
            reveal_with_fuel(crate::text::pow10, 11);
            crate::text::law_padded_parses(seq as nat, 10);
        } else {
            crate::text::law_decimal_parses(seq as nat);
        }
    }
}

/// One of the first `n` names is segment `item.0`, at position `item.1`.
pub open spec fn is_segment(stem: Seq<char>, names: Seq<String>, n: int, item: (u64, usize)) -> bool {
    0 <= item.1 < n && segment_in(stem, names[item.1 as int]@) == Some(item.0)
}

/// `a` comes before `b`: by segment number, then by position.
pub open spec fn older(a: (u64, usize), b: (u64, usize)) -> bool {
    a.0 < b.0 || (a.0 == b.0 && a.1 < b.1)
}

/// The segments of the outbox `stem` among the file names of a directory, oldest
/// first: each with its number and its position among the names.
pub fn segment_paths(stem: &str, names: &Vec<String>) -> (r: Vec<(u64, usize)>)
    ensures
        forall|i: int, j: int| 0 <= i < j < r@.len() ==> older(#[trigger] r@[i], #[trigger] r@[j]),
        forall|item: (u64, usize)|
            r@.contains(item) <==> #[trigger] is_segment(stem@, names@, names@.len() as int, item),
{
    let mut out: Vec<(u64, usize)> = Vec::new();
    let mut i: usize = 0;
    while i < names.len()
        invariant
            i <= names@.len(),
            forall|a: int, b: int|
                0 <= a < b < out@.len() ==> older(#[trigger] out@[a], #[trigger] out@[b]),
            forall|item: (u64, usize)|
                out@.contains(item) <==> #[trigger] is_segment(stem@, names@, i as int, item),
        decreases names@.len() - i,
    {
        let ghost before = out@;
        if let Some(seq) = segment_seq_of(stem, names[i].as_str()) {
            let mut at: usize = out.len();
            while at > 0 && out[at - 1].0 > seq
                invariant
                    at <= out@.len(),
                    out@ == before,
                    forall|k: int| at <= k < out@.len() ==> #[trigger] out@[k].0 > seq,
                decreases at,
            {
                at -= 1;
            }
            out.insert(at, (seq, i));
            proof {
                let item = (seq, i);
                assert forall|a: int, b: int| 0 <= a < b < out@.len() implies older(
                    #[trigger] out@[a],
                    #[trigger] out@[b],
                ) by {
                    if a != at && b != at {
                        let x = if a < at { a } else { a - 1 };
                        let y = if b < at { b } else { b - 1 };
                        assert(before[x] == out@[a] && before[y] == out@[b]);
                    } else if b == at {
                        assert(before[a] == out@[a]);
                        assert(older(before[a], before[at - 1]) || a == at - 1);
                        assert(before.contains(before[a]));
                        assert(is_segment(stem@, names@, i as int, before[a]));
                    } else {
                        assert(before[b - 1] == out@[b]);
                    }
                }
                assert forall|x: (u64, usize)|
                    out@.contains(x) <==> #[trigger] is_segment(stem@, names@, i + 1, x) by {
                    assert(is_segment(stem@, names@, i as int, x) <==> before.contains(x));
                    if out@.contains(x) {
                        let k = choose|k: int| 0 <= k < out@.len() && out@[k] == x;
                        if k < at {
                            assert(before[k] == x);
                        } else if k > at {
                            assert(before[k - 1] == x);
                        }
                    }
                    if before.contains(x) {
                        let k = choose|k: int| 0 <= k < before.len() && before[k] == x;
                        assert(out@[if k < at { k } else { k + 1 }] == x);
                    }
                    assert(out@[at as int] == item);
                }
            }
        } else {
            assert forall|x: (u64, usize)|
                out@.contains(x) <==> #[trigger] is_segment(stem@, names@, i + 1, x) by {
                assert(is_segment(stem@, names@, i as int, x) <==> before.contains(x));
            }
        }
        i += 1;
    }
    out
}

/// Number of the newest segment among the file names; 0, the base file, if there
/// is none.
pub fn latest_segment(stem: &str, names: &Vec<String>) -> (r: u64)
    ensures
        forall|i: int|
            0 <= i < names@.len() ==> (segment_in(stem@, (#[trigger] names@[i])@) is Some
                ==> segment_in(stem@, names@[i]@)->0 <= r),
        r > 0 ==> exists|i: int|
            0 <= i < names@.len() && segment_in(stem@, (#[trigger] names@[i])@) == Some(r),
{
    let list = segment_paths(stem, names);
    let n: usize = list.len();
    proof {
        assert forall|i: int| 0 <= i < names@.len() && segment_in(
            stem@,
            (#[trigger] names@[i])@,
        ) is Some implies n > 0 && segment_in(stem@, names@[i]@)->0 <= list@[n - 1].0 by {
            assert(names@.len() == names.len());
            let item = (segment_in(stem@, names@[i]@)->0, i as usize);
            assert(is_segment(stem@, names@, names@.len() as int, item));
            let k = choose|k: int| 0 <= k < list@.len() && list@[k] == item;
            assert(k == n - 1 || older(list@[k], list@[n - 1]));
        }
    }
    if n == 0 {
        return 0;
    }
    proof {
        assert(list@.contains(list@[n - 1]));
        assert(is_segment(stem@, names@, names@.len() as int, list@[n - 1]));
        assert(segment_in(stem@, names@[list@[n - 1].1 as int]@) == Some(list@[n - 1].0));
    }
    list[n - 1].0
}

/// The bytes of an outbox record: the group, the index, the place among the reports of one
/// command, the report, and the checksum of all four.
pub proof fn law_outbox_record_layout(r: OutboxView)
    requires
        r.frame.len() == REPORT_LEN,
    ensures
        ({
            let bytes = sealed(outbox_body(r));
            &&& bytes.len() == 80
            &&& from_le(bytes.subrange(0, 4)) == r.group
            &&& from_le(bytes.subrange(4, 12)) == r.index
            &&& from_le(bytes.subrange(12, 16)) == r.ordinal
            &&& bytes.subrange(16, 72) == r.frame
            &&& from_le(bytes.subrange(72, 80)) == fnv(bytes.take(72))
        }),
{
    let body = outbox_body(r);
    let bytes = sealed(body);
    lemma_outbox_body(r);
    lemma_pow256();
    lemma_le_len(r.group as nat, 4);
    lemma_le_len(r.index as nat, 8);
    lemma_le_len(r.ordinal as nat, 4);
    lemma_le_len(fnv(body) as nat, 8);
    law_bytes_round_trip(r.group as nat, 4);
    law_bytes_round_trip(r.index as nat, 8);
    law_bytes_round_trip(r.ordinal as nat, 4);
    law_bytes_round_trip(fnv(body) as nat, 8);
    assert(bytes.subrange(0, 4) =~= le(r.group as nat, 4));
    assert(bytes.subrange(4, 12) =~= le(r.index as nat, 8));
    assert(bytes.subrange(12, 16) =~= le(r.ordinal as nat, 4));
    assert(bytes.subrange(16, 72) =~= r.frame);
    assert(bytes.take(72) =~= body);
    assert(bytes.subrange(72, 80) =~= le(fnv(body) as nat, 8));
}

} // verus!
