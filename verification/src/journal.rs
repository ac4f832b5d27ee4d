//! The write-ahead command journal: ordered, checksummed, replayable.
//!
//! | off | size | field                      |
//! |-----|------|----------------------------|
//! | 0   | 8    | sequence number, from 1    |
//! | 8   | 8    | wall-clock time stamp (ns) |
//! | 16  | 40   | command frame              |
//! | 56  | 8    | FNV-1a-64 over bytes 0..56 |
//!
//! Reading stops at the first truncated or corrupt record.

use vstd::prelude::*;

use crate::codec::{
    fnv, fnv_extend, from_le, get_le, has_at, law_bytes_round_trip, le, lemma_le_len, lemma_pow256,
    put_le, put_slice, FNV_OFFSET,
};
use crate::record::{bodies, intact_at, law_log_reads_back, lemma_bodies_step, log_of, seal, sealed};
use crate::wire::MSG_LEN;

verus! {

/// Bytes of a record.
pub const RECORD_LEN: usize = 64;

/// Magic and format version at the start of a journal.
pub const JOURNAL_HEADER: [u8; 8] = [0x54, 0x43, 0x4a, 0x52, 2, 0, 0, 0];

/// Records buffered at most before a flush is due.
pub const FLUSH_RECORDS: u64 = 8192;

/// Magic and format version at the start of a journal.
pub open spec fn header() -> Seq<u8> {
    seq![0x54u8, 0x43u8, 0x4au8, 0x52u8, 2u8, 0u8, 0u8, 0u8]
}

/// The 64-bit FNV-1a checksum: detects torn writes.
pub fn fnv1a(bytes: &[u8]) -> (r: u64)
    ensures
        r == fnv(bytes@),
{
    assert(bytes@.subrange(0, bytes@.len() as int) =~= bytes@);
    fnv_extend(FNV_OFFSET, bytes, 0, bytes.len())
}

/// One record of a journal.
#[derive(Clone, Copy, Debug)]
pub struct Record {
    pub seq: u64,
    pub ts_nanos: u64,
    pub frame: [u8; MSG_LEN],
}

/// What a record holds.
#[verifier::ext_equal]
pub struct RecordView {
    pub seq: u64,
    pub ts_nanos: u64,
    pub frame: Seq<u8>,
}

impl View for Record {
    type V = RecordView;

    open spec fn view(&self) -> RecordView {
        RecordView { seq: self.seq, ts_nanos: self.ts_nanos, frame: self.frame@ }
    }
}

/// The body of a record.
pub open spec fn record_body(r: RecordView) -> Seq<u8> {
    le(r.seq as nat, 8) + le(r.ts_nanos as nat, 8) + r.frame
}

/// The record in a body.
pub open spec fn record_in(body: Seq<u8>) -> RecordView {
    RecordView {
        seq: from_le(body.subrange(0, 8)) as u64,
        ts_nanos: from_le(body.subrange(8, 16)) as u64,
        frame: body.subrange(16, 56),
    }
}

/// The records of a journal, or `None` if its header is of another format.
///
/// A file too short for a header has no records.
pub open spec fn journal_records(bytes: Seq<u8>) -> Option<Seq<RecordView>> {
    if bytes.len() < 8 {
        Some(Seq::empty())
    } else if bytes.take(8) != header() {
        None
    } else {
        Some(bodies(bytes.skip(8), RECORD_LEN as nat).map_values(|b: Seq<u8>| record_in(b)))
    }
}

/// The journal that holds `records`.
pub open spec fn journal_of(records: Seq<RecordView>) -> Seq<u8> {
    header() + log_of(records.map_values(|r: RecordView| record_body(r)))
}

/// A record reads back as it was written.
pub proof fn lemma_record(r: RecordView)
    requires
        r.frame.len() == MSG_LEN,
    ensures
        record_body(r).len() == RECORD_LEN - 8,
        record_in(record_body(r)) == r,
{
    let b = record_body(r);
    lemma_le_len(r.seq as nat, 8);
    lemma_le_len(r.ts_nanos as nat, 8);
    lemma_pow256();
    law_bytes_round_trip(r.seq as nat, 8);
    law_bytes_round_trip(r.ts_nanos as nat, 8);
    assert(b.subrange(0, 8) =~= le(r.seq as nat, 8));
    assert(b.subrange(8, 16) =~= le(r.ts_nanos as nat, 8));
    assert(b.subrange(16, 56) =~= r.frame);
}

/// A journal replays exactly the records appended to it, in order; a record
/// that was only partly written at the end is dropped.
pub proof fn law_journal_round_trip(records: Seq<RecordView>, torn: Seq<u8>)
    requires
        forall|i: int| 0 <= i < records.len() ==> (#[trigger] records[i]).frame.len() == MSG_LEN,
        torn.len() < RECORD_LEN,
    ensures
        journal_records(journal_of(records) + torn) == Some(records),
{
    let list = records.map_values(|r: RecordView| record_body(r));
    assert forall|i: int| 0 <= i < list.len() implies (#[trigger] list[i]).len() == RECORD_LEN - 8 by {
        lemma_record(records[i]);
    }
    law_log_reads_back(list, torn, RECORD_LEN as nat);
    let bytes = journal_of(records) + torn;
    assert(bytes.take(8) =~= header());
    assert(bytes.skip(8) =~= log_of(list) + torn);
    let back = list.map_values(|b: Seq<u8>| record_in(b));
    assert(back =~= records) by {
        assert forall|i: int| 0 <= i < records.len() implies back[i] == records[i] by {
            lemma_record(records[i]);
        }
    }
}

/// What to do with the head of a journal file that is opened for appending.
#[derive(Clone, Copy, Debug, PartialEq, Eq, Structural)]
pub enum JournalHead {
    /// The file is empty: write the header first.
    Stamp,
    /// The header is there.
    Ready,
    /// The file is of another format.
    Mismatch,
}

/// Decides what to do with a journal file that starts with `head`, the first
/// bytes of the file, at most eight.
pub fn check_head(head: &[u8]) -> (r: JournalHead)
    ensures
        r == if head@.len() == 0 {
            JournalHead::Stamp
        } else if head@.len() >= 8 && head@.take(8) == header() {
            JournalHead::Ready
        } else {
            JournalHead::Mismatch
        },
{
    if head.len() == 0 {
        return JournalHead::Stamp;
    }
    let want = JOURNAL_HEADER;
    assert(want@ =~= header());
    if head.len() < 8 {
        return JournalHead::Mismatch;
    }
    assert(head@.subrange(0, 8) =~= head@.take(8));
    if has_at(head, 0, want.as_slice()) {
        JournalHead::Ready
    } else {
        JournalHead::Mismatch
    }
}

/// The appending side of a journal: assigns sequence numbers, encodes records
/// and decides when the buffered ones are due for the file.
pub struct JournalWriter {
    seq: u64,
    pending: Vec<u8>,
    written_since_flush: u64,
    flush_interval: u64,
    last_flush: u64,
}

impl JournalWriter {
    /// Sequence number of the last record.
    pub closed spec fn last_seq(self) -> u64 {
        self.seq
    }

    /// Bytes not yet handed to the file.
    pub closed spec fn buffered(self) -> Seq<u8> {
        self.pending@
    }

    /// Records appended since the last flush.
    pub closed spec fn unflushed(self) -> u64 {
        self.written_since_flush
    }

    /// Nanoseconds between flushes.
    pub closed spec fn interval(self) -> u64 {
        self.flush_interval
    }

    /// Time of the last flush.
    pub closed spec fn flushed_at(self) -> u64 {
        self.last_flush
    }

    /// Whether the buffered records are due at time `now`.
    pub open spec fn overdue(self, now: u64) -> bool {
        now >= self.flushed_at() && now - self.flushed_at() >= self.interval()
    }

    /// A writer for a fresh file; times are in nanoseconds of one clock.
    pub fn open(flush_interval: u64, now: u64) -> (r: JournalWriter)
        ensures
            r.last_seq() == 0,
            r.buffered() == Seq::<u8>::empty(),
            r.unflushed() == 0,
            r.interval() == flush_interval,
            r.flushed_at() == now,
    {
        JournalWriter {
            seq: 0,
            pending: Vec::new(),
            written_since_flush: 0,
            flush_interval,
            last_flush: now,
        }
    }

    /// Sequence number of the last record.
    pub fn seq(&self) -> (r: u64)
        ensures
            r == self.last_seq(),
    {
        self.seq
    }

    /// Continues numbering after `seq` on a freshly opened writer.
    pub fn resume_from(&mut self, seq: u64)
        requires
            old(self).last_seq() == 0,
        ensures
            final(self).last_seq() == seq,
            final(self).buffered() == old(self).buffered(),
            final(self).unflushed() == old(self).unflushed(),
            final(self).interval() == old(self).interval(),
            final(self).flushed_at() == old(self).flushed_at(),
    {
        self.seq = seq;
    }

    /// Appends one command frame. Returns the record's sequence number and
    /// whether the buffered records are now due for the file.
    pub fn append(&mut self, ts_nanos: u64, frame: &[u8; MSG_LEN], now: u64) -> (r: (u64, bool))
        requires
            old(self).last_seq() < u64::MAX,
            old(self).unflushed() < u64::MAX,
        ensures
            r.0 == old(self).last_seq() + 1,
            final(self).last_seq() == r.0,
            final(self).buffered() == old(self).buffered() + sealed(
                record_body(RecordView { seq: r.0, ts_nanos, frame: frame@ }),
            ),
            final(self).unflushed() == old(self).unflushed() + 1,
            final(self).interval() == old(self).interval(),
            final(self).flushed_at() == old(self).flushed_at(),
            r.1 == (final(self).unflushed() >= FLUSH_RECORDS || final(self).overdue(now)),
    {
        self.seq = self.seq + 1;
        let from: usize = self.pending.len();
        let ghost before = self.pending@;
        put_le(&mut self.pending, self.seq, 8);
        put_le(&mut self.pending, ts_nanos, 8);
        assert(frame@.subrange(0, MSG_LEN as int) =~= frame@);
        put_slice(&mut self.pending, frame.as_slice(), 0, MSG_LEN);
        proof {
            let body = record_body(RecordView { seq: self.seq, ts_nanos, frame: frame@ });
            assert(self.pending@ =~= before + body);
            assert(self.pending@.skip(from as int) =~= body);
            assert(self.pending@.take(from as int) =~= before);
        }
        seal(&mut self.pending, from);
        self.written_since_flush = self.written_since_flush + 1;
        let due = self.written_since_flush >= FLUSH_RECORDS || (now >= self.last_flush && now
            - self.last_flush >= self.flush_interval);
        (self.seq, due)
    }

    /// Hands the buffered bytes out for writing.
    pub fn flush(&mut self, now: u64) -> (r: Vec<u8>)
        ensures
            r@ == old(self).buffered(),
            final(self).buffered() == Seq::<u8>::empty(),
            final(self).unflushed() == 0,
            final(self).flushed_at() == now,
            final(self).last_seq() == old(self).last_seq(),
            final(self).interval() == old(self).interval(),
    {
        let mut out: Vec<u8> = Vec::new();
        std::mem::swap(&mut out, &mut self.pending);
        self.written_since_flush = 0;
        self.last_flush = now;
        out
    }

    /// Hands the buffered bytes out if there are any records and they are due.
    pub fn tick(&mut self, now: u64) -> (r: Option<Vec<u8>>)
        ensures
            r is Some <==> old(self).unflushed() > 0 && old(self).overdue(now),
            final(self).last_seq() == old(self).last_seq(),
            final(self).interval() == old(self).interval(),
            match r {
                Some(bytes) => {
                    &&& bytes@ == old(self).buffered()
                    &&& final(self).buffered() == Seq::<u8>::empty()
                    &&& final(self).unflushed() == 0
                    &&& final(self).flushed_at() == now
                },
                None => *final(self) == *old(self),
            },
    {
        if self.written_since_flush > 0 && now >= self.last_flush && now - self.last_flush
            >= self.flush_interval {
            Some(self.flush(now))
        } else {
            None
        }
    }

    /// Content of the file after truncation: a header and nothing else. The
    /// sequence counter goes on from where it was.
    pub fn truncate(&mut self) -> (r: Vec<u8>)
        ensures
            r@ == header(),
            journal_records(r@) == Some(Seq::<RecordView>::empty()),
            final(self).last_seq() == old(self).last_seq(),
            final(self).buffered() == Seq::<u8>::empty(),
            final(self).unflushed() == 0,
            final(self).interval() == old(self).interval(),
            final(self).flushed_at() == old(self).flushed_at(),
    {
        self.pending = Vec::new();
        self.written_since_flush = 0;
        let head = JOURNAL_HEADER;
        assert(head@ =~= header());
        assert(head@.subrange(0, 8) =~= head@);
        let mut out: Vec<u8> = Vec::new();
        put_slice(&mut out, head.as_slice(), 0, 8);
        proof {
            law_journal_round_trip(Seq::empty(), Seq::empty());
            assert(journal_of(Seq::<RecordView>::empty()) + Seq::<u8>::empty() =~= header()) by {
                assert(Seq::<RecordView>::empty().map_values(|r: RecordView| record_body(r))
                    =~= Seq::<Seq<u8>>::empty());
            }
        }
        out
    }
}

/// The reading side of a journal.
pub struct JournalReader {
    records: Vec<Record>,
}

/// The views of records.
pub open spec fn views(records: Seq<Record>) -> Seq<RecordView> {
    Seq::new(records.len(), |i: int| records[i]@)
}

/// The record whose body starts at `at`.
fn read_record(bytes: &[u8], at: usize) -> (r: Record)
    requires
        at + RECORD_LEN <= bytes@.len(),
    ensures
        r@ == record_in(bytes@.subrange(at as int, at + (RECORD_LEN - 8))),
{
    let size: usize = bytes.len();
    let ghost body = bytes@.subrange(at as int, at + (RECORD_LEN - 8));
    let mut frame = [0u8; MSG_LEN];
    let mut i: usize = 0;
    while i < MSG_LEN
        invariant
            i <= MSG_LEN,
            size == bytes@.len(),
            at + RECORD_LEN <= size,
            frame@.len() == MSG_LEN,
            forall|k: int| 0 <= k < i ==> frame@[k] == bytes@[at + 16 + k],
        decreases MSG_LEN - i,
    {
        frame[i] = bytes[at + 16 + i];
        i = i + 1;
    }
    proof {
        assert(body.subrange(0, 8) =~= bytes@.subrange(at as int, at + 8));
        assert(body.subrange(8, 16) =~= bytes@.subrange(at + 8, at + 16));
        assert(body.subrange(16, 56) =~= frame@);
    }
    Record { seq: get_le(bytes, at, 8), ts_nanos: get_le(bytes, at + 8, 8), frame }
}

impl JournalReader {
    /// The records that were read.
    pub closed spec fn content(self) -> Seq<RecordView> {
        views(self.records@)
    }

    /// Reads the content of a journal file; `None` if its header is of another
    /// format.
    pub fn open(bytes: &[u8]) -> (r: Option<JournalReader>)
        ensures
            match r {
                Some(reader) => journal_records(bytes@) == Some(reader.content()),
                None => journal_records(bytes@) is None,
            },
    {
        let mut records: Vec<Record> = Vec::new();
        if bytes.len() < 8 {
            let reader = JournalReader { records };
            assert(reader.content() =~= Seq::<RecordView>::empty());
            return Some(reader);
        }
        let want = JOURNAL_HEADER;
        assert(want@ =~= header());
        assert(bytes@.subrange(0, 8) =~= bytes@.take(8));
        if !has_at(bytes, 0, want.as_slice()) {
            return None;
        }
        let ghost whole = bodies(bytes@.skip(8), RECORD_LEN as nat);
        let ghost f = |b: Seq<u8>| record_in(b);
        let mut at: usize = 8;
        let size: usize = bytes.len();
        proof {
            assert(views(records@) + whole.map_values(f) =~= whole.map_values(f));
        }
        while intact_at(bytes, at, RECORD_LEN)
            invariant
                8 <= at <= bytes@.len(),
                size == bytes@.len(),
                f == (|b: Seq<u8>| record_in(b)),
                views(records@) + bodies(bytes@.skip(at as int), RECORD_LEN as nat).map_values(f)
                    == whole.map_values(f),
            decreases bytes@.len() - at,
        {
            proof {
                lemma_bodies_step(bytes@, at as int, RECORD_LEN as nat);
            }
            let record = read_record(bytes, at);
            let ghost was = views(records@);
            records.push(record);
            proof {
                let rest = bodies(bytes@.skip(at + RECORD_LEN), RECORD_LEN as nat);
                let body = bytes@.subrange(at as int, at + (RECORD_LEN - 8));
                assert(views(records@) =~= was.push(record@));
                assert((seq![body] + rest).map_values(f) =~= seq![record_in(body)]
                    + rest.map_values(f));
                assert(views(records@) + rest.map_values(f) =~= was + (seq![body] + rest).map_values(
                    f,
                ));
            }
            at = at + RECORD_LEN;
        }
        proof {
            lemma_bodies_step(bytes@, at as int, RECORD_LEN as nat);
            let none = Seq::<Seq<u8>>::empty().map_values(f);
            assert(views(records@) + none =~= views(records@));
        }
        Some(JournalReader { records })
    }

    /// The records, in order.
    pub fn records(&self) -> (r: &Vec<Record>)
        ensures
            views(r@) == self.content(),
    {
        &self.records
    }
}

/// The bytes of a record: its number, its time, the command, and the checksum of all three.
pub proof fn law_record_layout(r: RecordView)
    requires
        r.frame.len() == MSG_LEN,
    ensures
        ({
            let bytes = sealed(record_body(r));
            &&& bytes.len() == 64
            &&& from_le(bytes.subrange(0, 8)) == r.seq
            &&& from_le(bytes.subrange(8, 16)) == r.ts_nanos
            &&& bytes.subrange(16, 56) == r.frame
            &&& from_le(bytes.subrange(56, 64)) == fnv(bytes.take(56))
        }),
        header() == seq!['T' as u8, 'C' as u8, 'J' as u8, 'R' as u8, 2u8, 0u8, 0u8, 0u8],
{
    let body = record_body(r);
    let bytes = sealed(body);
    lemma_pow256();
    lemma_le_len(r.seq as nat, 8);
    lemma_le_len(r.ts_nanos as nat, 8);
    lemma_le_len(fnv(body) as nat, 8);
    law_bytes_round_trip(r.seq as nat, 8);
    law_bytes_round_trip(r.ts_nanos as nat, 8);
    law_bytes_round_trip(fnv(body) as nat, 8);
    assert(bytes.subrange(0, 8) =~= le(r.seq as nat, 8));
    assert(bytes.subrange(8, 16) =~= le(r.ts_nanos as nat, 8));
    assert(bytes.subrange(16, 56) =~= r.frame);
    assert(bytes.take(56) =~= body);
    assert(bytes.subrange(56, 64) =~= le(fnv(body) as nat, 8));
}

} // verus!
