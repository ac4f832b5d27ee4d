//! Independent, portable write-ahead logs of single instruments, and the proofs
//! of what has been applied.
//!
//! Each instrument has a log of its own and can be replayed or moved without
//! reading unrelated markets.

use std::collections::{HashMap, HashSet};

use vstd::prelude::*;

use crate::codec::{
    fnv, from_le, get_le, has_at, law_bytes_round_trip, le, lemma_le_len, lemma_pow256, put_le,
    put_slice, same_bytes, FNV_OFFSET,
};
use crate::exchange::{admissible, applied, Command, Engines, ExecReport, Processor, Rules};
use crate::journal::{
    fnv1a, journal_records, record_body, views, JournalReader, JournalWriter, Record, RecordView,
    FLUSH_RECORDS,
};
use crate::record::{intact, intact_at, lemma_sealed, seal, sealed};
use crate::replay::{fingerprint_reports, replay_rules, report_stream};
use crate::strategy::MatchingStrategy;
use crate::types::InstrumentId;
use crate::wire::{
    command_frame, command_of, decode_command, encode_command, is_command_frame, WireView, MSG_LEN,
    RAFT_BATCH_MAX_COMMANDS,
};

verus! {

broadcast use vstd::std_specs::hash::group_hash_axioms;

/// Why a log or a proof file was refused.
#[derive(Clone, Copy, Debug, PartialEq, Eq, Structural)]
pub enum AssetLogError {
    /// The file is of another format or version.
    Header,
    /// A whole record whose checksum does not match.
    Checksum,
    /// Two proofs of one entry differ.
    ConflictingProofs,
    /// A record's sequence number is not the one after its predecessor's.
    SequenceGap,
    /// A record holds no command frame.
    InvalidFrame,
    /// A record holds a command with an unknown code.
    UnknownCommand,
    /// A record holds a command on another instrument.
    OtherInstrument,
    /// One command id stands for two different commands.
    ConflictingCommand { id: u64 },
    /// A command that cannot be applied.
    Refused,
    /// A batch with commands on more than one instrument.
    CrossAsset,
}

/// Summary by which a copied log is verified before it is put in use.
#[derive(Clone, Copy, Debug, PartialEq, Eq, Structural)]
pub struct AssetLogMeta {
    pub instrument: InstrumentId,
    pub records: u64,
    pub last_seq: u64,
    /// Covers every record in order.
    pub fingerprint: u64,
}

/// Proof that a replicated entry was applied and what reports it produced.
#[derive(Clone, Copy, Debug, PartialEq, Eq, Structural)]
pub struct AppliedBatchProof {
    pub raft_index: u64,
    pub report_count: u32,
    pub report_fingerprint: u64,
}

/// First bytes of a proof file.
pub const APPLIED_PROOF_HEADER: [u8; 8] = [84, 67, 65, 80, 1, 0, 0, 0];

/// Size of a proof.
pub const APPLIED_PROOF_RECORD_LEN: usize = 32;

/// The bytes `TCAP`, version 1.
pub open spec fn proof_header() -> Seq<u8> {
    seq![84u8, 67, 65, 80, 1, 0, 0, 0]
}

/// Content of a file; `None` where there is no file.
pub open spec fn contents(file: Option<&[u8]>) -> Option<Seq<u8>> {
    match file {
        Some(bytes) => Some(bytes@),
        None => None,
    }
}

/// The body of a proof.
pub open spec fn proof_body(p: AppliedBatchProof) -> Seq<u8> {
    le(p.raft_index as nat, 8) + le(p.report_count as nat, 4) + le(0, 4) + le(
        p.report_fingerprint as nat,
        8,
    )
}

/// The proof in a body.
pub open spec fn proof_in(body: Seq<u8>) -> AppliedBatchProof {
    AppliedBatchProof {
        raft_index: from_le(body.subrange(0, 8)) as u64,
        report_count: from_le(body.subrange(8, 12)) as u32,
        report_fingerprint: from_le(body.subrange(16, 24)) as u64,
    }
}

proof fn lemma_proof_body(p: AppliedBatchProof)
    ensures
        proof_body(p).len() == 24,
        proof_in(proof_body(p)) == p,
{
    lemma_le_len(p.raft_index as nat, 8);
    lemma_le_len(p.report_count as nat, 4);
    lemma_le_len(0, 4);
    lemma_le_len(p.report_fingerprint as nat, 8);
    lemma_pow256();
    law_bytes_round_trip(p.raft_index as nat, 8);
    law_bytes_round_trip(p.report_count as nat, 4);
    law_bytes_round_trip(p.report_fingerprint as nat, 8);
    let body = proof_body(p);
    assert(body.subrange(0, 8) =~= le(p.raft_index as nat, 8));
    assert(body.subrange(8, 12) =~= le(p.report_count as nat, 4));
    assert(body.subrange(16, 24) =~= le(p.report_fingerprint as nat, 8));
}

/// The proofs from `at` on, added to `known`. A torn record at the end is passed
/// over; a whole one must be intact and agree with what is known of its entry.
pub open spec fn proofs_from(bytes: Seq<u8>, at: int, known: Map<u64, AppliedBatchProof>) -> Result<
    Map<u64, AppliedBatchProof>,
    AssetLogError,
>
    decreases bytes.len() - at,
{
    if at < 0 || at + 32 > bytes.len() {
        Ok(known)
    } else if !intact(bytes.subrange(at, at + 32)) {
        Err(AssetLogError::Checksum)
    } else {
        let p = proof_in(bytes.subrange(at, at + 24));
        if known.contains_key(p.raft_index) && known[p.raft_index] != p {
            Err(AssetLogError::ConflictingProofs)
        } else {
            proofs_from(bytes, at + 32, known.insert(p.raft_index, p))
        }
    }
}

/// The proofs in a proof file; a missing file has none.
pub open spec fn proofs_of(file: Option<Seq<u8>>) -> Result<
    Map<u64, AppliedBatchProof>,
    AssetLogError,
> {
    match file {
        None => Ok(Map::empty()),
        Some(bytes) => if bytes.len() >= 8 && bytes.take(8) == proof_header() {
            proofs_from(bytes, 8, Map::empty())
        } else {
            Err(AssetLogError::Header)
        },
    }
}

proof fn lemma_proofs_append(
    bytes: Seq<u8>,
    at: int,
    known: Map<u64, AppliedBatchProof>,
    p: AppliedBatchProof,
)
    requires
        0 <= at <= bytes.len(),
        (bytes.len() - at) % 32 == 0,
        proofs_from(bytes, at, known) is Ok,
    ensures
        proofs_from(bytes + sealed(proof_body(p)), at, known) == ({
            let m = proofs_from(bytes, at, known)->Ok_0;
            if m.contains_key(p.raft_index) && m[p.raft_index] != p {
                Err::<Map<u64, AppliedBatchProof>, AssetLogError>(AssetLogError::ConflictingProofs)
            } else {
                Ok(m.insert(p.raft_index, p))
            }
        }),
    decreases bytes.len() - at,
{
    let longer = bytes + sealed(proof_body(p));
    lemma_proof_body(p);
    lemma_sealed(proof_body(p));
    if at + 32 > bytes.len() {
        assert(longer.subrange(at, at + 32) =~= sealed(proof_body(p)));
        assert(longer.subrange(at, at + 24) =~= proof_body(p));
        let m = proofs_from(bytes, at, known)->Ok_0;
        assert(m == known);
        if !(m.contains_key(p.raft_index) && m[p.raft_index] != p) {
            assert(proofs_from(longer, at + 32, m.insert(p.raft_index, p)) == Ok::<
                Map<u64, AppliedBatchProof>,
                AssetLogError,
            >(m.insert(p.raft_index, p)));
        }
    } else {
        assert(longer.subrange(at, at + 32) =~= bytes.subrange(at, at + 32));
        assert(longer.subrange(at, at + 24) =~= bytes.subrange(at, at + 24));
        let q = proof_in(bytes.subrange(at, at + 24));
        lemma_proofs_append(bytes, at + 32, known.insert(q.raft_index, q), p);
    }
}

/// A proof that was appended to a proof file of whole records is found again,
/// with every earlier one.
pub proof fn law_appended_proof_is_found(bytes: Seq<u8>, p: AppliedBatchProof)
    requires
        proofs_of(Some(bytes)) is Ok,
        (bytes.len() - 8) % 32 == 0,
        !proofs_of(Some(bytes))->Ok_0.contains_key(p.raft_index),
    ensures
        proofs_of(Some(bytes + sealed(proof_body(p)))) == Ok::<
            Map<u64, AppliedBatchProof>,
            AssetLogError,
        >(proofs_of(Some(bytes))->Ok_0.insert(p.raft_index, p)),
{
    lemma_proofs_append(bytes, 8, Map::empty(), p);
    assert((bytes + sealed(proof_body(p))).take(8) =~= bytes.take(8));
}

/// Bytes that record that an entry was applied, to be appended to the proof file
/// once its reports are durable; a new file starts with its header.
pub fn mark_applied_batch(
    new_file: bool,
    raft_index: u64,
    report_count: u32,
    report_fingerprint: u64,
) -> (r: Vec<u8>)
    ensures
        r@ == (if new_file {
            proof_header()
        } else {
            Seq::empty()
        }) + sealed(proof_body(AppliedBatchProof { raft_index, report_count, report_fingerprint })),
{
    let mut out: Vec<u8> = Vec::new();
    if new_file {
        let head = APPLIED_PROOF_HEADER;
        assert(head@.subrange(0, 8) =~= proof_header());
        put_slice(&mut out, head.as_slice(), 0, 8);
    }
    let from: usize = out.len();
    let ghost before = out@;
    put_le(&mut out, raft_index, 8);
    put_le(&mut out, report_count as u64, 4);
    put_le(&mut out, 0, 4);
    put_le(&mut out, report_fingerprint, 8);
    proof {
        let body = proof_body(AppliedBatchProof { raft_index, report_count, report_fingerprint });
        assert(out@ =~= before + body);
        assert(out@.skip(from as int) =~= body);
        assert(out@.take(from as int) =~= before);
    }
    seal(&mut out, from);
    out
}

fn read_proof(bytes: &[u8], at: usize) -> (r: AppliedBatchProof)
    requires
        at + 32 <= bytes@.len(),
    ensures
        r == proof_in(bytes@.subrange(at as int, at + 24)),
{
    let size: usize = bytes.len();
    let ghost body = bytes@.subrange(at as int, at + 24);
    proof {
        assert(body.subrange(0, 8) =~= bytes@.subrange(at as int, at + 8));
        assert(body.subrange(8, 12) =~= bytes@.subrange(at + 8, at + 12));
        assert(body.subrange(16, 24) =~= bytes@.subrange(at + 16, at + 24));
    }
    AppliedBatchProof {
        raft_index: get_le(bytes, at, 8),
        report_count: get_le(bytes, at + 8, 4) as u32,
        report_fingerprint: get_le(bytes, at + 16, 8),
    }
}

/// The proofs, and a list of the entries they are of.
fn read_proofs(file: Option<&[u8]>) -> (r: Result<
    (HashMap<u64, AppliedBatchProof>, Vec<u64>),
    AssetLogError,
>)
    ensures
        ({
            let want = proofs_of(contents(file));
            match r {
                Ok((proofs, list)) => {
                    &&& want == Ok::<Map<u64, AppliedBatchProof>, AssetLogError>(proofs@)
                    &&& forall|k: u64| #[trigger] proofs@.contains_key(k) <==> list@.contains(k)
                },
                Err(error) => want == Err::<Map<u64, AppliedBatchProof>, AssetLogError>(error),
            }
        }),
{
    let mut proofs: HashMap<u64, AppliedBatchProof> = HashMap::new();
    let mut list: Vec<u64> = Vec::new();
    assert(proofs@ =~= Map::<u64, AppliedBatchProof>::empty());
    let bytes = match file {
        Some(bytes) => bytes,
        None => {
            return Ok((proofs, list));
        },
    };
    let size: usize = bytes.len();
    if size < 8 {
        return Err(AssetLogError::Header);
    }
    let want = APPLIED_PROOF_HEADER;
    assert(want@ =~= proof_header());
    assert(bytes@.subrange(0, 8) =~= bytes@.take(8));
    if !has_at(bytes, 0, want.as_slice()) {
        return Err(AssetLogError::Header);
    }
    let mut at: usize = 8;
    let ghost whole = proofs_of(contents(file));
    while size - at >= 32
        invariant
            8 <= at <= size == bytes@.len(),
            whole == proofs_of(contents(file)),
            proofs_from(bytes@, at as int, proofs@) == whole,
            forall|k: u64| #[trigger] proofs@.contains_key(k) <==> list@.contains(k),
        decreases size - at,
    {
        if !intact_at(bytes, at, APPLIED_PROOF_RECORD_LEN) {
            return Err(AssetLogError::Checksum);
        }
        let found = read_proof(bytes, at);
        if let Some(previous) = proofs.get(&found.raft_index) {
            if *previous != found {
                return Err(AssetLogError::ConflictingProofs);
            }
        }
        let ghost before = proofs@;
        let ghost listed = list@;
        proofs.insert(found.raft_index, found);
        list.push(found.raft_index);
        proof {
            assert forall|k: u64| #[trigger] proofs@.contains_key(k) <==> list@.contains(k) by {
                assert(before.contains_key(k) <==> listed.contains(k));
                if listed.contains(k) {
                    let i = choose|i: int| 0 <= i < listed.len() && listed[i] == k;
                    assert(list@[i] == k);
                }
                if list@.contains(k) {
                    let i = choose|i: int| 0 <= i < list@.len() && list@[i] == k;
                    if i < listed.len() {
                        assert(listed[i] == k);
                    }
                }
                assert(list@[listed.len() as int] == found.raft_index);
            }
        }
        at = at + 32;
    }
    Ok((proofs, list))
}

/// Loads every proof of a proof file.
pub fn load_applied_batch_proofs(file: Option<&[u8]>) -> (r: Result<
    HashMap<u64, AppliedBatchProof>,
    AssetLogError,
>)
    ensures
        ({
            let want = proofs_of(contents(file));
            match r {
                Ok(proofs) => want == Ok::<Map<u64, AppliedBatchProof>, AssetLogError>(proofs@),
                Err(error) => want == Err::<Map<u64, AppliedBatchProof>, AssetLogError>(error),
            }
        }),
{
    match read_proofs(file) {
        Ok((proofs, _)) => Ok(proofs),
        Err(error) => Err(error),
    }
}

/// The watermarks from `at` on, added to `known`; each is an index and its
/// checksum.
pub open spec fn marks_from(bytes: Seq<u8>, at: int, known: Set<u64>) -> Result<
    Set<u64>,
    AssetLogError,
>
    decreases bytes.len() - at,
{
    if at < 0 || at + 16 > bytes.len() {
        Ok(known)
    } else if !intact(bytes.subrange(at, at + 16)) {
        Err(AssetLogError::Checksum)
    } else {
        marks_from(bytes, at + 16, known.insert(from_le(bytes.subrange(at, at + 8)) as u64))
    }
}

/// The applied entries: those with a watermark and those with a proof.
pub open spec fn applied_of(marks: Option<Seq<u8>>, proofs: Option<Seq<u8>>) -> Result<
    Set<u64>,
    AssetLogError,
> {
    let first = match marks {
        Some(bytes) => marks_from(bytes, 0, Set::empty()),
        None => Ok(Set::empty()),
    };
    match first {
        Err(error) => Err(error),
        Ok(marked) => match proofs_of(proofs) {
            Err(error) => Err(error),
            Ok(m) => Ok(marked.union(m.dom())),
        },
    }
}

/// A watermark, to be appended to the file of watermarks.
pub fn mark_raft_batch_applied(raft_index: u64) -> (r: Vec<u8>)
    ensures
        r@ == sealed(le(raft_index as nat, 8)),
{
    let mut out: Vec<u8> = Vec::new();
    put_le(&mut out, raft_index, 8);
    proof {
        assert(out@ =~= le(raft_index as nat, 8));
        assert(out@.skip(0) =~= out@);
        assert(out@.take(0) + sealed(out@) =~= sealed(out@));
    }
    seal(&mut out, 0);
    out
}

/// Loads the set of applied entries from the file of watermarks and the proof
/// file.
pub fn load_applied_batches(marks: Option<&[u8]>, proofs: Option<&[u8]>) -> (r: Result<
    HashSet<u64>,
    AssetLogError,
>)
    ensures
        ({
            let want = applied_of(contents(marks), contents(proofs));
            match r {
                Ok(set) => want == Ok::<Set<u64>, AssetLogError>(set@),
                Err(error) => want == Err::<Set<u64>, AssetLogError>(error),
            }
        }),
{
    let mut out: HashSet<u64> = HashSet::new();
    assert(out@ =~= Set::<u64>::empty());
    if let Some(bytes) = marks {
        let size: usize = bytes.len();
        let mut at: usize = 0;
        let ghost whole = marks_from(bytes@, 0, Set::empty());
        while size - at >= 16
            invariant
                marks == Some(bytes),
                at <= size == bytes@.len(),
                whole == marks_from(bytes@, 0, Set::empty()),
                marks_from(bytes@, at as int, out@) == whole,
            decreases size - at,
        {
            if !intact_at(bytes, at, 16) {
                return Err(AssetLogError::Checksum);
            }
            let index: u64 = get_le(bytes, at, 8);
            out.insert(index);
            at = at + 16;
        }
    }
    let ghost marked = out@;
    let (known, list) = match read_proofs(proofs) {
        Ok(pair) => pair,
        Err(error) => {
            return Err(error);
        },
    };
    let mut i: usize = 0;
    assert(marked.union(list@.take(0).to_set()) =~= marked);
    while i < list.len()
        invariant
            i <= list@.len(),
            out@ == marked.union(list@.take(i as int).to_set()),
        decreases list@.len() - i,
    {
        out.insert(list[i]);
        proof {
            let next = list@.take(i + 1);
            let last = list@[i as int];
            assert(next =~= list@.take(i as int).push(last));
            assert forall|k: u64| next.to_set().contains(k) <==> list@.take(
                i as int,
            ).to_set().insert(last).contains(k) by {
                if next.contains(k) {
                    let j = choose|j: int| 0 <= j < next.len() && next[j] == k;
                    if j < i {
                        assert(list@.take(i as int)[j] == k);
                    }
                }
                if list@.take(i as int).contains(k) {
                    let j = choose|j: int| 0 <= j < i && list@.take(i as int)[j] == k;
                    assert(next[j] == k);
                }
                assert(next[i as int] == last);
            }
            assert(out@ =~= marked.union(next.to_set()));
        }
        i += 1;
    }
    proof {
        assert(list@.take(i as int) =~= list@);
        assert forall|k: u64| list@.to_set().contains(k) <==> known@.dom().contains(k) by {
            assert(known@.contains_key(k) <==> list@.contains(k));
        }
        assert(marked.union(list@.to_set()) =~= marked.union(known@.dom()));
    }
    Ok(out)
}

/// Why a replay does not match its proof.
#[derive(Clone, Copy, Debug, PartialEq, Eq, Structural)]
pub struct ReplayMismatch {
    pub expected: AppliedBatchProof,
    pub report_count: u32,
    pub report_fingerprint: u64,
}

/// Holds a deterministic replay against its proof. Recovery must stop where it
/// does not match.
pub fn verify_applied_batch(
    expected: AppliedBatchProof,
    report_count: u32,
    report_fingerprint: u64,
) -> (r: Result<(), ReplayMismatch>)
    ensures
        r == if expected.report_count == report_count && expected.report_fingerprint
            == report_fingerprint {
            Ok::<(), ReplayMismatch>(())
        } else {
            Err(ReplayMismatch { expected, report_count, report_fingerprint })
        },
{
    if expected.report_count != report_count || expected.report_fingerprint != report_fingerprint {
        return Err(ReplayMismatch { expected, report_count, report_fingerprint });
    }
    Ok(())
}

/// Fingerprint of a log extended by one record.
pub open spec fn record_hash(previous: u64, r: RecordView) -> u64 {
    fnv(le(previous as nat, 8) + le(r.seq as nat, 8) + le(r.ts_nanos as nat, 8) + r.frame)
}

fn hash_record(previous: u64, record: &Record) -> (r: u64)
    ensures
        r == record_hash(previous, record@),
{
    let mut bytes: Vec<u8> = Vec::new();
    put_le(&mut bytes, previous, 8);
    put_le(&mut bytes, record.seq, 8);
    put_le(&mut bytes, record.ts_nanos, 8);
    assert(record.frame@.subrange(0, MSG_LEN as int) =~= record.frame@);
    put_slice(&mut bytes, record.frame.as_slice(), 0, MSG_LEN);
    assert(bytes@ =~= le(previous as nat, 8) + le(record.seq as nat, 8) + le(
        record.ts_nanos as nat,
        8,
    ) + record.frame@);
    fnv1a(bytes.as_slice())
}

/// Why `record` cannot be record number `seq` of the instrument's log.
pub open spec fn misfit(record: RecordView, seq: int, instrument: InstrumentId) -> Option<
    AssetLogError,
> {
    if record.seq != seq {
        Some(AssetLogError::SequenceGap)
    } else if !is_command_frame(record.frame) {
        Some(AssetLogError::InvalidFrame)
    } else {
        match command_of(record.frame) {
            None => Some(AssetLogError::UnknownCommand),
            Some(command) => if command.target() != instrument {
                Some(AssetLogError::OtherInstrument)
            } else {
                None
            },
        }
    }
}

/// The fingerprint of an instrument's log, or what is wrong with its first bad
/// record.
pub open spec fn inspected(records: Seq<RecordView>, instrument: InstrumentId) -> Result<
    u64,
    AssetLogError,
>
    decreases records.len(),
{
    if records.len() == 0 {
        Ok(FNV_OFFSET)
    } else {
        match inspected(records.drop_last(), instrument) {
            Err(error) => Err(error),
            Ok(h) => match misfit(records.last(), records.len() as int, instrument) {
                Some(error) => Err(error),
                None => Ok(record_hash(h, records.last())),
            },
        }
    }
}

proof fn lemma_inspection_stops(records: Seq<RecordView>, instrument: InstrumentId, n: int)
    requires
        0 <= n <= records.len(),
        inspected(records.take(n), instrument) is Err,
    ensures
        inspected(records, instrument) == inspected(records.take(n), instrument),
    decreases records.len(),
{
    if n < records.len() {
        assert(records.drop_last().take(n) =~= records.take(n));
        lemma_inspection_stops(records.drop_last(), instrument, n);
    } else {
        assert(records.take(n) =~= records);
    }
}

/// A log that passes inspection numbers its records from 1 on and holds commands
/// on its instrument only.
pub proof fn law_inspected_log_is_portable(records: Seq<RecordView>, instrument: InstrumentId)
    requires
        inspected(records, instrument) is Ok,
    ensures
        forall|i: int|
            0 <= i < records.len() ==> (#[trigger] records[i]).seq == i + 1 && command_of(
                records[i].frame,
            ) is Some && command_of(records[i].frame)->0.target() == instrument,
    decreases records.len(),
{
    if records.len() > 0 {
        let front = records.drop_last();
        law_inspected_log_is_portable(front, instrument);
        assert forall|i: int| 0 <= i < records.len() implies (#[trigger] records[i]).seq == i + 1
            && command_of(records[i].frame) is Some && command_of(records[i].frame)->0.target()
            == instrument by {
            if i < front.len() {
                assert(front[i] == records[i]);
            }
        }
    }
}

fn inspect_records(records: &Vec<Record>, instrument: InstrumentId) -> (r: Result<
    AssetLogMeta,
    AssetLogError,
>)
    ensures
        match r {
            Ok(meta) => {
                &&& inspected(views(records@), instrument) == Ok::<u64, AssetLogError>(
                    meta.fingerprint,
                )
                &&& meta.instrument == instrument
                &&& meta.records == records@.len()
                &&& meta.last_seq == records@.len()
            },
            Err(error) => inspected(views(records@), instrument) == Err::<u64, AssetLogError>(
                error,
            ),
        },
{
    let ghost all = views(records@);
    let mut fingerprint: u64 = FNV_OFFSET;
    let mut i: usize = 0;
    assert(all.take(0) =~= Seq::<RecordView>::empty());
    while i < records.len()
        invariant
            i <= records@.len(),
            all == views(records@),
            inspected(all.take(i as int), instrument) == Ok::<u64, AssetLogError>(fingerprint),
        decreases records@.len() - i,
    {
        let record = &records[i];
        let ghost next = all.take(i + 1);
        proof {
            assert(next.drop_last() =~= all.take(i as int));
            assert(next.last() == record@);
            if inspected(next, instrument) is Err {
                lemma_inspection_stops(all, instrument, i + 1);
            }
        }
        if record.seq == 0 || record.seq - 1 != i as u64 {
            return Err(AssetLogError::SequenceGap);
        }
        let view = match WireView::parse(record.frame.as_slice()) {
            Some(view) => view,
            None => {
                return Err(AssetLogError::InvalidFrame);
            },
        };
        let command = match view.to_command() {
            Some(command) => command,
            None => {
                return Err(AssetLogError::UnknownCommand);
            },
        };
        if command.instrument() != instrument {
            return Err(AssetLogError::OtherInstrument);
        }
        fingerprint = hash_record(fingerprint, record);
        i += 1;
    }
    assert(all.take(i as int) =~= all);
    let records: u64 = i as u64;
    Ok(AssetLogMeta { instrument, records, last_seq: records, fingerprint })
}

/// Reads and validates an instrument's log: sequence gaps, malformed commands and
/// commands on other instruments are errors; a torn record at the end is not.
pub fn inspect(log: &[u8], instrument: InstrumentId) -> (r: Result<AssetLogMeta, AssetLogError>)
    ensures
        match journal_records(log@) {
            None => r == Err::<AssetLogMeta, AssetLogError>(AssetLogError::Header),
            Some(records) => match r {
                Ok(meta) => {
                    &&& inspected(records, instrument) == Ok::<u64, AssetLogError>(
                        meta.fingerprint,
                    )
                    &&& meta.instrument == instrument
                    &&& meta.records == records.len()
                    &&& meta.last_seq == records.len()
                },
                Err(error) => inspected(records, instrument) == Err::<u64, AssetLogError>(error),
            },
        },
{
    match JournalReader::open(log) {
        Some(reader) => inspect_records(reader.records(), instrument),
        None => Err(AssetLogError::Header),
    }
}

/// Frames by command id.
pub open spec fn frames_in(seen: Map<u64, [u8; MSG_LEN]>) -> Map<u64, Seq<u8>> {
    seen.map_values(|f: [u8; MSG_LEN]| f@)
}

/// What becomes of a command on replay: applied (`true`), passed over because it
/// is byte for byte one that was applied already (`false`), or an error because
/// its id stands for another command.
pub open spec fn replay_verdict(
    seen: Map<u64, Seq<u8>>,
    command: Command,
    frame: Seq<u8>,
) -> Result<bool, AssetLogError> {
    let id = command.ident();
    if id == 0 || !seen.contains_key(id) {
        Ok(true)
    } else if seen[id] == frame {
        Ok(false)
    } else {
        Err(AssetLogError::ConflictingCommand { id })
    }
}

/// The frames that have been seen after a command was applied.
pub open spec fn with_seen(seen: Map<u64, Seq<u8>>, command: Command, frame: Seq<u8>) -> Map<
    u64,
    Seq<u8>,
> {
    if command.ident() == 0 {
        seen
    } else {
        seen.insert(command.ident(), frame)
    }
}

/// Decides whether a command is applied on replay, and remembers it.
pub fn accept_replay_command(
    seen: &mut HashMap<u64, [u8; MSG_LEN]>,
    command: &Command,
    frame: &[u8; MSG_LEN],
) -> (r: Result<bool, AssetLogError>)
    ensures
        r == replay_verdict(frames_in(old(seen)@), *command, frame@),
        frames_in(final(seen)@) == if r == Ok::<bool, AssetLogError>(true) {
            with_seen(frames_in(old(seen)@), *command, frame@)
        } else {
            frames_in(old(seen)@)
        },
{
    let id: u64 = command.id();
    if id == 0 {
        return Ok(true);
    }
    let known: Option<bool> = match seen.get(&id) {
        None => None,
        Some(first) => Some(same_bytes(first.as_slice(), frame.as_slice())),
    };
    match known {
        None => {
            seen.insert(id, *frame);
            assert(frames_in(seen@) =~= frames_in(old(seen)@).insert(id, frame@));
            Ok(true)
        },
        Some(same) => if same {
            Ok(false)
        } else {
            Err(AssetLogError::ConflictingCommand { id })
        },
    }
}

/// Where the replay of one instrument's log has got to.
pub struct AssetReplay {
    pub engines: Engines,
    pub reports: Seq<ExecReport>,
    pub seen: Map<u64, Seq<u8>>,
}

/// The outcome of replaying the records after `after_seq`.
pub open spec fn asset_replayed<S: MatchingStrategy>(
    rules: Rules<S>,
    start: Engines,
    records: Seq<RecordView>,
    after_seq: u64,
) -> Result<AssetReplay, AssetLogError>
    decreases records.len(),
{
    if records.len() == 0 {
        Ok(AssetReplay { engines: start, reports: Seq::empty(), seen: Map::empty() })
    } else {
        let record = records.last();
        match asset_replayed(rules, start, records.drop_last(), after_seq) {
            Err(error) => Err(error),
            Ok(at) => if record.seq <= after_seq {
                Ok(at)
            } else {
                match command_of(record.frame) {
                    None => Err(AssetLogError::UnknownCommand),
                    Some(command) => match replay_verdict(at.seen, command, record.frame) {
                        Err(error) => Err(error),
                        Ok(false) => Ok(at),
                        Ok(true) => if admissible(rules, at.engines, command) {
                            let end = applied(rules, at.engines, command);
                            Ok(
                                AssetReplay {
                                    engines: end.0,
                                    reports: at.reports + end.1,
                                    seen: with_seen(at.seen, command, record.frame),
                                },
                            )
                        } else {
                            Err(AssetLogError::Refused)
                        },
                    },
                }
            },
        }
    }
}

/// How far a replay gets: the books after the records before the first one that it
/// fails at, or after all of them.
pub open spec fn asset_progress<S: MatchingStrategy>(
    rules: Rules<S>,
    start: Engines,
    records: Seq<RecordView>,
    after_seq: u64,
) -> Engines
    decreases records.len(),
{
    match asset_replayed(rules, start, records, after_seq) {
        Ok(at) => at.engines,
        Err(_) => if records.len() == 0 {
            start
        } else {
            asset_progress(rules, start, records.drop_last(), after_seq)
        },
    }
}

/// A replay that fails leaves the books that the records before the failure made.
proof fn lemma_progress_stops<S: MatchingStrategy>(
    rules: Rules<S>,
    start: Engines,
    records: Seq<RecordView>,
    after_seq: u64,
    n: int,
)
    requires
        0 <= n < records.len(),
        asset_replayed(rules, start, records.take(n), after_seq) is Ok,
        asset_replayed(rules, start, records.take(n + 1), after_seq) is Err,
    ensures
        asset_progress(rules, start, records, after_seq) == asset_replayed(
            rules,
            start,
            records.take(n),
            after_seq,
        )->Ok_0.engines,
    decreases records.len(),
{
    reveal_with_fuel(asset_progress, 2);
    lemma_asset_replay_stops(rules, start, records, after_seq, n + 1);
    let front = records.drop_last();
    if n + 1 < records.len() {
        assert(front.take(n) =~= records.take(n));
        assert(front.take(n + 1) =~= records.take(n + 1));
        lemma_progress_stops(rules, start, front, after_seq, n);
    } else {
        assert(front =~= records.take(n));
    }
}

proof fn lemma_asset_replay_stops<S: MatchingStrategy>(
    rules: Rules<S>,
    start: Engines,
    records: Seq<RecordView>,
    after_seq: u64,
    n: int,
)
    requires
        0 <= n <= records.len(),
        asset_replayed(rules, start, records.take(n), after_seq) is Err,
    ensures
        asset_replayed(rules, start, records, after_seq) == asset_replayed(
            rules,
            start,
            records.take(n),
            after_seq,
        ),
    decreases records.len(),
{
    if n < records.len() {
        assert(records.drop_last().take(n) =~= records.take(n));
        lemma_asset_replay_stops(rules, start, records.drop_last(), after_seq, n);
    } else {
        assert(records.take(n) =~= records);
    }
}

/// A record whose command, with a command id, an earlier record holds byte for byte
/// changes nothing.
pub proof fn law_duplicate_is_replayed_once<S: MatchingStrategy>(
    rules: Rules<S>,
    start: Engines,
    records: Seq<RecordView>,
    again: RecordView,
)
    requires
        asset_replayed(rules, start, records, 0) is Ok,
        exists|i: int|
            0 <= i < records.len() && (#[trigger] records[i]).frame == again.frame && records[i].seq
                > 0,
        command_of(again.frame) is Some,
        command_of(again.frame)->0.ident() != 0,
    ensures
        asset_replayed(rules, start, records.push(again), 0) == asset_replayed(
            rules,
            start,
            records,
            0,
        ),
{
    let longer = records.push(again);
    assert(longer.drop_last() =~= records);
    let i = choose|i: int|
        0 <= i < records.len() && (#[trigger] records[i]).frame == again.frame && records[i].seq
            > 0;
    lemma_seen(rules, start, records, i);
}

proof fn lemma_seen<S: MatchingStrategy>(
    rules: Rules<S>,
    start: Engines,
    records: Seq<RecordView>,
    i: int,
)
    requires
        asset_replayed(rules, start, records, 0) is Ok,
        0 <= i < records.len(),
        records[i].seq > 0,
        command_of(records[i].frame) is Some,
        command_of(records[i].frame)->0.ident() != 0,
    ensures
        ({
            let at = asset_replayed(rules, start, records, 0)->Ok_0;
            let id = command_of(records[i].frame)->0.ident();
            at.seen.contains_key(id) && at.seen[id] == records[i].frame
        }),
    decreases records.len(),
{
    let front = records.drop_last();
    if i < front.len() {
        lemma_seen(rules, start, front, i);
        assert(front[i] == records[i]);
    }
}

/// Applies the records after `after_seq`; the reports are appended to `out`.
fn replay_asset_records<S: MatchingStrategy + Copy>(
    records: &Vec<Record>,
    after_seq: u64,
    processor: &mut Processor<S>,
    out: &mut Vec<ExecReport>,
) -> (r: Result<(), AssetLogError>)
    requires
        old(processor).wf(),
    ensures
        final(processor).wf(),
        final(processor).rules() == old(processor).rules(),
        ({
            let end = asset_replayed(
                old(processor).rules(),
                old(processor).engines(),
                views(records@),
                after_seq,
            );
            match r {
                Ok(()) => {
                    &&& end is Ok
                    &&& final(processor).engines() == end->Ok_0.engines
                    &&& final(out)@ == old(out)@ + end->Ok_0.reports
                },
                Err(error) => {
                    &&& end == Err::<AssetReplay, AssetLogError>(error)
                    &&& final(processor).engines() == asset_progress(
                        old(processor).rules(),
                        old(processor).engines(),
                        views(records@),
                        after_seq,
                    )
                },
            }
        }),
{
    let ghost rules = processor.rules();
    let ghost start = processor.engines();
    let ghost all = views(records@);
    let ghost base = out@.len() as int;
    let mut seen: HashMap<u64, [u8; MSG_LEN]> = HashMap::new();
    let mut i: usize = 0;
    proof {
        assert(all.take(0) =~= Seq::<RecordView>::empty());
        assert(frames_in(seen@) =~= Map::<u64, Seq<u8>>::empty());
        assert(out@.skip(base) =~= Seq::<ExecReport>::empty());
        assert(out@.take(base) =~= out@);
    }
    while i < records.len()
        invariant
            i <= records@.len(),
            all == views(records@),
            base == old(out)@.len(),
            processor.wf(),
            processor.rules() == rules,
            rules == old(processor).rules(),
            start == old(processor).engines(),
            asset_replayed(rules, start, all.take(i as int), after_seq) == Ok::<
                AssetReplay,
                AssetLogError,
            >(
                AssetReplay {
                    engines: processor.engines(),
                    reports: out@.skip(base),
                    seen: frames_in(seen@),
                },
            ),
            out@.len() >= base,
            out@.take(base) == old(out)@,
        decreases records@.len() - i,
    {
        let record = &records[i];
        let ghost was = out@;
        let ghost next = all.take(i + 1);
        proof {
            assert(next.drop_last() =~= all.take(i as int));
            assert(next.last() == record@);
            if asset_replayed(rules, start, next, after_seq) is Err {
                lemma_asset_replay_stops(rules, start, all, after_seq, i + 1);
                lemma_progress_stops(rules, start, all, after_seq, i as int);
            }
        }
        if record.seq > after_seq {
            let command = match decode_command(record.frame.as_slice()) {
                Some(command) => command,
                None => {
                    return Err(AssetLogError::UnknownCommand);
                },
            };
            match accept_replay_command(&mut seen, &command, &record.frame) {
                Err(error) => {
                    return Err(error);
                },
                Ok(fresh) => {
                    if fresh {
                        if !processor.accepts(&command) {
                            return Err(AssetLogError::Refused);
                        }
                        let ghost added = applied(rules, processor.engines(), command).1;
                        processor.process(command, out);
                        proof {
                            assert(out@.skip(base) =~= was.skip(base) + added);
                            assert(out@.take(base) =~= was.take(base));
                        }
                    }
                },
            }
        }
        i += 1;
    }
    proof {
        assert(all.take(i as int) =~= all);
        assert(out@ =~= out@.take(base) + out@.skip(base));
    }
    Ok(())
}

/// Replays the records after `after_seq` of an instrument's log into a processor
/// that is fresh or was restored from a snapshot. The log is inspected first; the
/// caller compares the result with that of the source. Where the replay fails, the
/// records before the failure stay applied.
pub fn replay_into<S: MatchingStrategy + Copy>(
    log: &[u8],
    instrument: InstrumentId,
    after_seq: u64,
    processor: &mut Processor<S>,
) -> (r: Result<AssetLogMeta, AssetLogError>)
    requires
        old(processor).wf(),
    ensures
        final(processor).wf(),
        final(processor).rules() == old(processor).rules(),
        match journal_records(log@) {
            None => r == Err::<AssetLogMeta, AssetLogError>(AssetLogError::Header)
                && final(processor).engines() == old(processor).engines(),
            Some(records) => match inspected(records, instrument) {
                Err(error) => r == Err::<AssetLogMeta, AssetLogError>(error)
                    && final(processor).engines() == old(processor).engines(),
                Ok(fingerprint) => {
                    let end = asset_replayed(
                        old(processor).rules(),
                        old(processor).engines(),
                        records,
                        after_seq,
                    );
                    match r {
                        Ok(meta) => {
                            &&& end is Ok
                            &&& final(processor).engines() == end->Ok_0.engines
                            &&& meta == (AssetLogMeta {
                                instrument,
                                records: records.len() as u64,
                                last_seq: records.len() as u64,
                                fingerprint,
                            })
                        },
                        Err(error) => {
                            &&& end == Err::<AssetReplay, AssetLogError>(error)
                            &&& final(processor).engines() == asset_progress(
                                old(processor).rules(),
                                old(processor).engines(),
                                records,
                                after_seq,
                            )
                        },
                    }
                },
            },
        },
{
    let reader = match JournalReader::open(log) {
        Some(reader) => reader,
        None => {
            return Err(AssetLogError::Header);
        },
    };
    let meta = match inspect_records(reader.records(), instrument) {
        Ok(meta) => meta,
        Err(error) => {
            return Err(error);
        },
    };
    let mut dropped: Vec<ExecReport> = Vec::new();
    match replay_asset_records(reader.records(), after_seq, processor, &mut dropped) {
        Ok(()) => Ok(meta),
        Err(error) => Err(error),
    }
}

/// Replays an instrument's log on a machine that has no state of it.
pub fn replay_fresh<S: MatchingStrategy + Copy>(
    log: &[u8],
    instrument: InstrumentId,
    strategy: S,
) -> (r: Result<(Processor<S>, AssetLogMeta), AssetLogError>)
    ensures
        match journal_records(log@) {
            None => r matches Err(error) && error is Header,
            Some(records) => match inspected(records, instrument) {
                Err(error) => r matches Err(e) && e == error,
                Ok(fingerprint) => {
                    let end = asset_replayed(
                        replay_rules(strategy, None),
                        Map::empty(),
                        records,
                        0,
                    );
                    match r {
                        Ok((processor, meta)) => {
                            &&& end is Ok
                            &&& processor.wf()
                            &&& processor.rules() == replay_rules(strategy, None)
                            &&& processor.engines() == end->Ok_0.engines
                            &&& meta == (AssetLogMeta {
                                instrument,
                                records: records.len() as u64,
                                last_seq: records.len() as u64,
                                fingerprint,
                            })
                        },
                        Err(error) => end == Err::<AssetReplay, AssetLogError>(error),
                    }
                },
            },
        },
{
    let mut processor = Processor::new(strategy, None);
    match replay_into(log, instrument, 0, &mut processor) {
        Ok(meta) => Ok((processor, meta)),
        Err(error) => Err(error),
    }
}

/// The outcome of replaying a single instrument's log.
pub struct AssetReplaySummary<S: MatchingStrategy + Copy> {
    pub meta: AssetLogMeta,
    pub reports: Vec<ExecReport>,
    /// Fingerprint of the reports.
    pub fingerprint: u64,
    pub processor: Processor<S>,
}

/// Replays an instrument's log and keeps the reports, by which recovery is
/// verified.
pub fn replay_with_reports<S: MatchingStrategy + Copy>(
    log: &[u8],
    instrument: InstrumentId,
    strategy: S,
) -> (r: Result<AssetReplaySummary<S>, AssetLogError>)
    ensures
        match journal_records(log@) {
            None => r matches Err(error) && error is Header,
            Some(records) => {
                // Records are numbered from 1 on; 0 is never covered.
                let end = asset_replayed(replay_rules(strategy, None), Map::empty(), records, 0);
                match r {
                    Ok(summary) => {
                        &&& end is Ok
                        &&& inspected(records, instrument) == Ok::<u64, AssetLogError>(
                            summary.meta.fingerprint,
                        )
                        &&& summary.meta.instrument == instrument
                        &&& summary.meta.records == records.len()
                        &&& summary.meta.last_seq == records.len()
                        &&& summary.reports@ == end->Ok_0.reports
                        &&& summary.fingerprint == fnv(report_stream(end->Ok_0.reports))
                        &&& summary.processor.wf()
                        &&& summary.processor.engines() == end->Ok_0.engines
                    },
                    Err(error) => match end {
                        Err(e) => error == e,
                        Ok(_) => inspected(records, instrument) == Err::<u64, AssetLogError>(
                            error,
                        ),
                    },
                }
            },
        },
{
    let reader = match JournalReader::open(log) {
        Some(reader) => reader,
        None => {
            return Err(AssetLogError::Header);
        },
    };
    let mut processor = Processor::new(strategy, None);
    let mut reports: Vec<ExecReport> = Vec::new();
    match replay_asset_records(reader.records(), 0, &mut processor, &mut reports) {
        Ok(()) => {},
        Err(error) => {
            return Err(error);
        },
    }
    proof {
        let end = asset_replayed(replay_rules(strategy, None), Map::empty(), reader.content(), 0);
        assert(Seq::<ExecReport>::empty() + end->Ok_0.reports =~= end->Ok_0.reports);
    }
    let fingerprint: u64 = fingerprint_reports(reports.as_slice());
    match inspect_records(reader.records(), instrument) {
        Ok(meta) => Ok(AssetReplaySummary { meta, reports, fingerprint, processor }),
        Err(error) => Err(error),
    }
}

/// Sum of what the shards have recovered: for each the later of its snapshot's
/// and its journal's sequence number. The sum saturates.
pub open spec fn recovered_records(shards: Seq<(u64, u64)>) -> nat
    decreases shards.len(),
{
    if shards.len() == 0 {
        0
    } else {
        let (snapshot, journal) = shards.last();
        let head = if snapshot >= journal {
            snapshot
        } else {
            journal
        };
        let sum = recovered_records(shards.drop_last()) + head;
        if sum > u64::MAX {
            u64::MAX as nat
        } else {
            sum as nat
        }
    }
}

/// Fingerprints of the wanted commands among `records`, added to `known`.
pub open spec fn fingerprints_in(
    records: Seq<RecordView>,
    wanted: Set<u64>,
    known: Map<u64, u64>,
) -> Result<Map<u64, u64>, AssetLogError>
    decreases records.len(),
{
    if records.len() == 0 {
        Ok(known)
    } else {
        let record = records.last();
        match fingerprints_in(records.drop_last(), wanted, known) {
            Err(error) => Err(error),
            Ok(m) => match command_of(record.frame) {
                None => Err(AssetLogError::UnknownCommand),
                Some(command) => {
                    let id = command.ident();
                    let h = fnv(record.frame);
                    if id == 0 || !wanted.contains(id) {
                        Ok(m)
                    } else if m.contains_key(id) && m[id] != h {
                        Err(AssetLogError::ConflictingCommand { id })
                    } else {
                        Ok(m.insert(id, h))
                    }
                },
            },
        }
    }
}

/// Fingerprints of the wanted commands in all logs, and the number of records.
pub open spec fn fingerprints_of(logs: Seq<Vec<u8>>, wanted: Set<u64>) -> Result<
    (Map<u64, u64>, nat),
    AssetLogError,
>
    decreases logs.len(),
{
    if logs.len() == 0 {
        Ok((Map::empty(), 0))
    } else {
        match fingerprints_of(logs.drop_last(), wanted) {
            Err(error) => Err(error),
            Ok((known, count)) => match journal_records(logs.last()@) {
                None => Err(AssetLogError::Header),
                Some(records) => match fingerprints_in(records, wanted, known) {
                    Err(error) => Err(error),
                    Ok(m) => Ok((m, count + records.len())),
                },
            },
        }
    }
}

proof fn lemma_fingerprints_stop(
    records: Seq<RecordView>,
    wanted: Set<u64>,
    known: Map<u64, u64>,
    n: int,
)
    requires
        0 <= n <= records.len(),
        fingerprints_in(records.take(n), wanted, known) is Err,
    ensures
        fingerprints_in(records, wanted, known) == fingerprints_in(records.take(n), wanted, known),
    decreases records.len(),
{
    if n < records.len() {
        assert(records.drop_last().take(n) =~= records.take(n));
        lemma_fingerprints_stop(records.drop_last(), wanted, known, n);
    } else {
        assert(records.take(n) =~= records);
    }
}

proof fn lemma_logs_stop(logs: Seq<Vec<u8>>, wanted: Set<u64>, n: int)
    requires
        0 <= n <= logs.len(),
        fingerprints_of(logs.take(n), wanted) is Err,
    ensures
        fingerprints_of(logs, wanted) == fingerprints_of(logs.take(n), wanted),
    decreases logs.len(),
{
    if n < logs.len() {
        assert(logs.drop_last().take(n) =~= logs.take(n));
        lemma_logs_stop(logs.drop_last(), wanted, n);
    } else {
        assert(logs.take(n) =~= logs);
    }
}

fn collect_fingerprints(
    records: &Vec<Record>,
    wanted: &HashSet<u64>,
    known: &mut HashMap<u64, u64>,
) -> (r: Result<(), AssetLogError>)
    ensures
        ({
            let end = fingerprints_in(views(records@), wanted@, old(known)@);
            match r {
                Ok(()) => end == Ok::<Map<u64, u64>, AssetLogError>(final(known)@),
                Err(error) => end == Err::<Map<u64, u64>, AssetLogError>(error),
            }
        }),
{
    let ghost all = views(records@);
    let mut i: usize = 0;
    assert(all.take(0) =~= Seq::<RecordView>::empty());
    while i < records.len()
        invariant
            i <= records@.len(),
            all == views(records@),
            fingerprints_in(all.take(i as int), wanted@, old(known)@) == Ok::<
                Map<u64, u64>,
                AssetLogError,
            >(known@),
        decreases records@.len() - i,
    {
        let record = &records[i];
        proof {
            let next = all.take(i + 1);
            assert(next.drop_last() =~= all.take(i as int));
            assert(next.last() == record@);
            if fingerprints_in(next, wanted@, old(known)@) is Err {
                lemma_fingerprints_stop(all, wanted@, old(known)@, i + 1);
            }
        }
        let command = match decode_command(record.frame.as_slice()) {
            Some(command) => command,
            None => {
                return Err(AssetLogError::UnknownCommand);
            },
        };
        let id: u64 = command.id();
        if id != 0 && wanted.contains(&id) {
            let h: u64 = fnv1a(record.frame.as_slice());
            if let Some(previous) = known.get(&id) {
                if *previous != h {
                    return Err(AssetLogError::ConflictingCommand { id });
                }
            }
            known.insert(id, h);
        }
        i += 1;
    }
    assert(all.take(i as int) =~= all);
    Ok(())
}

/// Command fingerprints from the logs of all instruments, but only if the number
/// of records proves that every one of them is part of the recovered shard state:
/// a log is appended to before the shard's journal, so a record in it alone does
/// not show that its command was applied.
///
/// `shards` holds for each shard the sequence number of its snapshot and of its
/// journal, 0 for none.
pub fn recovered_command_fingerprints(
    shards: &Vec<(u64, u64)>,
    logs: &Vec<Vec<u8>>,
    wanted: &HashSet<u64>,
) -> (r: Result<Option<HashMap<u64, u64>>, AssetLogError>)
    ensures
        match fingerprints_of(logs@, wanted@) {
            Err(error) => r matches Err(e) && e == error,
            Ok((known, count)) => match r {
                Ok(Some(map)) => map@ == known && (if count > u64::MAX {
                    u64::MAX as nat
                } else {
                    count
                }) == recovered_records(shards@),
                Ok(None) => (if count > u64::MAX {
                    u64::MAX as nat
                } else {
                    count
                }) != recovered_records(shards@),
                Err(_) => false,
            },
        },
{
    let mut recovered: u64 = 0;
    let mut i: usize = 0;
    assert(shards@.take(0) =~= Seq::<(u64, u64)>::empty());
    while i < shards.len()
        invariant
            i <= shards@.len(),
            recovered == recovered_records(shards@.take(i as int)),
        decreases shards@.len() - i,
    {
        let (snapshot, journal) = shards[i];
        assert(shards@.take(i + 1).drop_last() =~= shards@.take(i as int));
        let head: u64 = if snapshot >= journal {
            snapshot
        } else {
            journal
        };
        recovered = recovered.saturating_add(head);
        i += 1;
    }
    assert(shards@.take(i as int) =~= shards@);
    let mut count: u64 = 0;
    let mut known: HashMap<u64, u64> = HashMap::new();
    let ghost mut total: nat = 0;
    let mut k: usize = 0;
    proof {
        assert(known@ =~= Map::<u64, u64>::empty());
        assert(logs@.take(0) =~= Seq::<Vec<u8>>::empty());
    }
    while k < logs.len()
        invariant
            k <= logs@.len(),
            fingerprints_of(logs@.take(k as int), wanted@) == Ok::<
                (Map<u64, u64>, nat),
                AssetLogError,
            >((known@, total)),
            count == if total > u64::MAX {
                u64::MAX as nat
            } else {
                total
            },
        decreases logs@.len() - k,
    {
        proof {
            let next = logs@.take(k + 1);
            assert(next.drop_last() =~= logs@.take(k as int));
            assert(next.last() == logs@[k as int]);
            if fingerprints_of(next, wanted@) is Err {
                lemma_logs_stop(logs@, wanted@, k + 1);
            }
        }
        let reader = match JournalReader::open(logs[k].as_slice()) {
            Some(reader) => reader,
            None => {
                return Err(AssetLogError::Header);
            },
        };
        match collect_fingerprints(reader.records(), wanted, &mut known) {
            Ok(()) => {},
            Err(error) => {
                return Err(error);
            },
        }
        count = count.saturating_add(reader.records().len() as u64);
        proof {
            total = total + reader.content().len();
        }
        k += 1;
    }
    assert(logs@.take(k as int) =~= logs@);
    if count != recovered {
        return Ok(None);
    }
    Ok(Some(known))
}

/// Whether a watermark moves: `raft_index` is later than the present one. A
/// missing watermark is 0.
pub fn applied_index_moves(current: Option<u64>, raft_index: u64) -> (r: bool)
    ensures
        r == (raft_index > match current {
            Some(index) => index,
            None => 0,
        }),
{
    match current {
        Some(index) => raft_index > index,
        None => raft_index > 0,
    }
}

/// Sequence number of the last record of a log; 0 for an empty one, `None` for a
/// file of another format.
pub fn last_seq(log: &[u8]) -> (r: Option<u64>)
    ensures
        r == match journal_records(log@) {
            None => None,
            Some(records) => Some(
                if records.len() == 0 {
                    0
                } else {
                    records.last().seq
                },
            ),
        },
{
    match JournalReader::open(log) {
        None => None,
        Some(reader) => {
            let records = reader.records();
            let n: usize = records.len();
            if n == 0 {
                Some(0)
            } else {
                assert(reader.content()[n - 1] == records@[n - 1]@);
                Some(records[n - 1].seq)
            }
        },
    }
}

/// Whether all commands of a batch are on one instrument: only such a batch can
/// be part of one log.
pub open spec fn single_asset(commands: Seq<Command>) -> bool {
    forall|i: int, j: int|
        0 <= i < commands.len() && 0 <= j < commands.len() ==> (#[trigger] commands[i]).target()
            == (#[trigger] commands[j]).target()
}

/// Whether a batch may be part of one instrument's log.
pub fn portable_batch(commands: &Vec<Command>) -> (r: bool)
    ensures
        r == single_asset(commands@),
{
    if commands.len() == 0 {
        return true;
    }
    let instrument = commands[0].instrument();
    let mut i: usize = 1;
    while i < commands.len()
        invariant
            1 <= i <= commands@.len(),
            instrument == commands@[0].target(),
            forall|j: int| 0 <= j < i ==> (#[trigger] commands@[j]).target() == instrument,
        decreases commands@.len() - i,
    {
        if commands[i].instrument() != instrument {
            assert(commands@[i as int].target() != commands@[0].target());
            return false;
        }
        i += 1;
    }
    true
}

/// The open logs after one more was used, the most recently used one last.
pub open spec fn used(open: Seq<u32>, instrument: u32, max: nat) -> Seq<u32> {
    if open.contains(instrument) {
        open.remove(open.index_of(instrument)).push(instrument)
    } else if open.len() >= max && open.len() > 0 {
        open.skip(1).push(instrument)
    } else {
        open.push(instrument)
    }
}

/// The open logs after several were used in turn.
pub open spec fn used_all(open: Seq<u32>, batch: Seq<u32>, max: nat) -> Seq<u32>
    decreases batch.len(),
{
    if batch.len() == 0 {
        open
    } else {
        used(used_all(open, batch.drop_last(), max), batch.last(), max)
    }
}

/// Only one log of each instrument is open.
pub open spec fn once(open: Seq<u32>) -> bool {
    forall|i: int, j: int| 0 <= i < j < open.len() ==> #[trigger] open[i] != #[trigger] open[j]
}

proof fn lemma_used(open: Seq<u32>, instrument: u32, max: nat)
    requires
        once(open),
        open.len() <= max,
        max > 0,
    ensures
        once(used(open, instrument, max)),
        used(open, instrument, max).len() <= max,
        used(open, instrument, max).len() > 0,
        used(open, instrument, max).last() == instrument,
        forall|i: int|
            0 < i < open.len() && open[i] != instrument ==> used(open, instrument, max).contains(
                #[trigger] open[i],
            ),
{
    let after = used(open, instrument, max);
    if open.contains(instrument) {
        let k = open.index_of(instrument);
        assert(open[k] == instrument);
        assert forall|i: int, j: int| 0 <= i < j < after.len() implies #[trigger] after[i]
            != #[trigger] after[j] by {
            let a = if i < k { i } else { i + 1 };
            let b = if j < k { j } else { j + 1 };
            assert(after[i] == open[a]);
            if j < after.len() - 1 {
                assert(after[j] == open[b]);
            } else {
                assert(open[a] != open[k]);
            }
        }
        assert forall|i: int| 0 < i < open.len() && open[i] != instrument implies after.contains(
            #[trigger] open[i],
        ) by {
            assert(after[if i < k { i } else { i - 1 }] == open[i]);
        }
    } else {
        let drop: int = if open.len() >= max { 1 } else { 0 };
        assert forall|i: int, j: int| 0 <= i < j < after.len() implies #[trigger] after[i]
            != #[trigger] after[j] by {
            assert(after[i] == open[i + drop]);
            if j < after.len() - 1 {
                assert(after[j] == open[j + drop]);
            }
        }
        assert forall|i: int| 0 < i < open.len() && open[i] != instrument implies after.contains(
            #[trigger] open[i],
        ) by {
            assert(after[i - drop] == open[i]);
        }
    }
}

/// A batch that uses no more logs than may be open keeps all of them open: none is
/// closed before the batch is made durable.
pub proof fn law_batch_stays_open(open: Seq<u32>, batch: Seq<u32>, max: nat)
    requires
        once(open),
        open.len() <= max,
        batch.len() <= max,
        max > 0,
    ensures
        once(used_all(open, batch, max)),
        used_all(open, batch, max).len() <= max,
        forall|i: int|
            0 <= i < batch.len() ==> used_all(open, batch, max).contains(#[trigger] batch[i]),
{
    lemma_batch(open, batch, max);
}

/// The logs of the batch are those used last.
proof fn lemma_batch(open: Seq<u32>, batch: Seq<u32>, max: nat)
    requires
        once(open),
        open.len() <= max,
        batch.len() <= max,
        max > 0,
    ensures
        once(used_all(open, batch, max)),
        used_all(open, batch, max).len() <= max,
        recent_tail(used_all(open, batch, max), batch),
        forall|i: int|
            0 <= i < batch.len() ==> used_all(open, batch, max).contains(#[trigger] batch[i]),
    decreases batch.len(),
{
    if batch.len() == 0 {
        assert(recent_from(open, batch, open.len() as int));
    } else {
        let front = batch.drop_last();
        let x = batch.last();
        lemma_batch(open, front, max);
        let before = used_all(open, front, max);
        let after = used(before, x, max);
        lemma_used(before, x, max);
        let from = choose|from: int| recent_from(before, front, from);
        lemma_recent(before, front, from, x, max);
        assert(front.push(x) =~= batch);
        let end = choose|end: int| recent_from(after, batch, end);
        assert forall|i: int| 0 <= i < batch.len() implies after.contains(#[trigger] batch[i]) by {
            assert(batch.contains(batch[i]));
            assert(after.skip(end).contains(batch[i]));
            let k = choose|k: int| 0 <= k < after.skip(end).len() && after.skip(end)[k] == batch[i];
            assert(after[end + k] == batch[i]);
        }
    }
}

/// From `from` on `open` holds exactly the logs of `batch`, at most that many.
spec fn recent_from(open: Seq<u32>, batch: Seq<u32>, from: int) -> bool {
    &&& 0 <= from <= open.len()
    &&& open.len() - from <= batch.len()
    &&& forall|v: u32| #[trigger] open.skip(from).contains(v) <==> batch.contains(v)
}

spec fn recent_tail(open: Seq<u32>, batch: Seq<u32>) -> bool {
    exists|from: int| recent_from(open, batch, from)
}

proof fn lemma_recent(before: Seq<u32>, front: Seq<u32>, from: int, x: u32, max: nat)
    requires
        once(before),
        before.len() <= max,
        front.len() < max,
        recent_from(before, front, from),
    ensures
        recent_tail(used(before, x, max), front.push(x)),
{
    let batch = front.push(x);
    let after = used(before, x, max);
    let tail = before.skip(from);
    assert forall|v: u32| batch.contains(v) <==> front.contains(v) || v == x by {
        if front.contains(v) {
            let k = choose|k: int| 0 <= k < front.len() && front[k] == v;
            assert(batch[k] == v);
        }
        if batch.contains(v) {
            let k = choose|k: int| 0 <= k < batch.len() && batch[k] == v;
            if k < front.len() {
                assert(front[k] == v);
            }
        }
        assert(batch[front.len() as int] == x);
    }
    // Where the tail starts now, and which log of `before` left.
    let out: int = if before.contains(x) {
        before.index_of(x)
    } else if before.len() >= max && before.len() > 0 {
        0
    } else {
        -1
    };
    if before.contains(x) {
        assert(before[out] == x);
    }
    let end: int = if 0 <= out < from { from - 1 } else { from };
    if !before.contains(x) && out == 0 {
        // The batch is shorter than the cache, so what leaves is older.
        assert(from > 0);
    }
    let now = after.skip(end);
    assert forall|v: u32| #[trigger] now.contains(v) <==> batch.contains(v) by {
        if now.contains(v) && v != x {
            let k = choose|k: int| 0 <= k < now.len() && now[k] == v;
            let at = end + k;
            let was = if 0 <= out && at >= out { at + 1 } else { at };
            assert(before[was] == v);
            assert(tail[was - from] == v);
            assert(tail.contains(v));
        }
        if front.contains(v) {
            assert(tail.contains(v));
            let k = choose|k: int| 0 <= k < tail.len() && tail[k] == v;
            let was = from + k;
            assert(before[was] == v);
            if v != x {
                let at = if 0 <= out && was > out { was - 1 } else { was };
                assert(after[at] == v);
                assert(now[at - end] == v);
            }
        }
        assert(after[after.len() - 1] == x);
        assert(now[now.len() - 1] == x);
    }
    assert(recent_from(after, batch, end)) by {
        if before.contains(x) && out >= from {
            assert(after.len() == before.len());
        }
    }
}

struct CachedWriter {
    instrument: u32,
    writer: JournalWriter,
}

/// The open log writers of the instruments local to one machine; the least
/// recently used one is closed to make room.
pub struct AssetJournalSet {
    /// The most recently used writer is last.
    writers: Vec<CachedWriter>,
    flush_interval: u64,
    max_open_writers: usize,
}

/// An open log: the sequence number of its last record, and the bytes that have
/// not been handed to its file.
#[verifier::ext_equal]
pub struct LogView {
    pub seq: u64,
    pub buffered: Seq<u8>,
    /// Records appended since the last flush.
    pub unflushed: u64,
    /// Time of the last flush.
    pub flushed_at: u64,
}

spec fn log_view(w: JournalWriter) -> LogView {
    LogView {
        seq: w.last_seq(),
        buffered: w.buffered(),
        unflushed: w.unflushed(),
        flushed_at: w.flushed_at(),
    }
}

/// What a log is after its bytes were handed to its file.
pub open spec fn flushed_log(log: LogView, now: u64) -> LogView {
    LogView { buffered: Seq::empty(), unflushed: 0, flushed_at: now, ..log }
}

/// The open logs: the order of their use, how many there may be, and what they hold.
#[verifier::ext_equal]
pub struct SetView {
    pub open: Seq<u32>,
    pub limit: nat,
    pub logs: Map<u32, LogView>,
}

/// The set with an instrument's log open. A new one stands behind record `last_seq`;
/// without room the least recently used log is closed for it.
pub open spec fn with_open(set: SetView, instrument: u32, last_seq: u64, now: u64) -> SetView {
    if set.open.contains(instrument) {
        set
    } else {
        let kept = if set.open.len() >= set.limit {
            set.logs.remove(set.open[0])
        } else {
            set.logs
        };
        SetView {
            open: used(set.open, instrument, set.limit),
            logs: kept.insert(
                instrument,
                LogView { seq: last_seq, buffered: Seq::empty(), unflushed: 0, flushed_at: now },
            ),
            ..set
        }
    }
}

/// The log that is closed when an instrument's log is opened, with the bytes that
/// its file still lacks.
pub open spec fn pushed_out(set: SetView, instrument: u32) -> Seq<(u32, Seq<u8>)> {
    if !set.open.contains(instrument) && set.open.len() >= set.limit {
        seq![(set.open[0], set.logs[set.open[0]].buffered)]
    } else {
        Seq::empty()
    }
}

/// The set after a command was appended to its log, which is open.
pub open spec fn with_record(set: SetView, command: Command, ts_nanos: u64) -> SetView {
    let instrument = command.target().0;
    let log = set.logs[instrument];
    let seq = (log.seq + 1) as u64;
    SetView {
        open: used(set.open, instrument, set.limit),
        logs: set.logs.insert(
            instrument,
            LogView {
                seq,
                buffered: log.buffered + sealed(
                    record_body(RecordView { seq, ts_nanos, frame: command_frame(command) }),
                ),
                unflushed: (log.unflushed + 1) as u64,
                flushed_at: log.flushed_at,
            },
        ),
        ..set
    }
}

/// The number of the last record in an instrument's file.
pub open spec fn file_end(ends: Map<u32, u64>, instrument: u32) -> u64 {
    if ends.contains_key(instrument) {
        ends[instrument]
    } else {
        0
    }
}

/// The set after a batch was appended, and the logs that were closed on the way.
#[verifier::ext_equal]
pub struct Batched {
    pub set: SetView,
    pub evicted: Seq<(u32, Seq<u8>)>,
}

/// The set after the commands were appended in turn, each with its time stamp.
pub open spec fn batched(
    set: SetView,
    commands: Seq<Command>,
    stamps: Seq<u64>,
    ends: Map<u32, u64>,
    now: u64,
) -> Batched
    decreases commands.len(),
{
    if commands.len() == 0 {
        Batched { set, evicted: Seq::empty() }
    } else {
        let front = batched(set, commands.drop_last(), stamps, ends, now);
        let command = commands.last();
        let instrument = command.target().0;
        Batched {
            set: with_record(
                with_open(front.set, instrument, file_end(ends, instrument), now),
                command,
                stamps[commands.len() - 1],
            ),
            evicted: front.evicted + pushed_out(front.set, instrument),
        }
    }
}

/// The set after some of its logs were flushed; the order of use is as before.
pub open spec fn after_flush(set: SetView, instruments: Seq<InstrumentId>, now: u64) -> SetView {
    SetView {
        logs: Map::new(
            |k: u32| set.logs.contains_key(k),
            |k: u32|
                if instruments.contains(InstrumentId(k)) {
                    flushed_log(set.logs[k], now)
                } else {
                    set.logs[k]
                },
        ),
        ..set
    }
}

/// What the files of some logs still lack.
pub open spec fn unwritten(set: SetView, instruments: Seq<InstrumentId>) -> Seq<(u32, Seq<u8>)> {
    instruments.map_values(|i: InstrumentId| (i.0, set.logs[i.0].buffered))
}

/// Bytes to be written to the files of instruments.
pub open spec fn writes(list: Seq<(InstrumentId, Vec<u8>)>) -> Seq<(u32, Seq<u8>)> {
    list.map_values(|w: (InstrumentId, Vec<u8>)| (w.0.0, w.1@))
}

/// Instruments by their numbers.
pub open spec fn all_of(instruments: Seq<u32>) -> Seq<InstrumentId> {
    instruments.map_values(|i: u32| InstrumentId(i))
}

/// The instruments of commands.
pub open spec fn targets(commands: Seq<Command>) -> Seq<u32> {
    commands.map_values(|c: Command| c.target().0)
}

/// The counters of every log have room for `n` more records.
pub open spec fn roomy(logs: Map<u32, LogView>, ends: Map<u32, u64>, n: nat) -> bool {
    &&& forall|k: u32| #[trigger]
        logs.contains_key(k) ==> logs[k].seq + n <= u64::MAX && logs[k].unflushed + n <= u64::MAX
    &&& forall|k: u32| #[trigger] ends.contains_key(k) ==> ends[k] + n <= u64::MAX
    &&& n <= u64::MAX
}

/// What a batch hands out for writing: the logs that were closed to make room, then
/// those that the batch touched.
#[derive(Debug)]
pub struct BatchWrites {
    pub evicted: Vec<(InstrumentId, Vec<u8>)>,
    pub flushed: Vec<(InstrumentId, Vec<u8>)>,
}

/// To use the log that was used last changes nothing.
proof fn lemma_used_twice(open: Seq<u32>, instrument: u32, max: nat)
    requires
        once(open),
        open.len() <= max,
        max > 0,
    ensures
        used(used(open, instrument, max), instrument, max) == used(open, instrument, max),
{
    let after = used(open, instrument, max);
    lemma_used(open, instrument, max);
    let at = after.len() - 1;
    assert(after[at] == instrument);
    lemma_index(after, at);
    assert(after.remove(at).push(instrument) =~= after);
}

/// The instruments that a batch touches are those of its commands, each once.
proof fn lemma_touched(commands: Seq<Command>)
    ensures
        touched(commands).no_duplicates(),
        forall|i: InstrumentId| #[trigger]
            touched(commands).contains(i) ==> exists|m: int|
                0 <= m < commands.len() && (#[trigger] commands[m]).target() == i,
    decreases commands.len(),
{
    if commands.len() > 0 {
        let front = commands.drop_last();
        lemma_touched(front);
        assert forall|i: InstrumentId| #[trigger] touched(commands).contains(i) implies exists|m: int|
            0 <= m < commands.len() && (#[trigger] commands[m]).target() == i by {
            if touched(front).contains(i) {
                let m = choose|m: int| 0 <= m < front.len() && (#[trigger] front[m]).target() == i;
                assert(commands[m].target() == i);
            } else {
                let k = choose|k: int| 0 <= k < touched(commands).len() && touched(commands)[k] == i;
                if k < touched(front).len() {
                    assert(touched(front)[k] == i);
                }
                assert(commands[commands.len() - 1].target() == i);
            }
        }
    }
}

impl AssetJournalSet {
    /// The instruments with an open log, the most recently used one last.
    pub closed spec fn open_logs(self) -> Seq<u32> {
        Seq::new(self.writers@.len(), |i: int| self.writers@[i].instrument)
    }

    /// How many logs may be open.
    pub closed spec fn limit(self) -> usize {
        self.max_open_writers
    }

    /// The open logs by instrument.
    pub closed spec fn logs(self) -> Map<u32, LogView> {
        Map::new(
            |k: u32| self.open_logs().contains(k),
            |k: u32| log_view(self.writers@[self.open_logs().index_of(k)].writer),
        )
    }

    /// The open logs as a whole.
    pub open spec fn state(self) -> SetView {
        SetView { open: self.open_logs(), limit: self.limit() as nat, logs: self.logs() }
    }

    /// Nanoseconds between flushes.
    pub closed spec fn interval(self) -> u64 {
        self.flush_interval
    }

    /// The invariant: one writer for each instrument, and no more than allowed.
    pub closed spec fn wf(self) -> bool {
        &&& once(self.open_logs())
        &&& self.writers@.len() <= self.max_open_writers
        &&& self.max_open_writers >= RAFT_BATCH_MAX_COMMANDS
        &&& forall|i: int|
            0 <= i < self.writers@.len() ==> (#[trigger] self.writers@[i]).writer.interval()
                == self.flush_interval
    }

    /// The logs that are open are those listed.
    pub proof fn law_logs_are_listed(&self)
        requires
            self.wf(),
        ensures
            forall|k: u32| #[trigger] self.logs().contains_key(k) <==> self.open_logs().contains(k),
            once(self.open_logs()),
            self.open_logs().len() <= self.limit(),
            self.limit() >= RAFT_BATCH_MAX_COMMANDS,
    {
    }

    /// A set without open logs. One entry can touch as many instruments as it has
    /// commands, so at least that many logs may be open.
    pub fn open(flush_interval: u64, max_open_writers: Option<usize>) -> (r: AssetJournalSet)
        ensures
            r.wf(),
            r.open_logs() == Seq::<u32>::empty(),
            r.interval() == flush_interval,
            r.limit() == ({
                let wanted: usize = match max_open_writers {
                    Some(n) => n,
                    None => 1024,
                };
                if wanted < RAFT_BATCH_MAX_COMMANDS {
                    RAFT_BATCH_MAX_COMMANDS
                } else {
                    wanted
                }
            }),
    {
        let wanted: usize = match max_open_writers {
            Some(n) => n,
            None => 1024,
        };
        let r = AssetJournalSet {
            writers: Vec::new(),
            flush_interval,
            max_open_writers: if wanted < RAFT_BATCH_MAX_COMMANDS {
                RAFT_BATCH_MAX_COMMANDS
            } else {
                wanted
            },
        };
        assert(r.open_logs() =~= Seq::<u32>::empty());
        r
    }

    /// Position of an instrument's writer.
    fn position(&self, instrument: u32) -> (r: Option<usize>)
        ensures
            match r {
                Some(i) => i < self.writers@.len() && self.writers@[i as int].instrument
                    == instrument,
                None => !self.open_logs().contains(instrument),
            },
    {
        let mut i: usize = 0;
        while i < self.writers.len()
            invariant
                i <= self.writers@.len(),
                forall|j: int| 0 <= j < i ==> (#[trigger] self.writers@[j]).instrument != instrument,
            decreases self.writers@.len() - i,
        {
            if self.writers[i].instrument == instrument {
                return Some(i);
            }
            i += 1;
        }
        proof {
            if self.open_logs().contains(instrument) {
                let k = choose|k: int|
                    0 <= k < self.open_logs().len() && self.open_logs()[k] == instrument;
                assert(self.writers@[k].instrument == instrument);
            }
        }
        None
    }

    /// Whether an instrument's log is open.
    pub fn is_open(&self, instrument: InstrumentId) -> (r: bool)
        ensures
            r == self.open_logs().contains(instrument.0),
    {
        match self.position(instrument.0) {
            Some(i) => {
                assert(self.open_logs()[i as int] == instrument.0);
                true
            },
            None => false,
        }
    }

    /// Opens an instrument's log, whose last record is number `last_seq`. To make
    /// room the least recently used log may be closed: the instrument and the
    /// bytes that its file still lacks are returned.
    pub fn open_log(&mut self, instrument: InstrumentId, last_seq: u64, now: u64) -> (r: Option<
        (InstrumentId, Vec<u8>),
    >)
        requires
            old(self).wf(),
            !old(self).open_logs().contains(instrument.0),
        ensures
            final(self).wf(),
            final(self).limit() == old(self).limit(),
            final(self).interval() == old(self).interval(),
            final(self).open_logs() == used(
                old(self).open_logs(),
                instrument.0,
                old(self).limit() as nat,
            ),
            r is Some <==> old(self).open_logs().len() >= old(self).limit(),
            r matches Some((victim, bytes)) ==> victim.0 == old(self).open_logs()[0] && bytes@
                == old(self).logs()[victim.0].buffered,
            final(self).logs() == (match r {
                Some((victim, _)) => old(self).logs().remove(victim.0),
                None => old(self).logs(),
            }).insert(instrument.0, LogView {
                    seq: last_seq,
                    buffered: Seq::empty(),
                    unflushed: 0,
                    flushed_at: now,
                }),
    {
        let mut evicted: Option<(InstrumentId, Vec<u8>)> = None;
        if self.writers.len() >= self.max_open_writers {
            let victim: u32 = self.writers[0].instrument;
            proof {
                assert(self.open_logs()[0] == victim);
                lemma_index(self.open_logs(), 0);
            }
            if let Some(mut cached) = self.take_writer(victim) {
                let bytes = cached.writer.flush(now);
                evicted = Some((InstrumentId(victim), bytes));
            }
            proof {
                let list = old(self).open_logs();
                assert(self.open_logs() =~= list.skip(1));
                if self.open_logs().contains(instrument.0) {
                    let i = self.open_logs().index_of(instrument.0);
                    assert(list[i + 1] == instrument.0);
                }
            }
        }
        let mut writer = JournalWriter::open(self.flush_interval, now);
        writer.resume_from(last_seq);
        self.put_writer(CachedWriter { instrument: instrument.0, writer });
        assert(log_view(writer) =~= LogView {
            seq: last_seq,
            buffered: Seq::empty(),
            unflushed: 0,
            flushed_at: now,
        });
        evicted
    }

    /// Takes an open log's writer out for work.
    fn take_writer(&mut self, instrument: u32) -> (r: Option<CachedWriter>)
        requires
            old(self).wf(),
            old(self).open_logs().contains(instrument),
        ensures
            final(self).max_open_writers == old(self).max_open_writers,
            final(self).flush_interval == old(self).flush_interval,
            final(self).wf(),
            final(self).writers@.len() < old(self).writers@.len(),
            final(self).logs() == old(self).logs().remove(instrument),
            final(self).open_logs() == old(self).open_logs().remove(
                old(self).open_logs().index_of(instrument),
            ),
            r is Some,
            r->0.instrument == instrument,
            r->0.writer.interval() == old(self).flush_interval,
            log_view(r->0.writer) == old(self).logs()[instrument],
    {
        let at: usize = match self.position(instrument) {
            Some(at) => at,
            None => {
                return None;
            },
        };
        let ghost before = self.open_logs();
        let ghost held = self.writers@;
        proof {
            assert(before[at as int] == instrument);
            lemma_index(before, at as int);
        }
        let cached = self.writers.remove(at);
        proof {
            let after = self.open_logs();
            assert(after =~= before.remove(at as int));
            let f = |i: int| -> int { if i < at { i } else { i + 1 } };
            assert forall|i: int| 0 <= i < after.len() implies self.writers@[i]
                == held[#[trigger] f(i)] && after[i] == before[f(i)] by {}
            assert forall|i: int, j: int| 0 <= i < j < after.len() implies #[trigger] after[i]
                != #[trigger] after[j] by {
                assert(after[i] == before[f(i)] && after[j] == before[f(j)]);
            }
            assert forall|k: u32| self.logs().contains_key(k) <==> old(self).logs().remove(
                instrument,
            ).contains_key(k) by {
                if after.contains(k) {
                    let i = after.index_of(k);
                    assert(after[i] == k);
                    assert(before[f(i)] == k);
                    assert(before[f(i)] != before[at as int]);
                }
                if before.contains(k) && k != instrument {
                    let i = before.index_of(k);
                    assert(before[i] == k);
                    let j = if i < at { i } else { i - 1 };
                    assert(f(j) == i);
                    assert(after[j] == k);
                }
            }
            assert forall|k: u32| #[trigger] self.logs().contains_key(k) implies self.logs()[k]
                == old(self).logs()[k] by {
                let i = after.index_of(k);
                assert(after[i] == k);
                assert(self.writers@[i] == held[f(i)]);
                lemma_index(before, f(i));
            }
            assert(self.logs() =~= old(self).logs().remove(instrument));
            assert forall|i: int| 0 <= i < self.writers@.len() implies (
            #[trigger] self.writers@[i]).writer.interval() == self.flush_interval by {
                assert(self.writers@[i] == held[f(i)]);
            }
        }
        Some(cached)
    }

    /// Puts a writer back as the most recently used one.
    fn put_writer(&mut self, cached: CachedWriter)
        requires
            old(self).wf(),
            old(self).writers@.len() < old(self).max_open_writers,
            !old(self).open_logs().contains(cached.instrument),
            cached.writer.interval() == old(self).flush_interval,
        ensures
            final(self).wf(),
            final(self).max_open_writers == old(self).max_open_writers,
            final(self).flush_interval == old(self).flush_interval,
            final(self).open_logs() == old(self).open_logs().push(cached.instrument),
            final(self).logs() == old(self).logs().insert(
                cached.instrument,
                log_view(cached.writer),
            ),
    {
        let ghost before = self.open_logs();
        let ghost held = self.writers@;
        let ghost key = cached.instrument;
        let ghost view = log_view(cached.writer);
        self.writers.push(cached);
        proof {
            let after = self.open_logs();
            assert(after =~= before.push(key));
            let want = old(self).logs().insert(key, view);
            assert forall|i: int, j: int| 0 <= i < j < after.len() implies #[trigger] after[i]
                != #[trigger] after[j] by {
                if j == before.len() {
                    assert(before.contains(before[i]));
                } else {
                    assert(before[i] != before[j]);
                }
            }
            assert forall|k: u32| self.logs().contains_key(k) <==> want.contains_key(k) by {
                if after.contains(k) && k != key {
                    let i = after.index_of(k);
                    assert(after[i] == k);
                    assert(before[i] == k);
                }
                if before.contains(k) {
                    let i = before.index_of(k);
                    assert(after[i] == k);
                }
                assert(after[before.len() as int] == key);
            }
            assert forall|k: u32| #[trigger] self.logs().contains_key(k) implies self.logs()[k]
                == want[k] by {
                let i = after.index_of(k);
                assert(after[i] == k);
                if k == key {
                    lemma_index(after, before.len() as int);
                } else {
                    assert(before[i] == k);
                    lemma_index(before, i);
                    assert(self.writers@[i] == held[i]);
                }
            }
            assert(self.logs() =~= want);
            assert forall|i: int| 0 <= i < self.writers@.len() implies (
            #[trigger] self.writers@[i]).writer.interval() == self.flush_interval by {
                if i < held.len() {
                    assert(self.writers@[i] == held[i]);
                }
            }
        }
    }

    /// Appends a command to its instrument's log, which must be open. Returns the
    /// record's sequence number and whether the log is due to be flushed.
    pub fn append(&mut self, command: &Command, ts_nanos: u64, now: u64) -> (r: (u64, bool))
        requires
            old(self).wf(),
            old(self).open_logs().contains(command.target().0),
            old(self).logs()[command.target().0].seq < u64::MAX,
            old(self).logs()[command.target().0].unflushed < u64::MAX,
        ensures
            final(self).wf(),
            final(self).limit() == old(self).limit(),
            final(self).interval() == old(self).interval(),
            final(self).open_logs() == used(
                old(self).open_logs(),
                command.target().0,
                old(self).limit() as nat,
            ),
            ({
                let log = old(self).logs()[command.target().0];
                let next = LogView {
                    seq: r.0,
                    buffered: log.buffered + sealed(
                        record_body(
                            RecordView { seq: r.0, ts_nanos, frame: command_frame(*command) },
                        ),
                    ),
                    unflushed: (log.unflushed + 1) as u64,
                    flushed_at: log.flushed_at,
                };
                &&& r.0 == log.seq + 1
                &&& r.1 == (next.unflushed >= FLUSH_RECORDS || (now >= log.flushed_at && now
                    - log.flushed_at >= old(self).interval()))
                &&& final(self).logs() == old(self).logs().insert(command.target().0, next)
            }),
    {
        let key: u32 = command.instrument().0;
        let frame = encode_command(command);
        let ghost list = self.open_logs();
        match self.take_writer(key) {
            Some(mut cached) => {
                proof {
                    if self.open_logs().contains(key) {
                        let i = self.open_logs().index_of(key);
                        assert(self.open_logs()[i] == key);
                        assert(self.logs().contains_key(key));
                    }
                }
                let r = cached.writer.append(ts_nanos, &frame, now);
                let ghost next = log_view(cached.writer);
                self.put_writer(cached);
                assert(self.logs() =~= old(self).logs().insert(key, next));
                r
            },
            None => (0, false),
        }
    }

    /// Hands out the bytes that an open log's file still lacks. A flush is no use:
    /// the order in which logs are closed stays as it is.
    pub fn flush_log(&mut self, instrument: InstrumentId, now: u64) -> (r: Vec<u8>)
        requires
            old(self).wf(),
            old(self).open_logs().contains(instrument.0),
        ensures
            final(self).wf(),
            final(self).limit() == old(self).limit(),
            final(self).interval() == old(self).interval(),
            final(self).open_logs() == old(self).open_logs(),
            r@ == old(self).logs()[instrument.0].buffered,
            final(self).logs() == old(self).logs().insert(
                instrument.0,
                flushed_log(old(self).logs()[instrument.0], now),
            ),
    {
        let key: u32 = instrument.0;
        let at: usize = match self.position(key) {
            Some(at) => at,
            None => {
                return Vec::new();
            },
        };
        let ghost list = self.open_logs();
        let ghost held = self.writers@;
        let mut cached = self.writers.remove(at);
        let r = cached.writer.flush(now);
        let ghost flushed = cached;
        self.writers.insert(at, cached);
        proof {
            assert(self.writers@ =~= held.update(at as int, flushed));
            assert(self.open_logs() =~= list);
            assert(list[at as int] == key);
            lemma_index(list, at as int);
            let want = old(self).logs().insert(key, flushed_log(old(self).logs()[key], now));
            assert forall|k: u32| self.logs().contains_key(k) implies self.logs()[k] == want[k] by {
                let i = list.index_of(k);
                assert(list[i] == k);
            }
            assert(log_view(flushed.writer) =~= want[key]);
            assert(self.logs() =~= want);
            assert forall|i: int| 0 <= i < self.writers@.len() implies (
            #[trigger] self.writers@[i]).writer.interval() == self.flush_interval by {
                if i != at {
                    assert(self.writers@[i] == held[i]);
                }
            }
        }
        r
    }

    /// Flushes the given logs, which must be open, one after the other.
    fn flush_each(&mut self, instruments: &Vec<InstrumentId>, now: u64) -> (r: Vec<
        (InstrumentId, Vec<u8>),
    >)
        requires
            old(self).wf(),
            instruments@.no_duplicates(),
            forall|i: int|
                0 <= i < instruments@.len() ==> old(self).open_logs().contains(
                    (#[trigger] instruments@[i]).0,
                ),
        ensures
            final(self).wf(),
            final(self).interval() == old(self).interval(),
            final(self).state() == after_flush(old(self).state(), instruments@, now),
            writes(r@) == unwritten(old(self).state(), instruments@),
    {
        let ghost start = self.state();
        let mut out: Vec<(InstrumentId, Vec<u8>)> = Vec::new();
        let mut i: usize = 0;
        proof {
            let none = instruments@.take(0);
            assert(after_flush(start, none, now).logs =~= start.logs);
            assert(writes(out@) =~= unwritten(start, none));
        }
        while i < instruments.len()
            invariant
                i <= instruments@.len(),
                self.wf(),
                self.interval() == old(self).interval(),
                start == old(self).state(),
                old(self).wf(),
                instruments@.no_duplicates(),
                forall|j: int|
                    0 <= j < instruments@.len() ==> old(self).open_logs().contains(
                        (#[trigger] instruments@[j]).0,
                    ),
                self.state() == after_flush(start, instruments@.take(i as int), now),
                writes(out@) == unwritten(start, instruments@.take(i as int)),
            decreases instruments@.len() - i,
        {
            let instrument = instruments[i];
            let ghost before = self.state();
            let ghost so_far = instruments@.take(i as int);
            let ghost sent = out@;
            proof {
                old(self).law_logs_are_listed();
                assert(!so_far.contains(instrument)) by {
                    if so_far.contains(instrument) {
                        let k = choose|k: int| 0 <= k < so_far.len() && so_far[k] == instrument;
                        assert(instruments@[k] == instruments@[i as int]);
                    }
                }
                assert(start.logs.contains_key(instrument.0));
            }
            let bytes = self.flush_log(instrument, now);
            out.push((instrument, bytes));
            proof {
                let more = instruments@.take(i + 1);
                assert(more =~= so_far.push(instrument));
                assert forall|k: u32| #[trigger] more.contains(InstrumentId(k)) <==> so_far.contains(
                    InstrumentId(k),
                ) || k == instrument.0 by {
                    if so_far.contains(InstrumentId(k)) {
                        let m = choose|m: int| 0 <= m < so_far.len() && so_far[m] == InstrumentId(k);
                        assert(more[m] == InstrumentId(k));
                    }
                    assert(more[i as int] == instrument);
                    if more.contains(InstrumentId(k)) && k != instrument.0 {
                        let m = choose|m: int| 0 <= m < more.len() && more[m] == InstrumentId(k);
                        assert(so_far[m] == InstrumentId(k));
                    }
                }
                assert(self.state().logs =~= after_flush(start, more, now).logs);
                assert(writes(out@) =~= writes(sent).push((instrument.0, bytes@)));
                assert(writes(out@) =~= unwritten(start, more));
            }
            i += 1;
        }
        assert(instruments@.take(i as int) =~= instruments@);
        out
    }

    /// Hands out what the files of all open logs still lack, by the order of use.
    pub fn flush_all(&mut self, now: u64) -> (r: Vec<(InstrumentId, Vec<u8>)>)
        requires
            old(self).wf(),
        ensures
            final(self).wf(),
            final(self).interval() == old(self).interval(),
            final(self).state() == after_flush(
                old(self).state(),
                all_of(old(self).open_logs()),
                now,
            ),
            writes(r@) == unwritten(old(self).state(), all_of(old(self).open_logs())),
    {
        let mut instruments: Vec<InstrumentId> = Vec::new();
        let mut i: usize = 0;
        while i < self.writers.len()
            invariant
                i <= self.writers@.len(),
                *self == *old(self),
                instruments@ == all_of(self.open_logs()).take(i as int),
            decreases self.writers@.len() - i,
        {
            instruments.push(InstrumentId(self.writers[i].instrument));
            assert(instruments@ =~= all_of(self.open_logs()).take(i + 1));
            i += 1;
        }
        proof {
            let list = self.open_logs();
            assert(instruments@ =~= all_of(list));
            assert forall|a: int, b: int|
                0 <= a < b < instruments@.len() implies instruments@[a] != instruments@[b] by {
                assert(list[a] != list[b]);
            }
            assert(instruments@.no_duplicates());
            assert forall|a: int| 0 <= a < instruments@.len() implies list.contains(
                (#[trigger] instruments@[a]).0,
            ) by {
                assert(list[a] == instruments@[a].0);
            }
        }
        self.flush_each(&instruments, now)
    }

    /// Appends one committed command to its log, which is opened for it.
    fn append_one(
        &mut self,
        command: &Command,
        last_seq: u64,
        ts_nanos: u64,
        now: u64,
    ) -> (r: Option<(InstrumentId, Vec<u8>)>)
        requires
            old(self).wf(),
            last_seq < u64::MAX,
            forall|k: u32| #[trigger]
                old(self).logs().contains_key(k) ==> old(self).logs()[k].seq < u64::MAX && old(
                    self,
                ).logs()[k].unflushed < u64::MAX,
        ensures
            final(self).wf(),
            final(self).interval() == old(self).interval(),
            final(self).state() == with_record(
                with_open(old(self).state(), command.target().0, last_seq, now),
                *command,
                ts_nanos,
            ),
            final(self).open_logs() == used(
                old(self).open_logs(),
                command.target().0,
                old(self).limit() as nat,
            ),
            match r {
                Some((victim, bytes)) => pushed_out(old(self).state(), command.target().0) == seq![
                    (victim.0, bytes@),
                ],
                None => pushed_out(old(self).state(), command.target().0).len() == 0,
            },
    {
        let instrument = command.instrument();
        let ghost key = instrument.0;
        let ghost list = self.open_logs();
        let mut evicted: Option<(InstrumentId, Vec<u8>)> = None;
        proof {
            self.law_logs_are_listed();
            lemma_used(list, key, self.limit() as nat);
            lemma_used_twice(list, key, self.limit() as nat);
        }
        if !self.is_open(instrument) {
            evicted = self.open_log(instrument, last_seq, now);
            proof {
                self.law_logs_are_listed();
                assert(self.open_logs()[self.open_logs().len() - 1] == key);
            }
        }
        assert(self.state() == with_open(old(self).state(), key, last_seq, now));
        assert(self.logs().contains_key(key));
        self.append(command, ts_nanos, now);
        proof {
            let want = with_record(
                with_open(old(self).state(), key, last_seq, now),
                *command,
                ts_nanos,
            );
            assert(self.state().logs =~= want.logs);
            assert(self.state() =~= want);
        }
        evicted
    }

    /// Appends the commands of one committed entry, each to the log of its
    /// instrument, and flushes every log that it touched. A log that is not open is
    /// opened behind the last record of its file, whose number `ends` gives, 0 for an
    /// empty file. What the files lack is handed out: that of the logs closed to make
    /// room, and that of the touched ones, each once, in the order of their first
    /// command.
    pub fn append_committed_batch(
        &mut self,
        commands: &Vec<Command>,
        stamps: &Vec<u64>,
        ends: &HashMap<u32, u64>,
        now: u64,
    ) -> (r: BatchWrites)
        requires
            old(self).wf(),
            commands@.len() <= old(self).limit(),
            stamps@.len() == commands@.len(),
            roomy(old(self).logs(), ends@, commands@.len()),
        ensures
            final(self).wf(),
            final(self).interval() == old(self).interval(),
            ({
                let end = batched(old(self).state(), commands@, stamps@, ends@, now);
                &&& final(self).state() == after_flush(end.set, touched(commands@), now)
                &&& writes(r.evicted@) == end.evicted
                &&& writes(r.flushed@) == unwritten(end.set, touched(commands@))
            }),
    {
        let ghost start = self.state();
        let ghost n = commands@.len();
        let ghost max = self.limit() as nat;
        let mut evicted: Vec<(InstrumentId, Vec<u8>)> = Vec::new();
        let mut i: usize = 0;
        proof {
            self.law_logs_are_listed();
            assert(commands@.take(0) =~= Seq::<Command>::empty());
            assert(targets(commands@.take(0)) =~= Seq::<u32>::empty());
            assert(writes(evicted@) =~= Seq::<(u32, Seq<u8>)>::empty());
        }
        while i < commands.len()
            invariant
                i <= commands@.len(),
                n == commands@.len(),
                n <= max,
                stamps@.len() == n,
                self.wf(),
                self.interval() == old(self).interval(),
                self.limit() == max,
                start == old(self).state(),
                roomy(self.logs(), ends@, (n - i) as nat),
                self.state() == batched(start, commands@.take(i as int), stamps@, ends@, now).set,
                writes(evicted@) == batched(
                    start,
                    commands@.take(i as int),
                    stamps@,
                    ends@,
                    now,
                ).evicted,
                self.open_logs() == used_all(start.open, targets(commands@.take(i as int)), max),
            decreases commands@.len() - i,
        {
            let command = commands[i];
            let ghost key = command.target().0;
            let last: u64 = match ends.get(&command.instrument().0) {
                Some(last) => *last,
                None => 0,
            };
            let ghost set = self.state();
            let ghost front = commands@.take(i as int);
            let ghost next = commands@.take(i + 1);
            proof {
                assert(next.drop_last() =~= front);
                assert(next.last() == command);
                assert(targets(next) =~= targets(front).push(key));
                assert(targets(next).drop_last() =~= targets(front));
                assert(last == file_end(ends@, key));
                self.law_logs_are_listed();
            }
            let out = self.append_one(&command, last, stamps[i], now);
            let ghost sent = writes(evicted@);
            if let Some(closed) = out {
                evicted.push(closed);
                assert(writes(evicted@) =~= sent + seq![(closed.0.0, closed.1@)]);
            }
            proof {
                assert(sent + Seq::<(u32, Seq<u8>)>::empty() =~= sent);
                self.law_logs_are_listed();
                let now_open = with_open(set, key, last, now);
                assert(self.state().logs == with_record(now_open, command, stamps@[i as int]).logs);
                assert forall|k: u32| #[trigger] self.logs().contains_key(k) implies self.logs()[k].seq
                    + (n - i - 1) <= u64::MAX && self.logs()[k].unflushed + (n - i - 1)
                    <= u64::MAX by {
                    assert(now_open.logs.contains_key(k));
                    if k != key || set.open.contains(key) {
                        assert(set.logs.contains_key(k));
                    }
                }
            }
            i += 1;
        }
        assert(commands@.take(i as int) =~= commands@);
        let touched_logs = touched_by(commands);
        proof {
            old(self).law_logs_are_listed();
            law_batch_stays_open(start.open, targets(commands@), max);
            lemma_touched(commands@);
            assert forall|j: int| 0 <= j < touched_logs@.len() implies self.open_logs().contains(
                (#[trigger] touched_logs@[j]).0,
            ) by {
                assert(touched_logs@.contains(touched_logs@[j]));
                let m = choose|m: int|
                    0 <= m < commands@.len() && commands@[m].target() == touched_logs@[j];
                assert(targets(commands@)[m] == touched_logs@[j].0);
            }
        }
        let flushed = self.flush_each(&touched_logs, now);
        BatchWrites { evicted, flushed }
    }

    /// Appends a batch to the log of its instrument and flushes it. A batch across
    /// instruments is not part of one log: it is refused before any log is opened or
    /// written to.
    pub fn append_batch(
        &mut self,
        commands: &Vec<Command>,
        stamps: &Vec<u64>,
        ends: &HashMap<u32, u64>,
        now: u64,
    ) -> (r: Result<BatchWrites, AssetLogError>)
        requires
            old(self).wf(),
            commands@.len() <= old(self).limit(),
            stamps@.len() == commands@.len(),
            roomy(old(self).logs(), ends@, commands@.len()),
        ensures
            final(self).wf(),
            final(self).interval() == old(self).interval(),
            match r {
                Ok(out) => {
                    let end = batched(old(self).state(), commands@, stamps@, ends@, now);
                    &&& single_asset(commands@)
                    &&& final(self).state() == after_flush(end.set, touched(commands@), now)
                    &&& writes(out.evicted@) == end.evicted
                    &&& writes(out.flushed@) == unwritten(end.set, touched(commands@))
                },
                Err(error) => {
                    &&& error is CrossAsset
                    &&& !single_asset(commands@)
                    &&& *final(self) == *old(self)
                },
            },
    {
        if !portable_batch(commands) {
            return Err(AssetLogError::CrossAsset);
        }
        Ok(self.append_committed_batch(commands, stamps, ends, now))
    }
}

/// The instruments of a batch, each once, in the order of their first command.
pub open spec fn touched(commands: Seq<Command>) -> Seq<InstrumentId>
    decreases commands.len(),
{
    if commands.len() == 0 {
        Seq::empty()
    } else {
        let front = touched(commands.drop_last());
        let instrument = commands.last().target();
        if front.contains(instrument) {
            front
        } else {
            front.push(instrument)
        }
    }
}

/// The instruments that a batch touches, whose logs are flushed and synced
/// together.
pub fn touched_by(commands: &Vec<Command>) -> (r: Vec<InstrumentId>)
    ensures
        r@ == touched(commands@),
{
    let mut out: Vec<InstrumentId> = Vec::new();
    let mut i: usize = 0;
    assert(commands@.take(0) =~= Seq::<Command>::empty());
    while i < commands.len()
        invariant
            i <= commands@.len(),
            out@ == touched(commands@.take(i as int)),
        decreases commands@.len() - i,
    {
        let instrument = commands[i].instrument();
        assert(commands@.take(i + 1).drop_last() =~= commands@.take(i as int));
        let mut found: bool = false;
        let mut j: usize = 0;
        while j < out.len() && !found
            invariant
                j <= out@.len(),
                found ==> out@.contains(instrument),
                !found ==> forall|k: int| 0 <= k < j ==> #[trigger] out@[k] != instrument,
            decreases out@.len() - j,
        {
            if out[j] == instrument {
                found = true;
            }
            j += 1;
        }
        if !found {
            out.push(instrument);
        }
        i += 1;
    }
    assert(commands@.take(i as int) =~= commands@);
    out
}

/// Where something occurs in a list without repetition.
proof fn lemma_index(list: Seq<u32>, i: int)
    requires
        once(list),
        0 <= i < list.len(),
    ensures
        list.contains(list[i]),
        list.index_of(list[i]) == i,
{
    assert(list.contains(list[i]));
    let k = list.index_of(list[i]);
    assert(list[k] == list[i]);
}

/// On replay a command with an id is applied the first time, passed over when it comes again
/// byte for byte, and an error when its id stands for other bytes; one without an id is always
/// applied.
pub proof fn law_ids_stand_for_one_command(
    seen: Map<u64, Seq<u8>>,
    command: Command,
    frame: Seq<u8>,
    other: Seq<u8>,
)
    requires
        frame != other,
    ensures
        ({
            let after = with_seen(seen, command, frame);
            &&& command.ident() == 0 ==> replay_verdict(after, command, frame) == Ok::<
                bool,
                AssetLogError,
            >(true)
            &&& command.ident() != 0 && !seen.contains_key(command.ident()) ==> replay_verdict(
                seen,
                command,
                frame,
            ) == Ok::<bool, AssetLogError>(true)
            &&& command.ident() != 0 ==> replay_verdict(after, command, frame) == Ok::<
                bool,
                AssetLogError,
            >(false)
            &&& command.ident() != 0 ==> replay_verdict(after, command, other) == Err::<
                bool,
                AssetLogError,
            >(AssetLogError::ConflictingCommand { id: command.ident() })
        }),
{
}

/// The bytes of a proof: the place in the log, the number of reports and their fingerprint, and
/// the checksum.
pub proof fn law_proof_layout(p: AppliedBatchProof)
    ensures
        ({
            let bytes = sealed(proof_body(p));
            &&& bytes.len() == 32
            &&& from_le(bytes.subrange(0, 8)) == p.raft_index
            &&& from_le(bytes.subrange(8, 12)) == p.report_count
            &&& from_le(bytes.subrange(16, 24)) == p.report_fingerprint
            &&& from_le(bytes.subrange(24, 32)) == fnv(bytes.take(24))
        }),
{
    let body = proof_body(p);
    let bytes = sealed(body);
    crate::codec::lemma_pow256();
    crate::codec::lemma_le_len(p.raft_index as nat, 8);
    crate::codec::lemma_le_len(p.report_count as nat, 4);
    crate::codec::lemma_le_len(0, 4);
    crate::codec::lemma_le_len(p.report_fingerprint as nat, 8);
    crate::codec::lemma_le_len(fnv(body) as nat, 8);
    crate::codec::law_bytes_round_trip(p.raft_index as nat, 8);
    crate::codec::law_bytes_round_trip(p.report_count as nat, 4);
    crate::codec::law_bytes_round_trip(p.report_fingerprint as nat, 8);
    crate::codec::law_bytes_round_trip(fnv(body) as nat, 8);
    assert(bytes.subrange(0, 8) =~= le(p.raft_index as nat, 8));
    assert(bytes.subrange(8, 12) =~= le(p.report_count as nat, 4));
    assert(bytes.subrange(16, 24) =~= le(p.report_fingerprint as nat, 8));
    assert(bytes.take(24) =~= body);
    assert(bytes.subrange(24, 32) =~= le(fnv(body) as nat, 8));
}

} // verus!
