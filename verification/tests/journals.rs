//! The command journal and what is read out of it.

use trade_core::codec::{get_be, get_le, put_be, put_le};
use trade_core::exchange::Command;
use trade_core::execution_outbox::{OutboxRecord, OUTBOX_HEADER};
use trade_core::inspection::{inspect, plan_inspection, Defect, Plan, PlanError};
use trade_core::journal::{
    check_head, fnv1a, JournalHead, JournalReader, JournalWriter, Record, FLUSH_RECORDS,
    JOURNAL_HEADER, RECORD_LEN,
};
use trade_core::journal_inspect::{
    diff_journals, dump_journal, dump_outbox, format_diff, format_outbox_record, format_record,
    format_verify, parse_args, verify_journal, ArgError, DumpFilter, JournalDiff,
};
use trade_core::record::{intact_at, seal};
use trade_core::types::{InstrumentId, OrderId};
use trade_core::wire::{encode_command, MSG_LEN, REPORT_LEN};

fn written(w: &mut JournalWriter) -> Vec<u8> {
    let mut bytes = JOURNAL_HEADER.to_vec();
    bytes.extend_from_slice(&w.flush(0));
    bytes
}

fn records(bytes: &[u8]) -> Vec<Record> {
    match JournalReader::open(bytes) {
        Some(reader) => reader.records().clone(),
        None => panic!("a journal"),
    }
}

#[test]
fn round_trip_and_truncation_tolerance() {
    let mut w = JournalWriter::open(1_000_000, 0);
    for i in 0..10u8 {
        let mut frame = [0u8; MSG_LEN];
        frame[0] = 1;
        frame[8] = i;
        w.append(1000 + i as u64, &frame, 0);
    }
    let bytes = written(&mut w);

    let recs = records(&bytes);
    assert_eq!(recs.len(), 10);
    assert_eq!(recs[0].seq, 1);
    assert_eq!(recs[9].seq, 10);
    assert_eq!(recs[3].frame[8], 3);
    assert_eq!(recs[3].ts_nanos, 1003);

    let recs = records(&bytes[..bytes.len() - 13]);
    assert_eq!(recs.len(), 9, "truncated tail must be dropped, prefix kept");
}

#[test]
fn a_record_that_was_changed_ends_the_journal() {
    let mut w = JournalWriter::open(1_000_000, 0);
    for _ in 0..3 {
        w.append(1, &[0u8; MSG_LEN], 0);
    }
    let mut bytes = written(&mut w);
    bytes[8 + RECORD_LEN + 20] ^= 1;
    assert_eq!(records(&bytes).len(), 1);
    bytes[0] ^= 1;
    assert!(JournalReader::open(&bytes).is_none());
    assert!(records(&[]).is_empty());
}

#[test]
fn the_head_of_a_file_is_told_apart() {
    assert_eq!(check_head(&[]), JournalHead::Stamp);
    assert_eq!(check_head(&JOURNAL_HEADER), JournalHead::Ready);
    assert_eq!(check_head(b"whatever"), JournalHead::Mismatch);
}

#[test]
fn records_are_due_by_number_or_by_time() {
    let mut w = JournalWriter::open(100, 0);
    let frame = [0u8; MSG_LEN];
    assert_eq!(w.append(1, &frame, 10), (1, false));
    assert_eq!(w.append(1, &frame, 100), (2, true));
    assert_eq!(w.flush(100).len(), 2 * RECORD_LEN);
    assert!(w.tick(300).is_none(), "nothing is buffered");
    w.append(1, &frame, 100);
    assert!(w.tick(150).is_none());
    assert_eq!(w.tick(200).unwrap().len(), RECORD_LEN);
    assert_eq!(w.seq(), 3);

    let mut w = JournalWriter::open(u64::MAX, 0);
    for _ in 1..FLUSH_RECORDS {
        assert!(!w.append(1, &frame, 0).1);
    }
    assert!(w.append(1, &frame, 0).1);
}

#[test]
fn numbering_continues_where_it_stopped() {
    let mut w = JournalWriter::open(1, 0);
    w.resume_from(41);
    assert_eq!(w.append(1, &[0u8; MSG_LEN], 0).0, 42);
}

#[test]
fn the_hash_is_the_known_one() {
    assert_eq!(fnv1a(b""), 0xcbf2_9ce4_8422_2325);
    assert_eq!(fnv1a(b"a"), 0xaf63_dc4c_8601_ec8c);
    assert_eq!(fnv1a(b"foobar"), 0x8594_4171_f739_67e8);
}

#[test]
fn a_sealed_record_shows_each_change() {
    let mut bytes = vec![9, 9, 1, 2, 3];
    seal(&mut bytes, 2);
    assert_eq!(bytes.len(), 13);
    assert!(intact_at(&bytes, 2, 11));
    bytes[3] ^= 4;
    assert!(!intact_at(&bytes, 2, 11));
    assert!(!intact_at(&bytes, 3, 11));
}

#[test]
fn numbers_are_read_back_in_both_orders() {
    let mut bytes = Vec::new();
    put_le(&mut bytes, 0x0102_0304, 4);
    put_be(&mut bytes, 0x0102_0304, 4);
    assert_eq!(bytes, vec![4, 3, 2, 1, 1, 2, 3, 4]);
    assert_eq!(get_le(&bytes, 0, 4), 0x0102_0304);
    assert_eq!(get_be(&bytes, 4, 4), 0x0102_0304);
}

fn write_journal(commands: &[(u64, Command)]) -> Vec<u8> {
    let mut w = JournalWriter::open(1_000_000, 0);
    for (ts, command) in commands {
        w.append(*ts, &encode_command(command), 0);
    }
    written(&mut w)
}

fn cancel(order_id: u64, cmd_id: u64) -> Command {
    Command::Cancel {
        instrument: InstrumentId(7),
        order_id: OrderId(order_id),
        cmd_id,
    }
}

#[test]
fn dump_filters_by_seq_and_ts() {
    let journal = write_journal(&[
        (1_000, cancel(10, 1)),
        (2_000, cancel(11, 2)),
        (3_000, cancel(12, 3)),
    ]);
    let (text, count) = dump_journal(&journal, &DumpFilter::default()).unwrap();
    assert_eq!(count, 3);
    assert_eq!(text.lines().count(), 3);
    assert!(text.contains("seq=1 ts_nanos=1000"));
    assert!(text.contains("Cancel"));

    let filter = DumpFilter {
        from_seq: Some(2),
        to_seq: Some(3),
        ..Default::default()
    };
    assert_eq!(dump_journal(&journal, &filter).unwrap().1, 2);

    let filter = DumpFilter {
        from_ts: Some(2_500),
        ..Default::default()
    };
    assert_eq!(dump_journal(&journal, &filter).unwrap().1, 1);
}

#[test]
fn verify_reports_contiguous_and_last_valid_seq() {
    let journal = write_journal(&[(1, cancel(1, 1)), (2, cancel(2, 2)), (3, cancel(3, 3))]);
    let report = verify_journal(&journal).unwrap();
    assert_eq!(report.records, 3);
    assert_eq!(report.first_seq, Some(1));
    assert_eq!(report.last_valid_seq, Some(3));
    assert!(report.contiguous);
    assert_eq!(report.first_gap_after, None);

    let report = verify_journal(&journal[..journal.len() - 13]).unwrap();
    assert_eq!(report.records, 2);
    assert_eq!(report.last_valid_seq, Some(2));
    assert!(report.contiguous);
}

#[test]
fn diff_detects_identical_frame_and_length() {
    let base = [(1, cancel(1, 1)), (2, cancel(2, 2)), (3, cancel(3, 3))];
    let a = write_journal(&base);
    let b = write_journal(&base);
    assert_eq!(diff_journals(&a, &b).unwrap(), JournalDiff::Identical);

    let c = write_journal(&[(1, cancel(1, 1)), (2, cancel(999, 2)), (3, cancel(3, 3))]);
    assert_eq!(
        diff_journals(&a, &c).unwrap(),
        JournalDiff::FrameDiffers { seq: 2 }
    );

    let d = write_journal(&base[..2]);
    assert_eq!(
        diff_journals(&a, &d).unwrap(),
        JournalDiff::LengthMismatch {
            at_seq: 3,
            longer_is_a: true,
        }
    );
    assert_eq!(
        diff_journals(&d, &a).unwrap(),
        JournalDiff::LengthMismatch {
            at_seq: 3,
            longer_is_a: false,
        }
    );
}

#[test]
fn a_gap_in_the_numbers_is_found() {
    let mut bytes = write_journal(&[(1, cancel(1, 1))]);
    let mut later = JournalWriter::open(1, 0);
    later.resume_from(4);
    later.append(9, &encode_command(&cancel(2, 2)), 0);
    bytes.extend_from_slice(&later.flush(0));
    let report = verify_journal(&bytes).unwrap();
    assert!(!report.contiguous);
    assert_eq!(report.first_gap_after, Some(1));
    assert_eq!(
        diff_journals(&bytes, &write_journal(&[(1, cancel(1, 1)), (2, cancel(2, 2))])).unwrap(),
        JournalDiff::SeqMismatch { a_seq: 5, b_seq: 2 }
    );
    assert!(verify_journal(b"whatever").is_none());
    assert!(!format_verify(&report).is_empty());
    assert!(!format_diff(&JournalDiff::Identical).is_empty());
    assert!(format_record(&records(&bytes)[1]).contains("seq=5"));
}

#[test]
fn outbox_records_are_dumped_too() {
    let record = OutboxRecord {
        raft_group: 3,
        raft_index: 9,
        ordinal: 2,
        report_frame: [0u8; REPORT_LEN],
    };
    assert!(format_outbox_record(&record).contains('9'));
    let (text, count) = dump_outbox(&OUTBOX_HEADER, &DumpFilter::default()).unwrap();
    assert_eq!((text.as_str(), count), ("", 0));
    assert!(dump_outbox(b"short", &DumpFilter::default()).is_err());
}

fn words(text: &str) -> Vec<String> {
    text.split(' ').map(String::from).collect()
}

#[test]
fn arguments_are_read_or_refused() {
    let args = parse_args(&words("dump --path j.bin --from-seq 4 --outbox")).unwrap();
    assert_eq!(args.filter.from_seq, Some(4));
    assert!(args.outbox);
    assert_eq!(args.path, Some(2));
    assert_eq!(args.path2, None);
    assert_eq!(parse_args(&Vec::new()).unwrap_err(), ArgError::MissingCommand);
    assert_eq!(
        parse_args(&words("dump --to-ts")).unwrap_err(),
        ArgError::MissingValue { at: 1 }
    );
    assert_eq!(
        parse_args(&words("dump --to-ts x")).unwrap_err(),
        ArgError::NotANumber { at: 1 }
    );
    assert_eq!(
        parse_args(&words("dump --what")).unwrap_err(),
        ArgError::UnknownFlag { at: 1 }
    );
}

#[test]
fn an_inspection_is_planned_from_the_command_line() {
    assert_eq!(
        plan_inspection(&Vec::new()).unwrap_err(),
        PlanError::Args(ArgError::MissingCommand)
    );
    assert_eq!(
        plan_inspection(&words("what")).unwrap_err(),
        PlanError::PathRequired
    );
    assert_eq!(
        plan_inspection(&words("what --path a")).unwrap_err(),
        PlanError::UnknownCommand
    );
    assert_eq!(
        plan_inspection(&words("diff --path a")).unwrap_err(),
        PlanError::SecondPathRequired
    );
    assert!(matches!(
        plan_inspection(&words("diff --path2 b --path a")).unwrap(),
        Plan::Diff { path: 4, path2: 2 }
    ));
    assert!(matches!(
        plan_inspection(&words("verify --path a")).unwrap(),
        Plan::Verify { path: 2 }
    ));
    match plan_inspection(&words("dump --outbox --path a --to-seq 5")).unwrap() {
        Plan::Dump {
            path,
            outbox,
            filter,
        } => {
            assert_eq!((path, outbox, filter.to_seq), (3, true, Some(5)));
        }
        _ => panic!("a dump"),
    }
}

#[test]
fn an_inspection_tells_defects() {
    let a = write_journal(&[(1, cancel(1, 1)), (2, cancel(2, 2))]);
    let b = write_journal(&[(1, cancel(1, 1)), (2, cancel(2, 3))]);
    let dump = plan_inspection(&words("dump --path a --from-seq 2")).unwrap();
    let found = inspect(&dump, &a, &[]).unwrap();
    assert_eq!((found.records, found.defect), (1, None));
    assert!(found.text.starts_with("seq=2 "));
    assert!(inspect(&dump, b"no journal", &[]).is_none());

    let verify = Plan::Verify { path: 0 };
    assert_eq!(inspect(&verify, &a, &[]).unwrap().defect, None);
    let mut gap = a.clone();
    gap.extend_from_slice(&a[8..]);
    assert_eq!(
        inspect(&verify, &gap, &[]).unwrap().defect,
        Some(Defect::Gap)
    );

    let diff = Plan::Diff { path: 0, path2: 1 };
    let same = inspect(&diff, &a, &a).unwrap();
    assert_eq!((same.text.as_str(), same.defect), ("identical\n", None));
    let other = inspect(&diff, &a, &b).unwrap();
    assert_eq!(other.text, "diverges: frame differs at seq=2\n");
    assert_eq!(other.defect, Some(Defect::Diverged));
    assert!(inspect(&diff, &a, b"no journal").is_none());
}
