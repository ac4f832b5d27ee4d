//! Logs of single instruments, their replay and the marks of applied batches.

use std::collections::{HashMap, HashSet};

use trade_core::asset_log::{
    accept_replay_command, applied_index_moves, inspect, last_seq, load_applied_batch_proofs,
    load_applied_batches, mark_applied_batch, mark_raft_batch_applied, portable_batch,
    recovered_command_fingerprints, replay_fresh, replay_into, replay_with_reports, touched_by,
    verify_applied_batch, AppliedBatchProof, AssetJournalSet, AssetLogError,
};
use trade_core::exchange::{Command, Processor};
use trade_core::journal::{fnv1a, JournalWriter, JOURNAL_HEADER};
use trade_core::types::{InstrumentId, OrderId, Side};
use trade_core::wire::encode_command;
use trade_core::{Order, PriceTimePriority};

const MILLI: u64 = 1_000_000;

#[test]
fn exact_applied_proof_round_trips_and_is_visible_as_watermark() {
    let file = mark_applied_batch(true, 91, 5, 0xfeed_beef);
    let proofs = load_applied_batch_proofs(Some(&file)).unwrap();
    assert_eq!(
        proofs.get(&91),
        Some(&AppliedBatchProof {
            raft_index: 91,
            report_count: 5,
            report_fingerprint: 0xfeed_beef,
        })
    );
    assert!(load_applied_batches(None, Some(&file)).unwrap().contains(&91));
    assert!(verify_applied_batch(proofs[&91], 5, 0xfeed_beef).is_ok());
    assert!(verify_applied_batch(proofs[&91], 4, 0xfeed_beef).is_err());
    assert!(verify_applied_batch(proofs[&91], 5, 7).is_err());
}

/// Appends commands to the logs of their instruments, and returns each log.
fn write_logs(commands: &[Command]) -> HashMap<u32, Vec<u8>> {
    let mut logs = AssetJournalSet::open(MILLI, None);
    let mut files: HashMap<u32, Vec<u8>> = HashMap::new();
    for command in commands {
        let instrument = command.instrument();
        if !logs.is_open(instrument) {
            files.insert(instrument.0, JOURNAL_HEADER.to_vec());
            assert!(logs.open_log(instrument, 0, 0).is_none());
        }
        logs.append(command, 1, 0);
    }
    for (instrument, file) in files.iter_mut() {
        file.extend_from_slice(&logs.flush_log(InstrumentId(*instrument), 0));
    }
    files
}

#[test]
fn an_asset_log_replays_portably_without_other_assets() {
    let btc = InstrumentId(5000);
    let eth = InstrumentId(5001);
    let logs = write_logs(&[
        Command::New(Order::limit(OrderId(1), Side::Sell, 100, 3).on(btc)),
        Command::New(Order::limit(OrderId(2), Side::Buy, 100, 1).on(eth)),
    ]);

    let meta = inspect(&logs[&btc.0], btc).unwrap();
    assert_eq!(meta.records, 1);
    let (processor, replayed) = replay_fresh(&logs[&btc.0], btc, PriceTimePriority)
        .ok()
        .expect("a log that replays");
    assert_eq!(replayed, meta);
    assert_eq!(processor.engine(btc).unwrap().book().len(), 1);
    assert!(processor.engine(eth).is_none());
}

#[test]
fn replay_skips_only_byte_identical_duplicate_commands() {
    let instrument = InstrumentId(42);
    let command = Command::New(Order::limit(OrderId(900), Side::Buy, 100, 1).on(instrument));
    let logs = write_logs(&[command, command]);

    let (processor, meta) = replay_fresh(&logs[&42], instrument, PriceTimePriority)
        .ok()
        .expect("a log that replays");
    assert_eq!(meta.records, 2, "repair does not rewrite the audit WAL");
    assert_eq!(processor.engine(instrument).unwrap().book().len(), 1);
}

#[test]
fn replay_rejects_a_command_id_with_different_payloads() {
    let instrument = InstrumentId(43);
    let logs = write_logs(&[
        Command::New(Order::limit(OrderId(901), Side::Buy, 100, 1).on(instrument)),
        Command::New(Order::limit(OrderId(901), Side::Buy, 101, 1).on(instrument)),
    ]);

    let error = replay_fresh(&logs[&43], instrument, PriceTimePriority)
        .err()
        .expect("conflicting command id must fail recovery");
    assert_eq!(error, AssetLogError::ConflictingCommand { id: 901 });
}

#[test]
fn cross_asset_batch_is_rejected_before_it_can_reach_a_wal() {
    let mut logs = AssetJournalSet::open(MILLI, None);
    let btc = InstrumentId(1);
    let eth = InstrumentId(2);
    let commands = vec![
        Command::New(Order::limit(OrderId(1), Side::Buy, 100, 1).on(btc)),
        Command::New(Order::limit(OrderId(2), Side::Sell, 100, 1).on(eth)),
    ];
    let error = logs
        .append_batch(&commands, &vec![1, 2], &HashMap::new(), 0)
        .unwrap_err();
    assert_eq!(error, AssetLogError::CrossAsset);
    assert!(!logs.is_open(btc));
    assert!(!logs.is_open(eth));
    assert!(logs.flush_all(0).is_empty());
    assert!(!portable_batch(&commands));
    assert_eq!(touched_by(&commands), vec![btc, eth]);
}

#[test]
fn a_batch_on_one_asset_is_appended_and_flushed() {
    let mut logs = AssetJournalSet::open(MILLI, None);
    let btc = InstrumentId(1);
    let commands = vec![
        Command::New(Order::limit(OrderId(8), Side::Sell, 100, 3).on(btc)),
        Command::New(Order::limit(OrderId(9), Side::Buy, 100, 1).on(btc)),
    ];
    let ends = HashMap::from([(btc.0, 7)]);
    let out = logs.append_batch(&commands, &vec![11, 12], &ends, 5).unwrap();
    assert!(out.evicted.is_empty());
    assert_eq!(out.flushed.len(), 1);
    assert_eq!(out.flushed[0].0, btc);

    let mut writer = JournalWriter::open(MILLI, 5);
    writer.resume_from(7);
    writer.append(11, &encode_command(&commands[0]), 5);
    writer.append(12, &encode_command(&commands[1]), 5);
    assert_eq!(out.flushed[0].1, writer.flush(5));
    assert!(logs.is_open(btc));
    assert_eq!(logs.flush_log(btc, 6), Vec::<u8>::new());

    let none = logs.append_batch(&vec![], &vec![], &ends, 6).unwrap();
    assert!(none.evicted.is_empty() && none.flushed.is_empty());
}

#[test]
fn a_committed_batch_goes_to_the_log_of_each_instrument() {
    let btc = InstrumentId(5000);
    let eth = InstrumentId(5001);
    let commands = vec![
        Command::New(Order::limit(OrderId(1), Side::Sell, 100, 3).on(btc)),
        Command::New(Order::limit(OrderId(2), Side::Buy, 100, 1).on(eth)),
        Command::New(Order::limit(OrderId(3), Side::Buy, 100, 1).on(btc)),
    ];
    let mut logs = AssetJournalSet::open(MILLI, Some(1));
    for i in 0..1024 {
        assert!(logs.open_log(InstrumentId(i), 0, 0).is_none());
    }
    let early = Command::New(Order::limit(OrderId(4), Side::Buy, 1, 1).on(InstrumentId(0)));
    logs.append(&early, 1, 0);
    logs.append(
        &Command::New(Order::limit(OrderId(5), Side::Buy, 1, 1).on(InstrumentId(1))),
        1,
        0,
    );
    let out = logs.append_committed_batch(&commands, &vec![1, 1, 1], &HashMap::new(), 0);
    let closed: Vec<InstrumentId> = out.evicted.iter().map(|w| w.0).collect();
    assert_eq!(closed, vec![InstrumentId(2), InstrumentId(3)]);
    let touched: Vec<InstrumentId> = out.flushed.iter().map(|w| w.0).collect();
    assert_eq!(touched, vec![btc, eth]);

    let files = write_logs(&commands);
    for (instrument, bytes) in out.flushed {
        assert_eq!(bytes, files[&instrument.0][JOURNAL_HEADER.len()..].to_vec());
    }
    let rest = logs.flush_all(0);
    assert_eq!(rest.len(), 1024);
    let waiting: Vec<InstrumentId> = rest
        .iter()
        .filter(|w| !w.1.is_empty())
        .map(|w| w.0)
        .collect();
    assert_eq!(waiting, vec![InstrumentId(0), InstrumentId(1)]);
}

#[test]
fn a_flush_leaves_the_order_of_use_alone() {
    let mut logs = AssetJournalSet::open(MILLI, Some(1));
    for i in 0..1024 {
        assert!(logs.open_log(InstrumentId(i), 0, 0).is_none());
    }
    logs.flush_log(InstrumentId(0), 0);
    let (victim, _) = logs.open_log(InstrumentId(5_000), 0, 0).unwrap();
    assert_eq!(victim, InstrumentId(0), "a flush is no use");
}

#[test]
fn a_reused_id_that_filled_replays_from_its_log() {
    let instrument = InstrumentId(42);
    let commands = [
        Command::New(Order::limit(OrderId(0), Side::Sell, 100, 5).on(instrument)),
        Command::New(Order::limit(OrderId(0), Side::Buy, 100, 4).on(instrument)),
    ];
    let mut live = Processor::new(PriceTimePriority, None);
    let mut reports = Vec::new();
    for command in commands {
        assert!(live.accepts(&command));
        live.process(command, &mut reports);
    }
    let logs = write_logs(&commands);
    let summary = replay_with_reports(&logs[&42], instrument, PriceTimePriority)
        .ok()
        .expect("a log that replays");
    assert_eq!(summary.reports, reports);
    assert_eq!(
        summary.processor.state_fingerprint(),
        live.state_fingerprint()
    );
}

#[test]
fn batch_watermarks_group_commit_and_reload() {
    let marks = mark_raft_batch_applied(77);

    let applied = load_applied_batches(Some(&marks), None).unwrap();
    assert_eq!(applied.len(), 1);
    assert!(applied.contains(&77));
}

#[test]
fn legacy_recovery_fingerprints_require_complete_shard_journal_coverage() {
    let instrument = InstrumentId(77);
    let command = Command::New(Order::limit(OrderId(7_700), Side::Buy, 100, 1).on(instrument));
    let logs = write_logs(&[command]);

    let frame = encode_command(&command);
    let mut shard_log = JournalWriter::open(MILLI, 0);
    let (seq, _) = shard_log.append(1, &frame, 0);

    let wanted = HashSet::from([command.id()]);
    let recovered =
        recovered_command_fingerprints(&vec![(0, seq)], &vec![logs[&77].clone()], &wanted)
            .unwrap()
            .expect("equal WAL and shard sequence counts prove full coverage");
    assert_eq!(recovered[&command.id()], fnv1a(&frame));

    let longer = write_logs(&[
        command,
        Command::New(Order::limit(OrderId(7_701), Side::Sell, 101, 1).on(instrument)),
    ]);
    assert!(
        recovered_command_fingerprints(&vec![(0, seq)], &vec![longer[&77].clone()], &wanted)
            .unwrap()
            .is_none()
    );
}

#[test]
fn each_log_error_has_its_cause() {
    let instrument = InstrumentId(7);
    assert_eq!(
        inspect(b"whatever", instrument).unwrap_err(),
        AssetLogError::Header
    );
    let mut file = mark_applied_batch(true, 1, 1, 1);
    file.extend_from_slice(&mark_applied_batch(false, 1, 2, 1));
    assert_eq!(
        load_applied_batch_proofs(Some(&file)).unwrap_err(),
        AssetLogError::ConflictingProofs
    );
    let mut broken = mark_applied_batch(true, 1, 1, 1);
    broken[12] ^= 1;
    assert_eq!(
        load_applied_batch_proofs(Some(&broken)).unwrap_err(),
        AssetLogError::Checksum
    );

    let order = Order::limit(OrderId(1), Side::Buy, 100, 1);
    let logs = write_logs(&[Command::New(order.on(InstrumentId(8)))]);
    assert_eq!(
        inspect(&logs[&8], instrument).unwrap_err(),
        AssetLogError::OtherInstrument
    );

    let mut writer = JournalWriter::open(1, 0);
    writer.resume_from(1);
    writer.append(1, &encode_command(&Command::New(order.on(instrument))), 0);
    let mut gap = JOURNAL_HEADER.to_vec();
    gap.extend_from_slice(&writer.flush(0));
    assert_eq!(
        inspect(&gap, instrument).unwrap_err(),
        AssetLogError::SequenceGap
    );

    let mut writer = JournalWriter::open(1, 0);
    writer.append(1, &[0xee; 40], 0);
    let mut invalid = JOURNAL_HEADER.to_vec();
    invalid.extend_from_slice(&writer.flush(0));
    assert_eq!(
        inspect(&invalid, instrument).unwrap_err(),
        AssetLogError::InvalidFrame
    );
}

#[test]
fn replay_continues_after_a_snapshot() {
    let instrument = InstrumentId(42);
    let sell = Command::New(Order::limit(OrderId(1), Side::Sell, 100, 3).on(instrument));
    let buy = Command::New(Order::limit(OrderId(2), Side::Buy, 100, 1).on(instrument));
    let logs = write_logs(&[sell, buy]);

    let whole = replay_with_reports(&logs[&42], instrument, PriceTimePriority)
        .ok()
        .expect("a log that replays");
    let mut processor = Processor::new(PriceTimePriority, None);
    let mut reports = Vec::new();
    processor.process(sell, &mut reports);
    replay_into(&logs[&42], instrument, 1, &mut processor).unwrap();
    assert_eq!(processor.state_fingerprint(), whole.processor.state_fingerprint());
    assert!(whole.reports.len() > reports.len());
    assert_eq!(last_seq(&logs[&42]), Some(2));
}

#[test]
fn a_replay_that_fails_keeps_the_records_before_the_bad_one() {
    let instrument = InstrumentId(42);
    let first = Command::New(Order::limit(OrderId(1), Side::Sell, 100, 3).on(instrument));
    let second = Command::New(Order::limit(OrderId(2), Side::Buy, 100, 1).on(instrument));
    let bad = Command::New(Order::limit(OrderId(1), Side::Sell, 101, 3).on(instrument));
    let last = Command::New(Order::limit(OrderId(3), Side::Buy, 90, 1).on(instrument));
    let logs = write_logs(&[first, second, bad, last]);
    let mut processor = Processor::new(PriceTimePriority, None);
    assert_eq!(
        replay_into(&logs[&42], instrument, 0, &mut processor).unwrap_err(),
        AssetLogError::ConflictingCommand { id: 1 }
    );
    let mut expected = Processor::new(PriceTimePriority, None);
    let mut reports = Vec::new();
    expected.process(first, &mut reports);
    expected.process(second, &mut reports);
    assert_eq!(processor.state_fingerprint(), expected.state_fingerprint());
    let book = processor.engine(instrument).unwrap().book();
    assert_eq!(book.get(OrderId(1)).unwrap().remaining, 2);
    assert!(book.get(OrderId(3)).is_none());
}

#[test]
fn a_command_is_new_the_first_time_only() {
    let mut seen = HashMap::new();
    let command = Command::Cancel {
        instrument: InstrumentId(1),
        order_id: OrderId(2),
        cmd_id: 3,
    };
    let frame = encode_command(&command);
    assert_eq!(accept_replay_command(&mut seen, &command, &frame), Ok(true));
    assert_eq!(accept_replay_command(&mut seen, &command, &frame), Ok(false));
    let mut other = frame;
    other[39] ^= 1;
    assert_eq!(
        accept_replay_command(&mut seen, &command, &other),
        Err(AssetLogError::ConflictingCommand { id: 3 })
    );
}

#[test]
fn the_applied_index_only_rises() {
    assert!(applied_index_moves(None, 1));
    assert!(!applied_index_moves(None, 0));
    assert!(applied_index_moves(Some(4), 5));
    assert!(!applied_index_moves(Some(5), 5));
}

#[test]
fn the_least_recently_used_log_is_closed() {
    let mut logs = AssetJournalSet::open(MILLI, Some(1));
    for i in 0..1024 {
        assert!(logs.open_log(InstrumentId(i), 0, 0).is_none());
    }
    let command = Command::New(Order::limit(OrderId(1), Side::Buy, 100, 1).on(InstrumentId(0)));
    logs.append(&command, 1, 0);
    let (victim, bytes) = logs.open_log(InstrumentId(5_000), 0, 0).unwrap();
    assert_eq!(victim, InstrumentId(1), "the first log was used since");
    assert!(bytes.is_empty());
}
