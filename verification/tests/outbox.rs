//! The execution outbox: records, recovery, rotation and the publisher's cursor.

use trade_core::exchange::ExecReport;
use trade_core::execution_outbox::{
    encode_cursor, fully_published, latest_segment, read_cursor_offset, segment_path,
    segment_paths, segment_seq_of, truncate_after_applied, ExecutionOutboxReader,
    ExecutionOutboxWriter, OutboxError, OUTBOX_HEADER, OUTBOX_RECORD_LEN,
};
use trade_core::types::{InstrumentId, OrderId};
use trade_core::wire::decode_execution_event;

const MINUTE: u64 = 60_000_000_000;

#[test]
fn outbox_persists_records_and_rebuilds_kafka_payloads() {
    let mut file = OUTBOX_HEADER.to_vec();
    {
        let mut writer = ExecutionOutboxWriter::open(0, file.len() as u64, MINUTE, 1, 0);
        let due = writer.append(
            3,
            9,
            2,
            &ExecReport::Accepted {
                instrument: InstrumentId(42),
                order_id: OrderId(7),
            },
            0,
        );
        assert!(due, "every record is synced");
        file.extend_from_slice(&writer.flush_to_os());
        writer.mark_synced(0);
    }

    let mut reader = ExecutionOutboxReader::open(&file).unwrap();
    let (got, cursor) = reader.read_available(&file);
    assert_eq!(got.len(), 1);
    assert!(cursor.is_none(), "no cursor is kept");
    assert_eq!(got[0].raft_group, 3);
    assert_eq!(got[0].raft_index, 9);
    assert_eq!(got[0].ordinal, 2);
    assert_eq!(got[0].kafka_key(10), 7u64.to_be_bytes());
    let event = decode_execution_event(&got[0].kafka_payload()).unwrap();
    assert_eq!(event.raft_group, 3);
    assert_eq!(event.raft_index, 9);
    assert_eq!(event.ordinal, 2);
    assert_eq!(event.report.instrument, InstrumentId(42));
    assert_eq!(event.report.order_id, OrderId(7));
}

fn write_batches(file: &mut Vec<u8>, batches: &[(u64, u32)]) {
    if file.is_empty() {
        file.extend_from_slice(&OUTBOX_HEADER);
    }
    let mut writer = ExecutionOutboxWriter::open(0, file.len() as u64, MINUTE, 1, 0);
    for &(index, count) in batches {
        for ordinal in 0..count {
            writer.append_deferred(
                7,
                index,
                ordinal,
                &ExecReport::Accepted {
                    instrument: InstrumentId(index as u32),
                    order_id: OrderId(ordinal as u64),
                },
            );
        }
        file.extend_from_slice(&writer.flush_to_os());
        writer.mark_synced(0);
    }
}

fn read_indices(file: &[u8]) -> Vec<u64> {
    let mut reader = ExecutionOutboxReader::open(file).unwrap();
    let (records, _) = reader.read_available(file);
    records.iter().map(|record| record.raft_index).collect()
}

#[test]
fn rotation_seals_segments_and_gc_reclaims_fully_published_ones() {
    let rotate = (OUTBOX_HEADER.len() + 2 * OUTBOX_RECORD_LEN) as u64;
    let report = |index: u64| ExecReport::Accepted {
        instrument: InstrumentId(index as u32),
        order_id: OrderId(index),
    };
    let stem = "outbox-shard-0";

    let mut base = OUTBOX_HEADER.to_vec();
    let mut writer = ExecutionOutboxWriter::open(0, base.len() as u64, MINUTE, usize::MAX, 0)
        .with_rotate_bytes(Some(rotate));
    writer.append_deferred(1, 1, 0, &report(1));
    writer.append_deferred(1, 1, 1, &report(1));
    base.extend_from_slice(&writer.flush_to_os());
    writer.mark_synced(0);
    let rotation = writer.maybe_rotate(8, 0).unwrap();
    assert!(rotation.seal.is_none(), "everything was synced before");
    assert_eq!(writer.current_segment(), 1);
    let base_name = segment_path(stem, 0);
    let seg1_name = segment_path(stem, 1);
    assert_ne!(seg1_name, base_name);
    let names = vec![seg1_name.clone(), base_name.clone()];
    assert_eq!(segment_paths(stem, &names), vec![(0, 1), (1, 0)]);
    assert!(seg1_name.starts_with("outbox-shard-"));
    assert!(seg1_name.ends_with(".bin"));

    let mut seg1 = OUTBOX_HEADER.to_vec();
    writer.append_deferred(1, 2, 0, &report(2));
    writer.append_deferred(1, 2, 1, &report(2));
    seg1.extend_from_slice(&writer.flush_to_os());
    writer.mark_synced(0);
    assert!(writer.maybe_rotate(8, 0).is_some());
    assert!(
        !fully_published(None, base.len() as u64),
        "unpublished sealed segment must be retained"
    );

    let mut reader = ExecutionOutboxReader::open_with_cursor(&base, None).unwrap();
    let (records, cursor) = reader.read_available(&base);
    let published: Vec<(u64, u32)> = records.iter().map(|r| (r.raft_index, r.ordinal)).collect();
    assert_eq!(published, vec![(1, 0), (1, 1)]);
    let cursor = cursor.unwrap();
    writer.append_deferred(1, 3, 0, &report(3));
    writer.append_deferred(1, 3, 1, &report(3));
    writer.flush_to_os();
    writer.mark_synced(0);
    assert!(writer.maybe_rotate(8, 0).is_some());
    assert!(
        fully_published(read_cursor_offset(&cursor), base.len() as u64),
        "fully published segment must be reclaimed"
    );
    assert!(
        !fully_published(None, seg1.len() as u64),
        "unpublished segment is still retained"
    );

    assert!(reader.read_batch(None, 10).is_empty());
    assert_eq!(reader.pending_records(None), 0);

    assert_eq!(read_indices(&seg1), vec![2, 2]);
    assert_eq!(writer.current_segment(), 3);
    let names = vec![segment_path(stem, 3), seg1_name, segment_path(stem, 2)];
    let newest = latest_segment(stem, &names);
    assert_eq!(newest, 3);
    let reopened = ExecutionOutboxWriter::open(newest, 8, MINUTE, usize::MAX, 0);
    assert_eq!(reopened.current_segment(), 3);
}

#[test]
fn recovery_drops_reports_past_the_durable_watermark() {
    let mut file = Vec::new();
    write_batches(&mut file, &[(1, 1), (2, 2), (3, 2)]);
    assert_eq!(read_indices(&file), vec![1, 2, 2, 3, 3]);

    let len = truncate_after_applied(&file, Some(2)).unwrap();
    file.truncate(len);

    assert_eq!(read_indices(&file), vec![1, 2, 2]);
}

#[test]
fn recovery_keeps_every_watermarked_batch() {
    let mut file = Vec::new();
    write_batches(&mut file, &[(1, 1), (2, 2), (3, 2)]);

    let len = truncate_after_applied(&file, Some(3)).unwrap();
    file.truncate(len);

    assert_eq!(read_indices(&file), vec![1, 2, 2, 3, 3]);
}

#[test]
fn recovery_with_no_watermark_and_torn_tail_trims_cleanly() {
    let mut file = Vec::new();
    write_batches(&mut file, &[(1, 2)]);
    file.extend_from_slice(&[0xAB; OUTBOX_RECORD_LEN / 2]);

    let len = truncate_after_applied(&file, None).unwrap();
    file.truncate(len);
    assert_eq!(file.len(), OUTBOX_HEADER.len());
    assert!(read_indices(&file).is_empty());

    write_batches(&mut file, &[(5, 1)]);
    assert_eq!(read_indices(&file), vec![5]);
}

#[test]
fn publisher_cursor_only_advances_acknowledged_batches() {
    let mut file = OUTBOX_HEADER.to_vec();
    {
        let mut writer = ExecutionOutboxWriter::open(0, 8, MINUTE, 1, 0);
        for index in 1..=3 {
            writer.append(
                2,
                index,
                0,
                &ExecReport::Accepted {
                    instrument: InstrumentId(5),
                    order_id: OrderId(index),
                },
                0,
            );
            file.extend_from_slice(&writer.flush_to_os());
            writer.mark_synced(0);
        }
    }
    let len = file.len() as u64;

    let mut reader = ExecutionOutboxReader::open_with_cursor(&file, None).unwrap();
    assert_eq!(reader.pending_records(Some(len)), 3);
    assert_eq!(reader.read_batch(Some(&file), 2).len(), 2);
    assert_eq!(reader.pending_records(Some(len)), 3);
    let cursor = reader.acknowledge(2, len).unwrap().unwrap();
    assert_eq!(reader.pending_records(Some(len)), 1);

    let mut restored = ExecutionOutboxReader::open_with_cursor(&file, Some(&cursor)).unwrap();
    let tail = restored.read_batch(Some(&file), 10);
    assert_eq!(tail.len(), 1);
    assert_eq!(tail[0].raft_index, 3);
    restored.acknowledge(1, len).unwrap();
    assert_eq!(restored.pending_records(Some(len)), 0);
}

#[test]
fn each_outbox_error_has_its_cause() {
    assert_eq!(
        ExecutionOutboxReader::open(b"whatever").unwrap_err(),
        OutboxError::Header
    );
    assert_eq!(
        truncate_after_applied(b"whatever", None).unwrap_err(),
        OutboxError::Header
    );
    assert_eq!(truncate_after_applied(b"short", None), Ok(5), "left as it is");
    let mut file = Vec::new();
    write_batches(&mut file, &[(1, 1)]);
    assert_eq!(
        ExecutionOutboxReader::open_with_cursor(&file, Some(b"broken")).unwrap_err(),
        OutboxError::CursorHeader
    );
    assert_eq!(
        ExecutionOutboxReader::open_with_cursor(&file, Some(&encode_cursor(9))).unwrap_err(),
        OutboxError::Cursor
    );
    assert_eq!(
        ExecutionOutboxReader::open_with_cursor(&file, Some(&encode_cursor(168))).unwrap_err(),
        OutboxError::Cursor
    );
    let mut reader = ExecutionOutboxReader::open(&file).unwrap();
    assert_eq!(
        reader.acknowledge(2, file.len() as u64).unwrap_err(),
        OutboxError::BeyondEnd
    );
    assert_eq!(
        reader.acknowledge(usize::MAX, u64::MAX).unwrap_err(),
        OutboxError::CursorOverflow
    );
    assert_eq!(reader.offset(), 8);
}

#[test]
fn segments_are_named_and_found_by_number() {
    assert_eq!(segment_path("outbox-shard-0", 0), "outbox-shard-0.bin");
    assert_eq!(
        segment_path("outbox-shard-0", 12),
        "outbox-shard-0-seg-0000000012.bin"
    );
    assert_eq!(
        segment_seq_of("outbox-shard-0", "outbox-shard-0-seg-0000000012.bin"),
        Some(12)
    );
    assert_eq!(segment_seq_of("outbox-shard-0", "outbox-shard-0.bin"), Some(0));
    assert_eq!(segment_seq_of("outbox-shard-0", "outbox-shard-01.bin"), None);
    assert_eq!(segment_seq_of("outbox-shard-0", "outbox-shard-0.cursor"), None);
}

#[test]
fn a_file_that_ends_before_the_cursor_has_nothing_to_read() {
    let mut writer = ExecutionOutboxWriter::open(0, OUTBOX_HEADER.len() as u64, MINUTE, 1, 0);
    let report = ExecReport::Accepted {
        instrument: InstrumentId(42),
        order_id: OrderId(7),
    };
    writer.append_deferred(1, 2, 0, &report);
    let mut file = OUTBOX_HEADER.to_vec();
    file.extend_from_slice(&writer.flush_to_os());
    let mut reader = ExecutionOutboxReader::open_with_cursor(&file, None).unwrap();
    let (records, _) = reader.read_available(&file);
    assert_eq!(records.len(), 1);
    let at = reader.offset();
    let (records, cursor) = reader.read_available(&[]);
    assert!(records.is_empty());
    assert!(cursor.is_none());
    assert_eq!(reader.offset(), at);
}
