//! The queue's settings, and how an outbox is published.

use trade_core::codec::{fnv_extend, FNV_OFFSET};
use trade_core::exchange::ExecReport;
use trade_core::execution_outbox::{
    read_cursor_offset, ExecutionOutboxReader, ExecutionOutboxWriter, OUTBOX_HEADER,
};
use trade_core::publishing::{
    conclude, look, publish_batch_size, settle_batch, Look, Settlement,
};
use trade_core::queue_settings::{
    consumer_options, execution_producer_options, lookup, queue_settings,
};
use trade_core::runtime::PublishOutcome;
use trade_core::types::{InstrumentId, OrderId};
use trade_core::wire::decode_execution_event;

fn vars(list: &[(&str, &str)]) -> Vec<(String, String)> {
    list.iter()
        .map(|(name, value)| (name.to_string(), value.to_string()))
        .collect()
}

#[test]
fn no_brokers_no_queue() {
    assert!(queue_settings(&vars(&[("TC_ORDER_BATCH_SIZE", "5")]), 3).is_none());
    let set = vars(&[("A", "1"), ("B", "2"), ("A", "3")]);
    assert_eq!(lookup(&set, "A"), Some("1"));
    assert_eq!(lookup(&set, "B"), Some("2"));
    assert_eq!(lookup(&set, "C"), None);
}

#[test]
fn a_queue_has_defaults() {
    let settings = queue_settings(&vars(&[("TC_ORDER_KAFKA_BROKERS", "k:9092")]), 0).unwrap();
    assert_eq!(settings.brokers, "k:9092");
    assert_eq!(
        settings.topics,
        vec!["orders-v2-g0", "orders-v2-g1", "orders-v2-g2", "orders-v2-g3"]
    );
    assert_eq!(settings.partitions, 8);
    assert_eq!(settings.route_version, 1);
    assert_eq!(settings.db_consumers, 32, "one for each partition");
    assert_eq!(settings.matcher_consumers, 1, "one group at least");
    assert_eq!(settings.execution_consumers, 4);
    assert_eq!(settings.db_group, "trade-order-persist-v1");
    assert_eq!(settings.matcher_group, "trade-order-match-v1");
    assert_eq!(settings.execution_topic, "trade-executions-v1");
    assert_eq!(settings.execution_group, "trade-order-execution-mysql-v1");
    assert!(settings.pins.is_empty());
    assert_eq!(settings.batch_size, 1_000);
    assert_eq!(settings.batch_linger_ms, 2);
    assert_eq!(settings.max_pipeline_backlog, 50_000);
    assert_eq!(
        (settings.soft, settings.hard, settings.emergency, settings.soft_delay_ms),
        (100_000, 250_000, 750_000, 2)
    );
    let options = settings.producer_options();
    assert_eq!(options[0], ("bootstrap.servers".into(), "k:9092".into()));
    assert_eq!(options[5], ("linger.ms".into(), "1".into()));
    assert_eq!(options[6], ("batch.num.messages".into(), "10000".into()));
    assert_eq!(options[7], ("compression.type".into(), "lz4".into()));
    assert_eq!(
        options[8],
        ("queue.buffering.max.kbytes".into(), "1048576".into())
    );
    assert_eq!(options.len(), 9);
}

#[test]
fn the_environment_overrides_the_defaults() {
    let settings = queue_settings(
        &vars(&[
            ("TC_ORDER_KAFKA_BROKERS", "k"),
            ("TC_ORDER_KAFKA_TOPICS", " a, ,b "),
            ("TC_ORDER_KAFKA_PARTITIONS_PER_TOPIC", "3"),
            ("TC_ORDER_KAFKA_ROUTE_VERSION", "no number"),
            ("TC_RAFT_CATEGORY_PINS", "4:1,x,7:2"),
            ("TC_ORDER_BATCH_SIZE", "0"),
            ("TC_ORDER_MAX_PIPELINE_BACKLOG", "0"),
            ("TC_ORDER_KAFKA_MATCH_CONSUMERS", "0"),
            ("TC_ORDER_BP_HARD", "9"),
        ]),
        5,
    )
    .unwrap();
    assert_eq!(settings.topics, vec!["a", "b"]);
    assert_eq!(settings.partitions, 3);
    assert_eq!(settings.route_version, 1);
    assert_eq!(settings.db_consumers, 6);
    assert_eq!(settings.matcher_consumers, 0);
    assert_eq!(settings.pins.get(&4), Some(&1));
    assert_eq!(settings.pins.get(&7), Some(&2));
    assert_eq!(settings.pins.len(), 2);
    assert_eq!(settings.batch_size, 1);
    assert_eq!(settings.max_pipeline_backlog, 1);
    assert_eq!(settings.hard, 9);

    let fallback = queue_settings(
        &vars(&[
            ("TC_ORDER_KAFKA_BROKERS", "k"),
            ("TC_ORDER_KAFKA_CONSUMERS", "7"),
        ]),
        5,
    )
    .unwrap();
    assert_eq!(fallback.db_consumers, 7);
    assert_eq!(fallback.matcher_consumers, 5);
}

#[test]
fn clients_are_told_how_to_behave() {
    let options = consumer_options(&vars(&[("TC_KAFKA_FETCH_WAIT_MS", "25")]), "k", "g");
    assert_eq!(options[1], ("group.id".into(), "g".into()));
    assert_eq!(options[2], ("fetch.min.bytes".into(), "1".into()));
    assert_eq!(options[3], ("fetch.wait.max.ms".into(), "25".into()));
    assert_eq!(options[4], ("fetch.message.max.bytes".into(), "52428800".into()));
    assert_eq!(options[5], ("enable.auto.commit".into(), "false".into()));
    let options =
        execution_producer_options(&vars(&[("TC_EXECUTION_KAFKA_COMPRESSION", "zstd")]), "k");
    assert_eq!(options[5], ("compression.type".into(), "zstd".into()));
    assert_eq!(options[7], ("message.timeout.ms".into(), "5000".into()));
}

fn outbox(records: u32) -> Vec<u8> {
    let mut file = OUTBOX_HEADER.to_vec();
    let mut writer = ExecutionOutboxWriter::open(0, file.len() as u64, 60_000_000_000, 1, 0);
    for ordinal in 0..records {
        writer.append_deferred(
            3,
            9,
            ordinal,
            &ExecReport::Accepted {
                instrument: InstrumentId(42),
                order_id: OrderId(100 + ordinal as u64),
            },
        );
    }
    file.extend_from_slice(&writer.flush_to_os());
    file
}

fn over(look: Look) -> PublishOutcome {
    match look {
        Look::Over(outcome) => outcome,
        _ => panic!("the look goes on"),
    }
}

#[test]
fn a_look_may_be_over_at_once() {
    let file = outbox(0);
    let reader = ExecutionOutboxReader::open_with_cursor(&file, None).unwrap();
    assert_eq!(
        over(look(false, true, &reader, Some(&outbox(1)), 5, 10)),
        PublishOutcome::Follower
    );
    assert_eq!(
        over(look(true, false, &reader, None, 5, 10)),
        PublishOutcome::ReadFailed
    );
    assert_eq!(
        over(look(true, true, &reader, Some(&file), 5, 10)),
        PublishOutcome::Idle
    );
    assert_eq!(over(look(true, true, &reader, None, 5, 10)), PublishOutcome::Idle);
}

#[test]
fn a_record_without_a_report_stops_the_publisher() {
    let mut file = outbox(1);
    // The report's type is the first byte of its frame.
    file[8 + 16] = 0xee;
    let sum = fnv_extend(FNV_OFFSET, &file, 8, 72);
    file[80..88].copy_from_slice(&sum.to_le_bytes());
    let reader = ExecutionOutboxReader::open(&file).unwrap();
    assert!(matches!(
        look(true, true, &reader, Some(&file), 5, 10),
        Look::Corrupt
    ));
}

#[test]
fn only_what_was_taken_and_recorded_is_passed() {
    let file = outbox(3);
    let len = file.len() as u64;
    let mut reader = ExecutionOutboxReader::open_with_cursor(&file, None).unwrap();
    let Look::Send(messages) = look(true, true, &reader, Some(&file), 2, 10) else {
        panic!("there is something to send");
    };
    assert_eq!(messages.len(), 2);
    assert_eq!(messages[1].key, 101u64.to_be_bytes());
    assert_eq!(decode_execution_event(&messages[1].payload).unwrap().ordinal, 1);

    let settlement = settle_batch(&reader, &[true, false], len);
    assert!(matches!(settlement, Settlement::NotAcknowledged));
    assert_eq!(
        conclude(&mut reader, settlement, true, 2, 7),
        PublishOutcome::NotAcknowledged
    );
    assert_eq!(reader.offset(), 8);

    let settlement = settle_batch(&reader, &[true, true], len);
    assert_eq!(
        conclude(&mut reader, settlement, false, 2, 7),
        PublishOutcome::CursorFailed { elapsed_ns: 7 }
    );
    assert_eq!(reader.offset(), 8, "the same records are sent again");

    assert!(matches!(
        settle_batch(&reader, &[true, true], 100),
        Settlement::Refused
    ));
    let refused = conclude(&mut reader, Settlement::Refused, true, 2, 7);
    assert_eq!(refused, PublishOutcome::CursorFailed { elapsed_ns: 7 });

    let settlement = settle_batch(&reader, &[true, true], len);
    match &settlement {
        Settlement::Acknowledged { cursor, .. } => {
            assert_eq!(read_cursor_offset(cursor.as_deref().unwrap()), Some(168));
        }
        _ => panic!("all were taken"),
    }
    assert_eq!(
        conclude(&mut reader, settlement, true, 2, 7),
        PublishOutcome::Published {
            records: 2,
            elapsed_ns: 7
        }
    );
    let Look::Send(messages) = look(true, true, &reader, Some(&file), 2, 10) else {
        panic!("one is left");
    };
    assert_eq!(messages.len(), 1);
    assert_eq!(messages[0].key, 102u64.to_be_bytes());
}

#[test]
fn publisher_batches_are_bounded() {
    assert_eq!(publish_batch_size(None), 512);
    assert_eq!(publish_batch_size(Some("0")), 1);
    assert_eq!(publish_batch_size(Some("20000")), 10_000);
    assert_eq!(publish_batch_size(Some("many")), 512);
}
