//! Admission of orders: batches, back-pressure, settings, retries, dead letters.

use std::collections::HashMap;

use trade_core::backpressure::{
    ingress_error_status, Backpressure, BackpressureTier, OrderPipelineMetrics,
};
use trade_core::dead_letters::{
    encode_dead_letter, open_log, read_dead_letters, HeaderError, DLQ_HEADER,
};
use trade_core::http::{
    format_error, has_metric, is_bearer, is_blank, is_ready_leader, query_param, read_header,
    required, response_head, split_target, RequestHead, MAX_BODY,
};
use trade_core::ingress::{
    batch_reply, cancel_from_query, decide, decode_batch, order_from_query, publish_reply,
    CategorySequence, Decision, Ingress, BATCH_RECORD_LEN,
};
use trade_core::metrics::Quantiles;
use trade_core::order_queue::{QueueEnvelope, QueueRouter};
use trade_core::retry::{batch_step, takes_more, Attempts, BatchStep, Failures, RetryStep};
use trade_core::settings::{
    category_pins, category_size, configured_instruments, env_enabled, env_list, env_number,
    matcher_groups, parse_matcher_list, role_needs_mysql, shard_urls, topics, validate_shard_urls,
    InstrumentError,
};
use trade_core::types::{InstrumentId, OrderId, OrderType, Side, TimeInForce};
use trade_core::wire::encode_new;
use trade_core::Order;

fn batch_order(user: u64, instrument: u32) -> Vec<u8> {
    batch_order_with_id(user, instrument, 99)
}

fn batch_order_with_id(user: u64, instrument: u32, order_id: u64) -> Vec<u8> {
    let order = Order::limit(OrderId(order_id), Side::Buy, 1_000, 2)
        .on(InstrumentId(instrument))
        .owned_by(user);
    let mut body = user.to_le_bytes().to_vec();
    body.extend_from_slice(&encode_new(&order));
    body
}

#[test]
fn decodes_batch_and_routes_asset_category() {
    let mut body = batch_order(100_000, 1);
    body.extend_from_slice(&batch_order(100_001, 2_501));

    let records = decode_batch(&body, 1_000).unwrap();

    assert_eq!(records.len(), 2);
    assert_eq!(records[0].category_id, 0);
    assert_eq!(records[1].category_id, 2);
    assert_eq!(records[1].user, 100_001);
}

#[test]
fn same_asset_routes_to_same_topic_and_partition_for_different_orders() {
    let mut body = batch_order_with_id(100_000, 42_001, 7);
    body.extend_from_slice(&batch_order_with_id(200_000, 42_001, 9_999_999));
    let records = decode_batch(&body, 1_000).unwrap();
    let router = QueueRouter::new(
        vec!["orders-0".into(), "orders-1".into(), "orders-2".into()],
        8,
        1,
    );

    assert_eq!(records[0].category_id, records[1].category_id);
    assert_eq!(
        router.route(records[0].category_id),
        router.route(records[1].category_id)
    );
}

#[test]
fn rejects_partial_batch_record() {
    assert!(decode_batch(&[0; BATCH_RECORD_LEN - 1], 1_000).is_err());
}

#[test]
fn rejects_user_that_differs_from_order() {
    let mut body = batch_order(100_000, 1);
    body[..8].copy_from_slice(&100_001u64.to_le_bytes());

    assert!(decode_batch(&body, 1_000)
        .unwrap_err()
        .contains("does not match"));
}

#[test]
fn ingress_backpressure_uses_shared_group_lag_and_local_inflight() {
    let mut metrics = OrderPipelineMetrics::default();
    metrics.try_reserve(3, 5).unwrap();
    assert_eq!(metrics.backlog(), 3);
    metrics.finish_reservation(3, 3);
    assert_eq!(metrics.backlog(), 0);

    metrics.set_observed_lag("mysql", 2);
    metrics.set_observed_lag("match", 3);
    assert_eq!(metrics.backlog(), 3);
    metrics.try_reserve(2, 5).unwrap();
    assert!(metrics.try_reserve(1, 5).is_err());
    assert_eq!(
        ingress_error_status("backpressure: full"),
        "429 Too Many Requests"
    );
}

fn test_backpressure(
    soft: u64,
    hard: u64,
    emergency: u64,
    partitions: usize,
    groups: usize,
) -> Backpressure {
    Backpressure {
        soft,
        hard,
        emergency,
        soft_delay_ms: 0,
        topic_count: 1,
        partitions_per_topic: partitions as u32,
        raft_group_count: groups,
        raft_group_pins: HashMap::new(),
        mysql_lag: vec![0; partitions],
        match_lag: vec![0; partitions],
        group_unhealthy: vec![false; groups],
        soft_events: 0,
        hard_events: 0,
        emergency_events: 0,
    }
}

#[test]
fn backpressure_tiers_climb_by_threshold_and_recover() {
    let bp = test_backpressure(100, 250, 750, 1, 1);
    assert_eq!(bp.classify(0, false), BackpressureTier::Normal);
    assert_eq!(bp.classify(99, false), BackpressureTier::Normal);
    assert_eq!(bp.classify(100, false), BackpressureTier::Soft);
    assert_eq!(bp.classify(249, false), BackpressureTier::Soft);
    assert_eq!(bp.classify(250, false), BackpressureTier::Hard);
    assert_eq!(bp.classify(749, false), BackpressureTier::Hard);
    assert_eq!(bp.classify(750, false), BackpressureTier::Emergency);
    assert_eq!(bp.classify(0, true), BackpressureTier::Emergency);
    assert_eq!(bp.classify(300, false), BackpressureTier::Hard);
    assert_eq!(bp.classify(120, false), BackpressureTier::Soft);
    assert_eq!(bp.classify(10, false), BackpressureTier::Normal);
}

#[test]
fn backpressure_is_isolated_per_category_and_takes_group_max() {
    let mut bp = test_backpressure(100, 250, 750, 4, 2);
    bp.set_partition_lags("mysql", &[300, 0, 0, 0]);
    assert_eq!(bp.tier_for_category(0), BackpressureTier::Hard);
    assert_eq!(bp.tier_for_category(1), BackpressureTier::Normal);
    assert_eq!(bp.tier_for_category(4), BackpressureTier::Hard);
    bp.set_partition_lags("match", &[0, 800, 0, 0]);
    assert_eq!(bp.tier_for_category(1), BackpressureTier::Emergency);
    bp.set_partition_lags("mysql", &[0, 0, 0, 0]);
    bp.set_partition_lags("match", &[0, 0, 0, 0]);
    assert_eq!(bp.tier_for_category(0), BackpressureTier::Normal);
    assert_eq!(bp.tier_for_category(1), BackpressureTier::Normal);
}

#[test]
fn backpressure_quorum_loss_is_per_group_and_recoverable() {
    let mut bp = test_backpressure(100, 250, 750, 2, 2);
    bp.set_group_health(0, false);
    assert_eq!(bp.tier_for_category(0), BackpressureTier::Emergency);
    assert_eq!(bp.tier_for_category(1), BackpressureTier::Normal);
    bp.set_group_health(0, true);
    assert_eq!(bp.tier_for_category(0), BackpressureTier::Normal);
}

#[test]
fn backpressure_admit_maps_tiers_to_ingress_status() {
    let mut bp = test_backpressure(100, 250, 750, 1, 1);
    bp.set_partition_lags("mysql", &[150]);
    assert!(bp.admit_write(0).is_ok());
    bp.set_partition_lags("mysql", &[300]);
    let hard = bp.admit_write(0).unwrap_err();
    assert_eq!(ingress_error_status(&hard), "429 Too Many Requests");
    bp.set_partition_lags("mysql", &[900]);
    let emergency = bp.admit_write(0).unwrap_err();
    assert_eq!(ingress_error_status(&emergency), "503 Service Unavailable");
    assert_eq!((bp.soft_events, bp.hard_events, bp.emergency_events), (1, 1, 1));
}

#[test]
fn the_worst_category_of_a_batch_decides() {
    let mut bp = test_backpressure(100, 250, 750, 4, 2);
    bp.set_partition_lags("mysql", &[0, 120, 300, 0]);
    assert_eq!(bp.worst_category(&[0, 1, 2, 3]), Some(2));
    assert_eq!(bp.worst_category(&[]), None);
    assert_eq!(bp.max_partition_lag(), 300);
    bp.set_group_health(1, false);
    assert_eq!(bp.unhealthy_groups(), 1);
    assert_eq!(bp.partition_lag(2), 300);
    assert!(bp.render().contains("300"));
}

#[test]
fn thresholds_are_put_in_order() {
    let bp = Backpressure::new(100, 250, 750, 5, 2, 3, 4, HashMap::new());
    assert_eq!(bp.mysql_lag.len(), 6);
    assert_eq!(bp.group_unhealthy.len(), 4);
    assert_eq!(bp.partition_index(5), 5 % 2 * 3 + 5 / 2 % 3);
}

#[test]
fn a_reservation_is_given_back_whole() {
    let mut metrics = OrderPipelineMetrics::default();
    metrics.try_reserve(4, 10).unwrap();
    metrics.rollback_reservation(4);
    assert_eq!(metrics.backlog(), 0);
    assert_eq!(metrics.try_reserve(11, 10), Err(0));
    assert_eq!(metrics.backpressure_rejections, 11);
    metrics.record_mysql(5);
    metrics.record_raft(6);
    metrics.record_execution_mysql_batch(7, 3);
    metrics.published_commands = 2;
    metrics.complete("mysql", 1);
    metrics.complete("match", 5);
    metrics.count_dead_letter();
    assert_eq!(metrics.mysql_completed_commands, 1);
    assert_eq!(metrics.match_completed_commands, 2, "no more than was published");
    assert_eq!(metrics.execution_mysql_completed_events, 3);
    let none = Quantiles {
        p50: 0,
        p90: 0,
        p99: 0,
    };
    assert!(metrics.render(&none, &none).contains("dlq"));
}

#[test]
fn shard_url_count_must_match_db_count() {
    assert!(validate_shard_urls(&["db0".to_string()], 1).is_ok());
    let three = vec!["a".to_string(), "b".to_string(), "c".to_string()];
    assert!(validate_shard_urls(&three, 3).is_ok());
    let err = validate_shard_urls(&three, 10).unwrap_err();
    assert!(err.contains("10"));
    assert!(validate_shard_urls(&[], 1).is_err());
}

#[test]
fn ingress_and_match_only_roles_do_not_require_mysql() {
    assert!(!role_needs_mysql(0, 0));
    assert!(role_needs_mysql(1, 0));
    assert!(role_needs_mysql(0, 1));
}

#[test]
fn settings_fall_back_to_their_defaults() {
    assert_eq!(env_number(Some("17"), 3, 100), 17);
    assert_eq!(env_number(Some("101"), 3, 100), 3);
    assert_eq!(env_number(Some("x"), 3, 100), 3);
    assert_eq!(env_number(None, 3, 100), 3);
    assert!(env_enabled(None, true));
    assert_eq!(env_list(" a, b,,c "), vec!["a", "b", "c"]);
    assert_eq!(topics(None, 2, "orders-g"), vec!["orders-g0", "orders-g1"]);
    assert_eq!(topics(Some("x,y"), 2, "orders-g"), vec!["x", "y"]);
    assert_eq!(category_pins(Some("3:1,9:0")).get(&3), Some(&1));
    assert_eq!(category_size(Some("50")), 50);
    assert_eq!(category_size(Some("0")), 1_000);
    assert_eq!(category_size(None), 1_000);
    assert_eq!(
        shard_urls(Some("a,b"), None, 2),
        Some(vec!["a".to_string(), "b".to_string()])
    );
}

#[test]
fn matchers_are_listed_by_group() {
    let list: Vec<char> = "a:1@a:2, b:1, c:1@c:2".chars().collect();
    let targets = parse_matcher_list(&list);
    assert_eq!(targets.len(), 2, "an entry without a metrics address is left out");
    assert_eq!(targets[1].order_addr, "c:1");
    assert_eq!(targets[1].metrics_addr.as_deref(), Some("c:2"));
    let groups = matcher_groups(Some("a:1@a:2;b:1@b:2,c:1@c:2"), None, None);
    assert_eq!(groups.len(), 2);
    assert_eq!(groups[1].len(), 2);
    assert_eq!(matcher_groups(Some("a:1"), Some("b:1@b:2"), None)[0][0].order_addr, "b:1");
    assert_eq!(matcher_groups(None, None, Some("d:1"))[0][0].order_addr, "d:1");
    assert_eq!(matcher_groups(None, None, None)[0][0].order_addr, "trade-core:9001");
}

#[test]
fn instruments_are_numbers_and_ranges() {
    assert_eq!(configured_instruments("1,3-5"), Ok(vec![1, 3, 4, 5]));
    assert_eq!(configured_instruments("x"), Err(InstrumentError::Invalid));
    assert_eq!(configured_instruments("5-3"), Err(InstrumentError::Backwards));
    assert_eq!(configured_instruments(""), Err(InstrumentError::Empty));
}

/// Tries `attempt` until it succeeds or is given up; in the latter case the
/// message is appended to `log`.
fn persist(
    mut attempt: impl FnMut() -> Result<(), String>,
    log: &mut Vec<u8>,
    metrics: &mut OrderPipelineMetrics,
    max_retries: u32,
    place: (i32, i64),
    payload: &[u8],
) -> bool {
    let mut attempts = Attempts::first(max_retries, 0);
    loop {
        let reason = match attempt() {
            Ok(()) => return true,
            Err(reason) => reason,
        };
        match attempts.failed() {
            RetryStep::Again { after_ms } => assert_eq!(after_ms, 0),
            RetryStep::DeadLetter => {
                let letter =
                    encode_dead_letter(1, place.0, place.1, reason.as_bytes(), payload);
                log.extend_from_slice(&letter);
                metrics.count_dead_letter();
                return false;
            }
        }
    }
}

#[test]
fn persist_retry_dead_letters_after_exhausting_retries() {
    let mut log = open_log(&[]).unwrap();
    let mut metrics = OrderPipelineMetrics::default();

    let mut attempts = 0;
    let committed = persist(
        || {
            attempts += 1;
            Err("poison message".to_string())
        },
        &mut log,
        &mut metrics,
        3,
        (7, 42),
        b"raw-envelope",
    );

    assert!(!committed);
    assert_eq!(attempts, 3, "tries up to the retry cap");
    assert_eq!(metrics.dlq_total, 1);

    let records = read_dead_letters(&log).unwrap();
    assert_eq!(records.len(), 1);
    assert_eq!(records[0].partition, 7);
    assert_eq!(records[0].offset, 42);
    assert!(String::from_utf8(records[0].reason.clone())
        .unwrap()
        .contains("poison"));
    assert_eq!(records[0].payload, b"raw-envelope");
}

#[test]
fn persist_retry_commits_and_skips_dlq_on_eventual_success() {
    let mut log = open_log(&[]).unwrap();
    let mut metrics = OrderPipelineMetrics::default();

    let mut attempts = 0;
    let committed = persist(
        || {
            attempts += 1;
            if attempts <= 2 {
                Err("transient".to_string())
            } else {
                Ok(())
            }
        },
        &mut log,
        &mut metrics,
        5,
        (1, 2),
        b"x",
    );

    assert!(committed);
    assert_eq!(metrics.dlq_total, 0);
    assert!(
        read_dead_letters(&log).unwrap().is_empty(),
        "no dead-letter on success"
    );
}

#[test]
fn the_wait_doubles_from_attempt_to_attempt() {
    let mut attempts = Attempts::first(4, 100);
    assert_eq!(attempts.failed(), RetryStep::Again { after_ms: 100 });
    assert_eq!(attempts.failed(), RetryStep::Again { after_ms: 200 });
    assert_eq!(attempts.failed(), RetryStep::Again { after_ms: 400 });
    assert_eq!(attempts.failed(), RetryStep::DeadLetter);
    assert_eq!(batch_step(0, 2, 100, true), BatchStep::Commit);
    assert!(matches!(batch_step(0, 2, 100, false), BatchStep::Again { .. }));
    assert_eq!(batch_step(1, 2, 100, false), BatchStep::Rewind);
    assert!(!takes_more(1, 2, 5, 5));
    assert!(takes_more(1, 2, 4, 5));
    assert!(!takes_more(2, 2, 4, 5));
    let mut failures = Failures { in_a_row: 3 };
    failures.succeed();
    assert_eq!(failures.in_a_row, 0);
    let (rest, said) = failures.fail(60);
    assert!(rest > 0);
    assert!(said);
}

#[test]
fn a_dead_letter_log_is_checked_before_use() {
    assert_eq!(open_log(&[]).unwrap(), DLQ_HEADER.to_vec());
    assert!(open_log(&DLQ_HEADER).unwrap().is_empty());
    assert_eq!(open_log(b"abc").unwrap_err(), HeaderError::Truncated);
    assert_eq!(open_log(b"whatever").unwrap_err(), HeaderError::Mismatch);
    assert!(read_dead_letters(b"whatever").is_none());

    let mut log = DLQ_HEADER.to_vec();
    log.extend_from_slice(&encode_dead_letter(1, -2, -3, b"r", b"p"));
    let whole = log.len();
    log.extend_from_slice(&encode_dead_letter(4, 5, 6, b"s", b"q"));
    let letters = read_dead_letters(&log).unwrap();
    assert_eq!(letters.len(), 2);
    assert_eq!((letters[0].partition, letters[0].offset), (-2, -3));
    assert_eq!(read_dead_letters(&log[..whole + 5]).unwrap().len(), 1);
}

fn chars(text: &str) -> Vec<char> {
    text.chars().collect()
}

#[test]
fn a_query_describes_an_order() {
    let order = order_from_query(&chars(
        "user=7&instrument=42&order_id=9&side=sell&price=100&qty=3",
    ))
    .unwrap();
    assert_eq!(order.user, 7);
    assert_eq!(order.instrument, InstrumentId(42));
    assert_eq!(order.id, OrderId(9));
    assert_eq!(order.side, Side::Sell);
    assert_eq!(order.order_type, OrderType::Limit);
    assert_eq!(order.tif, TimeInForce::Gtc);
    assert_eq!((order.price, order.quantity), (100, 3));
    assert!(order_from_query(&chars("user=7")).is_err());
    let cancel =
        cancel_from_query(&chars("user=7&instrument=42&order_id=9&cmd_id=11")).unwrap();
    assert_eq!(cancel.cmd_id, 11);
}

fn head(line: &str, headers: &[&str]) -> RequestHead {
    let mut head = RequestHead::first(line);
    for header in headers {
        head.header(header, "secret");
    }
    head
}

#[test]
fn writes_need_the_token() {
    let line = "POST /orders/new?user=7&instrument=42&order_id=9&side=buy&price=100&qty=3 HTTP/1.1";
    let refused = decide(&head(line, &[]), &[], 1_000, true);
    assert!(matches!(
        refused,
        Decision::Reply { status: "401 Unauthorized", .. }
    ));
}

#[test]
fn the_metrics_page_is_open() {
    assert!(matches!(
        decide(&head("GET /metrics HTTP/1.1", &[]), &[], 1_000, false),
        Decision::Metrics
    ));
}

#[test]
fn replies_tell_the_outcome() {
    let (status, body) = publish_reply(&Ok(CategorySequence {
        category_id: 3,
        category_seq: 12,
    }));
    assert!(status.starts_with('2'));
    assert!(body.contains("12"));
    let (status, body) = publish_reply(&Err("backpressure: full".to_string()));
    assert_eq!(status, "429 Too Many Requests");
    assert!(body.contains("backpressure"));
    assert!(batch_reply(&Ok(5)).1.contains('5'));
    assert!(format_error("x\"y").contains("error"));
}

#[test]
fn a_request_head_is_read_line_by_line() {
    let head = head(
        "POST /batch HTTP/1.1",
        &[
            "Authorization: Bearer secret",
            "Content-Length: 96",
            "Connection: keep-alive",
        ],
    );
    assert_eq!(head.method, "POST");
    assert_eq!(head.target, "/batch");
    assert!(head.authorized);
    assert!(head.keep_alive);
    assert_eq!(head.content_length, 96);
    assert!(head.fits());
    let mut large = RequestHead::first("POST /batch HTTP/1.1");
    large.header(&format!("Content-Length: {}", MAX_BODY + 1), "secret");
    assert!(!large.fits());
    assert!(is_blank("\r\n"));
    assert!(!is_bearer(&chars("Bearer other"), "secret"));
    assert_eq!(read_header("no header"), None);
    let reply = response_head("200 OK", "text/plain", 5, true);
    assert!(reply.contains("Content-Length: 5\r\n"));
    assert!(reply.ends_with("\r\n\r\n"));
}

#[test]
fn query_parameters_are_found_by_name() {
    let target = chars("/orders?a=1&b=22");
    let (path, query) = split_target(&target);
    assert_eq!(path, &chars("/orders")[..]);
    assert_eq!(query_param(query, "b"), Some(chars("22")));
    assert_eq!(query_param(query, "c"), None);
    assert_eq!(required(query, "b", 100), Ok(22));
    assert!(required(query, "b", 21).is_err());
    assert!(required(query, "c", 100).is_err());
    assert!(has_metric(&chars("x 1\ntc_raft_role 2\n"), "tc_raft_role", "2"));
    assert!(!is_ready_leader("tc_raft_role 0\n"));
}

fn ingress() -> Ingress {
    Ingress {
        router: QueueRouter::new(vec!["orders-0".into(), "orders-1".into()], 2, 7),
        metrics: OrderPipelineMetrics::default(),
        backpressure: Backpressure::new(100, 250, 750, 5, 2, 2, 2, HashMap::new()),
        max_pipeline_backlog: 10,
    }
}

#[test]
fn a_publish_reserves_and_releases() {
    let mut ingress = ingress();
    let order = Order::limit(OrderId(9), Side::Buy, 100, 2).on(InstrumentId(42));
    let (delay, message) = ingress.begin_publish(0, 7, &encode_new(&order)).unwrap();
    assert_eq!(delay, 0);
    assert_eq!(message.topic, "orders-0");
    assert_eq!(QueueEnvelope::decode(&message.payload).unwrap().user, 7);
    assert_eq!(ingress.metrics.backlog(), 1);
    assert_eq!(
        ingress.end_publish(0, Some(41)).unwrap().category_id,
        0
    );
    assert_eq!(ingress.metrics.backlog(), 0);
    assert_eq!(ingress.metrics.published_commands, 1);

    ingress.begin_publish(0, 7, &encode_new(&order)).unwrap();
    assert!(ingress.end_publish(0, None).is_none());
    assert_eq!(ingress.metrics.backlog(), 0);
    assert_eq!(ingress.metrics.published_commands, 1);
}

#[test]
fn a_batch_is_reserved_as_a_whole() {
    let mut ingress = ingress();
    let mut body = batch_order(1, 1);
    body.extend_from_slice(&batch_order(2, 2_501));
    let records = decode_batch(&body, 1_000).unwrap();
    let (_, messages) = ingress.begin_batch(&records).unwrap();
    assert_eq!(messages.len(), 2);
    assert_eq!(ingress.metrics.backlog(), 2);
    assert!(!ingress.end_batch(2, 1));
    assert_eq!(ingress.metrics.backlog(), 0);
    assert_eq!(ingress.metrics.published_commands, 1);
    ingress.max_pipeline_backlog = 1;
    assert!(ingress.begin_batch(&records).is_err());
}
