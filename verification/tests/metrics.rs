//! Counters, latency histograms and their text form.

use trade_core::exchange::{ExecReport, RejectReason};
use trade_core::metrics::{
    bucket_index, bucket_le, metrics_route, Estimates, LabeledHistogram, LatencyHistogram,
    LatencyMetric, Metrics, MetricsRoute, Quantiles, FINITE_BUCKETS,
};
use trade_core::types::{InstrumentId, OrderId, Side};

const NONE: Quantiles = Quantiles {
    p50: 0,
    p90: 0,
    p99: 0,
};

fn rendered(m: &Metrics) -> String {
    let groups = match m.group_histograms() {
        Some(labeled) => vec![NONE; labeled.len()],
        None => Vec::new(),
    };
    m.render(&Estimates {
        families: vec![NONE; 4],
        groups,
    })
}

#[test]
fn counters_tally_and_render() {
    let mut m = Metrics::default();
    m.record(&ExecReport::Accepted {
        instrument: InstrumentId(1),
        order_id: OrderId(1),
    });
    m.record(&ExecReport::Cancelled {
        instrument: InstrumentId(1),
        order_id: OrderId(1),
    });
    let text = rendered(&m);
    assert!(text.contains("tc_orders_accepted 1"));
    assert!(text.contains("tc_cancels 1"));
    assert!(text.contains("# TYPE tc_trades counter"));
    assert!(text.contains("tc_raft_commit_index 0"));
    assert!(text.contains("tc_raft_apply_lag 0"));
}

#[test]
fn latency_and_asset_wal_metrics_render() {
    let mut m = Metrics::default();
    m.record_command_latency(100);
    m.record_command_latency(250);
    m.record_raft_commit_latency(300);
    m.record_wal_fsync_latency(400);
    m.record_match_latency(50);
    m.execution_kafka_publish_ns_total = 700;
    m.execution_kafka_publish_ns_max = 700;
    m.execution_kafka_publish_samples = 1;
    m.asset_wal_errors += 1;
    m.set_raft_enqueued_index(12);
    m.set_raft_applied_index(9);
    let text = rendered(&m);
    assert!(text.contains("tc_command_latency_ns_total 350"));
    assert!(text.contains("tc_command_latency_samples 2"));
    assert!(text.contains("tc_command_latency_ns_max 250"));
    assert!(text.contains("tc_asset_wal_errors 1"));
    assert!(text.contains("tc_raft_commit_ns_total 300"));
    assert!(text.contains("tc_wal_fsync_ns_max 400"));
    assert!(text.contains("tc_match_ns_total 50"));
    assert!(text.contains("tc_execution_kafka_publish_ns_total 700"));
    assert!(text.contains("tc_execution_kafka_publish_samples 1"));
    assert!(text.contains("tc_execution_kafka_publish_ns_max 700"));
    assert!(text.contains("tc_raft_apply_lag 3"));
}

#[test]
fn bucket_index_maps_edges_and_rollover() {
    assert_eq!(bucket_index(0), 0);
    assert_eq!(bucket_index(999), 0);
    assert_eq!(bucket_index(1000), 0);
    assert_eq!(bucket_le(0), 1000);
    assert_eq!(bucket_index(1001), 1);
    assert_eq!(bucket_le(1), 2000);
    assert_eq!(bucket_index(2000), 1);
    assert_eq!(bucket_index(9000), 8);
    assert_eq!(bucket_le(8), 9000);
    assert_eq!(bucket_index(9001), 9);
    assert_eq!(bucket_le(9), 10_000);
    assert_eq!(bucket_index(u64::MAX), FINITE_BUCKETS);
    assert_eq!(bucket_index(100_000_000_000), FINITE_BUCKETS);
}

#[test]
fn every_bound_is_the_last_sample_of_its_bucket() {
    for i in 0..FINITE_BUCKETS {
        assert_eq!(bucket_index(bucket_le(i)), i);
        assert_eq!(bucket_index(bucket_le(i) + 1), i + 1);
    }
}

#[test]
fn histogram_renders_prometheus_shape() {
    let mut m = Metrics::default();
    m.record_latency_hist(LatencyMetric::Command, 1_500);
    m.record_latency_hist(LatencyMetric::Command, 42_000);
    let text = rendered(&m);
    assert!(text.contains("# TYPE tc_command_latency_ns histogram"));
    assert!(text.contains("tc_command_latency_ns_bucket{le=\"2000\"} "));
    assert!(text.contains("tc_command_latency_ns_bucket{le=\"+Inf\"} 2"));
    assert!(text.contains("tc_command_latency_ns_sum 43500"));
    assert!(text.contains("tc_command_latency_ns_count 2"));
    assert!(text.contains("# TYPE tc_command_latency_ns_p99 gauge"));
    assert!(text.contains("tc_command_latency_ns_p50 "));
    assert!(text.contains("tc_match_ns_bucket{le=\"+Inf\"} 0"));
}

#[test]
fn labeled_histogram_render_format() {
    let mut m = Metrics::default();
    m.register_raft_commit_groups(4);
    m.register_raft_commit_groups(4);
    m.record_raft_commit_latency_group(3, 5_000);
    m.record_raft_commit_latency_group(0, 5_000);
    m.record_raft_commit_latency_group(99, 5_000);
    let text = rendered(&m);
    assert!(text.contains("# TYPE tc_raft_commit_ns histogram"));
    assert!(text.contains("tc_raft_commit_ns_bucket{group=\"3\",le=\"5000\"} 1"));
    assert!(text.contains("tc_raft_commit_ns_bucket{group=\"3\",le=\"+Inf\"} 1"));
    assert!(text.contains("tc_raft_commit_ns_count{group=\"0\"} 1"));
    assert!(text.contains("tc_raft_commit_ns_count{group=\"3\"} 1"));
    assert!(text.contains("tc_raft_commit_ns_p99{group=\"3\"} "));
    assert!(text.contains("tc_raft_commit_ns_count{group=\"2\"} 0"));
}

#[test]
fn labeled_index_of_resolves_setup_labels() {
    let h = LabeledHistogram::new("x_ns", "help", "group", vec!["0".into(), "7".into()]);
    assert_eq!(h.len(), 2);
    assert_eq!(h.index_of("7"), Some(1));
    assert_eq!(h.index_of("nope"), None);
}

#[test]
fn every_sample_is_in_one_bucket() {
    let mut h = LatencyHistogram::new();
    for i in 0..500u64 {
        h.record(1_000 + (i % 7) * 3_000);
    }
    let total: u64 = h.snapshot().iter().sum();
    assert_eq!(total, 500);
    let expected: u64 = (0..500u64).map(|i| 1_000 + (i % 7) * 3_000).sum();
    assert_eq!(h.sum_ns(), expected);
}

#[test]
fn a_sum_beyond_the_counter_wraps() {
    let mut h = LatencyHistogram::new();
    h.record(u64::MAX);
    h.record(2);
    assert_eq!(h.sum_ns(), 1);
    assert_eq!(h.snapshot()[FINITE_BUCKETS], 1);
}

#[test]
fn estimates_are_shown_as_they_are_handed_in() {
    let mut h = LatencyHistogram::new();
    h.record(10);
    let text = h.render_standalone(
        "x_ns",
        "a help",
        &Quantiles {
            p50: 11,
            p90: 22,
            p99: 33,
        },
    );
    assert!(text.contains("# HELP tc_x_ns a help"));
    assert!(text.contains("tc_x_ns_p50 11"));
    assert!(text.contains("tc_x_ns_p90 22"));
    assert!(text.contains("tc_x_ns_p99 33"));
}

#[test]
fn trades_and_refusals_are_counted() {
    let mut m = Metrics::default();
    m.record(&ExecReport::Trade {
        instrument: InstrumentId(1),
        taker: OrderId(1),
        maker: OrderId(2),
        aggressor: Side::Buy,
        price: 10,
        qty: 7,
        maker_fee: 0,
        taker_fee: 0,
    });
    m.record(&ExecReport::Rejected {
        instrument: InstrumentId(1),
        order_id: OrderId(3),
        reason: RejectReason::MaxOrderQty,
    });
    m.record(&ExecReport::Modified {
        instrument: InstrumentId(1),
        order_id: OrderId(3),
        remaining: 1,
    });
    assert_eq!((m.trades, m.volume, m.rejects, m.modifies), (1, 7, 1, 1));
    m.set_raft_state(2, 5, 1, 40);
    m.set_ready(true);
    assert!(m.is_ready());
    assert!(rendered(&m).contains("tc_raft_term 5"));
}

#[test]
fn the_request_line_selects_the_page() {
    assert_eq!(metrics_route("GET /healthz HTTP/1.1"), MetricsRoute::Health);
    assert_eq!(metrics_route("GET /readyz HTTP/1.1"), MetricsRoute::Ready);
    assert_eq!(metrics_route("GET /metrics HTTP/1.1"), MetricsRoute::Metrics);
    assert_eq!(metrics_route(""), MetricsRoute::Metrics);
}
