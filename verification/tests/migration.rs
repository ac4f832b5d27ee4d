//! Cut-over checks and the texts that carry them.

use trade_core::exchange::{Command, Processor, Snapshot};
use trade_core::migration::{
    applied_index_reply, applied_index_response_json, category_of, fingerprint_reply,
    fingerprint_response_json, is_applied_index_request, parse_applied_index_response,
    parse_fingerprint_request, parse_fingerprint_response, parse_group_endpoints, read_response,
    request_text, snapshot_category_fingerprint, verify_cutover, CategoryFingerprint,
    CutoverError, EndpointError, FetchError, QueryError,
};
use trade_core::sharding::DEFAULT_ASSET_CATEGORY_SIZE;
use trade_core::types::{InstrumentId, OrderId, Side};
use trade_core::{Order, PriceTimePriority};

const CAT_SIZE: u32 = DEFAULT_ASSET_CATEGORY_SIZE;

fn instrument_in_category(c: u32, nth: u32) -> u32 {
    c * CAT_SIZE + 1 + nth
}

#[test]
fn snapshot_fingerprint_matches_the_live_processor() {
    let cat = 4;
    let inst = InstrumentId(instrument_in_category(cat, 2));
    let mut p = Processor::new(PriceTimePriority, None);
    let mut out = Vec::new();
    p.process(
        Command::New(Order::limit(OrderId(1), Side::Buy, 100, 5).on(inst)),
        &mut out,
    );
    p.process(
        Command::New(Order::limit(OrderId(2), Side::Sell, 110, 4).on(inst)),
        &mut out,
    );
    let snapshot = Snapshot {
        journal_seq: 0,
        raft_applied_index: 77,
        engines: p.export_state(),
    };

    let got = snapshot_category_fingerprint(Some(&snapshot), cat, CAT_SIZE)
        .expect("snapshot exists");
    assert_eq!(got.raft_applied_index, 77);
    assert_eq!(
        got.fingerprint,
        p.category_fingerprint(cat, CAT_SIZE),
        "snapshot-derived fingerprint must equal the live processor's"
    );
    assert_ne!(
        got.fingerprint,
        p.category_fingerprint(cat + 1, CAT_SIZE),
        "another category has no orders"
    );
    assert_eq!(category_of(inst, CAT_SIZE), cat);
}

#[test]
fn missing_snapshot_is_none_not_error() {
    assert_eq!(snapshot_category_fingerprint(None, 0, CAT_SIZE), None);
}

#[test]
fn applied_index_request_and_response_round_trip() {
    assert!(is_applied_index_request("GET /applied-index HTTP/1.1"));
    assert!(is_applied_index_request("GET /applied-index?x=1 HTTP/1.1"));
    assert!(!is_applied_index_request("GET /fingerprint?category=1 HTTP/1.1"));
    let body = applied_index_response_json(9_876);
    assert_eq!(parse_applied_index_response(&body), Some(9_876));
    assert_eq!(parse_applied_index_response("garbage"), None);
}

#[test]
fn only_a_get_asks_for_the_applied_index() {
    assert!(!is_applied_index_request("POST /applied-index HTTP/1.1"));
    assert!(!is_applied_index_request("/applied-index"));
    assert!(!is_applied_index_request("GET"));
    assert!(is_applied_index_request("GET /applied-index"));
}

#[test]
fn fetch_applied_index_reads_a_served_value() {
    let body = applied_index_response_json(4_242);
    let response = format!(
        "HTTP/1.1 200 OK\r\nContent-Type: application/json\r\nContent-Length: {}\r\nConnection: close\r\n\r\n{body}",
        body.len()
    );
    let (status, got) = read_response(&response).unwrap();
    assert_eq!(applied_index_reply(status, &got), Ok(4_242));
}

#[test]
fn group_endpoint_parsing() {
    let map = parse_group_endpoints("0=host-a:9102, 1=host-b:9102").unwrap();
    assert_eq!(map.get(&0).map(String::as_str), Some("host-a:9102"));
    assert_eq!(map.get(&1).map(String::as_str), Some("host-b:9102"));
    assert!(parse_group_endpoints("").is_err());
    assert!(parse_group_endpoints("garbage").is_err());
    assert!(
        parse_group_endpoints("0=a:1,0=b:2").is_err(),
        "duplicate group rejected"
    );
}

#[test]
fn each_endpoint_error_has_its_cause() {
    assert_eq!(parse_group_endpoints("x").unwrap_err(), EndpointError::NotAPair);
    assert_eq!(
        parse_group_endpoints("x=a:1").unwrap_err(),
        EndpointError::InvalidGroup
    );
    assert_eq!(
        parse_group_endpoints("1=").unwrap_err(),
        EndpointError::EmptyAddress
    );
    assert_eq!(
        parse_group_endpoints("1=a,1=b").unwrap_err(),
        EndpointError::Duplicate { group: 1 }
    );
    assert_eq!(
        parse_group_endpoints(" , ").unwrap_err(),
        EndpointError::NoEndpoints
    );
}

#[test]
fn fetch_category_fingerprint_reads_a_served_response() {
    let fp = CategoryFingerprint {
        raft_applied_index: 555,
        fingerprint: 0x0123_4567_89ab_cdef,
    };
    let ok_body = fingerprint_response_json(9, fp);
    let response = format!(
        "HTTP/1.1 200 OK\r\nContent-Type: application/json\r\nContent-Length: {}\r\nConnection: close\r\n\r\n{ok_body}",
        ok_body.len()
    );
    let (status, body) = read_response(&response).unwrap();
    let got = fingerprint_reply(status, &body)
        .unwrap()
        .expect("200 yields Some");
    assert_eq!(got, fp);

    let body = "no durable snapshot yet\n";
    let response = format!(
        "HTTP/1.1 503 Service Unavailable\r\nContent-Length: {}\r\nConnection: close\r\n\r\n{body}",
        body.len()
    );
    let (status, body) = read_response(&response).unwrap();
    assert_eq!(fingerprint_reply(status, &body), Ok(None));
}

#[test]
fn each_fetch_error_has_its_cause() {
    assert_eq!(
        fingerprint_reply(404, ""),
        Err(FetchError::Status { code: 404 })
    );
    assert_eq!(fingerprint_reply(200, "?"), Err(FetchError::Unreadable));
    assert_eq!(
        applied_index_reply(500, ""),
        Err(FetchError::Status { code: 500 })
    );
    assert_eq!(applied_index_reply(200, "?"), Err(FetchError::Unreadable));
    assert!(read_response("no response").is_none());
    assert!(request_text("/applied-index", "host:1").starts_with("GET /applied-index HTTP/1.1\r\n"));
}

#[test]
fn verify_cutover_accepts_equal_state_at_the_same_index() {
    let fp = CategoryFingerprint {
        raft_applied_index: 100,
        fingerprint: 0xdead_beef,
    };
    assert_eq!(verify_cutover(100, fp, fp), Ok(fp));
    assert!(verify_cutover(90, fp, fp).is_ok());
}

#[test]
fn fingerprint_request_parsing() {
    assert_eq!(
        parse_fingerprint_request("GET /fingerprint?category=42 HTTP/1.1"),
        Some(Ok(42))
    );
    assert_eq!(parse_fingerprint_request("GET /metrics HTTP/1.1"), None);
    assert!(matches!(
        parse_fingerprint_request("GET /fingerprint HTTP/1.1"),
        Some(Err(_))
    ));
    assert!(matches!(
        parse_fingerprint_request("GET /fingerprint?category=abc HTTP/1.1"),
        Some(Err(_))
    ));
}

#[test]
fn a_missing_and_a_malformed_category_differ() {
    assert_eq!(
        parse_fingerprint_request("GET /fingerprint HTTP/1.1"),
        Some(Err(QueryError::Missing))
    );
    assert_eq!(
        parse_fingerprint_request("GET /fingerprint?category=4294967296 HTTP/1.1"),
        Some(Err(QueryError::Malformed))
    );
}

#[test]
fn fingerprint_response_round_trips_over_the_wire_format() {
    let fp = CategoryFingerprint {
        raft_applied_index: 12_345,
        fingerprint: 0xfeed_face_dead_beef,
    };
    let body = fingerprint_response_json(7, fp);
    assert_eq!(parse_fingerprint_response(&body), Some(fp));
}

#[test]
fn verify_cutover_rejects_lagging_or_divergent_sides() {
    let source = CategoryFingerprint {
        raft_applied_index: 100,
        fingerprint: 1,
    };
    let behind = CategoryFingerprint {
        raft_applied_index: 99,
        fingerprint: 1,
    };
    assert!(verify_cutover(100, source, behind).is_err());
    let diverged = CategoryFingerprint {
        raft_applied_index: 100,
        fingerprint: 2,
    };
    assert!(verify_cutover(100, source, diverged).is_err());
    let ahead = CategoryFingerprint {
        raft_applied_index: 101,
        fingerprint: 1,
    };
    assert!(verify_cutover(100, source, ahead).is_err());

    assert_eq!(verify_cutover(100, behind, source), Err(CutoverError::SourceBehind));
    assert_eq!(verify_cutover(100, source, behind), Err(CutoverError::TargetBehind));
    assert_eq!(verify_cutover(100, source, ahead), Err(CutoverError::IndexesDiffer));
    assert_eq!(verify_cutover(100, source, diverged), Err(CutoverError::StatesDiffer));
}
