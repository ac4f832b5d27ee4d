//! Market data, websocket frames, projection, forwarding and load generators.

use std::collections::HashMap;

use trade_core::exchange::{Command, ExecReport};
use trade_core::forwarding::{encode_commit_request, is_commit_ack, plan_forwarding};
use trade_core::gateway::{encode_ack, read_request, Request};
use trade_core::ingress::decode_batch;
use trade_core::market::{MarketState, ReportDeduper};
use trade_core::market_http::{
    admin_access, body_length, cancel_from_query, forward_reply, forward_request, is_accepted,
    new_order_from_query, route_request, MarketRequest, MarketRoute, Page,
};
use trade_core::order_queue::{encode_envelope, QueueRouter};
use trade_core::projection::{
    apply_report, commit_places, consumer_lag, decode_commands, decode_execution, decode_message,
    effect_tables, effects_on, multi_insert, plan_effects, plan_shard, rewind_places, total_lag,
    touched_databases, Effect, Mark, RejectedMessage, RowChange, RowStatus,
};
use trade_core::sharding::{RouteConfig, ShardRoute};
use trade_core::simulation::{load_command, Rng, Tally, Trader};
use trade_core::text::{
    chars_of, find_text, lower, parse_number, push_at_least, push_decimal, push_decimal_wide,
    push_padded, split, split_once, text_of, trim,
};
use trade_core::types::{InstrumentId, OrderId, Side};
use trade_core::websocket::{base64, handshake_reply, read_client_head, sha1, text_frame_head};
use trade_core::wire::{
    decode_execution_event, decode_report, encode_new, encode_report, DecodedReport,
    EXECUTION_EVENT_LEN, RT_ACCEPTED, RT_DEPTH_END, RT_DEPTH_LEVEL, RT_FILLED, RT_REJECTED,
    RT_TRADE,
};
use trade_core::Order;

fn hex(bytes: &[u8]) -> String {
    bytes.iter().map(|b| format!("{b:02x}")).collect()
}

#[test]
fn hashes_and_encodings_are_the_known_ones() {
    assert_eq!(hex(&sha1(b"")), "da39a3ee5e6b4b0d3255bfef95601890afd80709");
    assert_eq!(hex(&sha1(b"abc")), "a9993e364706816aba3e25717850c26c9cd0d89d");
    assert_eq!(
        hex(&sha1(b"abcdbcdecdefdefgefghfghighijhijkijkljklmklmnlmnomnopnopq")),
        "84983e441c3bd26ebaae4aa1f95129e5e54670f1"
    );
    assert_eq!(base64(b""), "");
    assert_eq!(base64(b"f"), "Zg==");
    assert_eq!(base64(b"fo"), "Zm8=");
    assert_eq!(base64(b"foobar"), "Zm9vYmFy");
}

#[test]
fn a_handshake_answers_the_key() {
    let reply = handshake_reply(b"dGhlIHNhbXBsZSBub25jZQ==");
    assert!(reply.starts_with("HTTP/1.1 101 Switching Protocols\r\n"));
    assert!(reply.contains("Sec-WebSocket-Accept: s3pPLMBiTxaQ9kYGzzhZRbK+xOo=\r\n"));
    assert!(reply.ends_with("\r\n\r\n"));
}

#[test]
fn frames_tell_their_length() {
    assert_eq!(text_frame_head(5), vec![0x81, 5]);
    assert_eq!(text_frame_head(300), vec![0x81, 126, 1, 44]);
    assert_eq!(text_frame_head(65_536), vec![0x81, 127, 0, 0, 0, 0, 0, 1, 0, 0]);
    let head = read_client_head(0x81, 0x85);
    assert!(!head.close);
    assert!(head.masked);
    assert_eq!(head.extra_len(), 0);
    assert_eq!(head.rest_len(&[]), 9);
    let long = read_client_head(0x88, 126);
    assert!(long.close);
    assert_eq!(long.extra_len(), 2);
    assert_eq!(long.rest_len(&[1, 0]), 256);
}

fn report(code: u8, side: Side, order: u64, price: u64, qty: u64) -> DecodedReport {
    DecodedReport {
        type_code: code,
        side,
        instrument: InstrumentId(4),
        order_id: OrderId(order),
        aux_id: order + 1,
        price,
        qty,
        maker_fee: 1,
        taker_fee: 2,
    }
}

#[test]
fn a_trade_counts_once() {
    let mut state = MarketState::new(10);
    let trade = report(RT_TRADE, Side::Buy, 1, 100, 5);
    state.on_report(60, &trade);
    state.on_report(61, &trade);
    state.on_report(62, &report(RT_TRADE, Side::Buy, 3, 101, 2));
    assert_eq!(
        state.trades_json(InstrumentId(4), 10),
        "[[60,100,5,1,2],[62,101,2,1,2]]"
    );
    assert_eq!(
        state.candles_json(InstrumentId(4), "1m", 10),
        "[[60,100,101,100,101,7]]"
    );
    assert_eq!(state.trades_json(InstrumentId(5), 10), "[]");
    assert_eq!(state.symbols_json(), "[4]");
    assert!(state.overview_json().starts_with(
        "{\"assets\":1,\"recent_trades\":2,\"recent_volume\":7,\"instruments\":["
    ));
    assert!(state.push_json(InstrumentId(4), "1m").starts_with("{\"candles\":[["));
}

#[test]
fn depth_is_shown_when_it_is_complete() {
    let mut state = MarketState::new(10);
    let place = |report: DecodedReport, aux_id: u64| DecodedReport { aux_id, ..report };
    state.on_report(1, &place(report(RT_DEPTH_LEVEL, Side::Buy, 0, 98, 1), 1));
    state.on_report(1, &place(report(RT_DEPTH_LEVEL, Side::Buy, 0, 99, 5), 0));
    state.on_report(1, &place(report(RT_DEPTH_LEVEL, Side::Sell, 0, 101, 6), 0));
    assert_eq!(state.depth_json(InstrumentId(4)), "{\"bids\":[],\"asks\":[]}");
    // The end tells how many levels there are: one on each side.
    state.on_report(1, &place(report(RT_DEPTH_END, Side::Buy, 0, 0, 0), 0x101));
    assert_eq!(
        state.depth_json(InstrumentId(4)),
        "{\"bids\":[[99,5]],\"asks\":[[101,6]]}"
    );
}

#[test]
fn a_stream_of_reports_is_read_frame_by_frame() {
    let mut state = MarketState::new(10);
    let mut bytes = encode_report(&ExecReport::Trade {
        instrument: InstrumentId(4),
        taker: OrderId(1),
        maker: OrderId(2),
        aggressor: Side::Buy,
        price: 10,
        qty: 3,
        maker_fee: 0,
        taker_fee: 0,
    })
    .to_vec();
    let whole = bytes.len();
    bytes.extend_from_slice(&[1, 2, 3]);
    assert_eq!(state.ingest(5, &bytes), Ok(whole));
    assert_eq!(state.trades_json(InstrumentId(4), 1), "[[5,10,3,0,0]]");
    let mut seen = ReportDeduper::new();
    assert!(seen.insert(report(RT_TRADE, Side::Buy, 1, 2, 3)));
    assert!(!seen.insert(report(RT_TRADE, Side::Buy, 1, 2, 3)));
}

fn market_request(line: &str, headers: &[&str]) -> MarketRequest {
    let mut request = MarketRequest::first(line);
    for header in headers {
        request.header(header);
    }
    request
}

#[test]
fn market_requests_are_routed_by_path() {
    let page = route_request(&market_request("GET / HTTP/1.1", &[]), None, None);
    assert!(matches!(page, MarketRoute::Page(Page::Chart)));
    let depth = route_request(&market_request("GET /api/depth?symbol=7 HTTP/1.1", &[]), None, None);
    assert!(matches!(
        depth,
        MarketRoute::Depth {
            symbol: InstrumentId(7)
        }
    ));
    match route_request(
        &market_request(
            "GET /ws?symbol=3&interval=5m HTTP/1.1",
            &["Sec-WebSocket-Key: abc"],
        ),
        None,
        None,
    ) {
        MarketRoute::Subscribe { key, symbol, interval } => {
            assert_eq!(key, "abc");
            assert_eq!(symbol, InstrumentId(3));
            assert_eq!(interval, "5m");
        }
        _ => panic!("a subscription"),
    }
    assert!(matches!(
        route_request(&market_request("GET /nothing HTTP/1.1", &[]), None, None),
        MarketRoute::Reply { status: "404 Not Found", .. }
    ));
}

#[test]
fn the_overview_needs_the_token() {
    let line = "GET /api/admin/overview HTTP/1.1";
    assert!(matches!(
        route_request(&market_request(line, &[]), Some("secret"), None),
        MarketRoute::Reply { .. }
    ));
    assert!(matches!(
        route_request(
            &market_request(line, &["Authorization: Bearer secret"]),
            Some("secret"),
            None
        ),
        MarketRoute::Overview
    ));
    assert!(admin_access(&Some("Bearer secret".to_string()), Some("secret")).is_ok());
    assert!(admin_access(&None, Some("secret")).is_err());
    assert!(admin_access(&Some("Bearer secret".to_string()), None).is_err());
}

#[test]
fn orders_are_checked_before_they_are_forwarded() {
    let query = chars_of("order_id=1&instrument=2&side=buy&price=100&qty=3&user=7");
    let order = new_order_from_query(&query).unwrap();
    assert_eq!(order.id, OrderId(1));
    assert!(new_order_from_query(&chars_of("order_id=1")).is_err());
    let (instrument, id, cmd) =
        cancel_from_query(&chars_of("instrument=2&order_id=1&cmd_id=9&user=7")).unwrap();
    assert_eq!((instrument, id, cmd), (InstrumentId(2), OrderId(1), 9));
    let request = forward_request("/orders", "a=1", "secret");
    assert!(request.starts_with("POST /orders?a=1 HTTP/1.1\r\n"));
    assert!(request.contains("Bearer secret"));
    assert!(is_accepted("HTTP/1.1 202 Accepted"));
    assert!(!is_accepted("HTTP/1.1 429 Too Many Requests"));
    assert_eq!(body_length("Content-Length: 12"), Some(Ok(12)));
    assert_eq!(body_length("Content-Length: x"), Some(Err(())));
    assert_eq!(body_length("Host: x"), None);
}

fn new_body(user: u64, instrument: u32, id: u64) -> Vec<u8> {
    let order = Order::limit(OrderId(id), Side::Buy, 1_000, 2)
        .on(InstrumentId(instrument))
        .owned_by(user);
    let mut body = user.to_le_bytes().to_vec();
    body.extend_from_slice(&encode_new(&order));
    body
}

#[test]
fn batches_are_cut_by_group_and_keep_their_order() {
    let mut body = new_body(1, 1, 11);
    body.extend_from_slice(&new_body(2, 1_001, 12));
    body.extend_from_slice(&new_body(3, 2, 13));
    let records = decode_batch(&body, 1_000).unwrap();
    let jobs = plan_forwarding(&records, 2, &HashMap::new());
    assert_eq!(jobs.len(), 2);
    let first = jobs.iter().find(|job| job.group == 0).unwrap();
    assert_eq!(first.categories, vec![0]);
    assert_eq!(first.batches[0], vec![records[0].frame, records[2].frame]);
    let request = encode_commit_request(&first.batches[0]).unwrap();
    match read_request(&request, 0) {
        Request::Complete { commands, .. } => {
            let ids: Vec<u64> = commands.iter().map(|c| c.id()).collect();
            assert_eq!(ids, vec![11, 13]);
        }
        _ => panic!("a whole request"),
    }
    assert!(is_commit_ack(&encode_ack(5)));
    assert!(!is_commit_ack(&[0; 9]));
    let pinned = plan_forwarding(&records, 2, &HashMap::from([(0, 1)]));
    assert_eq!(pinned.len(), 1);
}

#[test]
fn messages_are_stored_where_their_orders_live() {
    let router = QueueRouter::new(vec!["orders-0".into()], 4, 7);
    let order = Order::limit(OrderId(11), Side::Buy, 1_000, 2)
        .on(InstrumentId(1))
        .owned_by(5);
    let frame = encode_new(&order);
    let payload = encode_envelope(5, 7, &frame);
    let polled = decode_message(&router, 1_000, "orders-0", 0, 40, Some(&payload)).unwrap();
    assert_eq!(polled.item.user, 5);
    assert_eq!(
        decode_message(&router, 1_000, "orders-0", 0, 40, None).unwrap_err(),
        RejectedMessage::NoPayload
    );
    assert_eq!(
        decode_message(&router, 1_000, "orders-0", 0, 40, Some(b"x")).unwrap_err(),
        RejectedMessage::InvalidEnvelope
    );
    assert_eq!(
        decode_message(&router, 1_000, "orders-0", 1, 40, Some(&payload)).unwrap_err(),
        RejectedMessage::StaleRoute { category_id: 0 }
    );

    let routing = RouteConfig::default();
    let batch = vec![polled];
    let commands = decode_commands(&batch).unwrap();
    assert_eq!(commands, vec![Command::New(order)]);
    let home = routing.route_order_id(11);
    assert_eq!(touched_databases(&routing, &commands), vec![home.db]);
    let plan = plan_shard(&routing, &batch, &commands, home.db);
    assert_eq!(plan.processed.len(), 1);
    assert_eq!(plan.orders[0].table, home.table);
    assert_eq!(plan.orders[0].rows[0].order_id, 11);
    assert!(plan.cancels.is_empty());
    let places = commit_places(&batch);
    assert_eq!((places[0].partition, places[0].offset), (0, 41));
    assert_eq!(rewind_places(&batch)[0].offset, 40);
    assert_eq!(multi_insert("INSERT INTO t", 2, 2), "INSERT INTO t VALUES (?,?),(?,?)");
    assert_eq!(consumer_lag(10, Some(4)), 6);
    assert_eq!(consumer_lag(10, None), 10);
    assert_eq!(total_lag(&[1, 2, 3]), 6);
}

#[test]
fn a_trade_fills_both_sides() {
    let trade = encode_report(&ExecReport::Trade {
        instrument: InstrumentId(1),
        taker: OrderId(11),
        maker: OrderId(12),
        aggressor: Side::Buy,
        price: 10,
        qty: 3,
        maker_fee: 0,
        taker_fee: 0,
    });
    let plain = decode_execution("executions", 2, 9, Some(&trade)).unwrap();
    assert_eq!(plain.item.report, decode_report(&trade).unwrap());
    assert!(decode_execution("executions", 2, 9, None).is_none());
    let routing = RouteConfig::default();
    let batch = vec![plain];
    let effects = plan_effects(&routing, &batch);
    let ids: Vec<u64> = effects.iter().map(|e| e.order_id).collect();
    assert_eq!(ids, vec![11, 12]);
    assert!(!effects_on(&effects, routing.route_order_id(12)).is_empty());
    let mut tables: Vec<ShardRoute> = Vec::new();
    for db in 0..routing.db_count {
        tables.extend(effect_tables(&effects, db));
    }
    assert_eq!(tables.len(), 2);
    assert!(tables.contains(&routing.route_order_id(11)));
    assert!(tables.contains(&routing.route_order_id(12)));
    let again: Vec<Effect> = effects.iter().chain(effects.iter()).copied().collect();
    let home = routing.route_order_id(11);
    let listed = effect_tables(&again, home.db);
    assert_eq!(listed.iter().filter(|route| **route == home).count(), 1);
    let (mark, change) = apply_report(&batch[0].item, 2, 9, 12);
    assert_eq!(
        change,
        RowChange::Fill {
            order_id: 12,
            qty: 3
        }
    );
    assert!(matches!(mark, Mark::Place { partition: 2, offset: 9, .. }));
    assert_eq!(RowStatus::Cancelled.as_str(), "CANCELLED");
    assert!(decode_execution_event(&[0; EXECUTION_EVENT_LEN]).is_none());
}

#[test]
fn the_load_is_reproducible() {
    let mut a = Rng { state: 7 };
    let mut b = Rng { state: 7 };
    for i in 1..2_000 {
        assert_eq!(load_command(&mut a, i), load_command(&mut b, i));
    }
    for _ in 0..100 {
        let n = a.range(5, 9);
        assert!((5..=9).contains(&n));
    }
}

#[test]
fn simulated_prices_stay_in_their_band() {
    let mut trader = Trader::new(42, 1);
    for _ in 0..1_000 {
        let order = trader.order();
        assert!(order.quantity >= 1 && order.quantity <= 20);
        trader.cancel(order.instrument);
    }
}

#[test]
fn final_reports_are_tallied() {
    let mut tally = Tally {
        terminals: 0,
        trades: 0,
    };
    let mut bytes = Vec::new();
    for code in [RT_ACCEPTED, RT_TRADE, RT_FILLED, RT_REJECTED] {
        let mut frame = encode_report(&ExecReport::Accepted {
            instrument: InstrumentId(1),
            order_id: OrderId(1),
        });
        frame[0] = code;
        bytes.extend_from_slice(&frame);
    }
    assert_eq!(tally.count(&bytes), bytes.len());
    assert_eq!((tally.terminals, tally.trades), (2, 1));
}

#[test]
fn numbers_and_texts_are_written_and_read() {
    let mut out = String::new();
    push_decimal(&mut out, 0);
    out.push(' ');
    push_decimal_wide(&mut out, u128::MAX);
    out.push(' ');
    push_padded(&mut out, 7, 3);
    out.push(' ');
    push_at_least(&mut out, 12_345, 3);
    assert_eq!(out, "0 340282366920938463463374607431768211455 007 12345");
    assert_eq!(parse_number(&chars_of("42"), 42), Some(42));
    assert_eq!(parse_number(&chars_of("43"), 42), None);
    assert_eq!(parse_number(&chars_of("+7"), 42), Some(7));
    assert_eq!(parse_number(&chars_of(""), 42), None);
    assert_eq!(text_of(trim(&chars_of("  x y "))), "x y");
    assert_eq!(text_of(&lower(&chars_of("AbC"))), "abc");
    assert_eq!(split(&chars_of("a,,b"), ',').len(), 3);
    assert_eq!(find_text(&chars_of("hello"), "ll"), Some(2));
    let both = chars_of("k=v=w");
    let (key, value) = split_once(&both, '=').unwrap();
    assert_eq!((text_of(key), text_of(value)), ("k".to_string(), "v=w".to_string()));
}

#[test]
fn a_report_that_would_overflow_is_not_taken() {
    let mut state = MarketState::new(10);
    let trade = report(RT_TRADE, Side::Buy, 1, 100, u64::MAX);
    assert!(state.accepts(60, &trade));
    state.on_report(60, &trade);
    assert!(state.accepts(60, &trade), "one that was seen is passed over");
    assert!(!state.accepts(60, &report(RT_TRADE, Side::Buy, 2, 100, 1)));
}

#[test]
fn what_was_received_is_taken_up_to_an_overflow() {
    let mut state = MarketState::new(10);
    let trade = |taker: u64, qty: u64| {
        encode_report(&ExecReport::Trade {
            instrument: InstrumentId(4),
            taker: OrderId(taker),
            maker: OrderId(2),
            aggressor: Side::Buy,
            price: 10,
            qty,
            maker_fee: 0,
            taker_fee: 0,
        })
    };
    let mut bytes = trade(1, u64::MAX - 1).to_vec();
    bytes.extend_from_slice(&trade(3, 1));
    bytes.extend_from_slice(&trade(4, 1));
    assert_eq!(state.ingest(5, &bytes), Err(2));
    assert_eq!(
        state.trades_json(InstrumentId(4), 10),
        "[[5,10,18446744073709551614,0,0],[5,10,1,0,0]]"
    );
}

#[test]
fn a_forwarded_write_is_answered() {
    assert_eq!(
        forward_reply(None),
        ("202 Accepted", "{\"accepted\":true}".to_string())
    );
    assert_eq!(
        forward_reply(Some("down")),
        ("503 Service Unavailable", "{\"error\":\"down\"}".to_string())
    );
}
