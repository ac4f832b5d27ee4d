//! Candles, calendar, fees, identifiers, rings and log lines.

use std::sync::atomic::{AtomicUsize, Ordering};
use std::sync::Arc;

use trade_core::calendar::{civil_from_days, days_from_civil, first_of_month};
use trade_core::candle_file::{
    decode_history, encode_history, CANDLE_HEADER, CANDLE_RECORD_LEN,
};
use trade_core::fees::FeeSchedule;
use trade_core::idgen::{LeafIdGen, MemorySegmentProvider};
use trade_core::kline::{
    bucket_start, interval, interval_by_name, interval_name, Candle, Interval, KlineAggregator,
    INTERVAL_COUNT,
};
use trade_core::lockfree::channel;
use trade_core::market::MarketState;
use trade_core::oblog::{format_line, format_timestamp, is_slow, Level, LogFilter};
use trade_core::types::InstrumentId;

#[test]
fn fixed_buckets_align() {
    assert_eq!(bucket_start(Interval::Fixed(60), 3_723), 3_720);
    assert_eq!(bucket_start(Interval::Fixed(300), 3_723), 3_600);
    assert_eq!(bucket_start(Interval::Fixed(86_400), 90_000), 86_400);
}

#[test]
fn weeks_start_monday() {
    let monday = 4 * 86_400;
    assert_eq!(bucket_start(Interval::Week, monday), monday);
    assert_eq!(
        bucket_start(Interval::Week, monday + 6 * 86_400 + 3600),
        monday
    );
    assert_eq!(
        bucket_start(Interval::Week, monday + 7 * 86_400),
        monday + 7 * 86_400
    );
}

#[test]
fn months_are_calendar_months() {
    let jan31 = 1_706_745_599;
    let feb1 = 1_706_745_600;
    let jan_start = bucket_start(Interval::Month, jan31);
    let feb_start = bucket_start(Interval::Month, feb1);
    assert_eq!(jan_start, 1_704_067_200);
    assert_eq!(feb_start, feb1);
    assert_ne!(jan_start, feb_start);
}

#[test]
fn ohlcv_aggregation_is_correct() {
    let sym = InstrumentId(1);
    let mut agg = KlineAggregator::new(100);
    agg.on_trade(sym, 60, 100, 5);
    agg.on_trade(sym, 90, 130, 2);
    agg.on_trade(sym, 119, 95, 3);
    agg.on_trade(sym, 120, 105, 1);

    let m = agg.candles(sym, "1m", 10);
    assert_eq!(m.len(), 2);
    assert_eq!(
        m[0],
        Candle {
            start: 60,
            open: 100,
            high: 130,
            low: 95,
            close: 95,
            volume: 10,
            trades: 3
        }
    );
    assert_eq!(m[1].open, 105);

    assert_eq!(agg.candles(sym, "1s", 10).len(), 4);
    let d = agg.candles(sym, "1d", 10);
    assert_eq!(d.len(), 1);
    assert_eq!(d[0].volume, 11);
    assert_eq!(d[0].trades, 4);
}

#[test]
fn window_is_bounded() {
    let sym = InstrumentId(1);
    let mut agg = KlineAggregator::new(3);
    for i in 0..10 {
        agg.on_trade(sym, i, 100 + i, 1);
    }
    let s = agg.candles(sym, "1s", 100);
    assert_eq!(s.len(), 3, "window must stay bounded");
    assert_eq!(s[0].start, 7);
}

#[test]
fn a_candle_history_survives_its_file() {
    let mut agg = KlineAggregator::new(3);
    for i in 0..10 {
        agg.on_trade(InstrumentId(7), 50 * i, 100 + i, 1 + i);
        agg.on_trade(InstrumentId(2), 86_400 * i, 200 - i, 3);
    }
    let rows = agg.rows();
    let file = encode_history(&rows);
    assert_eq!(file.len(), CANDLE_HEADER.len() + CANDLE_RECORD_LEN * rows.len());
    assert_eq!(decode_history(&file).unwrap(), rows);

    let back = KlineAggregator::from_rows(3, &rows).unwrap();
    assert_eq!(back.instruments(), agg.instruments());
    for instrument in agg.instruments() {
        for i in 0..INTERVAL_COUNT {
            let name = interval_name(i);
            assert_eq!(
                back.candles(instrument, name, 100),
                agg.candles(instrument, name, 100)
            );
        }
    }
    let shorter = KlineAggregator::from_rows(1, &rows).unwrap();
    assert_eq!(
        shorter.candles(InstrumentId(7), "1s", 100),
        agg.candles(InstrumentId(7), "1s", 1)
    );

    let torn = &file[..file.len() - 1];
    assert_eq!(decode_history(torn).unwrap(), rows[..rows.len() - 1].to_vec());
    assert!(decode_history(b"whatever").is_none());
    let mut odd = rows[0];
    odd.interval = INTERVAL_COUNT as u32;
    assert!(KlineAggregator::from_rows(3, &vec![odd]).is_none());
    let market = MarketState::with_history(3, &rows).unwrap();
    assert_eq!(market.history(), rows);
    assert!(MarketState::with_history(3, &vec![odd]).is_none());
}

#[test]
fn intervals_are_found_by_their_names() {
    for i in 0..INTERVAL_COUNT {
        assert_eq!(interval_by_name(interval_name(i)), Some((i, interval(i))));
    }
    assert_eq!(interval_by_name("2y"), None);
    let agg = KlineAggregator::new(3);
    assert!(agg.candles(InstrumentId(1), "1m", 5).is_empty());
    assert!(agg.instruments().is_empty());
}

#[test]
fn the_newest_candles_are_shown() {
    let mut agg = KlineAggregator::new(100);
    for i in 0..10 {
        agg.on_trade(InstrumentId(9), i, 100 + i, 1);
        agg.on_trade(InstrumentId(2), i, 100, 1);
    }
    let last = agg.candles(InstrumentId(9), "1s", 2);
    assert_eq!(last.len(), 2);
    assert_eq!(last[0].start, 8);
    assert_eq!(last[1].close, 109);
    assert_eq!(agg.instruments(), vec![InstrumentId(2), InstrumentId(9)]);
    assert!(agg.candles(InstrumentId(9), "unknown", 2).is_empty());
}

#[test]
fn civil_from_days_known_dates() {
    assert_eq!(civil_from_days(0), (1970, 1, 1));
    assert_eq!(civil_from_days(31 + 28), (1970, 3, 1));
    assert_eq!(civil_from_days(365), (1971, 1, 1));
}

#[test]
fn days_and_dates_are_inverse() {
    assert_eq!(days_from_civil(2024, 2, 29), 19_782);
    assert_eq!(civil_from_days(19_782), (2024, 2, 29));
    assert_eq!(civil_from_days(-1), (1969, 12, 31));
    for day in [-800_000i64, -146_097, -1, 0, 1, 59, 60, 146_096, 146_097, 2_000_000] {
        let (y, m, d) = civil_from_days(day);
        assert_eq!(days_from_civil(y, m, d), day);
    }
    assert_eq!(first_of_month(19_782), 19_754);
}

#[test]
fn fees_floor_deterministically() {
    let f = FeeSchedule {
        maker_bps: 10,
        taker_bps: 20,
    };
    assert_eq!(f.fees(1000, 3), (3, 6));
    let f = FeeSchedule {
        maker_bps: 1,
        taker_bps: 1,
    };
    assert_eq!(f.fees(999, 1), (0, 0));
    assert_eq!(FeeSchedule::default().fees(1000, 50), (0, 0));
}

#[test]
fn ids_trend_increasing_single_thread() {
    let mut gen = LeafIdGen::new(MemorySegmentProvider::starting_at(100), 10);
    let ids: Vec<u64> = (0..100).map(|_| gen.next_id()).collect();
    for w in ids.windows(2) {
        assert!(w[1] > w[0], "single-thread ids must increase: {w:?}");
    }
    assert_eq!(ids[0], 100);
}

#[test]
fn single_threaded_fifo_and_full() {
    let mut ring = channel::<u32>(4);
    assert!(ring.pop().is_none());
    for i in 0..4 {
        assert!(ring.push(i).is_ok());
    }
    assert_eq!(ring.push(99), Err(99));
    for i in 0..4 {
        assert_eq!(ring.pop(), Some(i));
    }
    assert!(ring.pop().is_none());
}

struct Counted(Arc<AtomicUsize>);

impl Drop for Counted {
    fn drop(&mut self) {
        self.0.fetch_add(1, Ordering::SeqCst);
    }
}

#[test]
fn drops_unconsumed_items() {
    let drops = Arc::new(AtomicUsize::new(0));
    {
        let mut ring = channel::<Counted>(8);
        for _ in 0..5 {
            ring.push(Counted(drops.clone())).ok();
        }
    }
    assert_eq!(drops.load(Ordering::SeqCst), 5);
}

#[test]
fn a_ring_rounds_its_capacity_up() {
    let mut ring = channel::<u8>(5);
    for i in 0..8 {
        assert!(ring.push(i).is_ok());
    }
    assert_eq!(ring.push(8), Err(8));
    assert_eq!(ring.len(), 8);
    assert_eq!(ring.pop(), Some(0));
    assert!(ring.push(8).is_ok());
    assert!(!ring.is_empty());
}

#[test]
fn level_parse_and_filter() {
    assert_eq!(Level::parse("WARN"), Some(Level::Warn));
    assert_eq!(Level::parse(" debug "), Some(Level::Debug));
    assert_eq!(Level::parse("warning"), Some(Level::Warn));
    assert_eq!(Level::parse("nonsense"), None);

    let mut filter = LogFilter::default();
    filter.set_level(Level::Warn);
    assert!(filter.enabled(Level::Error));
    assert!(filter.enabled(Level::Warn));
    assert!(!filter.enabled(Level::Info));
    assert!(!filter.enabled(Level::Debug));

    filter.set_level(Level::Debug);
    assert!(filter.enabled(Level::Debug));

    filter.set_level(Level::Info);
    assert_eq!(filter.level(), Level::Info);
}

#[test]
fn timestamp_format_is_rfc3339ish_utc() {
    let ts = format_timestamp(1_784_365_200, 123);
    assert_eq!(ts, "2026-07-18T09:00:00.123Z");
    assert_eq!(format_timestamp(0, 0), "1970-01-01T00:00:00.000Z");
    let leap = format_timestamp(1_709_251_199, 0);
    assert_eq!(leap, "2024-02-29T23:59:59.000Z");
}

#[test]
fn the_setting_decides_what_is_logged() {
    assert_eq!(LogFilter::from_setting(Some("error")).level(), Level::Error);
    assert_eq!(LogFilter::from_setting(Some("?")).level(), Level::Info);
    assert_eq!(LogFilter::from_setting(None).level(), Level::Info);
    assert_eq!(Level::Warn.as_str(), "WARN");
    assert!(Level::Error.ordinal() < Level::Debug.ordinal());
    let line = format_line(0, 7, Level::Warn, "raft-node", Some("g3"), "peer down");
    assert!(line.starts_with("1970-01-01T00:00:00.007Z"));
    assert!(line.contains("WARN"));
    assert!(line.contains("g3"));
    assert!(line.contains("peer down"));
    assert!(is_slow(11, 10, &LogFilter::default()));
    assert!(!is_slow(9, 10, &LogFilter::default()));
    assert!(!is_slow(11, 10, &LogFilter::from_setting(Some("error"))));
}

#[test]
fn a_candle_takes_no_more_than_it_can_count() {
    let sym = InstrumentId(4);
    let mut agg = KlineAggregator::new(5);
    assert!(agg.accepts(sym, 60, u64::MAX));
    agg.on_trade(sym, 60, 100, u64::MAX - 1);
    assert!(agg.accepts(sym, 61, 1));
    assert!(!agg.accepts(sym, 61, 2));
    assert!(agg.accepts(InstrumentId(5), 61, 2));
}

#[test]
fn segments_are_fetched_when_half_is_left() {
    let mut gen = LeafIdGen::new(MemorySegmentProvider::starting_at(0), 4);
    let ids: Vec<u64> = (0..8).map(|_| gen.next_id()).collect();
    // The id that ends a segment is passed over.
    assert_eq!(ids, vec![0, 1, 2, 3, 5, 6, 7, 9]);
}
