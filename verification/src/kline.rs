//! Candles: open, high, low, close and volume of each interval.
//!
//! Trades stream in; the aggregator keeps a rolling window of candles for each
//! instrument and interval. Second, minute and day intervals are fixed-length
//! UTC buckets, weeks start on Monday, months are calendar months.

use std::collections::{HashMap, VecDeque};

use vstd::prelude::*;

use crate::calendar::{first_of_month, month_start};
use crate::sorted::{ascending, insert_ascending};
use crate::text::{chars_of, is_text};
use crate::types::{InstrumentId, Price, Qty};

verus! {

broadcast use vstd::std_specs::hash::group_hash_axioms;

/// One candle; `start` is the opening time of its bucket in Unix seconds.
#[derive(Clone, Copy, Debug, PartialEq, Eq, Structural)]
pub struct Candle {
    pub start: u64,
    pub open: Price,
    pub high: Price,
    pub low: Price,
    pub close: Price,
    pub volume: Qty,
    pub trades: u32,
}

/// A candle interval.
#[derive(Clone, Copy, Debug, PartialEq, Eq, Structural)]
pub enum Interval {
    /// Fixed length in seconds.
    Fixed(u64),
    /// Calendar week, starting Monday 00:00 UTC.
    Week,
    /// Calendar month, starting on the 1st, 00:00 UTC.
    Month,
}

/// Number of supported intervals.
pub const INTERVAL_COUNT: usize = 10;

/// The supported intervals.
pub open spec fn interval_at(i: int) -> Interval {
    if i == 0 {
        Interval::Fixed(1)
    } else if i == 1 {
        Interval::Fixed(60)
    } else if i == 2 {
        Interval::Fixed(180)
    } else if i == 3 {
        Interval::Fixed(300)
    } else if i == 4 {
        Interval::Fixed(600)
    } else if i == 5 {
        Interval::Fixed(900)
    } else if i == 6 {
        Interval::Fixed(1800)
    } else if i == 7 {
        Interval::Fixed(86_400)
    } else if i == 8 {
        Interval::Week
    } else {
        Interval::Month
    }
}

/// Their names.
pub open spec fn interval_title(i: int) -> Seq<char> {
    if i == 0 {
        "1s"@
    } else if i == 1 {
        "1m"@
    } else if i == 2 {
        "3m"@
    } else if i == 3 {
        "5m"@
    } else if i == 4 {
        "10m"@
    } else if i == 5 {
        "15m"@
    } else if i == 6 {
        "30m"@
    } else if i == 7 {
        "1d"@
    } else if i == 8 {
        "1w"@
    } else {
        "1mo"@
    }
}

/// Interval number `i`.
pub fn interval(i: usize) -> (r: Interval)
    requires
        i < INTERVAL_COUNT,
    ensures
        r == interval_at(i as int),
{
    match i {
        0 => Interval::Fixed(1),
        1 => Interval::Fixed(60),
        2 => Interval::Fixed(180),
        3 => Interval::Fixed(300),
        4 => Interval::Fixed(600),
        5 => Interval::Fixed(900),
        6 => Interval::Fixed(1800),
        7 => Interval::Fixed(86_400),
        8 => Interval::Week,
        _ => Interval::Month,
    }
}

/// Name of interval number `i`.
pub fn interval_name(i: usize) -> (r: &'static str)
    requires
        i < INTERVAL_COUNT,
    ensures
        r@ == interval_title(i as int),
{
    match i {
        0 => "1s",
        1 => "1m",
        2 => "3m",
        3 => "5m",
        4 => "10m",
        5 => "15m",
        6 => "30m",
        7 => "1d",
        8 => "1w",
        _ => "1mo",
    }
}

/// Looks up an interval by its name.
pub fn interval_by_name(name: &str) -> (r: Option<(usize, Interval)>)
    ensures
        match r {
            Some((i, found)) => {
                &&& i < INTERVAL_COUNT
                &&& name@ == interval_title(i as int)
                &&& found == interval_at(i as int)
                &&& forall|j: int| 0 <= j < i ==> name@ != #[trigger] interval_title(j)
            },
            None => forall|j: int|
                0 <= j < INTERVAL_COUNT ==> name@ != #[trigger] interval_title(j),
        },
{
    let chars = chars_of(name);
    let mut i: usize = 0;
    while i < INTERVAL_COUNT
        invariant
            i <= INTERVAL_COUNT,
            chars@ == name@,
            forall|j: int| 0 <= j < i ==> name@ != #[trigger] interval_title(j),
        decreases INTERVAL_COUNT - i,
    {
        if is_text(chars.as_slice(), interval_name(i)) {
            return Some((i, interval(i)));
        }
        i += 1;
    }
    None
}

/// The opening second of the bucket that contains `ts`.
pub open spec fn bucket(interval: Interval, ts: u64) -> int {
    match interval {
        Interval::Fixed(n) => ts - ts % n,
        Interval::Week => {
            let days = ts / 86_400;
            // 1970-01-01 was a Thursday, day 3 of a week that starts on Monday.
            let weekday = (days + 3) % 7;
            if days >= weekday {
                (days - weekday) * 86_400
            } else {
                0
            }
        },
        Interval::Month => month_start((ts / 86_400) as int) * 86_400,
    }
}

/// The opening second of the bucket that contains `ts_sec`.
pub fn bucket_start(interval: Interval, ts_sec: u64) -> (r: u64)
    requires
        interval matches Interval::Fixed(n) ==> n > 0,
    ensures
        r == bucket(interval, ts_sec),
        r <= ts_sec,
{
    match interval {
        Interval::Fixed(n) => {
            assert(ts_sec % n <= ts_sec) by (nonlinear_arith)
                requires
                    n > 0,
            ;
            ts_sec - ts_sec % n
        },
        Interval::Week => {
            let days: u64 = ts_sec / 86_400;
            let weekday: u64 = (days + 3) % 7;
            if days >= weekday {
                (days - weekday) * 86_400
            } else {
                0
            }
        },
        Interval::Month => first_of_month(ts_sec / 86_400) * 86_400,
    }
}

/// Buckets of weeks start on a Monday, but for the week of the epoch, which began
/// before it.
pub proof fn law_weeks_start_on_monday(ts: u64)
    requires
        ts >= 4 * 86_400,
    ensures
        bucket(Interval::Week, ts) % 86_400 == 0,
        (bucket(Interval::Week, ts) / 86_400 + 3) % 7 == 0,
        bucket(Interval::Week, ts) <= ts < bucket(Interval::Week, ts) + 7 * 86_400,
{
}

/// A candle after one more trade.
pub open spec fn merged(c: Candle, price: u64, qty: u64) -> Candle {
    Candle {
        start: c.start,
        open: c.open,
        high: if price > c.high {
            price
        } else {
            c.high
        },
        low: if price < c.low {
            price
        } else {
            c.low
        },
        close: price,
        volume: (c.volume + qty) as u64,
        trades: (c.trades + 1) as u32,
    }
}

/// A series of at most `cap` candles after one more trade.
pub open spec fn extended(series: Seq<Candle>, start: u64, price: u64, qty: u64, cap: nat) -> Seq<
    Candle,
> {
    if series.len() > 0 && series.last().start == start {
        series.drop_last().push(merged(series.last(), price, qty))
    } else {
        let longer = series.push(
            Candle {
                start,
                open: price,
                high: price,
                low: price,
                close: price,
                volume: qty,
                trades: 1,
            },
        );
        if longer.len() > cap {
            longer.skip(1)
        } else {
            longer
        }
    }
}

/// The trade does not overflow the candle that it falls into.
pub open spec fn has_room(series: Seq<Candle>, start: u64, qty: u64) -> bool {
    series.len() > 0 && series.last().start == start ==> series.last().volume + qty <= u64::MAX
        && series.last().trades < u32::MAX
}

/// The series of one instrument, one for each interval.
pub open spec fn no_series() -> Seq<Seq<Candle>> {
    Seq::new(INTERVAL_COUNT as nat, |i: int| Seq::<Candle>::empty())
}

/// All series after one more trade.
pub open spec fn all_extended(
    series: Seq<Seq<Candle>>,
    ts: u64,
    price: u64,
    qty: u64,
    cap: nat,
) -> Seq<Seq<Candle>> {
    Seq::new(
        INTERVAL_COUNT as nat,
        |i: int| extended(series[i], bucket(interval_at(i), ts) as u64, price, qty, cap),
    )
}

/// A candle, the instrument it is of and the number of its interval.
#[derive(Clone, Copy, Debug, PartialEq, Eq, Structural)]
pub struct CandleRow {
    pub instrument: u32,
    pub interval: u32,
    pub candle: Candle,
}

/// The candles of one instrument and interval among rows.
pub open spec fn line_of(rows: Seq<CandleRow>, instrument: u32, interval: int) -> Seq<Candle>
    decreases rows.len(),
{
    if rows.len() == 0 {
        Seq::empty()
    } else {
        let front = line_of(rows.drop_last(), instrument, interval);
        let row = rows.last();
        if row.instrument == instrument && row.interval == interval {
            front.push(row.candle)
        } else {
            front
        }
    }
}

/// Some row is of the instrument.
pub open spec fn has_row(rows: Seq<CandleRow>, instrument: u32) -> bool {
    exists|j: int| 0 <= j < rows.len() && (#[trigger] rows[j]).instrument == instrument
}

/// The rows hold the charts, each line in order, and nothing else.
pub open spec fn holds_charts(rows: Seq<CandleRow>, charts: Map<u32, Seq<Seq<Candle>>>) -> bool {
    &&& forall|k: u32, i: int|
        charts.contains_key(k) && 0 <= i < INTERVAL_COUNT ==> line_of(rows, k, i)
            == #[trigger] charts[k][i]
    &&& forall|j: int|
        0 <= j < rows.len() ==> charts.contains_key((#[trigger] rows[j]).instrument)
            && rows[j].interval < INTERVAL_COUNT
}

/// The last `cap` candles.
pub open spec fn newest(line: Seq<Candle>, cap: nat) -> Seq<Candle> {
    if line.len() <= cap {
        line
    } else {
        line.skip(line.len() - cap)
    }
}

/// The charts of the instruments that have rows, each line cut to the last `cap`
/// candles.
pub open spec fn charts_of(
    rows: Seq<CandleRow>,
    cap: nat,
    charts: Map<u32, Seq<Seq<Candle>>>,
) -> bool {
    &&& forall|k: u32| #[trigger] charts.contains_key(k) <==> has_row(rows, k)
    &&& forall|k: u32| #[trigger] charts.contains_key(k) ==> charts[k].len() == INTERVAL_COUNT
    &&& forall|k: u32, i: int|
        charts.contains_key(k) && 0 <= i < INTERVAL_COUNT ==> #[trigger] charts[k][i] == newest(
            line_of(rows, k, i),
            cap,
        )
}

/// Charts rebuilt from their rows are the charts.
pub proof fn law_rows_rebuild_charts(
    rows: Seq<CandleRow>,
    cap: nat,
    charts: Map<u32, Seq<Seq<Candle>>>,
    rebuilt: Map<u32, Seq<Seq<Candle>>>,
)
    requires
        holds_charts(rows, charts),
        charts_of(rows, cap, rebuilt),
        forall|k: u32| #[trigger] charts.contains_key(k) ==> charts[k].len() == INTERVAL_COUNT,
        forall|k: u32| #[trigger]
            charts.contains_key(k) ==> exists|i: int|
                0 <= i < INTERVAL_COUNT && (#[trigger] charts[k][i]).len() > 0,
        forall|k: u32, i: int|
            charts.contains_key(k) && 0 <= i < INTERVAL_COUNT ==> (#[trigger] charts[k][i]).len()
                <= cap,
    ensures
        rebuilt == charts,
{
    assert forall|k: u32| rebuilt.contains_key(k) <==> charts.contains_key(k) by {
        if charts.contains_key(k) {
            let i = choose|i: int| 0 <= i < INTERVAL_COUNT && (#[trigger] charts[k][i]).len() > 0;
            lemma_line_has_row(rows, k, i);
        }
        if rebuilt.contains_key(k) {
            let j = choose|j: int| 0 <= j < rows.len() && (#[trigger] rows[j]).instrument == k;
            assert(charts.contains_key(rows[j].instrument));
        }
    }
    assert forall|k: u32| #[trigger] rebuilt.contains_key(k) implies rebuilt[k] == charts[k] by {
        assert forall|i: int| 0 <= i < INTERVAL_COUNT implies rebuilt[k][i] == charts[k][i] by {
            assert(charts[k][i].len() <= cap);
        }
        assert(rebuilt[k] =~= charts[k]);
    }
    assert(rebuilt =~= charts);
}

proof fn lemma_line_has_row(rows: Seq<CandleRow>, k: u32, i: int)
    requires
        line_of(rows, k, i).len() > 0,
    ensures
        has_row(rows, k),
    decreases rows.len(),
{
    let front = rows.drop_last();
    if line_of(front, k, i).len() > 0 {
        lemma_line_has_row(front, k, i);
        let j = choose|j: int| 0 <= j < front.len() && (#[trigger] front[j]).instrument == k;
        assert(rows[j].instrument == k);
    } else {
        assert(rows[rows.len() - 1].instrument == k);
    }
}

proof fn lemma_line_push(rows: Seq<CandleRow>, row: CandleRow)
    ensures
        forall|k: u32, i: int| #[trigger]
            line_of(rows.push(row), k, i) == if row.instrument == k && row.interval == i {
                line_of(rows, k, i).push(row.candle)
            } else {
                line_of(rows, k, i)
            },
{
    assert(rows.push(row).drop_last() =~= rows);
}

proof fn lemma_newest(line: Seq<Candle>, candle: Candle, cap: nat)
    ensures
        newest(newest(line, cap).push(candle), cap) == newest(line.push(candle), cap),
{
    assert(newest(newest(line, cap).push(candle), cap) =~= newest(line.push(candle), cap));
}

/// What of a line was written out when the lines of the first `a` listed instruments,
/// the first `i` lines of the next one, and `j` candles of the line after them were.
spec fn written(
    charts: Map<u32, Seq<Seq<Candle>>>,
    listed: Seq<u32>,
    a: int,
    i: int,
    j: int,
    k: u32,
    x: int,
) -> Seq<Candle> {
    if listed.take(a).contains(k) || (a < listed.len() && listed[a] == k && x < i) {
        charts[k][x]
    } else if a < listed.len() && listed[a] == k && x == i {
        charts[k][x].take(j)
    } else {
        Seq::empty()
    }
}

spec fn all_written(
    rows: Seq<CandleRow>,
    charts: Map<u32, Seq<Seq<Candle>>>,
    listed: Seq<u32>,
    a: int,
    i: int,
    j: int,
) -> bool {
    &&& forall|k: u32, x: int|
        0 <= x < INTERVAL_COUNT ==> #[trigger] line_of(rows, k, x) == written(
            charts,
            listed,
            a,
            i,
            j,
            k,
            x,
        )
    &&& forall|n: int|
        0 <= n < rows.len() ==> charts.contains_key((#[trigger] rows[n]).instrument)
            && rows[n].interval < INTERVAL_COUNT
}

/// Rolling candles of all intervals and instruments.
pub struct KlineAggregator {
    series: HashMap<u32, Vec<VecDeque<Candle>>>,
    listed: Vec<u32>,
    cap: usize,
}

spec fn deques(v: Seq<VecDeque<Candle>>) -> Seq<Seq<Candle>> {
    Seq::new(v.len(), |i: int| v[i]@)
}

impl KlineAggregator {
    /// The series by instrument.
    pub closed spec fn charts(self) -> Map<u32, Seq<Seq<Candle>>> {
        Map::new(|k: u32| self.series@.contains_key(k), |k: u32| deques(self.series@[k]@))
    }

    /// How many candles a series keeps.
    pub closed spec fn window(self) -> nat {
        self.cap as nat
    }

    /// The series of one instrument; none has candles before its first trade.
    pub open spec fn chart(self, instrument: InstrumentId) -> Seq<Seq<Candle>> {
        if self.charts().contains_key(instrument.0) {
            self.charts()[instrument.0]
        } else {
            no_series()
        }
    }

    /// The aggregator's invariant: every series is bounded.
    pub closed spec fn wf(self) -> bool {
        &&& ascending(self.listed@)
        &&& forall|k: u32| #[trigger] self.listed@.contains(k) <==> self.series@.contains_key(k)
        &&& forall|k: u32| #[trigger]
            self.series@.contains_key(k) ==> {
                &&& self.series@[k]@.len() == INTERVAL_COUNT
                &&& forall|i: int|
                    0 <= i < INTERVAL_COUNT ==> (#[trigger] deques(self.series@[k]@)[i]).len()
                        <= self.cap
            }
    }

    /// No series has more candles than the window.
    pub proof fn law_window_is_bounded(&self)
        requires
            self.wf(),
        ensures
            forall|k: u32, i: int|
                self.charts().contains_key(k) && 0 <= i < INTERVAL_COUNT ==> (
                #[trigger] self.charts()[k][i]).len() <= self.window(),
    {
        assert forall|k: u32, i: int|
            self.charts().contains_key(k) && 0 <= i < INTERVAL_COUNT implies (
        #[trigger] self.charts()[k][i]).len() <= self.window() by {
            assert(self.series@.contains_key(k));
            assert(deques(self.series@[k]@)[i].len() <= self.cap);
        }
    }

    /// An aggregator that keeps `cap` candles for each series.
    pub fn new(cap: usize) -> (r: KlineAggregator)
        ensures
            r.wf(),
            r.window() == cap,
            r.charts() == Map::<u32, Seq<Seq<Candle>>>::empty(),
    {
        let r = KlineAggregator { series: HashMap::new(), listed: Vec::new(), cap };
        assert(r.charts() =~= Map::<u32, Seq<Seq<Candle>>>::empty());
        r
    }

    /// Whether no candle overflows with one more trade.
    pub fn accepts(&self, instrument: InstrumentId, ts_sec: u64, qty: Qty) -> (r: bool)
        requires
            self.wf(),
        ensures
            r == (forall|i: int|
                0 <= i < INTERVAL_COUNT ==> has_room(
                    #[trigger] self.chart(instrument)[i],
                    bucket(interval_at(i), ts_sec) as u64,
                    qty,
                )),
    {
        let ghost chart = self.chart(instrument);
        let series = match self.series.get(&instrument.0) {
            Some(series) => series,
            None => {
                return true;
            },
        };
        let mut i: usize = 0;
        while i < INTERVAL_COUNT
            invariant
                i <= INTERVAL_COUNT,
                series@.len() == INTERVAL_COUNT,
                chart == deques(series@),
                chart == self.chart(instrument),
                forall|j: int|
                    0 <= j < i ==> has_room(
                        #[trigger] chart[j],
                        bucket(interval_at(j), ts_sec) as u64,
                        qty,
                    ),
            decreases INTERVAL_COUNT - i,
        {
            let start: u64 = bucket_start(interval(i), ts_sec);
            let line = &series[i];
            assert(chart[i as int] == line@);
            let n: usize = line.len();
            if n > 0 {
                let last: Candle = line[n - 1];
                if last.start == start && (last.volume > u64::MAX - qty || last.trades == u32::MAX) {
                    assert(!has_room(chart[i as int], bucket(interval_at(i as int), ts_sec) as u64, qty));
                    return false;
                }
            }
            i += 1;
        }
        true
    }

    /// Ingests one trade.
    pub fn on_trade(&mut self, instrument: InstrumentId, ts_sec: u64, price: Price, qty: Qty)
        requires
            old(self).wf(),
            forall|i: int|
                0 <= i < INTERVAL_COUNT ==> has_room(
                    #[trigger] old(self).chart(instrument)[i],
                    bucket(interval_at(i), ts_sec) as u64,
                    qty,
                ),
        ensures
            final(self).wf(),
            final(self).window() == old(self).window(),
            final(self).charts() == old(self).charts().insert(
                instrument.0,
                all_extended(
                    old(self).chart(instrument),
                    ts_sec,
                    price,
                    qty,
                    old(self).window(),
                ),
            ),
    {
        let ghost before = self.chart(instrument);
        let ghost cap = self.cap as nat;
        let mut series: Vec<VecDeque<Candle>> = match self.series.remove(&instrument.0) {
            Some(series) => series,
            None => {
                assert(!self.listed@.contains(instrument.0));
                insert_ascending(&mut self.listed, instrument.0);
                empty_series()
            },
        };
        proof {
            assert(deques(series@) =~= before);
            assert forall|i: int| 0 <= i < INTERVAL_COUNT implies (
            #[trigger] before[i]).len() <= cap by {
                if old(self).series@.contains_key(instrument.0) {
                    assert(deques(old(self).series@[instrument.0]@)[i].len() <= cap);
                }
            }
        }
        let mut i: usize = 0;
        while i < INTERVAL_COUNT
            invariant
                i <= INTERVAL_COUNT,
                series@.len() == INTERVAL_COUNT,
                self.cap == cap,
                forall|j: int| 0 <= j < INTERVAL_COUNT ==> (#[trigger] before[j]).len() <= cap,
                forall|j: int|
                    0 <= j < INTERVAL_COUNT ==> has_room(
                        #[trigger] before[j],
                        bucket(interval_at(j), ts_sec) as u64,
                        qty,
                    ),
                forall|j: int|
                    0 <= j < INTERVAL_COUNT ==> #[trigger] series@[j]@ == if j < i {
                        extended(before[j], bucket(interval_at(j), ts_sec) as u64, price, qty, cap)
                    } else {
                        before[j]
                    },
            decreases INTERVAL_COUNT - i,
        {
            let start: u64 = bucket_start(interval(i), ts_sec);
            let mut line: VecDeque<Candle> = VecDeque::new();
            std::mem::swap(&mut line, &mut series[i]);
            assert(line@ == before[i as int]);
            assert(has_room(before[i as int], start, qty));
            extend_line(&mut line, start, price, qty, self.cap);
            series.set(i, line);
            i += 1;
        }
        proof {
            let want = all_extended(before, ts_sec, price, qty, cap);
            assert(deques(series@) =~= want) by {
                assert forall|j: int| 0 <= j < INTERVAL_COUNT implies deques(series@)[j]
                    == want[j] by {
                    assert(series@[j]@ == extended(
                        before[j],
                        bucket(interval_at(j), ts_sec) as u64,
                        price,
                        qty,
                        cap,
                    ));
                }
            }
        }
        self.series.insert(instrument.0, series);
        proof {
            let want = all_extended(before, ts_sec, price, qty, cap);
            assert forall|j: int| 0 <= j < INTERVAL_COUNT implies (#[trigger] want[j]).len()
                <= cap by {
                assert(before[j].len() <= cap);
            }
            assert forall|k: u32| #[trigger] self.series@.contains_key(k) implies ({
                &&& self.series@[k]@.len() == INTERVAL_COUNT
                &&& forall|i: int|
                    0 <= i < INTERVAL_COUNT ==> (#[trigger] deques(self.series@[k]@)[i]).len()
                        <= self.cap
            }) by {
                if k != instrument.0 {
                    assert(old(self).series@.contains_key(k));
                }
            }
            assert(self.charts() =~= old(self).charts().insert(instrument.0, want));
        }
    }

    /// The most recent `limit` candles of an instrument and interval, oldest
    /// first; none if either is unknown.
    pub fn candles(&self, instrument: InstrumentId, interval: &str, limit: usize) -> (r: Vec<
        Candle,
    >)
        requires
            self.wf(),
        ensures
            forall|i: int|
                0 <= i < INTERVAL_COUNT && interval@ == #[trigger] interval_title(i) && (forall|
                    j: int,
                |
                    0 <= j < i ==> interval@ != #[trigger] interval_title(j)) ==> r@ == ({
                    let all = self.chart(instrument)[i];
                    if all.len() <= limit {
                        all
                    } else {
                        all.skip(all.len() - limit)
                    }
                }),
            (forall|i: int| 0 <= i < INTERVAL_COUNT ==> interval@ != #[trigger] interval_title(i))
                ==> r@ == Seq::<Candle>::empty(),
    {
        let mut out: Vec<Candle> = Vec::new();
        let index: usize = match interval_by_name(interval) {
            Some((index, _)) => index,
            None => {
                return out;
            },
        };
        let ghost all = self.chart(instrument)[index as int];
        if let Some(series) = self.series.get(&instrument.0) {
            let line = &series[index];
            assert(deques(series@)[index as int] == line@);
            let n: usize = line.len();
            let mut i: usize = if n > limit {
                n - limit
            } else {
                0
            };
            let ghost from = i as int;
            while i < n
                invariant
                    0 <= from <= i <= n == line@.len(),
                    out@ == line@.subrange(from, i as int),
                decreases n - i,
            {
                out.push(line[i]);
                i += 1;
                assert(out@ =~= line@.subrange(from, i as int));
            }
            assert(out@ =~= line@.skip(from));
            assert(line@.skip(0) =~= line@);
        } else {
            assert(all =~= Seq::<Candle>::empty());
        }
        out
    }

    /// All candles, for a file.
    pub fn rows(&self) -> (r: Vec<CandleRow>)
        requires
            self.wf(),
        ensures
            holds_charts(r@, self.charts()),
    {
        let ghost charts = self.charts();
        let ghost listed = self.listed@;
        let mut rows: Vec<CandleRow> = Vec::new();
        let mut a: usize = 0;
        assert(all_written(rows@, charts, listed, 0, 0, 0)) by {
            assert(listed.take(0) =~= Seq::<u32>::empty());
            assert forall|k: u32, x: int| 0 <= x < INTERVAL_COUNT implies #[trigger] line_of(
                rows@,
                k,
                x,
            ) == written(charts, listed, 0, 0, 0, k, x) by {
                assert(written(charts, listed, 0, 0, 0, k, x) =~= Seq::<Candle>::empty());
            }
        }
        while a < self.listed.len()
            invariant
                a <= self.listed@.len(),
                self.wf(),
                charts == self.charts(),
                listed == self.listed@,
                all_written(rows@, charts, listed, a as int, 0, 0),
            decreases self.listed@.len() - a,
        {
            let key: u32 = self.listed[a];
            assert(listed.contains(key));
            assert(self.series@.contains_key(key));
            let series = match self.series.get(&key) {
                Some(series) => series,
                None => {
                    return rows;
                },
            };
            let mut i: usize = 0;
            while i < INTERVAL_COUNT
                invariant
                    i <= INTERVAL_COUNT,
                    a < listed.len(),
                    ascending(listed),
                    listed[a as int] == key,
                    charts.contains_key(key),
                    charts[key] == deques(series@),
                    series@.len() == INTERVAL_COUNT,
                    all_written(rows@, charts, listed, a as int, i as int, 0),
                decreases INTERVAL_COUNT - i,
            {
                let line = &series[i];
                let n: usize = line.len();
                let mut j: usize = 0;
                assert(charts[key][i as int] == line@);
                while j < n
                    invariant
                        i < INTERVAL_COUNT,
                        a < listed.len(),
                        ascending(listed),
                        listed[a as int] == key,
                        charts.contains_key(key),
                        charts[key][i as int] == line@,
                        j <= n == line@.len(),
                        all_written(rows@, charts, listed, a as int, i as int, j as int),
                    decreases n - j,
                {
                    let row = CandleRow { instrument: key, interval: i as u32, candle: line[j] };
                    let ghost before = rows@;
                    rows.push(row);
                    proof {
                        lemma_line_push(before, row);
                        assert forall|k: u32, x: int|
                            0 <= x < INTERVAL_COUNT implies #[trigger] line_of(rows@, k, x)
                            == written(charts, listed, a as int, i as int, j + 1, k, x) by {
                            assert(line_of(before, k, x) == written(
                                charts,
                                listed,
                                a as int,
                                i as int,
                                j as int,
                                k,
                                x,
                            ));
                            if k == key && x == i {
                                assert(line@.take(j + 1) =~= line@.take(j as int).push(
                                    line@[j as int],
                                ));
                                assert(!listed.take(a as int).contains(key)) by {
                                    if listed.take(a as int).contains(key) {
                                        let m = choose|m: int|
                                            0 <= m < a && listed.take(a as int)[m] == key;
                                        assert(listed[m] < listed[a as int]);
                                    }
                                }
                            }
                        }
                    }
                    j += 1;
                }
                proof {
                    assert forall|k: u32, x: int| 0 <= x < INTERVAL_COUNT implies #[trigger] line_of(
                        rows@,
                        k,
                        x,
                    ) == written(charts, listed, a as int, i + 1, 0, k, x) by {
                        assert(line_of(rows@, k, x) == written(
                            charts,
                            listed,
                            a as int,
                            i as int,
                            j as int,
                            k,
                            x,
                        ));
                        assert(line@.take(j as int) =~= line@);
                        assert(charts[k][x].take(0) =~= Seq::<Candle>::empty());
                    }
                }
                i += 1;
            }
            proof {
                let more = listed.take(a + 1);
                assert(more =~= listed.take(a as int).push(key));
                assert forall|k: u32, x: int| 0 <= x < INTERVAL_COUNT implies #[trigger] line_of(
                    rows@,
                    k,
                    x,
                ) == written(charts, listed, a + 1, 0, 0, k, x) by {
                    assert(line_of(rows@, k, x) == written(
                        charts,
                        listed,
                        a as int,
                        i as int,
                        0,
                        k,
                        x,
                    ));
                    assert(charts[k][x].take(0) =~= Seq::<Candle>::empty());
                    if listed.take(a as int).contains(k) {
                        let m = choose|m: int| 0 <= m < a && listed.take(a as int)[m] == k;
                        assert(more[m] == k);
                    }
                    assert(more[a as int] == key);
                    if more.contains(k) && k != key {
                        let m = choose|m: int| 0 <= m < more.len() && more[m] == k;
                        assert(listed.take(a as int)[m] == k);
                    }
                }
            }
            a += 1;
        }
        proof {
            assert(listed.take(a as int) =~= listed);
            assert forall|k: u32, i: int|
                charts.contains_key(k) && 0 <= i < INTERVAL_COUNT implies line_of(rows@, k, i)
                == #[trigger] charts[k][i] by {
                assert(self.listed@.contains(k));
                assert(line_of(rows@, k, i) == written(charts, listed, a as int, 0, 0, k, i));
            }
        }
        rows
    }

    /// Adds one candle at the end of its line.
    fn put_row(&mut self, row: &CandleRow)
        requires
            old(self).wf(),
            row.interval < INTERVAL_COUNT,
        ensures
            final(self).wf(),
            final(self).window() == old(self).window(),
            final(self).charts() == old(self).charts().insert(
                row.instrument,
                old(self).chart(InstrumentId(row.instrument)).update(
                    row.interval as int,
                    newest(
                        old(self).chart(InstrumentId(row.instrument))[row.interval as int].push(
                            row.candle,
                        ),
                        old(self).window(),
                    ),
                ),
            ),
    {
        let key: u32 = row.instrument;
        let at: usize = row.interval as usize;
        let ghost before = self.chart(InstrumentId(key));
        let ghost cap = self.cap as nat;
        let mut series: Vec<VecDeque<Candle>> = match self.series.remove(&key) {
            Some(series) => series,
            None => {
                assert(!self.listed@.contains(key));
                insert_ascending(&mut self.listed, key);
                empty_series()
            },
        };
        proof {
            assert(deques(series@) =~= before);
            assert forall|i: int| 0 <= i < INTERVAL_COUNT implies (
            #[trigger] before[i]).len() <= cap by {
                if old(self).series@.contains_key(key) {
                    assert(deques(old(self).series@[key]@)[i].len() <= cap);
                }
            }
        }
        let ghost held = series@;
        let mut line: VecDeque<Candle> = VecDeque::new();
        std::mem::swap(&mut line, &mut series[at]);
        assert(line@ == before[at as int]);
        line.push_back(row.candle);
        if line.len() > self.cap {
            let _ = line.pop_front();
        }
        let ghost longer = before[at as int].push(row.candle);
        assert(line@ =~= newest(longer, cap));
        series.set(at, line);
        let ghost want = before.update(at as int, newest(longer, cap));
        assert(deques(series@) =~= want) by {
            assert forall|i: int| 0 <= i < INTERVAL_COUNT implies deques(series@)[i] == want[i] by {
                if i != at {
                    assert(series@[i] == held[i]);
                }
            }
        }
        self.series.insert(key, series);
        proof {
            assert forall|i: int| 0 <= i < INTERVAL_COUNT implies (#[trigger] want[i]).len()
                <= cap by {
                assert(before[i].len() <= cap);
            }
            assert forall|k: u32| #[trigger] self.series@.contains_key(k) implies ({
                &&& self.series@[k]@.len() == INTERVAL_COUNT
                &&& forall|i: int|
                    0 <= i < INTERVAL_COUNT ==> (#[trigger] deques(self.series@[k]@)[i]).len()
                        <= self.cap
            }) by {
                if k != key {
                    assert(old(self).series@.contains_key(k));
                }
            }
            assert(self.charts() =~= old(self).charts().insert(key, want));
        }
    }

    /// An aggregator that keeps `cap` candles of each line and starts with the
    /// candles of `rows`; `None` if one is of no known interval.
    pub fn from_rows(cap: usize, rows: &Vec<CandleRow>) -> (r: Option<KlineAggregator>)
        ensures
            match r {
                Some(agg) => {
                    &&& agg.wf()
                    &&& agg.window() == cap
                    &&& charts_of(rows@, cap as nat, agg.charts())
                    &&& forall|j: int|
                        0 <= j < rows@.len() ==> (#[trigger] rows@[j]).interval < INTERVAL_COUNT
                },
                None => exists|j: int|
                    0 <= j < rows@.len() && (#[trigger] rows@[j]).interval >= INTERVAL_COUNT,
            },
    {
        let mut agg = KlineAggregator::new(cap);
        let mut i: usize = 0;
        while i < rows.len()
            invariant
                i <= rows@.len(),
                agg.wf(),
                agg.window() == cap,
                charts_of(rows@.take(i as int), cap as nat, agg.charts()),
                forall|j: int|
                    0 <= j < i ==> (#[trigger] rows@[j]).interval < INTERVAL_COUNT,
            decreases rows@.len() - i,
        {
            let row = rows[i];
            if row.interval >= INTERVAL_COUNT as u32 {
                assert(rows@[i as int].interval >= INTERVAL_COUNT);
                return None;
            }
            let ghost front = rows@.take(i as int);
            let ghost next = rows@.take(i + 1);
            let ghost was = agg.charts();
            let ghost chart = agg.chart(InstrumentId(row.instrument));
            agg.put_row(&row);
            proof {
                assert(next =~= front.push(row));
                lemma_line_push(front, row);
                let now = agg.charts();
                assert forall|k: u32| #[trigger] now.contains_key(k) <==> has_row(next, k) by {
                    if has_row(front, k) {
                        let j = choose|j: int|
                            0 <= j < front.len() && (#[trigger] front[j]).instrument == k;
                        assert(next[j].instrument == k);
                    }
                    if has_row(next, k) && k != row.instrument {
                        let j = choose|j: int|
                            0 <= j < next.len() && (#[trigger] next[j]).instrument == k;
                        assert(front[j].instrument == k);
                    }
                    assert(next[i as int].instrument == row.instrument);
                }
                assert forall|k: u32, x: int|
                    now.contains_key(k) && 0 <= x < INTERVAL_COUNT implies #[trigger] now[k][x]
                    == newest(line_of(next, k, x), cap as nat) by {
                    assert(line_of(next, k, x) == line_of(front.push(row), k, x));
                    if was.contains_key(k) {
                        assert(was[k][x] == newest(line_of(front, k, x), cap as nat));
                    } else {
                        if line_of(front, k, x).len() > 0 {
                            lemma_line_has_row(front, k, x);
                        }
                        assert(line_of(front, k, x) =~= Seq::<Candle>::empty());
                    }
                    lemma_newest(line_of(front, k, x), row.candle, cap as nat);
                }
            }
            i += 1;
        }
        assert(rows@.take(i as int) =~= rows@);
        Some(agg)
    }

    /// The instruments that have traded, ascending.
    pub fn instruments(&self) -> (r: Vec<InstrumentId>)
        requires
            self.wf(),
        ensures
            forall|i: int, j: int| 0 <= i < j < r@.len() ==> #[trigger] r@[i].0 < #[trigger] r@[j].0,
            forall|k: u32| #[trigger] self.charts().contains_key(k) <==> r@.contains(InstrumentId(k)),
    {
        let mut out: Vec<InstrumentId> = Vec::new();
        let mut i: usize = 0;
        while i < self.listed.len()
            invariant
                i <= self.listed@.len(),
                out@.len() == i,
                forall|j: int| 0 <= j < i ==> #[trigger] out@[j].0 == self.listed@[j],
            decreases self.listed@.len() - i,
        {
            out.push(InstrumentId(self.listed[i]));
            i += 1;
        }
        proof {
            assert forall|k: u32| #[trigger] self.charts().contains_key(k) <==> out@.contains(
                InstrumentId(k),
            ) by {
                assert(self.listed@.contains(k) <==> self.series@.contains_key(k));
                if self.listed@.contains(k) {
                    let j = choose|j: int| 0 <= j < self.listed@.len() && self.listed@[j] == k;
                    assert(out@[j].0 == k);
                    assert(out@[j] == InstrumentId(k));
                }
                if out@.contains(InstrumentId(k)) {
                    let j = choose|j: int| 0 <= j < out@.len() && out@[j] == InstrumentId(k);
                    assert(out@[j].0 == self.listed@[j]);
                }
            }
        }
        out
    }
}

fn empty_series() -> (r: Vec<VecDeque<Candle>>)
    ensures
        deques(r@) == no_series(),
        r@.len() == INTERVAL_COUNT,
{
    let mut out: Vec<VecDeque<Candle>> = Vec::new();
    let mut i: usize = 0;
    while i < INTERVAL_COUNT
        invariant
            i <= INTERVAL_COUNT,
            out@.len() == i,
            forall|j: int| 0 <= j < i ==> (#[trigger] out@[j])@ == Seq::<Candle>::empty(),
        decreases INTERVAL_COUNT - i,
    {
        out.push(VecDeque::new());
        i += 1;
    }
    assert(deques(out@) =~= no_series());
    out
}

fn extend_line(line: &mut VecDeque<Candle>, start: u64, price: u64, qty: u64, cap: usize)
    requires
        has_room(old(line)@, start, qty),
        old(line)@.len() <= cap,
    ensures
        final(line)@ == extended(old(line)@, start, price, qty, cap as nat),
        final(line)@.len() <= cap,
{
    let n: usize = line.len();
    if n > 0 && line[n - 1].start == start {
        let mut c = line[n - 1];
        if price > c.high {
            c.high = price;
        }
        if price < c.low {
            c.low = price;
        }
        c.close = price;
        c.volume = c.volume + qty;
        c.trades = c.trades + 1;
        line.pop_back();
        line.push_back(c);
        return ;
    }
    line.push_back(
        Candle {
            start,
            open: price,
            high: price,
            low: price,
            close: price,
            volume: qty,
            trades: 1,
        },
    );
    if n >= cap {
        line.pop_front();
        assert(line@ =~= old(line)@.push(
            Candle {
                start,
                open: price,
                high: price,
                low: price,
                close: price,
                volume: qty,
                trades: 1,
            },
        ).skip(1));
    }
}

/// What a decimal number says.
pub open spec fn number_of(digits: Seq<char>) -> nat
    decreases digits.len(),
{
    if digits.len() == 0 {
        0
    } else {
        (number_of(digits.drop_last()) * 10 + (digits.last() as int - '0' as int)) as nat
    }
}

/// The seconds that a name made of a number and a unit stands for; 0 if the unit is
/// neither second, minute nor day.
pub open spec fn named_seconds(name: Seq<char>) -> nat {
    let n = number_of(name.drop_last());
    if name.last() == 's' {
        n
    } else if name.last() == 'm' {
        n * 60
    } else if name.last() == 'd' {
        n * (24 * 60 * 60)
    } else {
        0
    }
}

proof fn lemma_two(a: char, b: char)
    requires
        '0' <= a <= '9',
    ensures
        seq![a, b].last() == b,
        number_of(seq![a, b].drop_last()) == a as int - '0' as int,
{
    reveal_with_fuel(number_of, 3);
    assert(seq![a, b].drop_last() =~= seq![a]);
    assert(seq![a].drop_last() =~= Seq::<char>::empty());
}

proof fn lemma_three(a: char, b: char, c: char)
    requires
        '0' <= a <= '9',
        '0' <= b <= '9',
    ensures
        seq![a, b, c].last() == c,
        number_of(seq![a, b, c].drop_last()) == (a as int - '0' as int) * 10 + (b as int
            - '0' as int),
{
    reveal_with_fuel(number_of, 4);
    assert(seq![a, b, c].drop_last() =~= seq![a, b]);
    assert(seq![a, b].drop_last() =~= seq![a]);
    assert(seq![a].drop_last() =~= Seq::<char>::empty());
}

/// An interval is as long as its name says: a number of seconds, minutes or days. The
/// two that no number of days makes up are the calendar week and the calendar month.
pub proof fn law_interval_names_tell_their_length(i: int)
    requires
        0 <= i < INTERVAL_COUNT,
    ensures
        ({
            let name = interval_title(i);
            match interval_at(i) {
                Interval::Fixed(n) => {
                    &&& n == named_seconds(name)
                    &&& n > 0
                },
                Interval::Week => name == seq!['1', 'w'],
                Interval::Month => name == seq!['1', 'm', 'o'],
            }
        }),
{
    reveal_strlit("1s");
    reveal_strlit("1m");
    reveal_strlit("3m");
    reveal_strlit("5m");
    reveal_strlit("10m");
    reveal_strlit("15m");
    reveal_strlit("30m");
    reveal_strlit("1d");
    reveal_strlit("1w");
    reveal_strlit("1mo");
    assert("1s"@ =~= seq!['1', 's']);
    assert("1m"@ =~= seq!['1', 'm']);
    assert("3m"@ =~= seq!['3', 'm']);
    assert("5m"@ =~= seq!['5', 'm']);
    assert("10m"@ =~= seq!['1', '0', 'm']);
    assert("15m"@ =~= seq!['1', '5', 'm']);
    assert("30m"@ =~= seq!['3', '0', 'm']);
    assert("1d"@ =~= seq!['1', 'd']);
    assert("1w"@ =~= seq!['1', 'w']);
    assert("1mo"@ =~= seq!['1', 'm', 'o']);
    lemma_two('1', 's');
    lemma_two('1', 'm');
    lemma_two('3', 'm');
    lemma_two('5', 'm');
    lemma_three('1', '0', 'm');
    lemma_three('1', '5', 'm');
    lemma_three('3', '0', 'm');
    lemma_two('1', 'd');
}

/// No two intervals have one name.
pub proof fn law_interval_names_differ(i: int, j: int)
    requires
        0 <= i < INTERVAL_COUNT,
        0 <= j < INTERVAL_COUNT,
        interval_title(i) == interval_title(j),
    ensures
        i == j,
{
    reveal_strlit("1s");
    reveal_strlit("1m");
    reveal_strlit("3m");
    reveal_strlit("5m");
    reveal_strlit("10m");
    reveal_strlit("15m");
    reveal_strlit("30m");
    reveal_strlit("1d");
    reveal_strlit("1w");
    reveal_strlit("1mo");
    let (a, b) = (interval_title(i), interval_title(j));
    assert(a.len() == b.len() && a[0] == b[0] && a[1] == b[1]);
    assert(a[a.len() - 1] == b[b.len() - 1]);
}

/// Buckets of a fixed length start at its multiples; a bucket holds the seconds from its
/// start on, as many as it is long; and two seconds are in one bucket exactly if the
/// length goes into them equally often.
pub proof fn law_fixed_buckets(n: u64, a: u64, b: u64)
    requires
        n > 0,
    ensures
        ({
            let start = bucket(Interval::Fixed(n), a);
            &&& start % (n as int) == 0
            &&& 0 <= start <= a < start + n
            &&& bucket(Interval::Fixed(n), a) == bucket(Interval::Fixed(n), b) <==> a / n == b / n
        }),
{
    let start = bucket(Interval::Fixed(n), a);
    let (m, x, y) = (n as int, a as int, b as int);
    assert(x == m * (x / m) + x % m && 0 <= x % m < m) by (nonlinear_arith)
        requires
            m > 0,
    ;
    assert(y == m * (y / m) + y % m && 0 <= y % m < m) by (nonlinear_arith)
        requires
            m > 0,
    ;
    assert((m * (x / m)) % m == 0) by (nonlinear_arith)
        requires
            m > 0,
    ;
    assert(m * (x / m) == m * (y / m) ==> x / m == y / m) by (nonlinear_arith)
        requires
            m > 0,
    ;
}

/// A bucket of any interval starts at midnight if it is a week or a month, does not start
/// after what it holds, and holds its own start.
pub proof fn law_buckets_hold_their_start(i: int, ts: u64)
    requires
        0 <= i < INTERVAL_COUNT,
    ensures
        ({
            let start = bucket(interval_at(i), ts);
            &&& interval_at(i) is Week || interval_at(i) is Month ==> start % 86_400 == 0
            &&& interval_at(i) is Week && ts >= 4 * 86_400 ==> start <= ts && bucket(
                interval_at(i),
                start as u64,
            ) == start
        }),
{
}

/// A candle covers its trades: a further one leaves where it opened, closes it, widens it
/// to the trade's price and no further, and adds the trade's quantity.
pub proof fn law_candles_cover_their_trades(c: Candle, price: u64, qty: u64)
    requires
        c.volume + qty <= u64::MAX,
        c.trades < u32::MAX,
        c.low <= c.high,
    ensures
        ({
            let d = merged(c, price, qty);
            &&& d.start == c.start
            &&& d.open == c.open
            &&& d.close == price
            &&& d.low <= price <= d.high
            &&& d.low <= c.low && c.high <= d.high
            &&& d.low == c.low || d.low == price
            &&& d.high == c.high || d.high == price
            &&& d.volume == c.volume + qty
            &&& d.trades == c.trades + 1
        }),
{
}

/// A trade goes into the last candle if that is its bucket, and else begins a candle of
/// which it is the whole; the candles before stay, but for the oldest where there are too
/// many.
pub proof fn law_trades_fall_into_their_candle(
    series: Seq<Candle>,
    start: u64,
    price: u64,
    qty: u64,
    cap: nat,
)
    requires
        cap > 0,
        series.len() <= cap,
    ensures
        ({
            let after = extended(series, start, price, qty, cap);
            let same = series.len() > 0 && series.last().start == start;
            let last = after.last();
            &&& after.len() > 0 && last.start == start && last.close == price
            &&& same ==> after.len() == series.len() && last == merged(series.last(), price, qty)
            &&& !same ==> last.open == price && last.high == price && last.low == price
                && last.volume == qty && last.trades == 1
            &&& !same && series.len() < cap ==> after.drop_last() == series
            &&& !same && series.len() == cap ==> after.drop_last() == series.skip(1)
            &&& same ==> after.drop_last() == series.drop_last()
        }),
{
    let after = extended(series, start, price, qty, cap);
    if series.len() > 0 && series.last().start == start {
        assert(after.drop_last() =~= series.drop_last());
    } else if series.len() < cap {
        assert(after.drop_last() =~= series);
    } else {
        assert(after.drop_last() =~= series.skip(1));
    }
}

/// A trade shows on every chart of its instrument: each has, as its last candle, one that
/// starts with the trade's bucket and closes at its price.
pub proof fn law_a_trade_shows_on_every_chart(
    series: Seq<Seq<Candle>>,
    ts: u64,
    price: u64,
    qty: u64,
    cap: nat,
    i: int,
)
    requires
        cap > 0,
        0 <= i < INTERVAL_COUNT,
        series.len() == INTERVAL_COUNT,
        series[i].len() <= cap,
    ensures
        ({
            let after = all_extended(series, ts, price, qty, cap);
            let line = after[i];
            &&& after.len() == INTERVAL_COUNT
            &&& line.len() > 0
            &&& line.last().start == bucket(interval_at(i), ts) as u64
            &&& line.last().close == price
            &&& interval_at(i) matches Interval::Fixed(n) ==> line.last().start <= ts
                < line.last().start + n && line.last().start % n == 0
        }),
{
    let start = bucket(interval_at(i), ts) as u64;
    law_trades_fall_into_their_candle(series[i], start, price, qty, cap);
    law_interval_names_tell_their_length(i);
    if let Interval::Fixed(n) = interval_at(i) {
        law_fixed_buckets(n, ts, ts);
    }
}

} // verus!
