//! Market data: candles, depth and recent trades, kept from the feed of reports,
//! and how they are served.

use std::collections::{HashMap, VecDeque};

use vstd::prelude::*;
use vstd::string::StringExecFns;

use crate::kline::{
    all_extended, bucket, charts_of, has_room, holds_charts, interval_at, interval_title,
    no_series, Candle, CandleRow, KlineAggregator, INTERVAL_COUNT,
};
use crate::sharding::{mixed, splitmix64};
use crate::text::{decimal, push_decimal, push_decimal_wide};
use crate::types::{InstrumentId, Side};
use crate::wire::{
    decode_report_at, report_of, DecodedReport, REPORT_LEN, RT_DEPTH_END, RT_DEPTH_LEVEL, RT_TRADE,
};

verus! {

broadcast use vstd::std_specs::hash::group_hash_axioms;

/// How many trades the feed remembers, to recognise those that come again.
pub const MAX_SEEN: usize = 100_000;

/// How many trades of an instrument are kept.
pub const MAX_TRADES: usize = 1000;

/// The trades that were seen last. Several nodes publish the same trade: it is
/// taken once.
pub struct ReportDeduper {
    buckets: HashMap<u64, Vec<DecodedReport>>,
    order: VecDeque<DecodedReport>,
}

/// The bucket of a report.
pub closed spec fn bucket_of(r: DecodedReport) -> u64 {
    mixed(r.order_id.0 ^ mixed(r.aux_id ^ mixed(r.price ^ mixed(r.qty))))
}

fn find_bucket(r: &DecodedReport) -> (h: u64)
    ensures
        h == bucket_of(*r),
{
    splitmix64(r.order_id.0 ^ splitmix64(r.aux_id ^ splitmix64(r.price ^ splitmix64(r.qty))))
}

/// What was seen after one more report: the oldest goes when there are too many.
pub open spec fn noticed(seen: Seq<DecodedReport>, r: DecodedReport) -> Seq<DecodedReport> {
    if seen.contains(r) {
        seen
    } else if seen.len() < MAX_SEEN {
        seen.push(r)
    } else {
        seen.push(r).skip(1)
    }
}

fn same_report(a: &DecodedReport, b: &DecodedReport) -> (r: bool)
    ensures
        r == (*a == *b),
{
    *a == *b
}

fn position(list: &Vec<DecodedReport>, r: &DecodedReport) -> (at: usize)
    ensures
        at <= list@.len(),
        at < list@.len() ==> list@[at as int] == *r,
        at == list@.len() ==> !list@.contains(*r),
{
    let mut i: usize = 0;
    while i < list.len()
        invariant
            i <= list@.len(),
            forall|j: int| 0 <= j < i ==> #[trigger] list@[j] != *r,
        decreases list@.len() - i,
    {
        if same_report(&list[i], r) {
            return i;
        }
        i += 1;
    }
    i
}

impl View for ReportDeduper {
    type V = Seq<DecodedReport>;

    closed spec fn view(&self) -> Seq<DecodedReport> {
        self.order@
    }
}

impl ReportDeduper {
    spec fn filed(self, r: DecodedReport) -> bool {
        self.buckets@.contains_key(bucket_of(r)) && self.buckets@[bucket_of(r)]@.contains(r)
    }

    /// The invariant: every report that was seen stands once in its bucket, and
    /// nothing else does.
    pub closed spec fn wf(self) -> bool {
        &&& self.order@.len() <= MAX_SEEN
        &&& self.order@.no_duplicates()
        &&& forall|r: DecodedReport| #[trigger] self.filed(r) <==> self.order@.contains(r)
        &&& forall|h: u64| #[trigger]
            self.buckets@.contains_key(h) ==> self.buckets@[h]@.no_duplicates() && forall|i: int|
                0 <= i < self.buckets@[h]@.len() ==> bucket_of(#[trigger] self.buckets@[h]@[i])
                    == h
    }

    /// Nothing was seen yet.
    pub fn new() -> (r: ReportDeduper)
        ensures
            r.wf(),
            r@ == Seq::<DecodedReport>::empty(),
    {
        let r = ReportDeduper { buckets: HashMap::new(), order: VecDeque::new() };
        assert(r@ =~= Seq::<DecodedReport>::empty());
        r
    }

    fn file(&mut self, r: DecodedReport)
        requires
            forall|h: u64| #[trigger]
                old(self).buckets@.contains_key(h) ==> old(self).buckets@[h]@.no_duplicates()
                    && forall|i: int|
                    0 <= i < old(self).buckets@[h]@.len() ==> bucket_of(
                        #[trigger] old(self).buckets@[h]@[i],
                    ) == h,
            !old(self).filed(r),
        ensures
            final(self).order@ == old(self).order@,
            forall|x: DecodedReport| #[trigger]
                final(self).filed(x) <==> old(self).filed(x) || x == r,
            forall|h: u64| #[trigger]
                final(self).buckets@.contains_key(h) ==> final(self).buckets@[h]@.no_duplicates()
                    && forall|i: int|
                    0 <= i < final(self).buckets@[h]@.len() ==> bucket_of(
                        #[trigger] final(self).buckets@[h]@[i],
                    ) == h,
    {
        let h: u64 = find_bucket(&r);
        let ghost before = *self;
        let mut list: Vec<DecodedReport> = match self.buckets.remove(&h) {
            Some(list) => list,
            None => Vec::new(),
        };
        let ghost was = list@;
        list.push(r);
        let ghost now = list@;
        self.buckets.insert(h, list);
        proof {
            assert(before.buckets@.contains_key(h) ==> was == before.buckets@[h]@);
            assert(!was.contains(r));
            assert forall|x: DecodedReport| #[trigger] self.filed(x) <==> before.filed(x) || x
                == r by {
                if bucket_of(x) == h {
                    if now.contains(x) && x != r {
                        let i = choose|i: int| 0 <= i < now.len() && now[i] == x;
                        assert(was[i] == x);
                    }
                    if was.contains(x) {
                        let i = choose|i: int| 0 <= i < was.len() && was[i] == x;
                        assert(now[i] == x);
                    }
                    assert(now[was.len() as int] == r);
                }
            }
            assert forall|i: int, j: int| 0 <= i < j < now.len() implies now[i] != now[j] by {
                if j == was.len() {
                    assert(was.contains(was[i]));
                } else {
                    assert(was[i] != was[j]);
                }
            }
            assert forall|k: u64| #[trigger]
                self.buckets@.contains_key(k) implies self.buckets@[k]@.no_duplicates() && forall|
                i: int,
            |
                0 <= i < self.buckets@[k]@.len() ==> bucket_of(#[trigger] self.buckets@[k]@[i])
                    == k by {
                if k == h {
                    assert forall|i: int| 0 <= i < now.len() implies bucket_of(#[trigger] now[i])
                        == h by {
                        if i < was.len() {
                            assert(bucket_of(before.buckets@[h]@[i]) == h);
                        }
                    }
                } else {
                    assert(before.buckets@.contains_key(k));
                }
            }
        }
    }

    fn unfile(&mut self, r: DecodedReport)
        requires
            forall|h: u64| #[trigger]
                old(self).buckets@.contains_key(h) ==> old(self).buckets@[h]@.no_duplicates()
                    && forall|i: int|
                    0 <= i < old(self).buckets@[h]@.len() ==> bucket_of(
                        #[trigger] old(self).buckets@[h]@[i],
                    ) == h,
        ensures
            final(self).order@ == old(self).order@,
            forall|x: DecodedReport| #[trigger]
                final(self).filed(x) <==> old(self).filed(x) && x != r,
            forall|h: u64| #[trigger]
                final(self).buckets@.contains_key(h) ==> final(self).buckets@[h]@.no_duplicates()
                    && forall|i: int|
                    0 <= i < final(self).buckets@[h]@.len() ==> bucket_of(
                        #[trigger] final(self).buckets@[h]@[i],
                    ) == h,
    {
        let h: u64 = find_bucket(&r);
        let ghost before = *self;
        if let Some(taken) = self.buckets.remove(&h) {
            let mut list = taken;
            let ghost was = list@;
            let at: usize = position(&list, &r);
            if at < list.len() {
                list.remove(at);
            }
            let ghost now = list@;
            let empty: bool = list.len() == 0;
            if !empty {
                self.buckets.insert(h, list);
            }
            proof {
                assert(was == before.buckets@[h]@);
                assert forall|x: DecodedReport| now.contains(x) <==> was.contains(x) && x
                    != r by {
                    if now.contains(x) {
                        let i = choose|i: int| 0 <= i < now.len() && now[i] == x;
                        let k = if i < at {
                            i
                        } else {
                            i + 1
                        };
                        if at < was.len() {
                            assert(was[k] == x);
                            assert(was[at as int] != was[k]);
                        } else {
                            assert(was[i] == x);
                        }
                    }
                    if was.contains(x) && x != r {
                        let i = choose|i: int| 0 <= i < was.len() && was[i] == x;
                        if i < at {
                            assert(now[i] == x);
                        } else {
                            assert(now[i - 1] == x);
                        }
                    }
                }
                assert forall|i: int, j: int| 0 <= i < j < now.len() implies now[i] != now[j] by {
                    let a = if i < at {
                        i
                    } else {
                        i + 1
                    };
                    let b = if j < at {
                        j
                    } else {
                        j + 1
                    };
                    if at < was.len() {
                        assert(was[a] != was[b]);
                    } else {
                        assert(was[i] != was[j]);
                    }
                }
                assert forall|x: DecodedReport| #[trigger] self.filed(x) <==> before.filed(x) && x
                    != r by {
                    if bucket_of(x) == h {
                        if empty && was.contains(x) && x != r {
                            assert(now.contains(x));
                        }
                    }
                }
                assert forall|k: u64| #[trigger]
                    self.buckets@.contains_key(k) implies self.buckets@[k]@.no_duplicates()
                    && forall|i: int|
                    0 <= i < self.buckets@[k]@.len() ==> bucket_of(#[trigger] self.buckets@[k]@[i])
                        == k by {
                    assert(before.buckets@.contains_key(k));
                    if k == h {
                        assert forall|i: int| 0 <= i < now.len() implies bucket_of(
                            #[trigger] now[i],
                        ) == h by {
                            let a = if i < at {
                                i
                            } else {
                                i + 1
                            };
                            if at < was.len() {
                                assert(bucket_of(was[a]) == h);
                            } else {
                                assert(bucket_of(was[i]) == h);
                            }
                        }
                    }
                }
            }
        } else {
            assert(self.buckets@ =~= before.buckets@);
        }
    }

    fn drop_oldest(&mut self)
        requires
            old(self).wf(),
            old(self).order@.len() > 0,
        ensures
            final(self).wf(),
            final(self).order@ == old(self).order@.skip(1),
    {
        let ghost seen = self.order@;
        let ghost before = *self;
        if let Some(oldest) = self.order.pop_front() {
            self.unfile(oldest);
            proof {
                let rest = seen.skip(1);
                assert(self.order@ =~= rest);
                assert(oldest == seen[0]);
                assert forall|x: DecodedReport| #[trigger]
                    self.filed(x) <==> self.order@.contains(x) by {
                    assert(before.filed(x) <==> seen.contains(x));
                    if seen.contains(x) && x != oldest {
                        let i = choose|i: int| 0 <= i < seen.len() && seen[i] == x;
                        assert(rest[i - 1] == x);
                    }
                    if rest.contains(x) {
                        let i = choose|i: int| 0 <= i < rest.len() && rest[i] == x;
                        assert(seen[i + 1] == x);
                        assert(seen[0] != seen[i + 1]);
                    }
                }
                assert(rest.no_duplicates()) by {
                    assert forall|i: int, j: int|
                        0 <= i < rest.len() && 0 <= j < rest.len() && i != j implies rest[i]
                        != rest[j] by {
                        assert(seen[i + 1] != seen[j + 1]);
                    }
                }
            }
        }
    }

    /// Whether a report is new; from then on it is not.
    pub fn insert(&mut self, r: DecodedReport) -> (new: bool)
        requires
            old(self).wf(),
        ensures
            final(self).wf(),
            new == !old(self)@.contains(r),
            final(self)@ == noticed(old(self)@, r),
    {
        let h: u64 = find_bucket(&r);
        let known: bool = match self.buckets.get(&h) {
            Some(list) => position(list, &r) < list.len(),
            None => false,
        };
        assert(known == self.filed(r));
        if known {
            return false;
        }
        let ghost seen = self.order@;
        if self.order.len() == MAX_SEEN {
            self.drop_oldest();
        }
        let ghost kept = self.order@;
        assert(!kept.contains(r)) by {
            if kept.contains(r) {
                let i = choose|i: int| 0 <= i < kept.len() && kept[i] == r;
                assert(seen[if seen.len() == MAX_SEEN {
                    i + 1
                } else {
                    i
                }] == r);
                assert(seen.contains(r));
            }
        }
        assert(kept.no_duplicates());
        assert(!self.filed(r));
        let ghost mid = *self;
        self.file(r);
        let ghost added = *self;
        self.order.push_back(r);
        proof {
            let now = self.order@;
            assert(now =~= kept.push(r));
            assert forall|x: DecodedReport| #[trigger] self.filed(x) <==> now.contains(x) by {
                assert(mid.filed(x) <==> kept.contains(x));
                assert(added.filed(x) == self.filed(x));
                if now.contains(x) && x != r {
                    let i = choose|i: int| 0 <= i < now.len() && now[i] == x;
                    assert(kept[i] == x);
                }
                if kept.contains(x) {
                    let i = choose|i: int| 0 <= i < kept.len() && kept[i] == x;
                    assert(now[i] == x);
                }
                assert(now[kept.len() as int] == r);
            }
            assert(now =~= noticed(seen, r));
        }
        true
    }
}

/// Levels of a book: price and quantity, best first.
#[derive(Debug)]
pub struct Depth {
    pub bids: Vec<(u64, u64)>,
    pub asks: Vec<(u64, u64)>,
}

/// What the levels of a book are.
#[verifier::ext_equal]
pub struct DepthView {
    pub bids: Seq<(u64, u64)>,
    pub asks: Seq<(u64, u64)>,
}

impl View for Depth {
    type V = DepthView;

    open spec fn view(&self) -> DepthView {
        DepthView { bids: self.bids@, asks: self.asks@ }
    }
}

impl DepthView {
    /// No levels.
    pub open spec fn none() -> DepthView {
        DepthView { bids: Seq::empty(), asks: Seq::empty() }
    }
}

/// Levels after level `at` was set; levels that are skipped are empty.
pub open spec fn with_level(levels: Seq<(u64, u64)>, at: int, level: (u64, u64)) -> Seq<(u64, u64)> {
    Seq::new(
        if levels.len() > at {
            levels.len()
        } else {
            (at + 1) as nat
        },
        |i: int|
            if i == at {
                level
            } else if i < levels.len() {
                levels[i]
            } else {
                (0u64, 0u64)
            },
    )
}

fn set_level(levels: &mut Vec<(u64, u64)>, at: usize, level: (u64, u64))
    requires
        at < usize::MAX,
    ensures
        final(levels)@ == with_level(old(levels)@, at as int, level),
{
    let ghost was = levels@;
    while levels.len() <= at
        invariant
            at < usize::MAX,
            was.len() <= levels@.len(),
            levels@.len() <= at + 1 || levels@.len() == was.len(),
            forall|i: int| 0 <= i < was.len() ==> #[trigger] levels@[i] == was[i],
            forall|i: int|
                was.len() <= i < levels@.len() ==> #[trigger] levels@[i] == (0u64, 0u64),
        decreases at + 1 - levels@.len(),
    {
        levels.push((0, 0));
    }
    levels.set(at, level);
    assert(levels@ =~= with_level(was, at as int, level));
}

/// The first `n` levels.
pub open spec fn first_levels(levels: Seq<(u64, u64)>, n: int) -> Seq<(u64, u64)> {
    if levels.len() <= n {
        levels
    } else {
        levels.take(n)
    }
}

/// A trade: when, at which price, how much, and the fees.
#[derive(Clone, Copy, Debug, PartialEq, Eq, Structural)]
pub struct Tick {
    pub ts: u64,
    pub price: u64,
    pub qty: u64,
    pub maker_fee: u64,
    pub taker_fee: u64,
}

/// Trades of an instrument after one more.
pub open spec fn with_tick(ticks: Seq<Tick>, tick: Tick) -> Seq<Tick> {
    let more = ticks.push(tick);
    if more.len() > MAX_TRADES {
        more.skip(1)
    } else {
        more
    }
}

/// The state of the market.
#[verifier::ext_equal]
pub struct MarketView {
    /// Candles by instrument and interval.
    pub charts: Map<u32, Seq<Seq<Candle>>>,
    /// How many candles are kept.
    pub window: nat,
    /// Depth that is being received.
    pub pending: Map<u32, DepthView>,
    /// Depth that is complete.
    pub live: Map<u32, DepthView>,
    /// Recent trades, oldest first.
    pub trades: Map<u32, Seq<Tick>>,
    /// Trades seen last.
    pub seen: Seq<DecodedReport>,
}

impl MarketView {
    /// The candles of an instrument.
    pub open spec fn chart(self, instrument: u32) -> Seq<Seq<Candle>> {
        if self.charts.contains_key(instrument) {
            self.charts[instrument]
        } else {
            no_series()
        }
    }

    /// The trades of an instrument.
    pub open spec fn ticks(self, instrument: u32) -> Seq<Tick> {
        if self.trades.contains_key(instrument) {
            self.trades[instrument]
        } else {
            Seq::empty()
        }
    }

    /// The complete depth of an instrument.
    pub open spec fn depth(self, instrument: u32) -> DepthView {
        if self.live.contains_key(instrument) {
            self.live[instrument]
        } else {
            DepthView::none()
        }
    }

    /// The depth of an instrument that is being received.
    pub open spec fn draft(self, instrument: u32) -> DepthView {
        if self.pending.contains_key(instrument) {
            self.pending[instrument]
        } else {
            DepthView::none()
        }
    }

    /// The state after a trade that is new.
    pub open spec fn traded(self, ts: u64, r: DecodedReport) -> MarketView {
        let id = r.instrument.0;
        MarketView {
            charts: self.charts.insert(
                id,
                all_extended(self.chart(id), ts, r.price, r.qty, self.window),
            ),
            trades: self.trades.insert(
                id,
                with_tick(
                    self.ticks(id),
                    Tick {
                        ts,
                        price: r.price,
                        qty: r.qty,
                        maker_fee: r.maker_fee,
                        taker_fee: r.taker_fee,
                    },
                ),
            ),
            seen: noticed(self.seen, r),
            ..self
        }
    }

    /// The state after a level of depth.
    pub open spec fn levelled(self, r: DecodedReport) -> MarketView {
        let d = self.draft(r.instrument.0);
        let level = (r.price, r.qty);
        MarketView {
            pending: self.pending.insert(
                r.instrument.0,
                if r.side == Side::Buy {
                    DepthView { bids: with_level(d.bids, r.aux_id as int, level), ..d }
                } else {
                    DepthView { asks: with_level(d.asks, r.aux_id as int, level), ..d }
                },
            ),
            ..self
        }
    }

    /// The state after the end of depth: what was received becomes the depth, cut
    /// to the numbers of levels that the report gives.
    pub open spec fn completed(self, r: DecodedReport) -> MarketView {
        let id = r.instrument.0;
        if self.pending.contains_key(id) {
            let d = self.pending[id];
            MarketView {
                pending: self.pending.remove(id),
                live: self.live.insert(
                    id,
                    DepthView {
                        bids: first_levels(d.bids, r.aux_id as int % 256),
                        asks: first_levels(d.asks, (r.aux_id as int / 256) % 256),
                    },
                ),
                ..self
            }
        } else {
            self
        }
    }

    /// The state after a report.
    pub open spec fn after(self, ts: u64, r: DecodedReport) -> MarketView {
        if r.type_code == RT_TRADE {
            if self.seen.contains(r) {
                self
            } else {
                self.traded(ts, r)
            }
        } else if r.type_code == RT_DEPTH_LEVEL {
            self.levelled(r)
        } else if r.type_code == RT_DEPTH_END {
            self.completed(r)
        } else {
            self
        }
    }

    /// The report does not overflow anything.
    pub open spec fn takes(self, ts: u64, r: DecodedReport) -> bool {
        &&& r.type_code == RT_TRADE && !self.seen.contains(r) ==> forall|i: int|
            0 <= i < INTERVAL_COUNT ==> has_room(
                #[trigger] self.chart(r.instrument.0)[i],
                bucket(interval_at(i), ts) as u64,
                r.qty,
            )
        &&& r.type_code == RT_DEPTH_LEVEL ==> r.aux_id < usize::MAX
    }

    /// The state after the first `n` frames of what was received; frames that
    /// hold no report are passed over.
    pub open spec fn after_frames(self, ts: u64, bytes: Seq<u8>, n: nat) -> MarketView
        decreases n,
    {
        if n == 0 {
            self
        } else {
            let before = self.after_frames(ts, bytes, (n - 1) as nat);
            match report_of(bytes.subrange((n - 1) * REPORT_LEN, n * REPORT_LEN)) {
                Some(r) => before.after(ts, r),
                None => before,
            }
        }
    }

    /// The frame number `k` of what was received overflows nothing once those
    /// before it have been taken over.
    pub open spec fn takes_frame(self, ts: u64, bytes: Seq<u8>, k: int) -> bool {
        match report_of(bytes.subrange(k * REPORT_LEN, (k + 1) * REPORT_LEN)) {
            Some(r) => self.after_frames(ts, bytes, k as nat).takes(ts, r),
            None => true,
        }
    }

    /// No frame of what was received overflows anything.
    pub open spec fn takes_frames(self, ts: u64, bytes: Seq<u8>) -> bool {
        forall|k: int|
            0 <= k < bytes.len() / REPORT_LEN as nat ==> #[trigger] self.takes_frame(ts, bytes, k)
    }
}

/// What is known of the market.
pub struct MarketState {
    agg: KlineAggregator,
    pending: HashMap<u32, Depth>,
    live: HashMap<u32, Depth>,
    trades: HashMap<u32, VecDeque<Tick>>,
    seen: ReportDeduper,
}

spec fn depths(map: Map<u32, Depth>) -> Map<u32, DepthView> {
    map.map_values(|d: Depth| d@)
}

spec fn ticks_of(map: Map<u32, VecDeque<Tick>>) -> Map<u32, Seq<Tick>> {
    map.map_values(|q: VecDeque<Tick>| q@)
}

impl View for MarketState {
    type V = MarketView;

    closed spec fn view(&self) -> MarketView {
        MarketView {
            charts: self.agg.charts(),
            window: self.agg.window(),
            pending: depths(self.pending@),
            live: depths(self.live@),
            trades: ticks_of(self.trades@),
            seen: self.seen@,
        }
    }
}

impl MarketState {
    /// Its parts are in order.
    pub closed spec fn wf(self) -> bool {
        &&& self.agg.wf()
        &&& self.seen.wf()
        &&& forall|k: u32| #[trigger]
            self.trades@.contains_key(k) ==> self.trades@[k]@.len() <= MAX_TRADES
    }

    /// A market that keeps so many candles of each interval, and in which nothing
    /// has happened yet.
    pub fn new(window: usize) -> (r: MarketState)
        ensures
            r.wf(),
            r@ == (MarketView {
                charts: Map::empty(),
                window: window as nat,
                pending: Map::empty(),
                live: Map::empty(),
                trades: Map::empty(),
                seen: Seq::empty(),
            }),
    {
        let r = MarketState {
            agg: KlineAggregator::new(window),
            pending: HashMap::new(),
            live: HashMap::new(),
            trades: HashMap::new(),
            seen: ReportDeduper::new(),
        };
        proof {
            assert(depths(r.pending@) =~= Map::<u32, DepthView>::empty());
            assert(depths(r.live@) =~= Map::<u32, DepthView>::empty());
            assert(ticks_of(r.trades@) =~= Map::<u32, Seq<Tick>>::empty());
        }
        r
    }

    /// A market that starts with a candle history; `None` if a candle of it is of no
    /// known interval.
    pub fn with_history(window: usize, rows: &Vec<CandleRow>) -> (r: Option<MarketState>)
        ensures
            match r {
                Some(state) => {
                    &&& state.wf()
                    &&& charts_of(rows@, window as nat, state@.charts)
                    &&& state@ == (MarketView {
                        charts: state@.charts,
                        window: window as nat,
                        pending: Map::empty(),
                        live: Map::empty(),
                        trades: Map::empty(),
                        seen: Seq::empty(),
                    })
                },
                None => exists|j: int|
                    0 <= j < rows@.len() && (#[trigger] rows@[j]).interval >= INTERVAL_COUNT,
            },
    {
        match KlineAggregator::from_rows(window, rows) {
            Some(agg) => {
                let mut state = MarketState::new(window);
                state.agg = agg;
                Some(state)
            },
            None => None,
        }
    }

    /// The candle history, for a file.
    pub fn history(&self) -> (r: Vec<CandleRow>)
        requires
            self.wf(),
        ensures
            holds_charts(r@, self@.charts),
    {
        self.agg.rows()
    }

    fn on_trade(&mut self, ts: u64, r: &DecodedReport)
        requires
            old(self).wf(),
            !old(self)@.seen.contains(*r),
            r.type_code == RT_TRADE,
            old(self)@.takes(ts, *r),
        ensures
            final(self).wf(),
            final(self)@ == old(self)@.traded(ts, *r),
    {
        let ghost before = self@;
        let ghost was = self.trades@;
        let id: u32 = r.instrument.0;
        assert(self.agg.chart(r.instrument) == before.chart(id));
        self.seen.insert(*r);
        self.agg.on_trade(r.instrument, ts, r.price, r.qty);
        let mut ticks: VecDeque<Tick> = match self.trades.remove(&id) {
            Some(ticks) => ticks,
            None => VecDeque::new(),
        };
        let ghost old_ticks = ticks@;
        proof {
            assert(ticks_of(was).contains_key(id) == was.contains_key(id));
            assert(old_ticks =~= before.ticks(id));
        }
        let tick = Tick {
            ts,
            price: r.price,
            qty: r.qty,
            maker_fee: r.maker_fee,
            taker_fee: r.taker_fee,
        };
        ticks.push_back(tick);
        if ticks.len() > MAX_TRADES {
            let gone = ticks.pop_front();
            assert(ticks@ =~= old_ticks.push(tick).skip(1));
        }
        assert(ticks@ =~= with_tick(old_ticks, tick));
        let ghost new_ticks = ticks@;
        self.trades.insert(id, ticks);
        proof {
            assert(ticks_of(self.trades@) =~= ticks_of(was).insert(id, new_ticks));
            assert(self@ =~= before.traded(ts, *r));
        }
    }

    fn on_level(&mut self, r: &DecodedReport)
        requires
            old(self).wf(),
            r.aux_id < usize::MAX,
        ensures
            final(self).wf(),
            final(self)@ == old(self)@.levelled(*r),
    {
        let ghost before = self@;
        let ghost was = self.pending@;
        let id: u32 = r.instrument.0;
        let mut d: Depth = match self.pending.remove(&id) {
            Some(d) => d,
            None => Depth { bids: Vec::new(), asks: Vec::new() },
        };
        proof {
            assert(depths(was).contains_key(id) == was.contains_key(id));
            assert(d@ =~= before.draft(id));
        }
        let at: usize = r.aux_id as usize;
        match r.side {
            Side::Buy => set_level(&mut d.bids, at, (r.price, r.qty)),
            Side::Sell => set_level(&mut d.asks, at, (r.price, r.qty)),
        }
        let ghost now = d@;
        self.pending.insert(id, d);
        proof {
            assert(depths(self.pending@) =~= depths(was).insert(id, now));
            assert(self@ =~= before.levelled(*r));
        }
    }

    fn on_end(&mut self, r: &DecodedReport)
        requires
            old(self).wf(),
        ensures
            final(self).wf(),
            final(self)@ == old(self)@.completed(*r),
    {
        let ghost before = self@;
        let ghost was = self.pending@;
        let ghost was_live = self.live@;
        let id: u32 = r.instrument.0;
        proof {
            assert(depths(was).contains_key(id) == was.contains_key(id));
        }
        if let Some(taken) = self.pending.remove(&id) {
            let mut d = taken;
            let ghost full = d@;
            let bids: usize = (r.aux_id % 256) as usize;
            let asks: usize = ((r.aux_id / 256) % 256) as usize;
            d.bids.truncate(bids);
            d.asks.truncate(asks);
            proof {
                assert(d.bids@ =~= first_levels(full.bids, bids as int));
                assert(d.asks@ =~= first_levels(full.asks, asks as int));
            }
            let ghost now = d@;
            self.live.insert(id, d);
            proof {
                assert(depths(self.pending@) =~= depths(was).remove(id));
                assert(depths(self.live@) =~= depths(was_live).insert(id, now));
                assert(self@ =~= before.completed(*r));
            }
        } else {
            assert(self.pending@ =~= was);
        }
    }

    /// Whether a report can be taken over: it overflows nothing.
    pub fn accepts(&self, ts: u64, r: &DecodedReport) -> (fits: bool)
        requires
            self.wf(),
        ensures
            fits == self@.takes(ts, *r),
    {
        proof {
            assert(self@.chart(r.instrument.0) =~= self.agg.chart(r.instrument));
        }
        if r.type_code == RT_TRADE {
            self.has_seen(r) || self.agg.accepts(r.instrument, ts, r.qty)
        } else if r.type_code == RT_DEPTH_LEVEL {
            r.aux_id < usize::MAX as u64
        } else {
            true
        }
    }

    /// Takes a report over.
    pub fn on_report(&mut self, ts: u64, r: &DecodedReport)
        requires
            old(self).wf(),
            old(self)@.takes(ts, *r),
        ensures
            final(self).wf(),
            final(self)@ == old(self)@.after(ts, *r),
    {
        if r.type_code == RT_TRADE {
            if !self.has_seen(r) {
                self.on_trade(ts, r);
            }
        } else if r.type_code == RT_DEPTH_LEVEL {
            self.on_level(r);
        } else if r.type_code == RT_DEPTH_END {
            self.on_end(r);
        }
    }

    fn has_seen(&self, r: &DecodedReport) -> (known: bool)
        requires
            self.wf(),
        ensures
            known == self@.seen.contains(*r),
    {
        let h: u64 = find_bucket(r);
        let known: bool = match self.seen.buckets.get(&h) {
            Some(list) => position(list, r) < list.len(),
            None => false,
        };
        assert(known == self.seen.filed(*r));
        known
    }

    /// Takes over every whole frame of what was received; returns how many bytes
    /// they were. A frame that would overflow a counter ends it: everything before
    /// that frame has been taken over, and its number comes back.
    pub fn ingest(&mut self, ts: u64, bytes: &[u8]) -> (r: Result<usize, usize>)
        requires
            old(self).wf(),
        ensures
            final(self).wf(),
            ({
                let n = bytes@.len() / REPORT_LEN as nat;
                match r {
                    Ok(consumed) => {
                        &&& old(self)@.takes_frames(ts, bytes@)
                        &&& consumed == n * REPORT_LEN
                        &&& final(self)@ == old(self)@.after_frames(ts, bytes@, n)
                    },
                    Err(k) => {
                        &&& k < n
                        &&& !old(self)@.takes_frame(ts, bytes@, k as int)
                        &&& forall|i: int| 0 <= i < k ==> old(self)@.takes_frame(ts, bytes@, i)
                        &&& final(self)@ == old(self)@.after_frames(ts, bytes@, k as nat)
                    },
                }
            }),
    {
        let ghost start = self@;
        let size: usize = bytes.len();
        let n: usize = size / REPORT_LEN;
        let mut k: usize = 0;
        while k < n
            invariant
                k <= n,
                n == bytes@.len() / REPORT_LEN as nat,
                size == bytes@.len(),
                n * REPORT_LEN <= size,
                self.wf(),
                forall|i: int| 0 <= i < k ==> start.takes_frame(ts, bytes@, i),
                start == old(self)@,
                self@ == start.after_frames(ts, bytes@, k as nat),
            decreases n - k,
        {
            let ghost at = k as int;
            assert(at * REPORT_LEN + REPORT_LEN == (at + 1) * REPORT_LEN);
            if let Some(r) = decode_report_at(bytes, k * REPORT_LEN) {
                assert(report_of(bytes@.subrange(at * REPORT_LEN, (at + 1) * REPORT_LEN)) == Some(
                    r,
                ));
                if !self.accepts(ts, &r) {
                    return Err(k);
                }
                self.on_report(ts, &r);
            }
            assert(start.takes_frame(ts, bytes@, at));
            k += 1;
        }
        Ok(n * REPORT_LEN)
    }
}

/// A trade that comes again changes nothing.
pub proof fn law_trade_counts_once(m: MarketView, ts: u64, again: u64, r: DecodedReport)
    requires
        r.type_code == RT_TRADE,
    ensures
        m.after(ts, r).after(again, r) == m.after(ts, r),
{
    let once = m.after(ts, r);
    if !m.seen.contains(r) {
        let more = m.seen.push(r);
        if m.seen.len() < MAX_SEEN {
            assert(more[m.seen.len() as int] == r);
        } else {
            assert(more.skip(1)[m.seen.len() - 1] == r);
        }
        assert(once.seen.contains(r));
    }
}

/// Depth is shown whole or not at all: a level alone leaves the shown depth as it
/// is.
pub proof fn law_depth_is_shown_whole(m: MarketView, ts: u64, r: DecodedReport)
    requires
        r.type_code == RT_DEPTH_LEVEL,
    ensures
        m.after(ts, r).live == m.live,
{
}

/// What is shown of one instrument does not depend on reports about others.
pub proof fn law_instruments_do_not_mix(m: MarketView, ts: u64, r: DecodedReport, other: u32)
    requires
        r.instrument.0 != other,
    ensures
        m.after(ts, r).chart(other) == m.chart(other),
        m.after(ts, r).ticks(other) == m.ticks(other),
        m.after(ts, r).depth(other) == m.depth(other),
{
}

/// Items with commas between them.
pub open spec fn comma_joined(items: Seq<Seq<char>>) -> Seq<char>
    decreases items.len(),
{
    if items.len() == 0 {
        Seq::empty()
    } else if items.len() == 1 {
        items[0]
    } else {
        comma_joined(items.drop_last()) + ","@ + items.last()
    }
}

/// Adds an item to those that are there.
fn push_item(out: &mut String, first: bool, item: &str, Ghost(items): Ghost<Seq<Seq<char>>>)
    requires
        old(out)@ == comma_joined(items),
        first == (items.len() == 0),
    ensures
        final(out)@ == comma_joined(items.push(item@)),
{
    let ghost was = out@;
    proof {
        let more = items.push(item@);
        assert(more.drop_last() =~= items);
        assert(more.last() == item@);
    }
    if first {
        out.append(item);
        assert(out@ =~= item@);
    } else {
        out.append(",");
        out.append(item);
    }
}

/// A candle as JSON.
pub open spec fn candle_json(c: Candle) -> Seq<char> {
    "["@ + decimal(c.start as nat) + ","@ + decimal(c.open as nat) + ","@ + decimal(c.high as nat)
        + ","@ + decimal(c.low as nat) + ","@ + decimal(c.close as nat) + ","@ + decimal(
        c.volume as nat,
    ) + "]"@
}

fn format_candle(c: &Candle) -> (r: String)
    ensures
        r@ == candle_json(*c),
{
    let mut out = String::new();
    out.append("[");
    assert(out@ =~= "["@);
    push_decimal(&mut out, c.start);
    out.append(",");
    push_decimal(&mut out, c.open);
    out.append(",");
    push_decimal(&mut out, c.high);
    out.append(",");
    push_decimal(&mut out, c.low);
    out.append(",");
    push_decimal(&mut out, c.close);
    out.append(",");
    push_decimal(&mut out, c.volume);
    out.append("]");
    out
}

/// The interval with a name, from `from` on.
pub open spec fn interval_named(name: Seq<char>, from: int) -> Option<int>
    decreases INTERVAL_COUNT - from,
{
    if from >= INTERVAL_COUNT {
        None
    } else if name == interval_title(from) {
        Some(from)
    } else {
        interval_named(name, from + 1)
    }
}

proof fn lemma_interval_named(name: Seq<char>, from: int)
    requires
        0 <= from <= INTERVAL_COUNT,
    ensures
        match interval_named(name, from) {
            Some(i) => from <= i < INTERVAL_COUNT && name == interval_title(i) && forall|j: int|
                from <= j < i ==> name != #[trigger] interval_title(j),
            None => forall|j: int|
                from <= j < INTERVAL_COUNT ==> name != #[trigger] interval_title(j),
        },
    decreases INTERVAL_COUNT - from,
{
    if from < INTERVAL_COUNT && name != interval_title(from) {
        lemma_interval_named(name, from + 1);
    }
}

/// The last `limit` of a sequence.
pub open spec fn recent<T>(all: Seq<T>, limit: nat) -> Seq<T> {
    if all.len() <= limit {
        all
    } else {
        all.skip(all.len() - limit)
    }
}

/// At most a thousand.
pub open spec fn bounded_limit(limit: u64) -> nat {
    if limit <= 1000 {
        limit as nat
    } else {
        1000
    }
}

impl MarketView {
    /// The latest candles of an instrument and interval; none for an interval that
    /// is not known.
    pub open spec fn candles(self, instrument: u32, interval: Seq<char>, limit: nat) -> Seq<Candle> {
        match interval_named(interval, 0) {
            Some(i) => recent(self.chart(instrument)[i], limit),
            None => Seq::empty(),
        }
    }

    /// The latest candles as JSON.
    pub open spec fn candles_text(self, instrument: u32, interval: Seq<char>, limit: u64) -> Seq<
        char,
    > {
        "["@ + comma_joined(
            self.candles(instrument, interval, bounded_limit(limit)).map_values(
                |c: Candle| candle_json(c),
            ),
        ) + "]"@
    }

    /// The depth of an instrument as JSON.
    pub open spec fn depth_text(self, instrument: u32) -> Seq<char> {
        let d = self.depth(instrument);
        "{\"bids\":["@ + comma_joined(d.bids.map_values(|l: (u64, u64)| level_json(l)))
            + "],\"asks\":["@ + comma_joined(d.asks.map_values(|l: (u64, u64)| level_json(l)))
            + "]}"@
    }

    /// The latest trades of an instrument as JSON, oldest first.
    pub open spec fn trades_text(self, instrument: u32, limit: u64) -> Seq<char> {
        "["@ + comma_joined(
            recent(self.ticks(instrument), bounded_limit(limit)).map_values(
                |t: Tick| tick_json(t),
            ),
        ) + "]"@
    }

    /// What a subscriber is sent: candles and depth.
    pub open spec fn push_text(self, instrument: u32, interval: Seq<char>) -> Seq<char> {
        "{\"candles\":"@ + self.candles_text(instrument, interval, 120) + ",\"depth\":"@
            + self.depth_text(instrument) + "}"@
    }

    /// The instruments that have traded, ascending.
    pub open spec fn is_listing(self, ids: Seq<InstrumentId>) -> bool {
        &&& forall|i: int, j: int|
            0 <= i < j < ids.len() ==> #[trigger] ids[i].0 < #[trigger] ids[j].0
        &&& forall|k: u32| #[trigger]
            self.charts.contains_key(k) <==> ids.contains(InstrumentId(k))
    }

    /// An instrument in the overview.
    pub open spec fn row_json(self, id: InstrumentId) -> Seq<char> {
        let ticks = self.ticks(id.0);
        let depth = self.depth(id.0);
        "{\"instrument\":"@ + decimal(id.0 as nat) + ",\"trades\":"@ + decimal(ticks.len())
            + ",\"volume\":"@ + decimal(volume(ticks)) + ",\"last_trade\":"@ + decimal(
            if ticks.len() > 0 {
                ticks.last().ts as nat
            } else {
                0
            },
        ) + ",\"bid_levels\":"@ + decimal(depth.bids.len()) + ",\"ask_levels\":"@ + decimal(
            depth.asks.len(),
        ) + "}"@
    }

    /// The overview of these instruments.
    pub open spec fn overview_text(self, ids: Seq<InstrumentId>) -> Seq<char> {
        "{\"assets\":"@ + decimal(ids.len()) + ",\"recent_trades\":"@ + decimal(
            self.total_trades(ids),
        ) + ",\"recent_volume\":"@ + decimal(self.total_volume(ids)) + ",\"instruments\":["@
            + comma_joined(ids.map_values(|id: InstrumentId| self.row_json(id))) + "]}"@
    }

    /// The recent trades of instruments.
    pub open spec fn total_trades(self, ids: Seq<InstrumentId>) -> nat
        decreases ids.len(),
    {
        if ids.len() == 0 {
            0
        } else {
            self.total_trades(ids.drop_last()) + self.ticks(ids.last().0).len()
        }
    }

    /// The recent volume of instruments.
    pub open spec fn total_volume(self, ids: Seq<InstrumentId>) -> nat
        decreases ids.len(),
    {
        if ids.len() == 0 {
            0
        } else {
            self.total_volume(ids.drop_last()) + volume(self.ticks(ids.last().0))
        }
    }
}

/// The volume of trades.
pub open spec fn volume(ticks: Seq<Tick>) -> nat
    decreases ticks.len(),
{
    if ticks.len() == 0 {
        0
    } else {
        volume(ticks.drop_last()) + ticks.last().qty as nat
    }
}

/// A level as JSON.
pub open spec fn level_json(level: (u64, u64)) -> Seq<char> {
    "["@ + decimal(level.0 as nat) + ","@ + decimal(level.1 as nat) + "]"@
}

/// A trade as JSON.
pub open spec fn tick_json(t: Tick) -> Seq<char> {
    "["@ + decimal(t.ts as nat) + ","@ + decimal(t.price as nat) + ","@ + decimal(t.qty as nat)
        + ","@ + decimal(t.maker_fee as nat) + ","@ + decimal(t.taker_fee as nat) + "]"@
}

fn format_levels(levels: &Vec<(u64, u64)>) -> (r: String)
    ensures
        r@ == comma_joined(levels@.map_values(|l: (u64, u64)| level_json(l))),
{
    let ghost all = levels@.map_values(|l: (u64, u64)| level_json(l));
    let mut out = String::new();
    let mut i: usize = 0;
    assert(out@ =~= Seq::<char>::empty());
    assert(all.take(0) =~= Seq::<Seq<char>>::empty());
    while i < levels.len()
        invariant
            i <= levels@.len(),
            all == levels@.map_values(|l: (u64, u64)| level_json(l)),
            out@ == comma_joined(all.take(i as int)),
        decreases levels@.len() - i,
    {
        let (price, qty): (u64, u64) = levels[i];
        let mut item = String::new();
        item.append("[");
        assert(item@ =~= "["@);
        push_decimal(&mut item, price);
        item.append(",");
        push_decimal(&mut item, qty);
        item.append("]");
        push_item(&mut out, i == 0, item.as_str(), Ghost(all.take(i as int)));
        proof {
            assert(all[i as int] == item@);
            assert(all.take(i + 1) =~= all.take(i as int).push(item@));
        }
        i += 1;
    }
    assert(all.take(i as int) =~= all);
    out
}

fn format_tick(t: &Tick) -> (r: String)
    ensures
        r@ == tick_json(*t),
{
    let mut out = String::new();
    out.append("[");
    assert(out@ =~= "["@);
    push_decimal(&mut out, t.ts);
    out.append(",");
    push_decimal(&mut out, t.price);
    out.append(",");
    push_decimal(&mut out, t.qty);
    out.append(",");
    push_decimal(&mut out, t.maker_fee);
    out.append(",");
    push_decimal(&mut out, t.taker_fee);
    out.append("]");
    out
}

impl MarketState {
    /// The latest candles of an instrument and interval as JSON, at most a
    /// thousand of them.
    pub fn candles_json(&self, symbol: InstrumentId, interval: &str, limit: u64) -> (r: String)
        requires
            self.wf(),
        ensures
            r@ == self@.candles_text(symbol.0, interval@, limit),
    {
        let n: usize = if limit <= 1000 {
            limit as usize
        } else {
            1000
        };
        let candles = self.agg.candles(symbol, interval, n);
        proof {
            lemma_interval_named(interval@, 0);
            assert(self.agg.chart(symbol) == self@.chart(symbol.0));
            assert(candles@ == self@.candles(symbol.0, interval@, n as nat));
        }
        let ghost all = candles@.map_values(|c: Candle| candle_json(c));
        let mut items = String::new();
        let mut i: usize = 0;
        assert(items@ =~= Seq::<char>::empty());
        assert(all.take(0) =~= Seq::<Seq<char>>::empty());
        while i < candles.len()
            invariant
                i <= candles@.len(),
                all == candles@.map_values(|c: Candle| candle_json(c)),
                items@ == comma_joined(all.take(i as int)),
            decreases candles@.len() - i,
        {
            let item = format_candle(&candles[i]);
            push_item(&mut items, i == 0, item.as_str(), Ghost(all.take(i as int)));
            proof {
                assert(all[i as int] == item@);
                assert(all.take(i + 1) =~= all.take(i as int).push(item@));
            }
            i += 1;
        }
        assert(all.take(i as int) =~= all);
        let mut out = String::new();
        out.append("[");
        assert(out@ =~= "["@);
        out.append(items.as_str());
        out.append("]");
        out
    }

    /// The depth of an instrument as JSON.
    pub fn depth_json(&self, symbol: InstrumentId) -> (r: String)
        requires
            self.wf(),
        ensures
            r@ == self@.depth_text(symbol.0),
    {
        proof {
            assert(depths(self.live@).contains_key(symbol.0) == self.live@.contains_key(symbol.0));
        }
        let mut out = String::new();
        out.append("{\"bids\":[");
        assert(out@ =~= "{\"bids\":["@);
        match self.live.get(&symbol.0) {
            Some(d) => {
                let bids = format_levels(&d.bids);
                let asks = format_levels(&d.asks);
                out.append(bids.as_str());
                out.append("],\"asks\":[");
                out.append(asks.as_str());
            },
            None => {
                let none: Vec<(u64, u64)> = Vec::new();
                let bids = format_levels(&none);
                out.append(bids.as_str());
                out.append("],\"asks\":[");
                out.append(bids.as_str());
                proof {
                    assert(none@ =~= Seq::<(u64, u64)>::empty());
                }
            },
        }
        out.append("]}");
        out
    }

    /// The latest trades of an instrument as JSON, at most a thousand of them.
    pub fn trades_json(&self, symbol: InstrumentId, limit: u64) -> (r: String)
        requires
            self.wf(),
        ensures
            r@ == self@.trades_text(symbol.0, limit),
    {
        let n: usize = if limit <= 1000 {
            limit as usize
        } else {
            1000
        };
        let ghost ticks = self@.ticks(symbol.0);
        let ghost all = recent(ticks, n as nat).map_values(|t: Tick| tick_json(t));
        proof {
            assert(ticks_of(self.trades@).contains_key(symbol.0) == self.trades@.contains_key(
                symbol.0,
            ));
        }
        let mut items = String::new();
        assert(items@ =~= Seq::<char>::empty());
        assert(all.take(0) =~= Seq::<Seq<char>>::empty());
        match self.trades.get(&symbol.0) {
            Some(queue) => {
                let len: usize = queue.len();
                let from: usize = if len > n {
                    len - n
                } else {
                    0
                };
                let mut i: usize = from;
                while i < len
                    invariant
                        from <= i <= len == queue@.len(),
                        from == if len > n {
                            len - n
                        } else {
                            0
                        },
                        ticks == queue@,
                        all == recent(ticks, n as nat).map_values(|t: Tick| tick_json(t)),
                        items@ == comma_joined(all.take(i - from)),
                    decreases len - i,
                {
                    let item = format_tick(&queue[i]);
                    push_item(&mut items, i == from, item.as_str(), Ghost(all.take(i - from)));
                    proof {
                        assert(recent(ticks, n as nat)[i - from] == ticks[i as int]);
                        assert(all[i - from] == item@);
                        assert(all.take(i - from + 1) =~= all.take(i - from).push(item@));
                    }
                    i += 1;
                }
                assert(all.take(i - from) =~= all);
            },
            None => {
                assert(all =~= Seq::<Seq<char>>::empty());
            },
        }
        let mut out = String::new();
        out.append("[");
        assert(out@ =~= "["@);
        out.append(items.as_str());
        out.append("]");
        out
    }

    /// What a subscriber of an instrument and interval is sent.
    pub fn push_json(&self, symbol: InstrumentId, interval: &str) -> (r: String)
        requires
            self.wf(),
        ensures
            r@ == self@.push_text(symbol.0, interval@),
    {
        let candles = self.candles_json(symbol, interval, 120);
        let depth = self.depth_json(symbol);
        let mut out = String::new();
        out.append("{\"candles\":");
        assert(out@ =~= "{\"candles\":"@);
        out.append(candles.as_str());
        out.append(",\"depth\":");
        out.append(depth.as_str());
        out.append("}");
        out
    }

    /// The instruments that have traded as JSON.
    pub fn symbols_json(&self) -> (r: String)
        requires
            self.wf(),
        ensures
            exists|ids: Seq<InstrumentId>| #[trigger]
                self@.is_listing(ids) && r@ == "["@ + comma_joined(
                    ids.map_values(|id: InstrumentId| decimal(id.0 as nat)),
                ) + "]"@,
    {
        let ids = self.agg.instruments();
        assert(self@.is_listing(ids@));
        let ghost all = ids@.map_values(|id: InstrumentId| decimal(id.0 as nat));
        let mut items = String::new();
        let mut i: usize = 0;
        assert(items@ =~= Seq::<char>::empty());
        assert(all.take(0) =~= Seq::<Seq<char>>::empty());
        while i < ids.len()
            invariant
                i <= ids@.len(),
                all == ids@.map_values(|id: InstrumentId| decimal(id.0 as nat)),
                items@ == comma_joined(all.take(i as int)),
            decreases ids@.len() - i,
        {
            let mut item = String::new();
            push_decimal(&mut item, ids[i].0 as u64);
            assert(item@ =~= decimal(ids@[i as int].0 as nat));
            push_item(&mut items, i == 0, item.as_str(), Ghost(all.take(i as int)));
            proof {
                assert(all[i as int] == item@);
                assert(all.take(i + 1) =~= all.take(i as int).push(item@));
            }
            i += 1;
        }
        assert(all.take(i as int) =~= all);
        let mut out = String::new();
        out.append("[");
        assert(out@ =~= "["@);
        out.append(items.as_str());
        out.append("]");
        out
    }

    fn format_row(&self, id: InstrumentId) -> (r: (String, usize, u128))
        requires
            self.wf(),
        ensures
            r.0@ == self@.row_json(id),
            r.1 == self@.ticks(id.0).len(),
            r.1 <= MAX_TRADES,
            r.2 == volume(self@.ticks(id.0)),
            r.2 <= 18446744073709551615000,
    {
        let mut count: usize = 0;
        let mut sum: u128 = 0;
        let mut last: u64 = 0;
        let ghost ticks = self@.ticks(id.0);
        proof {
            assert(ticks_of(self.trades@).contains_key(id.0) == self.trades@.contains_key(id.0));
            assert(depths(self.live@).contains_key(id.0) == self.live@.contains_key(id.0));
        }
        if let Some(queue) = self.trades.get(&id.0) {
            count = queue.len();
            let mut i: usize = 0;
            while i < count
                invariant
                    i <= count == queue@.len(),
                    ticks == queue@,
                    sum == volume(ticks.take(i as int)),
                    sum <= i * u64::MAX,
                decreases count - i,
            {
                proof {
                    assert(ticks.take(i + 1).drop_last() =~= ticks.take(i as int));
                    assert(i * u64::MAX + u64::MAX <= u128::MAX) by (nonlinear_arith)
                        requires
                            i <= u64::MAX,
                    ;
                    assert((i + 1) * u64::MAX == i * u64::MAX + u64::MAX) by (nonlinear_arith);
                }
                sum = sum + queue[i].qty as u128;
                i += 1;
            }
            assert(ticks.take(i as int) =~= ticks);
            if count > 0 {
                last = queue[count - 1].ts;
            }
        }
        let (bids, asks): (usize, usize) = match self.live.get(&id.0) {
            Some(d) => (d.bids.len(), d.asks.len()),
            None => (0, 0),
        };
        let mut out = String::new();
        out.append("{\"instrument\":");
        assert(out@ =~= "{\"instrument\":"@);
        push_decimal(&mut out, id.0 as u64);
        out.append(",\"trades\":");
        push_decimal(&mut out, count as u64);
        out.append(",\"volume\":");
        push_decimal_wide(&mut out, sum);
        out.append(",\"last_trade\":");
        push_decimal(&mut out, last);
        out.append(",\"bid_levels\":");
        push_decimal(&mut out, bids as u64);
        out.append(",\"ask_levels\":");
        push_decimal(&mut out, asks as u64);
        out.append("}");
        (out, count, sum)
    }

    /// The overview of all instruments as JSON.
    pub fn overview_json(&self) -> (r: String)
        requires
            self.wf(),
        ensures
            exists|ids: Seq<InstrumentId>| #[trigger]
                self@.is_listing(ids) && r@ == self@.overview_text(ids),
    {
        let ids = self.agg.instruments();
        assert(self@.is_listing(ids@));
        let ghost all = ids@.map_values(|id: InstrumentId| self@.row_json(id));
        let mut items = String::new();
        let mut trades: u64 = 0;
        let mut total: u128 = 0;
        let mut i: usize = 0;
        proof {
            lemma_listing_len(ids@, ids@.len() as int);
        }
        assert(items@ =~= Seq::<char>::empty());
        assert(all.take(0) =~= Seq::<Seq<char>>::empty());
        assert(ids@.take(0) =~= Seq::<InstrumentId>::empty());
        while i < ids.len()
            invariant
                self.wf(),
                i <= ids@.len(),
                all == ids@.map_values(|id: InstrumentId| self@.row_json(id)),
                items@ == comma_joined(all.take(i as int)),
                trades == self@.total_trades(ids@.take(i as int)),
                total == self@.total_volume(ids@.take(i as int)),
                ids@.len() <= 0x1_0000_0000,
                trades <= i * MAX_TRADES,
                total <= i * 18446744073709551615000,
            decreases ids@.len() - i,
        {
            let (item, count, sum) = self.format_row(ids[i]);
            push_item(&mut items, i == 0, item.as_str(), Ghost(all.take(i as int)));
            proof {
                assert(all[i as int] == item@);
                assert(all.take(i + 1) =~= all.take(i as int).push(item@));
                assert(ids@.take(i + 1).drop_last() =~= ids@.take(i as int));
                assert(ids@.take(i + 1).last() == ids@[i as int]);
            }
            trades = trades + count as u64;
            total = total + sum;
            i += 1;
        }
        assert(all.take(i as int) =~= all);
        assert(ids@.take(i as int) =~= ids@);
        let mut out = String::new();
        out.append("{\"assets\":");
        assert(out@ =~= "{\"assets\":"@);
        push_decimal(&mut out, ids.len() as u64);
        out.append(",\"recent_trades\":");
        push_decimal(&mut out, trades);
        out.append(",\"recent_volume\":");
        push_decimal_wide(&mut out, total);
        out.append(",\"instruments\":[");
        out.append(items.as_str());
        out.append("]}");
        out
    }
}

proof fn lemma_listing_len(ids: Seq<InstrumentId>, n: int)
    requires
        forall|i: int, j: int|
            0 <= i < j < ids.len() ==> #[trigger] ids[i].0 < #[trigger] ids[j].0,
        0 <= n <= ids.len(),
    ensures
        n > 0 ==> ids[n - 1].0 >= n - 1,
        n <= 0x1_0000_0000,
    decreases n,
{
    if n > 1 {
        lemma_listing_len(ids, n - 1);
        assert(ids[n - 2].0 < ids[n - 1].0);
    }
}

/// A trade that is new is shown: it is the latest trade of its instrument, it closes the last
/// candle of every chart, and it is remembered. Of the trades before it as many as there is
/// room for stay, in their order.
pub proof fn law_new_trades_are_shown(m: MarketView, ts: u64, r: DecodedReport, i: int)
    requires
        r.type_code == RT_TRADE,
        !m.seen.contains(r),
        m.window > 0,
        0 <= i < INTERVAL_COUNT,
        m.chart(r.instrument.0).len() == INTERVAL_COUNT,
        m.chart(r.instrument.0)[i].len() <= m.window,
        m.ticks(r.instrument.0).len() <= MAX_TRADES,
    ensures
        ({
            let now = m.after(ts, r);
            let before = m.ticks(r.instrument.0);
            let ticks = now.ticks(r.instrument.0);
            let line = now.chart(r.instrument.0)[i];
            &&& ticks.last() == (Tick {
                ts,
                price: r.price,
                qty: r.qty,
                maker_fee: r.maker_fee,
                taker_fee: r.taker_fee,
            })
            &&& ticks.drop_last() == before || ticks.drop_last() == before.skip(1)
            &&& before.len() < 1000 ==> ticks.drop_last() == before
            &&& ticks.len() <= 1000
            &&& line.last().close == r.price
            &&& line.last().start == bucket(interval_at(i), ts) as u64
            &&& now.seen.contains(r)
            &&& now.live == m.live
        }),
{
    let now = m.after(ts, r);
    let id = r.instrument.0;
    let ticks = now.ticks(id);
    let before = m.ticks(id);
    crate::kline::law_a_trade_shows_on_every_chart(m.chart(id), ts, r.price, r.qty, m.window, i);
    if before.len() < MAX_TRADES {
        assert(ticks.drop_last() =~= before);
    } else {
        assert(ticks.drop_last() =~= before.skip(1));
    }
    assert(now.seen.last() == r);
    assert(now.seen[now.seen.len() - 1] == r);
}

/// A level that is received stands at its place on its side of the draft; the levels of the
/// other side and those at other places stay.
pub proof fn law_levels_stand_at_their_place(m: MarketView, ts: u64, r: DecodedReport)
    requires
        r.type_code == RT_DEPTH_LEVEL,
    ensures
        ({
            let was = m.draft(r.instrument.0);
            let now = m.after(ts, r).draft(r.instrument.0);
            let (old_side, new_side, old_other, new_other) = if r.side == Side::Buy {
                (was.bids, now.bids, was.asks, now.asks)
            } else {
                (was.asks, now.asks, was.bids, now.bids)
            };
            &&& new_other == old_other
            &&& r.aux_id < new_side.len()
            &&& new_side[r.aux_id as int] == (r.price, r.qty)
            &&& forall|k: int|
                0 <= k < old_side.len() && k != r.aux_id ==> #[trigger] new_side[k] == old_side[k]
        }),
{
}

/// At the end of depth the draft is shown, cut to the numbers of bids and asks that the report
/// gives, the bids in its lowest byte and the asks in the next one; and the draft is gone.
pub proof fn law_depth_is_shown_at_its_end(m: MarketView, ts: u64, r: DecodedReport, bids: u8, asks: u8)
    requires
        r.type_code == RT_DEPTH_END,
        m.pending.contains_key(r.instrument.0),
        r.aux_id == asks * 256 + bids,
        m.pending[r.instrument.0].bids.len() >= bids,
        m.pending[r.instrument.0].asks.len() >= asks,
    ensures
        ({
            let now = m.after(ts, r);
            let draft = m.pending[r.instrument.0];
            &&& now.depth(r.instrument.0).bids == draft.bids.take(bids as int)
            &&& now.depth(r.instrument.0).asks == draft.asks.take(asks as int)
            &&& now.draft(r.instrument.0) == DepthView::none()
        }),
{
    let draft = m.pending[r.instrument.0];
    assert(draft.bids.take(draft.bids.len() as int) =~= draft.bids);
    assert(draft.asks.take(draft.asks.len() as int) =~= draft.asks);
    assert(r.aux_id as int % 256 == bids);
    assert((r.aux_id as int / 256) % 256 == asks);
}

/// What is shown of a list is its end: as many as asked for, up to a thousand, the latest
/// last, and all of it if it is not longer.
pub proof fn law_the_latest_are_shown<T>(all: Seq<T>, limit: u64)
    ensures
        ({
            let shown = recent(all, bounded_limit(limit));
            &&& shown.len() <= limit && shown.len() <= 1000 && shown.len() <= all.len()
            &&& shown.len() == limit || shown.len() == 1000 || shown.len() == all.len()
            &&& forall|k: int|
                0 <= k < shown.len() ==> #[trigger] shown[k] == all[all.len() - shown.len() + k]
        }),
{
}

/// Candles of an interval are found by its name.
pub proof fn law_candles_are_found_by_name(m: MarketView, instrument: u32, i: int, limit: nat)
    requires
        0 <= i < INTERVAL_COUNT,
    ensures
        m.candles(instrument, interval_title(i), limit) == recent(m.chart(instrument)[i], limit),
{
    lemma_named(i, 0);
}

proof fn lemma_named(i: int, from: int)
    requires
        0 <= from <= i < INTERVAL_COUNT,
    ensures
        interval_named(interval_title(i), from) == Some(i),
    decreases i - from,
{
    if interval_title(i) == interval_title(from) {
        crate::kline::law_interval_names_differ(i, from);
    } else {
        lemma_named(i, from + 1);
    }
}

} // verus!
