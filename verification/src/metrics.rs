//! Operational metrics in the Prometheus text format.
//!
//! Beside each total, maximum and count of a latency stands a histogram with
//! fixed logarithmic buckets: one for each leading digit of each power of ten
//! from a microsecond on, and one for everything above.

use vstd::prelude::*;
use vstd::string::StringExecFns;

use crate::exchange::ExecReport;
use crate::text::{
    chars_of, decimal, has_prefix, is_text, push_decimal, push_decimal_wide, strip_prefix,
};

verus! {

/// Buckets with a bound.
pub const FINITE_BUCKETS: usize = 72;

/// All buckets.
pub const BUCKET_COUNT: usize = 73;

/// Ten to the power of the exponent of decade `d`.
pub open spec fn decade(d: int) -> int {
    if d == 0 {
        1_000
    } else if d == 1 {
        10_000
    } else if d == 2 {
        100_000
    } else if d == 3 {
        1_000_000
    } else if d == 4 {
        10_000_000
    } else if d == 5 {
        100_000_000
    } else if d == 6 {
        1_000_000_000
    } else {
        10_000_000_000
    }
}

/// Upper bound of bucket `i` in nanoseconds: nine for each power of ten, from a
/// microsecond on.
pub open spec fn bound(i: int) -> int {
    (i % 9 + 1) * decade(i / 9)
}

/// Upper bound of bucket `i` in nanoseconds.
pub fn bucket_le(i: usize) -> (r: u64)
    requires
        i < FINITE_BUCKETS,
    ensures
        r == bound(i as int),
{
    let digit: u64 = (i % 9 + 1) as u64;
    let unit: u64 = match i / 9 {
        0 => 1_000,
        1 => 10_000,
        2 => 100_000,
        3 => 1_000_000,
        4 => 10_000_000,
        5 => 100_000_000,
        6 => 1_000_000_000,
        _ => 10_000_000_000,
    };
    assert(digit * unit <= 90_000_000_000) by (nonlinear_arith)
        requires
            digit <= 9,
            unit <= 10_000_000_000,
    ;
    digit * unit
}

/// `i` is the first bucket whose bound is not below `v`, or the last one, which
/// has none.
pub open spec fn is_bucket_of(i: int, v: u64) -> bool {
    &&& 0 <= i <= FINITE_BUCKETS
    &&& i < FINITE_BUCKETS ==> v <= bound(i)
    &&& forall|j: int| 0 <= j < i ==> v > #[trigger] bound(j)
}

/// The bucket of a sample whose leading digit counts units of decade `d`.
fn bucket_in_decade(v: u64, d: usize, unit: u64) -> (r: usize)
    requires
        d < 8,
        unit == decade(d as int),
        unit <= v < 10 * unit,
    ensures
        is_bucket_of(r as int, v),
{
    let whole: u64 = v / unit;
    let part: u64 = v % unit;
    assert(v == whole * unit + part && 0 <= part < unit) by (nonlinear_arith)
        requires
            unit > 0,
            whole == v / unit,
            part == v % unit,
    ;
    assert(1 <= whole <= 9) by (nonlinear_arith)
        requires
            v == whole * unit + part,
            0 <= part < unit,
            unit <= v < 10 * unit,
    ;
    let below: usize = if part == 0 {
        whole as usize - 1
    } else {
        whole as usize
    };
    let i: usize = d * 9 + below;
    proof {
        assert(below * unit < v <= (below + 1) * unit) by (nonlinear_arith)
            requires
                v == whole * unit + part,
                0 <= part < unit,
                below == if part == 0 {
                    whole - 1
                } else {
                    whole as int
                },
        ;
        if below == 9 {
            assert(i as int == 9 * (d + 1));
            assert(i < FINITE_BUCKETS ==> bound(i as int) == 10 * unit);
        } else {
            assert(i as int / 9 == d && i as int % 9 == below);
            assert(bound(i as int) == (below + 1) * unit);
        }
        assert forall|j: int| 0 <= j < i implies v > #[trigger] bound(j) by {
            let e = j / 9;
            let k = j % 9;
            assert((k + 1) * decade(e) <= 9 * decade(e)) by (nonlinear_arith)
                requires
                    k <= 8,
                    decade(e) > 0,
            ;
            if e < d {
                assert(10 * decade(e) <= decade(d as int));
            } else {
                assert(e == d && k < below);
                assert((k + 1) * unit <= below * unit) by (nonlinear_arith)
                    requires
                        k + 1 <= below,
                        unit > 0,
                ;
            }
        }
    }
    i
}

/// The bucket of a sample, from its leading digit; the bounds are not searched.
pub fn bucket_index(v: u64) -> (r: usize)
    ensures
        is_bucket_of(r as int, v),
{
    if v < 1_000 {
        0
    } else if v < 10_000 {
        bucket_in_decade(v, 0, 1_000)
    } else if v < 100_000 {
        bucket_in_decade(v, 1, 10_000)
    } else if v < 1_000_000 {
        bucket_in_decade(v, 2, 100_000)
    } else if v < 10_000_000 {
        bucket_in_decade(v, 3, 1_000_000)
    } else if v < 100_000_000 {
        bucket_in_decade(v, 4, 10_000_000)
    } else if v < 1_000_000_000 {
        bucket_in_decade(v, 5, 100_000_000)
    } else if v < 10_000_000_000 {
        bucket_in_decade(v, 6, 1_000_000_000)
    } else if v < 100_000_000_000 {
        bucket_in_decade(v, 7, 10_000_000_000)
    } else {
        assert forall|j: int| 0 <= j < FINITE_BUCKETS implies v > #[trigger] bound(j) by {
            assert((j % 9 + 1) * decade(j / 9) <= 9 * 10_000_000_000) by (nonlinear_arith)
                requires
                    0 <= j % 9 <= 8,
                    0 < decade(j / 9) <= 10_000_000_000,
            ;
        }
        FINITE_BUCKETS
    }
}

/// A sample has one bucket.
pub proof fn law_one_bucket(i: int, j: int, v: u64)
    requires
        is_bucket_of(i, v),
        is_bucket_of(j, v),
    ensures
        i == j,
{
    if i < j {
        assert(v > bound(i));
    } else if j < i {
        assert(v > bound(j));
    }
}

/// Estimates of the median, the 90th and the 99th percentile in nanoseconds.
#[derive(Clone, Copy, Debug, PartialEq, Eq, Structural)]
pub struct Quantiles {
    pub p50: u64,
    pub p90: u64,
    pub p99: u64,
}

/// The distribution of a latency.
#[derive(Debug)]
pub struct LatencyHistogram {
    buckets: Vec<u64>,
    sum_ns: u64,
}

/// What a histogram holds.
#[verifier::ext_equal]
pub struct HistogramView {
    /// Samples of each bucket.
    pub counts: Seq<u64>,
    /// Sum of all samples.
    pub sum: u64,
}

impl View for LatencyHistogram {
    type V = HistogramView;

    closed spec fn view(&self) -> HistogramView {
        HistogramView { counts: self.buckets@, sum: self.sum_ns }
    }
}

impl HistogramView {
    /// There is a count for each bucket.
    pub open spec fn wf(self) -> bool {
        self.counts.len() == BUCKET_COUNT
    }

    /// Without samples.
    pub open spec fn none() -> HistogramView {
        HistogramView { counts: Seq::new(BUCKET_COUNT as nat, |i: int| 0u64), sum: 0 }
    }

    /// Samples in the first `n` buckets.
    pub open spec fn cumulative(self, n: nat) -> nat
        decreases n,
    {
        if n == 0 {
            0
        } else {
            self.cumulative((n - 1) as nat) + self.counts[n - 1] as nat
        }
    }
}

/// The bucket of a sample.
pub open spec fn bucket_of(v: u64) -> int {
    choose|i: int| is_bucket_of(i, v)
}

/// A histogram after one more sample.
pub open spec fn sampled(h: HistogramView, ns: u64) -> HistogramView {
    let i = bucket_of(ns);
    HistogramView {
        counts: h.counts.update(i, h.counts[i].wrapping_add(1)),
        sum: h.sum.wrapping_add(ns),
    }
}

impl Default for LatencyHistogram {
    fn default() -> (r: LatencyHistogram)
        ensures
            r@ == HistogramView::none(),
    {
        let mut buckets: Vec<u64> = Vec::new();
        let mut i: usize = 0;
        while i < BUCKET_COUNT
            invariant
                i <= BUCKET_COUNT,
                buckets@ == Seq::new(i as nat, |j: int| 0u64),
            decreases BUCKET_COUNT - i,
        {
            buckets.push(0);
            i += 1;
            assert(buckets@ =~= Seq::new(i as nat, |j: int| 0u64));
        }
        LatencyHistogram { buckets, sum_ns: 0 }
    }
}

/// What precedes `le` in the labels of a bucket.
pub open spec fn label_prefix(label: Option<Seq<char>>) -> Seq<char> {
    match label {
        Some(text) => text + ","@,
        None => Seq::empty(),
    }
}

/// The labels of a series without buckets.
pub open spec fn label_set(label: Option<Seq<char>>) -> Seq<char> {
    match label {
        Some(text) => "{"@ + text + "}"@,
        None => Seq::empty(),
    }
}

/// The lines of the first `n` buckets, each with the samples up to its bound.
pub open spec fn bucket_lines(base: Seq<char>, prefix: Seq<char>, h: HistogramView, n: nat) -> Seq<
    char,
>
    decreases n,
{
    if n == 0 {
        Seq::empty()
    } else {
        bucket_lines(base, prefix, h, (n - 1) as nat) + "tc_"@ + base + "_bucket{"@ + prefix
            + "le=\""@ + decimal(bound(n - 1) as nat) + "\"} "@ + decimal(h.cumulative(n))
            + "\n"@
    }
}

/// The series of a histogram: buckets, sum, count, and the estimates.
pub open spec fn histogram_text(
    base: Seq<char>,
    label: Option<Seq<char>>,
    h: HistogramView,
    q: Quantiles,
) -> Seq<char> {
    let set = label_set(label);
    let total = h.cumulative(BUCKET_COUNT as nat);
    bucket_lines(base, label_prefix(label), h, FINITE_BUCKETS as nat) + "tc_"@ + base
        + "_bucket{"@ + label_prefix(label) + "le=\"+Inf\"} "@ + decimal(total) + "\n"@ + "tc_"@
        + base + "_sum"@ + set + " "@ + decimal(h.sum as nat) + "\n"@ + "tc_"@ + base
        + "_count"@ + set + " "@ + decimal(total) + "\n"@ + "tc_"@ + base + "_p50"@ + set
        + " "@ + decimal(q.p50 as nat) + "\n"@ + "tc_"@ + base + "_p90"@ + set + " "@
        + decimal(q.p90 as nat) + "\n"@ + "tc_"@ + base + "_p99"@ + set + " "@ + decimal(
        q.p99 as nat,
    ) + "\n"@
}

/// The head of a histogram.
pub open spec fn histogram_head(base: Seq<char>, help: Seq<char>) -> Seq<char> {
    "# HELP tc_"@ + base + " "@ + help + "\n# TYPE tc_"@ + base + " histogram\n"@
}

/// The types of the estimates of a histogram.
pub open spec fn gauge_types(base: Seq<char>) -> Seq<char> {
    "# TYPE tc_"@ + base + "_p50 gauge\n# TYPE tc_"@ + base + "_p90 gauge\n# TYPE tc_"@ + base
        + "_p99 gauge\n"@
}

fn format_head(base: &str, help: &str) -> (r: String)
    ensures
        r@ == histogram_head(base@, help@),
{
    let mut out = String::new();
    out.append("# HELP tc_");
    assert(out@ =~= "# HELP tc_"@);
    out.append(base);
    out.append(" ");
    out.append(help);
    out.append("\n# TYPE tc_");
    out.append(base);
    out.append(" histogram\n");
    out
}

fn format_gauge_types(base: &str) -> (r: String)
    ensures
        r@ == gauge_types(base@),
{
    let mut out = String::new();
    out.append("# TYPE tc_");
    assert(out@ =~= "# TYPE tc_"@);
    out.append(base);
    out.append("_p50 gauge\n# TYPE tc_");
    out.append(base);
    out.append("_p90 gauge\n# TYPE tc_");
    out.append(base);
    out.append("_p99 gauge\n");
    out
}

impl LatencyHistogram {
    /// A histogram without samples.
    pub fn new() -> (r: LatencyHistogram)
        ensures
            r@ == HistogramView::none(),
    {
        LatencyHistogram::default()
    }

    /// Records one sample.
    pub fn record(&mut self, ns: u64)
        requires
            old(self)@.wf(),
        ensures
            final(self)@.wf(),
            final(self)@ == sampled(old(self)@, ns),
    {
        let i: usize = bucket_index(ns);
        proof {
            law_one_bucket(i as int, bucket_of(ns), ns);
        }
        let n: u64 = self.buckets[i];
        self.buckets.set(i, n.wrapping_add(1));
        self.sum_ns = self.sum_ns.wrapping_add(ns);
    }

    /// Samples of each bucket.
    pub fn snapshot(&self) -> (r: &Vec<u64>)
        ensures
            r@ == self@.counts,
    {
        &self.buckets
    }

    /// Sum of all samples.
    pub fn sum_ns(&self) -> (r: u64)
        ensures
            r == self@.sum,
    {
        self.sum_ns
    }

    /// The series of this histogram; the estimates are the caller's.
    fn format(&self, base: &str, label: Option<&str>, q: &Quantiles) -> (r: String)
        requires
            self@.wf(),
        ensures
            r@ == histogram_text(
                base@,
                match label {
                    Some(text) => Some(text@),
                    None => None,
                },
                self@,
                *q,
            ),
    {
        let ghost tag = match label {
            Some(text) => Some(text@),
            None => None,
        };
        let mut prefix = String::new();
        let mut set = String::new();
        assert(prefix@ =~= Seq::<char>::empty());
        assert(set@ =~= Seq::<char>::empty());
        if let Some(text) = label {
            prefix.append(text);
            assert(prefix@ =~= text@);
            prefix.append(",");
            set.append("{");
            assert(set@ =~= "{"@);
            set.append(text);
            set.append("}");
        }
        assert(prefix@ == label_prefix(tag));
        assert(set@ == label_set(tag));
        let mut out = String::new();
        assert(out@ =~= bucket_lines(base@, prefix@, self@, 0));
        let mut sum: u128 = 0;
        let mut i: usize = 0;
        while i < FINITE_BUCKETS
            invariant
                i <= FINITE_BUCKETS,
                self@.wf(),
                sum == self@.cumulative(i as nat),
                sum <= i * u64::MAX,
                out@ == bucket_lines(base@, prefix@, self@, i as nat),
            decreases FINITE_BUCKETS - i,
        {
            assert(self@.cumulative((i + 1) as nat) == self@.cumulative(i as nat)
                + self.buckets@[i as int]);
            sum = sum + self.buckets[i] as u128;
            out.append("tc_");
            out.append(base);
            out.append("_bucket{");
            out.append(prefix.as_str());
            out.append("le=\"");
            push_decimal(&mut out, bucket_le(i));
            out.append("\"} ");
            push_decimal_wide(&mut out, sum);
            out.append("\n");
            i += 1;
        }
        assert(self@.cumulative(BUCKET_COUNT as nat) == self@.cumulative(FINITE_BUCKETS as nat)
            + self.buckets@[FINITE_BUCKETS as int]);
        sum = sum + self.buckets[FINITE_BUCKETS] as u128;
        out.append("tc_");
        out.append(base);
        out.append("_bucket{");
        out.append(prefix.as_str());
        out.append("le=\"+Inf\"} ");
        push_decimal_wide(&mut out, sum);
        out.append("\n");
        out.append("tc_");
        out.append(base);
        out.append("_sum");
        out.append(set.as_str());
        out.append(" ");
        push_decimal(&mut out, self.sum_ns);
        out.append("\n");
        out.append("tc_");
        out.append(base);
        out.append("_count");
        out.append(set.as_str());
        out.append(" ");
        push_decimal_wide(&mut out, sum);
        out.append("\n");
        out.append("tc_");
        out.append(base);
        out.append("_p50");
        out.append(set.as_str());
        out.append(" ");
        push_decimal(&mut out, q.p50);
        out.append("\n");
        out.append("tc_");
        out.append(base);
        out.append("_p90");
        out.append(set.as_str());
        out.append(" ");
        push_decimal(&mut out, q.p90);
        out.append("\n");
        out.append("tc_");
        out.append(base);
        out.append("_p99");
        out.append(set.as_str());
        out.append(" ");
        push_decimal(&mut out, q.p99);
        out.append("\n");
        out
    }

    /// This histogram as a block of its own.
    pub fn render_standalone(&self, base: &str, help: &str, q: &Quantiles) -> (r: String)
        requires
            self@.wf(),
        ensures
            r@ == histogram_block(base@, help@, self@, *q),
    {
        let mut out = format_head(base, help);
        let text = self.format(base, None, q);
        out.append(text.as_str());
        let types = format_gauge_types(base);
        out.append(types.as_str());
        out
    }
}

/// A histogram with its head and the types of its estimates.
pub open spec fn histogram_block(
    base: Seq<char>,
    help: Seq<char>,
    h: HistogramView,
    q: Quantiles,
) -> Seq<char> {
    histogram_head(base, help) + histogram_text(base, None, h, q) + gauge_types(base)
}

/// One of the latency histograms.
#[derive(Clone, Copy, Debug, PartialEq, Eq, Structural)]
pub enum LatencyMetric {
    Command,
    RaftCommit,
    WalFsync,
    Match,
}

impl LatencyMetric {
    /// Position among the histograms.
    pub open spec fn slot(self) -> int {
        match self {
            LatencyMetric::Command => 0,
            LatencyMetric::RaftCommit => 1,
            LatencyMetric::WalFsync => 2,
            LatencyMetric::Match => 3,
        }
    }

    fn index(self) -> (r: usize)
        ensures
            r == self.slot(),
            r < 4,
    {
        match self {
            LatencyMetric::Command => 0,
            LatencyMetric::RaftCommit => 1,
            LatencyMetric::WalFsync => 2,
            LatencyMetric::Match => 3,
        }
    }
}

/// Histograms for a fixed set of label values.
#[derive(Debug)]
pub struct LabeledHistogram {
    base: String,
    help: String,
    label_key: String,
    labels: Vec<String>,
    hists: Vec<LatencyHistogram>,
}

/// What a labelled histogram holds.
pub struct LabeledView {
    pub base: Seq<char>,
    pub help: Seq<char>,
    pub key: Seq<char>,
    pub labels: Seq<Seq<char>>,
    pub hists: Seq<HistogramView>,
}

impl View for LabeledHistogram {
    type V = LabeledView;

    closed spec fn view(&self) -> LabeledView {
        LabeledView {
            base: self.base@,
            help: self.help@,
            key: self.label_key@,
            labels: Seq::new(self.labels@.len(), |i: int| self.labels@[i]@),
            hists: hist_views(self.hists@),
        }
    }
}

/// What several histograms hold.
pub open spec fn hist_views(hists: Seq<LatencyHistogram>) -> Seq<HistogramView> {
    Seq::new(hists.len(), |i: int| hists[i]@)
}

impl LabeledView {
    /// There is a histogram for each label.
    pub open spec fn wf(self) -> bool {
        &&& self.labels.len() == self.hists.len()
        &&& forall|i: int| 0 <= i < self.hists.len() ==> (#[trigger] self.hists[i]).wf()
    }

    /// The label of series `i` with its key.
    pub open spec fn pair(self, i: int) -> Seq<char> {
        self.key + "=\""@ + self.labels[i] + "\""@
    }

    /// The first `n` series.
    pub open spec fn series(self, q: Seq<Quantiles>, n: nat) -> Seq<char>
        decreases n,
    {
        if n == 0 {
            Seq::empty()
        } else {
            self.series(q, (n - 1) as nat) + histogram_text(
                self.base,
                Some(self.pair(n - 1)),
                self.hists[n - 1],
                q[n - 1],
            )
        }
    }

    /// The whole block.
    pub open spec fn block(self, q: Seq<Quantiles>) -> Seq<char> {
        histogram_head(self.base, self.help) + self.series(q, self.labels.len()) + gauge_types(
            self.base,
        )
    }
}

impl LabeledHistogram {
    /// One histogram for each label value.
    pub fn new(base: &str, help: &str, label_key: &str, labels: Vec<String>) -> (r: LabeledHistogram)
        ensures
            r@.wf(),
            r@.base == base@,
            r@.help == help@,
            r@.key == label_key@,
            r@.labels == Seq::new(labels@.len(), |i: int| labels@[i]@),
            r@.hists == Seq::new(labels@.len(), |i: int| HistogramView::none()),
    {
        let mut hists: Vec<LatencyHistogram> = Vec::new();
        let mut i: usize = 0;
        while i < labels.len()
            invariant
                i <= labels@.len(),
                hists@.len() == i,
                forall|j: int| 0 <= j < i ==> (#[trigger] hists@[j])@ == HistogramView::none(),
            decreases labels@.len() - i,
        {
            hists.push(LatencyHistogram::new());
            i += 1;
        }
        let r = LabeledHistogram {
            base: String::from_str(base),
            help: String::from_str(help),
            label_key: String::from_str(label_key),
            labels,
            hists,
        };
        assert(r@.hists =~= Seq::new(labels@.len(), |i: int| HistogramView::none()));
        r
    }

    /// Number of label values.
    pub fn len(&self) -> (r: usize)
        ensures
            r == self@.labels.len(),
    {
        self.labels.len()
    }

    /// Whether there is no label value.
    pub fn is_empty(&self) -> (r: bool)
        ensures
            r == (self@.labels.len() == 0),
    {
        self.labels.len() == 0
    }

    /// Position of a label value.
    pub fn index_of(&self, label: &str) -> (r: Option<usize>)
        ensures
            match r {
                Some(i) => {
                    &&& i < self@.labels.len()
                    &&& self@.labels[i as int] == label@
                    &&& forall|j: int| 0 <= j < i ==> #[trigger] self@.labels[j] != label@
                },
                None => forall|j: int|
                    0 <= j < self@.labels.len() ==> #[trigger] self@.labels[j] != label@,
            },
    {
        let want = chars_of(label);
        let mut i: usize = 0;
        while i < self.labels.len()
            invariant
                i <= self.labels@.len(),
                want@ == label@,
                forall|j: int| 0 <= j < i ==> #[trigger] self@.labels[j] != label@,
            decreases self.labels@.len() - i,
        {
            if is_text(want.as_slice(), self.labels[i].as_str()) {
                assert(self@.labels[i as int] == label@);
                return Some(i);
            }
            i += 1;
        }
        None
    }

    /// Records a sample in one series; one that does not exist is ignored.
    pub fn record_at(&mut self, idx: usize, ns: u64)
        requires
            old(self)@.wf(),
        ensures
            final(self)@.wf(),
            final(self)@ == (if idx < old(self)@.hists.len() {
                LabeledView {
                    hists: old(self)@.hists.update(
                        idx as int,
                        sampled(old(self)@.hists[idx as int], ns),
                    ),
                    ..old(self)@
                }
            } else {
                old(self)@
            }),
    {
        if idx < self.hists.len() {
            let ghost before = self.hists@;
            let mut h = self.hists.remove(idx);
            assert(old(self)@.hists[idx as int].wf());
            h.record(ns);
            self.hists.insert(idx, h);
            proof {
                assert(self.hists@ =~= before.update(idx as int, h));
                assert(self@.hists =~= old(self)@.hists.update(idx as int, h@));
                assert(self@.labels =~= old(self)@.labels);
                assert forall|i: int| 0 <= i < self@.hists.len() implies (
                #[trigger] self@.hists[i]).wf() by {
                    assert(old(self)@.hists[i].wf());
                }
            }
        }
    }

    /// The histograms, in the order of the labels.
    pub fn histograms(&self) -> (r: &Vec<LatencyHistogram>)
        ensures
            hist_views(r@) == self@.hists,
    {
        &self.hists
    }

    /// All series; the estimates are the caller's.
    fn format(&self, q: &Vec<Quantiles>) -> (r: String)
        requires
            self@.wf(),
            q@.len() == self@.labels.len(),
        ensures
            r@ == self@.block(q@),
    {
        let ghost view = self@;
        let mut body = String::new();
        assert(body@ =~= view.series(q@, 0));
        let mut i: usize = 0;
        while i < self.labels.len()
            invariant
                i <= self.labels@.len(),
                view == self@,
                view.wf(),
                q@.len() == view.labels.len(),
                body@ == view.series(q@, i as nat),
            decreases self.labels@.len() - i,
        {
            let mut pair = String::from_str(self.label_key.as_str());
            pair.append("=\"");
            pair.append(self.labels[i].as_str());
            pair.append("\"");
            assert(pair@ =~= view.pair(i as int));
            assert(view.hists[i as int].wf());
            let text = self.hists[i].format(self.base.as_str(), Some(pair.as_str()), &q[i]);
            body.append(text.as_str());
            i += 1;
        }
        let mut out = format_head(self.base.as_str(), self.help.as_str());
        out.append(body.as_str());
        let types = format_gauge_types(self.base.as_str());
        out.append(types.as_str());
        out
    }
}

/// Estimates for every histogram of a [`Metrics`].
#[derive(Debug)]
pub struct Estimates {
    /// One for each of the four latencies.
    pub families: Vec<Quantiles>,
    /// One for each group of commit latencies.
    pub groups: Vec<Quantiles>,
}

/// The counters and gauges of a node.
#[derive(Debug)]
pub struct Metrics {
    pub orders_accepted: u64,
    pub trades: u64,
    pub volume: u64,
    pub cancels: u64,
    pub rejects: u64,
    pub modifies: u64,
    pub journal_seq: u64,
    pub raft_role: u64,
    pub raft_term: u64,
    pub raft_leader_id: u64,
    pub raft_commit_index: u64,
    pub raft_enqueued_index: u64,
    pub raft_applied_index: u64,
    pub raft_transport_reconnects: u64,
    pub raft_transport_dropped: u64,
    pub command_latency_ns_total: u64,
    pub command_latency_ns_max: u64,
    pub command_latency_samples: u64,
    pub asset_wal_errors: u64,
    pub raft_commit_ns_total: u64,
    pub raft_commit_ns_max: u64,
    pub raft_commit_samples: u64,
    pub wal_fsync_ns_total: u64,
    pub wal_fsync_ns_max: u64,
    pub wal_fsync_samples: u64,
    pub match_ns_total: u64,
    pub match_ns_max: u64,
    pub match_samples: u64,
    pub execution_outbox_pending: u64,
    pub execution_outbox_published: u64,
    pub execution_outbox_publish_failures: u64,
    pub execution_outbox_publish_healthy: u64,
    pub execution_kafka_publish_ns_total: u64,
    pub execution_kafka_publish_ns_max: u64,
    pub execution_kafka_publish_samples: u64,
    pub ready: bool,
    pub hists: Vec<LatencyHistogram>,
    pub raft_commit_by_group: Option<LabeledHistogram>,
}

/// A counter or gauge with its help.
pub open spec fn metric_text(name: Seq<char>, help: Seq<char>, gauge: bool, v: nat) -> Seq<char> {
    "# HELP tc_"@ + name + " "@ + help + "\n# TYPE tc_"@ + name + (if gauge {
        " gauge\ntc_"@
    } else {
        " counter\ntc_"@
    }) + name + " "@ + decimal(v) + "\n"@
}

fn push_metric(out: &mut String, name: &str, help: &str, gauge: bool, v: u64)
    ensures
        final(out)@ == old(out)@ + metric_text(name@, help@, gauge, v as nat),
{
    let mut text = String::new();
    text.append("# HELP tc_");
    assert(text@ =~= "# HELP tc_"@);
    text.append(name);
    text.append(" ");
    text.append(help);
    text.append("\n# TYPE tc_");
    text.append(name);
    if gauge {
        text.append(" gauge\ntc_");
    } else {
        text.append(" counter\ntc_");
    }
    text.append(name);
    text.append(" ");
    push_decimal(&mut text, v);
    text.append("\n");
    out.append(text.as_str());
}

impl Default for Metrics {
    fn default() -> (r: Metrics)
        ensures
            r.wf(),
            !r.is_up(),
            r.latencies() == Seq::new(4, |i: int| HistogramView::none()),
            r.by_group() is None,
            r.orders_accepted == 0,
            r.trades == 0,
            r.volume == 0,
            r.cancels == 0,
            r.rejects == 0,
            r.modifies == 0,
            r.journal_seq == 0,
            r.raft_role == 0,
            r.raft_term == 0,
            r.raft_leader_id == 0,
            r.raft_commit_index == 0,
            r.raft_enqueued_index == 0,
            r.raft_applied_index == 0,
            r.raft_transport_reconnects == 0,
            r.raft_transport_dropped == 0,
            r.command_latency_ns_total == 0,
            r.command_latency_ns_max == 0,
            r.command_latency_samples == 0,
            r.asset_wal_errors == 0,
            r.raft_commit_ns_total == 0,
            r.raft_commit_ns_max == 0,
            r.raft_commit_samples == 0,
            r.wal_fsync_ns_total == 0,
            r.wal_fsync_ns_max == 0,
            r.wal_fsync_samples == 0,
            r.match_ns_total == 0,
            r.match_ns_max == 0,
            r.match_samples == 0,
            r.execution_outbox_pending == 0,
            r.execution_outbox_published == 0,
            r.execution_outbox_publish_failures == 0,
            r.execution_outbox_publish_healthy == 0,
            r.execution_kafka_publish_ns_total == 0,
            r.execution_kafka_publish_ns_max == 0,
            r.execution_kafka_publish_samples == 0,
    {
        let mut hists: Vec<LatencyHistogram> = Vec::new();
        hists.push(LatencyHistogram::new());
        hists.push(LatencyHistogram::new());
        hists.push(LatencyHistogram::new());
        hists.push(LatencyHistogram::new());
        let r = Metrics {
            orders_accepted: 0,
            trades: 0,
            volume: 0,
            cancels: 0,
            rejects: 0,
            modifies: 0,
            journal_seq: 0,
            raft_role: 0,
            raft_term: 0,
            raft_leader_id: 0,
            raft_commit_index: 0,
            raft_enqueued_index: 0,
            raft_applied_index: 0,
            raft_transport_reconnects: 0,
            raft_transport_dropped: 0,
            command_latency_ns_total: 0,
            command_latency_ns_max: 0,
            command_latency_samples: 0,
            asset_wal_errors: 0,
            raft_commit_ns_total: 0,
            raft_commit_ns_max: 0,
            raft_commit_samples: 0,
            wal_fsync_ns_total: 0,
            wal_fsync_ns_max: 0,
            wal_fsync_samples: 0,
            match_ns_total: 0,
            match_ns_max: 0,
            match_samples: 0,
            execution_outbox_pending: 0,
            execution_outbox_published: 0,
            execution_outbox_publish_failures: 0,
            execution_outbox_publish_healthy: 0,
            execution_kafka_publish_ns_total: 0,
            execution_kafka_publish_ns_max: 0,
            execution_kafka_publish_samples: 0,
            ready: false,
            hists,
            raft_commit_by_group: None,
        };
        assert(r.latencies() =~= Seq::new(4, |i: int| HistogramView::none()));
        r
    }
}

impl Metrics {
    /// Whether the service is ready.
    pub open spec fn is_up(self) -> bool {
        self.ready
    }

    /// The four latency histograms.
    pub open spec fn latencies(self) -> Seq<HistogramView> {
        hist_views(self.hists@)
    }

    /// The commit latencies by group, once the groups are registered.
    pub open spec fn by_group(self) -> Option<LabeledView> {
        match self.raft_commit_by_group {
            Some(h) => Some(h@),
            None => None,
        }
    }

    /// The invariant: every histogram has its buckets.
    pub open spec fn wf(self) -> bool {
        &&& self.latencies().len() == 4
        &&& forall|i: int| 0 <= i < 4 ==> (#[trigger] self.latencies()[i]).wf()
        &&& self.by_group() is Some ==> self.by_group()->0.wf()
    }

    /// Entries that were admitted to matching and not applied yet.
    pub open spec fn lag(self) -> u64 {
        if self.raft_enqueued_index >= self.raft_applied_index {
            (self.raft_enqueued_index - self.raft_applied_index) as u64
        } else {
            0
        }
    }

    /// Tallies one report.
    pub fn record(&mut self, r: &ExecReport)
        ensures
            *final(self) == match r {
                ExecReport::Accepted { .. } => Metrics {
                    orders_accepted: old(self).orders_accepted.wrapping_add(1),
                    ..*old(self)
                },
                ExecReport::Trade { qty, .. } => Metrics {
                    trades: old(self).trades.wrapping_add(1),
                    volume: old(self).volume.wrapping_add(*qty),
                    ..*old(self)
                },
                ExecReport::Cancelled { .. } => Metrics {
                    cancels: old(self).cancels.wrapping_add(1),
                    ..*old(self)
                },
                ExecReport::Rejected { .. } => Metrics {
                    rejects: old(self).rejects.wrapping_add(1),
                    ..*old(self)
                },
                ExecReport::Modified { .. } => Metrics {
                    modifies: old(self).modifies.wrapping_add(1),
                    ..*old(self)
                },
                _ => *old(self),
            },
    {
        match r {
            ExecReport::Accepted { .. } => {
                self.orders_accepted = self.orders_accepted.wrapping_add(1);
            },
            ExecReport::Trade { qty, .. } => {
                self.trades = self.trades.wrapping_add(1);
                self.volume = self.volume.wrapping_add(*qty);
            },
            ExecReport::Cancelled { .. } => {
                self.cancels = self.cancels.wrapping_add(1);
            },
            ExecReport::Rejected { .. } => {
                self.rejects = self.rejects.wrapping_add(1);
            },
            ExecReport::Modified { .. } => {
                self.modifies = self.modifies.wrapping_add(1);
            },
            _ => {},
        }
    }

    /// Sets the readiness.
    pub fn set_ready(&mut self, ready: bool)
        ensures
            final(self).is_up() == ready,
            *final(self) == (Metrics { ready, ..*old(self) }),
    {
        self.ready = ready;
    }

    /// Whether the service is ready.
    pub fn is_ready(&self) -> (r: bool)
        ensures
            r == self.is_up(),
    {
        self.ready
    }

    /// Sets the gauges of the replication state.
    pub fn set_raft_state(&mut self, role: u64, term: u64, leader_id: u64, commit_index: u64)
        ensures
            *final(self) == (Metrics {
                raft_role: role,
                raft_term: term,
                raft_leader_id: leader_id,
                raft_commit_index: commit_index,
                ..*old(self)
            }),
    {
        self.raft_role = role;
        self.raft_term = term;
        self.raft_leader_id = leader_id;
        self.raft_commit_index = commit_index;
    }

    /// An entry was admitted to matching; the index never goes back.
    pub fn set_raft_enqueued_index(&mut self, index: u64)
        ensures
            *final(self) == (Metrics {
                raft_enqueued_index: if index > old(self).raft_enqueued_index {
                    index
                } else {
                    old(self).raft_enqueued_index
                },
                ..*old(self)
            }),
    {
        if index > self.raft_enqueued_index {
            self.raft_enqueued_index = index;
        }
    }

    /// An entry was applied; the index never goes back.
    pub fn set_raft_applied_index(&mut self, index: u64)
        ensures
            *final(self) == (Metrics {
                raft_applied_index: if index > old(self).raft_applied_index {
                    index
                } else {
                    old(self).raft_applied_index
                },
                ..*old(self)
            }),
    {
        if index > self.raft_applied_index {
            self.raft_applied_index = index;
        }
    }

    /// Entries that were admitted to matching and not applied yet.
    pub fn raft_apply_lag(&self) -> (r: u64)
        ensures
            r == self.lag(),
    {
        self.raft_enqueued_index.saturating_sub(self.raft_applied_index)
    }

    /// Records how long the processing of a command took.
    pub fn record_command_latency(&mut self, elapsed_ns: u64)
        ensures
            *final(self) == (Metrics {
                command_latency_ns_total: old(self).command_latency_ns_total.wrapping_add(elapsed_ns),
                command_latency_ns_max: if elapsed_ns > old(self).command_latency_ns_max {
                    elapsed_ns
                } else {
                    old(self).command_latency_ns_max
                },
                command_latency_samples: old(self).command_latency_samples.wrapping_add(1),
                ..*old(self)
            }),
    {
        self.command_latency_ns_total = self.command_latency_ns_total.wrapping_add(elapsed_ns);
        if elapsed_ns > self.command_latency_ns_max {
            self.command_latency_ns_max = elapsed_ns;
        }
        self.command_latency_samples = self.command_latency_samples.wrapping_add(1);
    }

    /// Records how long a quorum commit took.
    pub fn record_raft_commit_latency(&mut self, elapsed_ns: u64)
        ensures
            *final(self) == (Metrics {
                raft_commit_ns_total: old(self).raft_commit_ns_total.wrapping_add(elapsed_ns),
                raft_commit_ns_max: if elapsed_ns > old(self).raft_commit_ns_max {
                    elapsed_ns
                } else {
                    old(self).raft_commit_ns_max
                },
                raft_commit_samples: old(self).raft_commit_samples.wrapping_add(1),
                ..*old(self)
            }),
    {
        self.raft_commit_ns_total = self.raft_commit_ns_total.wrapping_add(elapsed_ns);
        if elapsed_ns > self.raft_commit_ns_max {
            self.raft_commit_ns_max = elapsed_ns;
        }
        self.raft_commit_samples = self.raft_commit_samples.wrapping_add(1);
    }

    /// Records how long a durability barrier took.
    pub fn record_wal_fsync_latency(&mut self, elapsed_ns: u64)
        ensures
            *final(self) == (Metrics {
                wal_fsync_ns_total: old(self).wal_fsync_ns_total.wrapping_add(elapsed_ns),
                wal_fsync_ns_max: if elapsed_ns > old(self).wal_fsync_ns_max {
                    elapsed_ns
                } else {
                    old(self).wal_fsync_ns_max
                },
                wal_fsync_samples: old(self).wal_fsync_samples.wrapping_add(1),
                ..*old(self)
            }),
    {
        self.wal_fsync_ns_total = self.wal_fsync_ns_total.wrapping_add(elapsed_ns);
        if elapsed_ns > self.wal_fsync_ns_max {
            self.wal_fsync_ns_max = elapsed_ns;
        }
        self.wal_fsync_samples = self.wal_fsync_samples.wrapping_add(1);
    }

    /// Records how long the matching of a command took.
    pub fn record_match_latency(&mut self, elapsed_ns: u64)
        ensures
            *final(self) == (Metrics {
                match_ns_total: old(self).match_ns_total.wrapping_add(elapsed_ns),
                match_ns_max: if elapsed_ns > old(self).match_ns_max {
                    elapsed_ns
                } else {
                    old(self).match_ns_max
                },
                match_samples: old(self).match_samples.wrapping_add(1),
                ..*old(self)
            }),
    {
        self.match_ns_total = self.match_ns_total.wrapping_add(elapsed_ns);
        if elapsed_ns > self.match_ns_max {
            self.match_ns_max = elapsed_ns;
        }
        self.match_samples = self.match_samples.wrapping_add(1);
    }

    /// The counter fields are as before.
    pub open spec fn same_counters(self, before: Metrics) -> bool {
        &&& self.orders_accepted == before.orders_accepted
        &&& self.trades == before.trades
        &&& self.volume == before.volume
        &&& self.cancels == before.cancels
        &&& self.rejects == before.rejects
        &&& self.modifies == before.modifies
        &&& self.journal_seq == before.journal_seq
        &&& self.raft_role == before.raft_role
        &&& self.raft_term == before.raft_term
        &&& self.raft_leader_id == before.raft_leader_id
        &&& self.raft_commit_index == before.raft_commit_index
        &&& self.raft_enqueued_index == before.raft_enqueued_index
        &&& self.raft_applied_index == before.raft_applied_index
        &&& self.raft_transport_reconnects == before.raft_transport_reconnects
        &&& self.raft_transport_dropped == before.raft_transport_dropped
        &&& self.command_latency_ns_total == before.command_latency_ns_total
        &&& self.command_latency_ns_max == before.command_latency_ns_max
        &&& self.command_latency_samples == before.command_latency_samples
        &&& self.asset_wal_errors == before.asset_wal_errors
        &&& self.raft_commit_ns_total == before.raft_commit_ns_total
        &&& self.raft_commit_ns_max == before.raft_commit_ns_max
        &&& self.raft_commit_samples == before.raft_commit_samples
        &&& self.wal_fsync_ns_total == before.wal_fsync_ns_total
        &&& self.wal_fsync_ns_max == before.wal_fsync_ns_max
        &&& self.wal_fsync_samples == before.wal_fsync_samples
        &&& self.match_ns_total == before.match_ns_total
        &&& self.match_ns_max == before.match_ns_max
        &&& self.match_samples == before.match_samples
        &&& self.execution_outbox_pending == before.execution_outbox_pending
        &&& self.execution_outbox_published == before.execution_outbox_published
        &&& self.execution_outbox_publish_failures == before.execution_outbox_publish_failures
        &&& self.execution_outbox_publish_healthy == before.execution_outbox_publish_healthy
        &&& self.execution_kafka_publish_ns_total == before.execution_kafka_publish_ns_total
        &&& self.execution_kafka_publish_ns_max == before.execution_kafka_publish_ns_max
        &&& self.execution_kafka_publish_samples == before.execution_kafka_publish_samples
    }

    /// Records a sample in one of the histograms.
    pub fn record_latency_hist(&mut self, metric: LatencyMetric, elapsed_ns: u64)
        requires
            old(self).wf(),
        ensures
            final(self).wf(),
            final(self).same_counters(*old(self)),
            final(self).is_up() == old(self).is_up(),
            final(self).by_group() == old(self).by_group(),
            final(self).latencies() == old(self).latencies().update(
                metric.slot(),
                sampled(old(self).latencies()[metric.slot()], elapsed_ns),
            ),
    {
        let i: usize = metric.index();
        let ghost before = self.hists@;
        assert(self.latencies()[i as int].wf());
        let mut h = self.hists.remove(i);
        h.record(elapsed_ns);
        self.hists.insert(i, h);
        proof {
            assert(self.hists@ =~= before.update(i as int, h));
            assert(self.latencies() =~= old(self).latencies().update(i as int, h@));
            assert forall|j: int| 0 <= j < 4 implies (#[trigger] self.latencies()[j]).wf() by {
                assert(old(self).latencies()[j].wf());
            }
        }
    }

    /// Registers the groups of the commit latencies, numbered from 0 on; does
    /// nothing if that was done before.
    pub fn register_raft_commit_groups(&mut self, group_count: usize)
        requires
            old(self).wf(),
        ensures
            final(self).wf(),
            final(self).same_counters(*old(self)),
            final(self).is_up() == old(self).is_up(),
            final(self).latencies() == old(self).latencies(),
            old(self).by_group() is Some ==> final(self).by_group() == old(self).by_group(),
            old(self).by_group() is None ==> {
                let view = final(self).by_group()->0;
                &&& final(self).by_group() is Some
                &&& view.base == "raft_commit_ns"@
                &&& view.help == "Raft quorum commit latency by group (nanoseconds)"@
                &&& view.key == "group"@
                &&& view.labels == Seq::new(group_count as nat, |i: int| decimal(i as nat))
                &&& view.hists == Seq::new(group_count as nat, |i: int| HistogramView::none())
            },
    {
        if self.raft_commit_by_group.is_some() {
            return ;
        }
        let mut labels: Vec<String> = Vec::new();
        let mut g: usize = 0;
        while g < group_count
            invariant
                g <= group_count,
                labels@.len() == g,
                forall|i: int| 0 <= i < g ==> (#[trigger] labels@[i])@ == decimal(i as nat),
            decreases group_count - g,
        {
            let mut text = String::new();
            push_decimal(&mut text, g as u64);
            assert(text@ =~= decimal(g as nat));
            labels.push(text);
            g += 1;
        }
        let h = LabeledHistogram::new(
            "raft_commit_ns",
            "Raft quorum commit latency by group (nanoseconds)",
            "group",
            labels,
        );
        assert(h@.labels =~= Seq::new(group_count as nat, |i: int| decimal(i as nat)));
        self.raft_commit_by_group = Some(h);
    }

    /// Records a commit latency of one group; ignored if the group is not
    /// registered.
    pub fn record_raft_commit_latency_group(&mut self, group: usize, elapsed_ns: u64)
        requires
            old(self).wf(),
        ensures
            final(self).wf(),
            final(self).same_counters(*old(self)),
            final(self).is_up() == old(self).is_up(),
            final(self).latencies() == old(self).latencies(),
            final(self).by_group() == match old(self).by_group() {
                Some(view) => Some(
                    if group < view.hists.len() {
                        LabeledView {
                            hists: view.hists.update(
                                group as int,
                                sampled(view.hists[group as int], elapsed_ns),
                            ),
                            ..view
                        }
                    } else {
                        view
                    },
                ),
                None => None,
            },
    {
        let mut taken: Option<LabeledHistogram> = None;
        std::mem::swap(&mut taken, &mut self.raft_commit_by_group);
        if let Some(h) = taken {
            let mut h = h;
            h.record_at(group, elapsed_ns);
            self.raft_commit_by_group = Some(h);
        }
    }

    /// The counters and gauges.
    #[verifier::opaque]
    pub open spec fn counters_text(self) -> Seq<char> {
        Seq::<char>::empty() + metric_text(
            "orders_accepted"@,
            "Orders accepted"@,
            false,
            self.orders_accepted as nat,
        ) + metric_text(
            "trades"@,
            "Trades printed"@,
            false,
            self.trades as nat,
        ) + metric_text(
            "volume"@,
            "Lots traded"@,
            false,
            self.volume as nat,
        ) + metric_text(
            "cancels"@,
            "Orders cancelled"@,
            false,
            self.cancels as nat,
        ) + metric_text(
            "rejects"@,
            "Orders rejected"@,
            false,
            self.rejects as nat,
        ) + metric_text(
            "modifies"@,
            "Orders modified"@,
            false,
            self.modifies as nat,
        ) + metric_text(
            "journal_seq"@,
            "Max journal seq (total order head)"@,
            false,
            self.journal_seq as nat,
        ) + metric_text(
            "ready"@,
            "Service readiness (1 = ready)"@,
            true,
            if self.is_up() { 1nat } else { 0nat },
        ) + metric_text(
            "raft_role"@,
            "Raft role (0 = follower, 1 = candidate, 2 = leader)"@,
            true,
            self.raft_role as nat,
        ) + metric_text(
            "raft_term"@,
            "Current Raft term"@,
            true,
            self.raft_term as nat,
        ) + metric_text(
            "raft_leader_id"@,
            "Current Raft leader id (0 = unknown)"@,
            true,
            self.raft_leader_id as nat,
        ) + metric_text(
            "raft_commit_index"@,
            "Highest Raft entry committed by quorum"@,
            true,
            self.raft_commit_index as nat,
        ) + metric_text(
            "raft_enqueued_index"@,
            "Highest committed command entry admitted to matching"@,
            true,
            self.raft_enqueued_index as nat,
        ) + metric_text(
            "raft_applied_index"@,
            "Highest committed command entry fully applied by matching"@,
            true,
            self.raft_applied_index as nat,
        ) + metric_text(
            "raft_apply_lag"@,
            "Committed command entries queued but not fully applied"@,
            true,
            self.lag() as nat,
        ) + metric_text(
            "raft_transport_reconnects"@,
            "Raft peer transport TCP reconnects"@,
            false,
            self.raft_transport_reconnects as nat,
        ) + metric_text(
            "raft_transport_dropped"@,
            "Raft peer messages dropped after bounded transport retries or queue saturation"@,
            false,
            self.raft_transport_dropped as nat,
        ) + metric_text(
            "command_latency_ns_total"@,
            "Total matching command processing time in nanoseconds"@,
            false,
            self.command_latency_ns_total as nat,
        ) + metric_text(
            "command_latency_samples"@,
            "Matching command latency samples"@,
            false,
            self.command_latency_samples as nat,
        ) + metric_text(
            "command_latency_ns_max"@,
            "Maximum matching command processing time in nanoseconds"@,
            true,
            self.command_latency_ns_max as nat,
        ) + metric_text(
            "asset_wal_errors"@,
            "Command/application durability failures"@,
            false,
            self.asset_wal_errors as nat,
        ) + metric_text(
            "raft_commit_ns_total"@,
            "Total Raft quorum commit time in nanoseconds"@,
            false,
            self.raft_commit_ns_total as nat,
        ) + metric_text(
            "raft_commit_samples"@,
            "Raft quorum commit batches"@,
            false,
            self.raft_commit_samples as nat,
        ) + metric_text(
            "raft_commit_ns_max"@,
            "Maximum Raft quorum commit time in nanoseconds"@,
            true,
            self.raft_commit_ns_max as nat,
        ) + metric_text(
            "wal_fsync_ns_total"@,
            "Total post-match durability barrier time in nanoseconds"@,
            false,
            self.wal_fsync_ns_total as nat,
        ) + metric_text(
            "wal_fsync_samples"@,
            "Post-match durability barrier batches"@,
            false,
            self.wal_fsync_samples as nat,
        ) + metric_text(
            "wal_fsync_ns_max"@,
            "Maximum post-match durability barrier time in nanoseconds"@,
            true,
            self.wal_fsync_ns_max as nat,
        ) + metric_text(
            "match_ns_total"@,
            "Total in-memory matching time in nanoseconds"@,
            false,
            self.match_ns_total as nat,
        ) + metric_text(
            "match_samples"@,
            "Commands matched"@,
            false,
            self.match_samples as nat,
        ) + metric_text(
            "match_ns_max"@,
            "Maximum in-memory matching time in nanoseconds"@,
            true,
            self.match_ns_max as nat,
        ) + metric_text(
            "execution_outbox_pending"@,
            "Execution events durably recorded but not broker-acknowledged"@,
            true,
            self.execution_outbox_pending as nat,
        ) + metric_text(
            "execution_outbox_published"@,
            "Execution events acknowledged by Kafka"@,
            false,
            self.execution_outbox_published as nat,
        ) + metric_text(
            "execution_outbox_publish_failures"@,
            "Execution outbox batches rejected or not acknowledged by Kafka"@,
            false,
            self.execution_outbox_publish_failures as nat,
        ) + metric_text(
            "execution_outbox_publish_healthy"@,
            "Execution publisher health (1 = initialized and last batch acknowledged)"@,
            true,
            self.execution_outbox_publish_healthy as nat,
        ) + metric_text(
            "execution_kafka_publish_ns_total"@,
            "Total execution Kafka publish acknowledgement latency in nanoseconds"@,
            false,
            self.execution_kafka_publish_ns_total as nat,
        ) + metric_text(
            "execution_kafka_publish_samples"@,
            "Execution Kafka publish batches acknowledged"@,
            false,
            self.execution_kafka_publish_samples as nat,
        ) + metric_text(
            "execution_kafka_publish_ns_max"@,
            "Maximum execution Kafka publish acknowledgement latency in nanoseconds"@,
            true,
            self.execution_kafka_publish_ns_max as nat,
        )
    }

    /// The histograms of the four latencies.
    #[verifier::opaque]
    pub open spec fn histograms_text(self, q: Seq<Quantiles>) -> Seq<char> {
        Seq::<char>::empty() + histogram_block(
            "command_latency_ns"@,
            "Matching command processing latency (nanoseconds)"@,
            self.latencies()[0],
            q[0],
        ) + histogram_block(
            "raft_commit_ns"@,
            "Raft quorum commit latency (nanoseconds)"@,
            self.latencies()[1],
            q[1],
        ) + histogram_block(
            "wal_fsync_ns"@,
            "Post-match durability barrier latency (nanoseconds)"@,
            self.latencies()[2],
            q[2],
        ) + histogram_block(
            "match_ns"@,
            "In-memory matching latency (nanoseconds)"@,
            self.latencies()[3],
            q[3],
        )
    }

    /// The whole exposition.
    pub open spec fn exposition(self, families: Seq<Quantiles>, groups: Seq<Quantiles>) -> Seq<
        char,
    > {
        self.counters_text() + self.histograms_text(families) + (match self.by_group() {
            Some(view) => view.block(groups),
            None => Seq::empty(),
        })
    }

    fn render_counters(&self) -> (r: String)
        ensures
            r@ == self.counters_text(),
    {
        reveal(Metrics::counters_text);
        let mut out = String::new();
        assert(out@ =~= Seq::<char>::empty());
        let ready: u64 = if self.ready {
            1
        } else {
            0
        };
        push_metric(
            &mut out,
            "orders_accepted",
            "Orders accepted",
            false,
            self.orders_accepted,
        );
        push_metric(
            &mut out,
            "trades",
            "Trades printed",
            false,
            self.trades,
        );
        push_metric(
            &mut out,
            "volume",
            "Lots traded",
            false,
            self.volume,
        );
        push_metric(
            &mut out,
            "cancels",
            "Orders cancelled",
            false,
            self.cancels,
        );
        push_metric(
            &mut out,
            "rejects",
            "Orders rejected",
            false,
            self.rejects,
        );
        push_metric(
            &mut out,
            "modifies",
            "Orders modified",
            false,
            self.modifies,
        );
        push_metric(
            &mut out,
            "journal_seq",
            "Max journal seq (total order head)",
            false,
            self.journal_seq,
        );
        push_metric(
            &mut out,
            "ready",
            "Service readiness (1 = ready)",
            true,
            ready,
        );
        push_metric(
            &mut out,
            "raft_role",
            "Raft role (0 = follower, 1 = candidate, 2 = leader)",
            true,
            self.raft_role,
        );
        push_metric(
            &mut out,
            "raft_term",
            "Current Raft term",
            true,
            self.raft_term,
        );
        push_metric(
            &mut out,
            "raft_leader_id",
            "Current Raft leader id (0 = unknown)",
            true,
            self.raft_leader_id,
        );
        push_metric(
            &mut out,
            "raft_commit_index",
            "Highest Raft entry committed by quorum",
            true,
            self.raft_commit_index,
        );
        push_metric(
            &mut out,
            "raft_enqueued_index",
            "Highest committed command entry admitted to matching",
            true,
            self.raft_enqueued_index,
        );
        push_metric(
            &mut out,
            "raft_applied_index",
            "Highest committed command entry fully applied by matching",
            true,
            self.raft_applied_index,
        );
        push_metric(
            &mut out,
            "raft_apply_lag",
            "Committed command entries queued but not fully applied",
            true,
            self.raft_apply_lag(),
        );
        push_metric(
            &mut out,
            "raft_transport_reconnects",
            "Raft peer transport TCP reconnects",
            false,
            self.raft_transport_reconnects,
        );
        push_metric(
            &mut out,
            "raft_transport_dropped",
            "Raft peer messages dropped after bounded transport retries or queue saturation",
            false,
            self.raft_transport_dropped,
        );
        push_metric(
            &mut out,
            "command_latency_ns_total",
            "Total matching command processing time in nanoseconds",
            false,
            self.command_latency_ns_total,
        );
        push_metric(
            &mut out,
            "command_latency_samples",
            "Matching command latency samples",
            false,
            self.command_latency_samples,
        );
        push_metric(
            &mut out,
            "command_latency_ns_max",
            "Maximum matching command processing time in nanoseconds",
            true,
            self.command_latency_ns_max,
        );
        push_metric(
            &mut out,
            "asset_wal_errors",
            "Command/application durability failures",
            false,
            self.asset_wal_errors,
        );
        push_metric(
            &mut out,
            "raft_commit_ns_total",
            "Total Raft quorum commit time in nanoseconds",
            false,
            self.raft_commit_ns_total,
        );
        push_metric(
            &mut out,
            "raft_commit_samples",
            "Raft quorum commit batches",
            false,
            self.raft_commit_samples,
        );
        push_metric(
            &mut out,
            "raft_commit_ns_max",
            "Maximum Raft quorum commit time in nanoseconds",
            true,
            self.raft_commit_ns_max,
        );
        push_metric(
            &mut out,
            "wal_fsync_ns_total",
            "Total post-match durability barrier time in nanoseconds",
            false,
            self.wal_fsync_ns_total,
        );
        push_metric(
            &mut out,
            "wal_fsync_samples",
            "Post-match durability barrier batches",
            false,
            self.wal_fsync_samples,
        );
        push_metric(
            &mut out,
            "wal_fsync_ns_max",
            "Maximum post-match durability barrier time in nanoseconds",
            true,
            self.wal_fsync_ns_max,
        );
        push_metric(
            &mut out,
            "match_ns_total",
            "Total in-memory matching time in nanoseconds",
            false,
            self.match_ns_total,
        );
        push_metric(
            &mut out,
            "match_samples",
            "Commands matched",
            false,
            self.match_samples,
        );
        push_metric(
            &mut out,
            "match_ns_max",
            "Maximum in-memory matching time in nanoseconds",
            true,
            self.match_ns_max,
        );
        push_metric(
            &mut out,
            "execution_outbox_pending",
            "Execution events durably recorded but not broker-acknowledged",
            true,
            self.execution_outbox_pending,
        );
        push_metric(
            &mut out,
            "execution_outbox_published",
            "Execution events acknowledged by Kafka",
            false,
            self.execution_outbox_published,
        );
        push_metric(
            &mut out,
            "execution_outbox_publish_failures",
            "Execution outbox batches rejected or not acknowledged by Kafka",
            false,
            self.execution_outbox_publish_failures,
        );
        push_metric(
            &mut out,
            "execution_outbox_publish_healthy",
            "Execution publisher health (1 = initialized and last batch acknowledged)",
            true,
            self.execution_outbox_publish_healthy,
        );
        push_metric(
            &mut out,
            "execution_kafka_publish_ns_total",
            "Total execution Kafka publish acknowledgement latency in nanoseconds",
            false,
            self.execution_kafka_publish_ns_total,
        );
        push_metric(
            &mut out,
            "execution_kafka_publish_samples",
            "Execution Kafka publish batches acknowledged",
            false,
            self.execution_kafka_publish_samples,
        );
        push_metric(
            &mut out,
            "execution_kafka_publish_ns_max",
            "Maximum execution Kafka publish acknowledgement latency in nanoseconds",
            true,
            self.execution_kafka_publish_ns_max,
        );
        out
    }

    fn render_histograms(&self, q: &Vec<Quantiles>) -> (r: String)
        requires
            self.wf(),
            q@.len() == 4,
        ensures
            r@ == self.histograms_text(q@),
    {
        reveal(Metrics::histograms_text);
        let mut out = String::new();
        assert(out@ =~= Seq::<char>::empty());
        assert(self.latencies()[0].wf());
        let text = self.hists[0].render_standalone(
            "command_latency_ns",
            "Matching command processing latency (nanoseconds)",
            &q[0],
        );
        out.append(text.as_str());
        assert(self.latencies()[1].wf());
        let text = self.hists[1].render_standalone(
            "raft_commit_ns",
            "Raft quorum commit latency (nanoseconds)",
            &q[1],
        );
        out.append(text.as_str());
        assert(self.latencies()[2].wf());
        let text = self.hists[2].render_standalone(
            "wal_fsync_ns",
            "Post-match durability barrier latency (nanoseconds)",
            &q[2],
        );
        out.append(text.as_str());
        assert(self.latencies()[3].wf());
        let text = self.hists[3].render_standalone(
            "match_ns",
            "In-memory matching latency (nanoseconds)",
            &q[3],
        );
        out.append(text.as_str());
        out
    }

    /// The exposition in the Prometheus text format; the estimates are the
    /// caller's, one for each histogram.
    pub fn render(&self, estimates: &Estimates) -> (r: String)
        requires
            self.wf(),
            estimates.families@.len() == 4,
            self.by_group() is Some ==> estimates.groups@.len() == self.by_group()->0.labels.len(),
        ensures
            r@ == self.exposition(estimates.families@, estimates.groups@),
    {
        let mut out = self.render_counters();
        let hists = self.render_histograms(&estimates.families);
        out.append(hists.as_str());
        let ghost head = out@;
        if let Some(h) = &self.raft_commit_by_group {
            let text = h.format(&estimates.groups);
            out.append(text.as_str());
        } else {
            assert(out@ =~= head + Seq::<char>::empty());
        }
        out
    }

    /// The histogram of one latency.
    pub fn histogram(&self, metric: LatencyMetric) -> (r: &LatencyHistogram)
        requires
            self.wf(),
        ensures
            r@ == self.latencies()[metric.slot()],
            r@.wf(),
    {
        let i: usize = metric.index();
        assert(self.latencies()[i as int].wf());
        &self.hists[i]
    }

    /// The commit latencies by group, once the groups are registered.
    pub fn group_histograms(&self) -> (r: Option<&LabeledHistogram>)
        requires
            self.wf(),
        ensures
            match r {
                Some(h) => self.by_group() == Some(h@) && h@.wf(),
                None => self.by_group() is None,
            },
    {
        match &self.raft_commit_by_group {
            Some(h) => Some(h),
            None => None,
        }
    }
}

/// What a scrape asks for.
#[derive(Clone, Copy, Debug, PartialEq, Eq, Structural)]
pub enum MetricsRoute {
    /// Whether the process lives.
    Health,
    /// Whether the service is ready.
    Ready,
    /// The metrics, for every other path.
    Metrics,
}

/// What a request line asks for.
pub fn metrics_route(line: &str) -> (r: MetricsRoute)
    ensures
        r == if has_prefix(line@, "GET /healthz "@) {
            MetricsRoute::Health
        } else if has_prefix(line@, "GET /readyz "@) {
            MetricsRoute::Ready
        } else {
            MetricsRoute::Metrics
        },
{
    let chars = chars_of(line);
    if strip_prefix(chars.as_slice(), "GET /healthz ").is_some() {
        MetricsRoute::Health
    } else if strip_prefix(chars.as_slice(), "GET /readyz ").is_some() {
        MetricsRoute::Ready
    } else {
        MetricsRoute::Metrics
    }
}

/// The bounds of the buckets are one to nine microseconds, and from every nine on to the next
/// ten times as much; so they ascend.
pub proof fn law_bounds_go_up_by_tens(i: int)
    requires
        0 <= i < FINITE_BUCKETS - 1,
    ensures
        bound(0) == 1_000,
        bound(i) < bound(i + 1),
        i < 8 ==> bound(i + 1) == bound(i) + 1_000,
        i + 9 < FINITE_BUCKETS ==> bound(i + 9) == 10 * bound(i),
{
    let d = i / 9;
    let r = i % 9;
    assert(i == 9 * d + r && 0 <= r < 9 && 0 <= d < 8);
    assert((i + 9) / 9 == d + 1 && (i + 9) % 9 == r);
    if r < 8 {
        assert((i + 1) / 9 == d && (i + 1) % 9 == r + 1);
        assert((r + 1) * decade(d) < (r + 2) * decade(d)) by (nonlinear_arith)
            requires
                decade(d) > 0,
        ;
    } else {
        assert((i + 1) / 9 == d + 1 && (i + 1) % 9 == 0);
        assert(9 * decade(d) < 1 * decade(d + 1));
    }
    if d + 1 < 8 {
        assert((r + 1) * decade(d + 1) == 10 * ((r + 1) * decade(d))) by (nonlinear_arith)
            requires
                decade(d + 1) == 10 * decade(d),
        ;
    }
}

/// A sample counts in its bucket and in no other, and adds to the sum.
pub proof fn law_a_sample_counts_once(h: HistogramView, v: u64, i: int)
    requires
        h.wf(),
        is_bucket_of(i, v),
        h.counts[i] < u64::MAX,
        h.sum + v <= u64::MAX,
    ensures
        ({
            let after = sampled(h, v);
            &&& after.counts[i] == h.counts[i] + 1
            &&& forall|j: int|
                0 <= j < h.counts.len() && j != i ==> #[trigger] after.counts[j] == h.counts[j]
            &&& after.sum == h.sum + v
            &&& after.wf()
        }),
{
    let k = bucket_of(v);
    assert(is_bucket_of(k, v));
    law_one_bucket(i, k, v);
}

} // verus!
