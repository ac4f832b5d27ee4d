//! Backpressure of the order ingress: how full the pipeline behind it is, and
//! which writes it still takes.

use std::collections::HashMap;

use vstd::prelude::*;
use vstd::string::StringExecFns;

use crate::metrics::{
    histogram_block, sampled, HistogramView, LatencyHistogram, Quantiles,
};
use crate::sharding::{group_of, raft_group_for_category_pinned};
use crate::text::{chars_of, decimal, has_prefix, is_text, push_decimal, strip_prefix};

verus! {

broadcast use vstd::std_specs::hash::group_hash_axioms;

/// A consumer of the order queues.
#[derive(Clone, Copy, Debug, PartialEq, Eq, Structural)]
pub enum Stage {
    /// The projection into the databases.
    Mysql,
    /// The matcher.
    Match,
}

/// The stage with a name.
pub open spec fn stage_named(name: Seq<char>) -> Option<Stage> {
    if name == "mysql"@ {
        Some(Stage::Mysql)
    } else if name == "match"@ {
        Some(Stage::Match)
    } else {
        None
    }
}

fn stage_of(name: &str) -> (r: Option<Stage>)
    ensures
        r == stage_named(name@),
{
    let chars = chars_of(name);
    if is_text(&chars, "mysql") {
        Some(Stage::Mysql)
    } else if is_text(&chars, "match") {
        Some(Stage::Match)
    } else {
        None
    }
}

/// The greater of two numbers.
pub open spec fn greater(a: u64, b: u64) -> u64 {
    if a >= b {
        a
    } else {
        b
    }
}

fn max_of(a: u64, b: u64) -> (r: u64)
    ensures
        r == greater(a, b),
{
    if a >= b {
        a
    } else {
        b
    }
}

/// The sum of two numbers, or the greatest number if it is beyond that.
pub open spec fn capped_sum(a: u64, b: u64) -> u64 {
    if a + b <= u64::MAX {
        (a + b) as u64
    } else {
        u64::MAX
    }
}

fn sum_capped(a: u64, b: u64) -> (r: u64)
    ensures
        r == capped_sum(a, b),
{
    if a <= u64::MAX - b {
        a + b
    } else {
        u64::MAX
    }
}

/// A metric in the Prometheus text format: its type and its value.
pub open spec fn typed_metric(name: Seq<char>, kind: Seq<char>, v: nat) -> Seq<char> {
    "# TYPE "@ + name + " "@ + kind + "\n"@ + name + " "@ + decimal(v) + "\n"@
}

fn push_typed(out: &mut String, name: &str, kind: &str, v: u64)
    ensures
        final(out)@ == old(out)@ + typed_metric(name@, kind@, v as nat),
{
    let mut line = String::new();
    line.append("# TYPE ");
    assert(line@ =~= "# TYPE "@);
    line.append(name);
    line.append(" ");
    line.append(kind);
    line.append("\n");
    line.append(name);
    line.append(" ");
    push_decimal(&mut line, v);
    line.append("\n");
    out.append(line.as_str());
}

/// Counters of the order pipeline.
#[derive(Debug)]
pub struct OrderPipelineMetrics {
    pub mysql_commit_ns_total: u64,
    pub mysql_commit_ns_max: u64,
    pub mysql_commit_samples: u64,
    pub mysql_commit_hist: LatencyHistogram,
    pub raft_forward_ns_total: u64,
    pub raft_forward_ns_max: u64,
    pub raft_forward_samples: u64,
    pub execution_mysql_commit_ns_total: u64,
    pub execution_mysql_commit_ns_max: u64,
    pub execution_mysql_commit_samples: u64,
    pub execution_mysql_completed_events: u64,
    pub execution_mysql_commit_hist: LatencyHistogram,
    /// Commands that wait for delivery to the queue.
    pub inflight_publish_commands: u64,
    pub published_commands: u64,
    pub mysql_completed_commands: u64,
    pub match_completed_commands: u64,
    pub backpressure_rejections: u64,
    pub observed_mysql_lag: u64,
    pub observed_match_lag: u64,
    pub dlq_total: u64,
}

impl Default for OrderPipelineMetrics {
    fn default() -> (r: OrderPipelineMetrics)
        ensures
            r.wf(),
            r == (OrderPipelineMetrics {
                mysql_commit_ns_total: 0,
                mysql_commit_ns_max: 0,
                mysql_commit_samples: 0,
                mysql_commit_hist: r.mysql_commit_hist,
                raft_forward_ns_total: 0,
                raft_forward_ns_max: 0,
                raft_forward_samples: 0,
                execution_mysql_commit_ns_total: 0,
                execution_mysql_commit_ns_max: 0,
                execution_mysql_commit_samples: 0,
                execution_mysql_completed_events: 0,
                execution_mysql_commit_hist: r.execution_mysql_commit_hist,
                inflight_publish_commands: 0,
                published_commands: 0,
                mysql_completed_commands: 0,
                match_completed_commands: 0,
                backpressure_rejections: 0,
                observed_mysql_lag: 0,
                observed_match_lag: 0,
                dlq_total: 0,
            }),
            r.mysql_commit_hist@ == HistogramView::none(),
            r.execution_mysql_commit_hist@ == HistogramView::none(),
    {
        OrderPipelineMetrics {
            mysql_commit_ns_total: 0,
            mysql_commit_ns_max: 0,
            mysql_commit_samples: 0,
            mysql_commit_hist: LatencyHistogram::new(),
            raft_forward_ns_total: 0,
            raft_forward_ns_max: 0,
            raft_forward_samples: 0,
            execution_mysql_commit_ns_total: 0,
            execution_mysql_commit_ns_max: 0,
            execution_mysql_commit_samples: 0,
            execution_mysql_completed_events: 0,
            execution_mysql_commit_hist: LatencyHistogram::new(),
            inflight_publish_commands: 0,
            published_commands: 0,
            mysql_completed_commands: 0,
            match_completed_commands: 0,
            backpressure_rejections: 0,
            observed_mysql_lag: 0,
            observed_match_lag: 0,
            dlq_total: 0,
        }
    }
}

impl OrderPipelineMetrics {
    /// Both histograms have all their buckets.
    pub open spec fn wf(self) -> bool {
        self.mysql_commit_hist@.wf() && self.execution_mysql_commit_hist@.wf()
    }

    /// Commands on their way to the queue and behind the slower of the two
    /// consumers.
    pub open spec fn pending(self) -> u64 {
        capped_sum(
            self.inflight_publish_commands,
            greater(self.observed_mysql_lag, self.observed_match_lag),
        )
    }

    /// Records a commit to a database.
    pub fn record_mysql(&mut self, elapsed_ns: u64)
        requires
            old(self).wf(),
        ensures
            final(self).wf(),
            final(self).mysql_commit_hist@ == sampled(old(self).mysql_commit_hist@, elapsed_ns),
            *final(self) == (OrderPipelineMetrics {
                mysql_commit_ns_total: old(self).mysql_commit_ns_total.wrapping_add(elapsed_ns),
                mysql_commit_ns_max: greater(old(self).mysql_commit_ns_max, elapsed_ns),
                mysql_commit_samples: old(self).mysql_commit_samples.wrapping_add(1),
                mysql_commit_hist: final(self).mysql_commit_hist,
                ..*old(self)
            }),
    {
        self.mysql_commit_ns_total = self.mysql_commit_ns_total.wrapping_add(elapsed_ns);
        self.mysql_commit_ns_max = max_of(self.mysql_commit_ns_max, elapsed_ns);
        self.mysql_commit_samples = self.mysql_commit_samples.wrapping_add(1);
        self.mysql_commit_hist.record(elapsed_ns);
    }

    /// Records a hand-over to a replication group.
    pub fn record_raft(&mut self, elapsed_ns: u64)
        ensures
            *final(self) == (OrderPipelineMetrics {
                raft_forward_ns_total: old(self).raft_forward_ns_total.wrapping_add(elapsed_ns),
                raft_forward_ns_max: greater(old(self).raft_forward_ns_max, elapsed_ns),
                raft_forward_samples: old(self).raft_forward_samples.wrapping_add(1),
                ..*old(self)
            }),
    {
        self.raft_forward_ns_total = self.raft_forward_ns_total.wrapping_add(elapsed_ns);
        self.raft_forward_ns_max = max_of(self.raft_forward_ns_max, elapsed_ns);
        self.raft_forward_samples = self.raft_forward_samples.wrapping_add(1);
    }

    /// Records a commit of `events` execution reports to the databases.
    pub fn record_execution_mysql_batch(&mut self, elapsed_ns: u64, events: u64)
        requires
            old(self).wf(),
        ensures
            final(self).wf(),
            final(self).execution_mysql_commit_hist@ == sampled(
                old(self).execution_mysql_commit_hist@,
                elapsed_ns,
            ),
            *final(self) == (OrderPipelineMetrics {
                execution_mysql_commit_ns_total: old(
                    self,
                ).execution_mysql_commit_ns_total.wrapping_add(elapsed_ns),
                execution_mysql_commit_ns_max: greater(
                    old(self).execution_mysql_commit_ns_max,
                    elapsed_ns,
                ),
                execution_mysql_commit_samples: old(
                    self,
                ).execution_mysql_commit_samples.wrapping_add(1),
                execution_mysql_completed_events: old(
                    self,
                ).execution_mysql_completed_events.wrapping_add(events),
                execution_mysql_commit_hist: final(self).execution_mysql_commit_hist,
                ..*old(self)
            }),
    {
        self.execution_mysql_commit_ns_total = self.execution_mysql_commit_ns_total.wrapping_add(
            elapsed_ns,
        );
        self.execution_mysql_commit_ns_max = max_of(
            self.execution_mysql_commit_ns_max,
            elapsed_ns,
        );
        self.execution_mysql_commit_samples = self.execution_mysql_commit_samples.wrapping_add(1);
        self.execution_mysql_completed_events = self.execution_mysql_completed_events.wrapping_add(
            events,
        );
        self.execution_mysql_commit_hist.record(elapsed_ns);
    }

    /// With `commands` more the backlog is beyond its limit.
    pub open spec fn overfull(self, commands: u64, max_backlog: u64) -> bool {
        capped_sum(self.pending(), commands) > max_backlog
    }

    /// The counters after room for commands was asked for.
    pub open spec fn reserved(self, commands: u64, max_backlog: u64) -> OrderPipelineMetrics {
        if self.overfull(commands, max_backlog) {
            OrderPipelineMetrics {
                backpressure_rejections: self.backpressure_rejections.wrapping_add(commands),
                ..self
            }
        } else {
            OrderPipelineMetrics {
                inflight_publish_commands: capped_sum(self.inflight_publish_commands, commands),
                ..self
            }
        }
    }

    /// Reserves room for commands, if with them the backlog stays within its
    /// limit; else says how long the backlog is.
    pub fn try_reserve(&mut self, commands: u64, max_backlog: u64) -> (r: Result<(), u64>)
        ensures
            r == if old(self).overfull(commands, max_backlog) {
                Err::<(), u64>(old(self).pending())
            } else {
                Ok::<(), u64>(())
            },
            *final(self) == old(self).reserved(commands, max_backlog),
    {
        let backlog: u64 = self.backlog();
        if sum_capped(backlog, commands) > max_backlog {
            self.backpressure_rejections = self.backpressure_rejections.wrapping_add(commands);
            return Err(backlog);
        }
        self.inflight_publish_commands = sum_capped(self.inflight_publish_commands, commands);
        Ok(())
    }

    /// Gives the room of commands back that were not published.
    pub fn rollback_reservation(&mut self, commands: u64)
        ensures
            *final(self) == (OrderPipelineMetrics {
                inflight_publish_commands: old(self).inflight_publish_commands.wrapping_sub(
                    commands,
                ),
                ..*old(self)
            }),
    {
        self.inflight_publish_commands = self.inflight_publish_commands.wrapping_sub(commands);
    }

    /// Gives the room of `reserved` commands back, `published` of which were
    /// published.
    pub fn finish_reservation(&mut self, reserved: u64, published: u64)
        ensures
            *final(self) == (OrderPipelineMetrics {
                inflight_publish_commands: old(self).inflight_publish_commands.wrapping_sub(
                    reserved,
                ),
                published_commands: old(self).published_commands.wrapping_add(published),
                ..*old(self)
            }),
    {
        self.inflight_publish_commands = self.inflight_publish_commands.wrapping_sub(reserved);
        self.published_commands = self.published_commands.wrapping_add(published);
    }

    /// Counts commands that a stage has completed, never more than were
    /// published. A stage of another name is not counted.
    pub fn complete(&mut self, stage: &str, commands: u64)
        ensures
            *final(self) == match stage_named(stage@) {
                Some(Stage::Mysql) => (OrderPipelineMetrics {
                    mysql_completed_commands: lesser(
                        capped_sum(old(self).mysql_completed_commands, commands),
                        old(self).published_commands,
                    ),
                    ..*old(self)
                }),
                Some(Stage::Match) => (OrderPipelineMetrics {
                    match_completed_commands: lesser(
                        capped_sum(old(self).match_completed_commands, commands),
                        old(self).published_commands,
                    ),
                    ..*old(self)
                }),
                None => *old(self),
            },
    {
        match stage_of(stage) {
            Some(Stage::Mysql) => {
                let done: u64 = sum_capped(self.mysql_completed_commands, commands);
                self.mysql_completed_commands = min_of(done, self.published_commands);
            },
            Some(Stage::Match) => {
                let done: u64 = sum_capped(self.match_completed_commands, commands);
                self.match_completed_commands = min_of(done, self.published_commands);
            },
            None => {},
        }
    }

    /// Takes over how far a stage is behind.
    pub fn set_observed_lag(&mut self, stage: &str, lag: u64)
        ensures
            *final(self) == match stage_named(stage@) {
                Some(Stage::Mysql) => (OrderPipelineMetrics {
                    observed_mysql_lag: lag,
                    ..*old(self)
                }),
                Some(Stage::Match) => (OrderPipelineMetrics {
                    observed_match_lag: lag,
                    ..*old(self)
                }),
                None => *old(self),
            },
    {
        match stage_of(stage) {
            Some(Stage::Mysql) => {
                self.observed_mysql_lag = lag;
            },
            Some(Stage::Match) => {
                self.observed_match_lag = lag;
            },
            None => {},
        }
    }

    /// Counts a message that was set aside.
    pub fn count_dead_letter(&mut self)
        ensures
            *final(self) == (OrderPipelineMetrics {
                dlq_total: old(self).dlq_total.wrapping_add(1),
                ..*old(self)
            }),
    {
        self.dlq_total = self.dlq_total.wrapping_add(1);
    }

    /// The backlog of the pipeline.
    pub fn backlog(&self) -> (r: u64)
        ensures
            r == self.pending(),
    {
        sum_capped(
            self.inflight_publish_commands,
            max_of(self.observed_mysql_lag, self.observed_match_lag),
        )
    }

    /// The latencies of commits and hand-overs.
    pub open spec fn latency_lines(self) -> Seq<char> {
        typed_metric(
            "tc_order_mysql_commit_ns_total"@,
            "counter"@,
            self.mysql_commit_ns_total as nat,
        ) + typed_metric(
            "tc_order_mysql_commit_ns_max"@,
            "gauge"@,
            self.mysql_commit_ns_max as nat,
        ) + typed_metric(
            "tc_order_mysql_commit_samples"@,
            "counter"@,
            self.mysql_commit_samples as nat,
        ) + typed_metric(
            "tc_order_raft_forward_ns_total"@,
            "counter"@,
            self.raft_forward_ns_total as nat,
        ) + typed_metric(
            "tc_order_raft_forward_ns_max"@,
            "gauge"@,
            self.raft_forward_ns_max as nat,
        ) + typed_metric(
            "tc_order_raft_forward_samples"@,
            "counter"@,
            self.raft_forward_samples as nat,
        ) + typed_metric(
            "tc_execution_mysql_commit_ns_total"@,
            "counter"@,
            self.execution_mysql_commit_ns_total as nat,
        ) + typed_metric(
            "tc_execution_mysql_commit_ns_max"@,
            "gauge"@,
            self.execution_mysql_commit_ns_max as nat,
        ) + typed_metric(
            "tc_execution_mysql_commit_samples"@,
            "counter"@,
            self.execution_mysql_commit_samples as nat,
        ) + typed_metric(
            "tc_execution_mysql_completed_events"@,
            "counter"@,
            self.execution_mysql_completed_events as nat,
        )
    }

    /// The flow of commands.
    pub open spec fn flow_lines(self) -> Seq<char> {
        typed_metric("tc_order_ingress_backlog"@, "gauge"@, self.pending() as nat) + typed_metric(
            "tc_order_publish_inflight"@,
            "gauge"@,
            self.inflight_publish_commands as nat,
        ) + typed_metric(
            "tc_order_published_commands"@,
            "counter"@,
            self.published_commands as nat,
        ) + typed_metric(
            "tc_order_mysql_completed_commands"@,
            "counter"@,
            self.mysql_completed_commands as nat,
        ) + typed_metric(
            "tc_order_match_completed_commands"@,
            "counter"@,
            self.match_completed_commands as nat,
        ) + typed_metric(
            "tc_order_backpressure_rejections"@,
            "counter"@,
            self.backpressure_rejections as nat,
        ) + typed_metric(
            "tc_order_mysql_consumer_lag"@,
            "gauge"@,
            self.observed_mysql_lag as nat,
        ) + typed_metric(
            "tc_order_match_consumer_lag"@,
            "gauge"@,
            self.observed_match_lag as nat,
        ) + typed_metric("tc_order_dlq_total"@, "counter"@, self.dlq_total as nat)
    }

    /// The exposition, with estimates for the two histograms.
    pub open spec fn exposition(self, order: Quantiles, execution: Quantiles) -> Seq<char> {
        self.latency_lines() + self.flow_lines() + histogram_block(
            "order_mysql_commit_ns"@,
            "Order API MySQL commit latency (nanoseconds)"@,
            self.mysql_commit_hist@,
            order,
        ) + histogram_block(
            "execution_mysql_commit_ns"@,
            "Execution Kafka to MySQL commit processing latency (nanoseconds)"@,
            self.execution_mysql_commit_hist@,
            execution,
        )
    }

    fn render_latencies(&self) -> (r: String)
        ensures
            r@ == self.latency_lines(),
    {
        let mut out = String::new();
        push_typed(
            &mut out,
            "tc_order_mysql_commit_ns_total",
            "counter",
            self.mysql_commit_ns_total,
        );
        assert(out@ =~= typed_metric(
            "tc_order_mysql_commit_ns_total"@,
            "counter"@,
            self.mysql_commit_ns_total as nat,
        ));
        push_typed(&mut out, "tc_order_mysql_commit_ns_max", "gauge", self.mysql_commit_ns_max);
        push_typed(
            &mut out,
            "tc_order_mysql_commit_samples",
            "counter",
            self.mysql_commit_samples,
        );
        push_typed(
            &mut out,
            "tc_order_raft_forward_ns_total",
            "counter",
            self.raft_forward_ns_total,
        );
        push_typed(&mut out, "tc_order_raft_forward_ns_max", "gauge", self.raft_forward_ns_max);
        push_typed(
            &mut out,
            "tc_order_raft_forward_samples",
            "counter",
            self.raft_forward_samples,
        );
        push_typed(
            &mut out,
            "tc_execution_mysql_commit_ns_total",
            "counter",
            self.execution_mysql_commit_ns_total,
        );
        push_typed(
            &mut out,
            "tc_execution_mysql_commit_ns_max",
            "gauge",
            self.execution_mysql_commit_ns_max,
        );
        push_typed(
            &mut out,
            "tc_execution_mysql_commit_samples",
            "counter",
            self.execution_mysql_commit_samples,
        );
        push_typed(
            &mut out,
            "tc_execution_mysql_completed_events",
            "counter",
            self.execution_mysql_completed_events,
        );
        out
    }

    fn render_flow(&self) -> (r: String)
        ensures
            r@ == self.flow_lines(),
    {
        let mut out = String::new();
        let backlog: u64 = self.backlog();
        push_typed(&mut out, "tc_order_ingress_backlog", "gauge", backlog);
        assert(out@ =~= typed_metric("tc_order_ingress_backlog"@, "gauge"@, backlog as nat));
        push_typed(&mut out, "tc_order_publish_inflight", "gauge", self.inflight_publish_commands);
        push_typed(&mut out, "tc_order_published_commands", "counter", self.published_commands);
        push_typed(
            &mut out,
            "tc_order_mysql_completed_commands",
            "counter",
            self.mysql_completed_commands,
        );
        push_typed(
            &mut out,
            "tc_order_match_completed_commands",
            "counter",
            self.match_completed_commands,
        );
        push_typed(
            &mut out,
            "tc_order_backpressure_rejections",
            "counter",
            self.backpressure_rejections,
        );
        push_typed(&mut out, "tc_order_mysql_consumer_lag", "gauge", self.observed_mysql_lag);
        push_typed(&mut out, "tc_order_match_consumer_lag", "gauge", self.observed_match_lag);
        push_typed(&mut out, "tc_order_dlq_total", "counter", self.dlq_total);
        out
    }

    /// The exposition in the Prometheus text format, with the caller's estimates
    /// for the two histograms.
    pub fn render(&self, order: &Quantiles, execution: &Quantiles) -> (r: String)
        requires
            self.wf(),
        ensures
            r@ == self.exposition(*order, *execution),
    {
        let mut out = self.render_latencies();
        let flow = self.render_flow();
        out.append(flow.as_str());
        let hist = self.mysql_commit_hist.render_standalone(
            "order_mysql_commit_ns",
            "Order API MySQL commit latency (nanoseconds)",
            order,
        );
        out.append(hist.as_str());
        let hist = self.execution_mysql_commit_hist.render_standalone(
            "execution_mysql_commit_ns",
            "Execution Kafka to MySQL commit processing latency (nanoseconds)",
            execution,
        );
        out.append(hist.as_str());
        out
    }
}

/// The lesser of two numbers.
pub open spec fn lesser(a: u64, b: u64) -> u64 {
    if a <= b {
        a
    } else {
        b
    }
}

fn min_of(a: u64, b: u64) -> (r: u64)
    ensures
        r == lesser(a, b),
{
    if a <= b {
        a
    } else {
        b
    }
}

/// How strictly the writes of a category are held back, from the mildest on.
#[derive(Clone, Copy, Debug, PartialEq, Eq, PartialOrd, Ord, Structural)]
pub enum BackpressureTier {
    /// Below the soft limit: taken.
    Normal,
    /// From the soft limit on: taken, and the caller slowed down.
    Soft,
    /// From the hard limit on: refused.
    Hard,
    /// From the emergency limit on, or with the quorum of the category's group
    /// lost: no writes of this category.
    Emergency,
}

impl BackpressureTier {
    /// Place in the order of severity.
    pub open spec fn severity(self) -> int {
        match self {
            BackpressureTier::Normal => 0,
            BackpressureTier::Soft => 1,
            BackpressureTier::Hard => 2,
            BackpressureTier::Emergency => 3,
        }
    }

    fn rank(self) -> (r: u8)
        ensures
            r == self.severity(),
    {
        match self {
            BackpressureTier::Normal => 0,
            BackpressureTier::Soft => 1,
            BackpressureTier::Hard => 2,
            BackpressureTier::Emergency => 3,
        }
    }
}

/// Backpressure by category, in three tiers: how far the consumers are behind is
/// seen by partition, and the health of the quorum by replication group.
#[derive(Debug)]
pub struct Backpressure {
    pub soft: u64,
    pub hard: u64,
    pub emergency: u64,
    pub soft_delay_ms: u64,
    pub topic_count: u32,
    pub partitions_per_topic: u32,
    pub raft_group_count: usize,
    pub raft_group_pins: HashMap<u32, usize>,
    pub mysql_lag: Vec<u64>,
    pub match_lag: Vec<u64>,
    pub group_unhealthy: Vec<bool>,
    pub soft_events: u64,
    pub hard_events: u64,
    pub emergency_events: u64,
}

/// `n` times `v`.
pub open spec fn repeated<T>(v: T, n: nat) -> Seq<T> {
    Seq::new(n, |i: int| v)
}

fn zeros(n: usize) -> (r: Vec<u64>)
    ensures
        r@ == repeated(0u64, n as nat),
{
    let mut out: Vec<u64> = Vec::new();
    let mut i: usize = 0;
    while i < n
        invariant
            i <= n,
            out@ == repeated(0u64, i as nat),
        decreases n - i,
    {
        out.push(0);
        i += 1;
        assert(out@ =~= repeated(0u64, i as nat));
    }
    out
}

fn all_false(n: usize) -> (r: Vec<bool>)
    ensures
        r@ == repeated(false, n as nat),
{
    let mut out: Vec<bool> = Vec::new();
    let mut i: usize = 0;
    while i < n
        invariant
            i <= n,
            out@ == repeated(false, i as nat),
        decreases n - i,
    {
        out.push(false);
        i += 1;
        assert(out@ =~= repeated(false, i as nat));
    }
    out
}

/// The lags of a stage after new ones were read: each new one replaces the one
/// in its place, as far as there are places.
pub open spec fn refreshed(was: Seq<u64>, lags: Seq<u64>) -> Seq<u64> {
    Seq::new(
        was.len(),
        |i: int|
            if i < lags.len() {
                lags[i]
            } else {
                was[i]
            },
    )
}

/// The greatest of the values of `f` below `n`, or zero.
pub open spec fn greatest(f: spec_fn(int) -> u64, n: nat) -> u64
    decreases n,
{
    if n == 0 {
        0
    } else {
        greater(greatest(f, (n - 1) as nat), f(n - 1))
    }
}

/// How many of the flags are set.
pub open spec fn count_set(flags: Seq<bool>) -> nat
    decreases flags.len(),
{
    if flags.len() == 0 {
        0
    } else {
        count_set(flags.drop_last()) + if flags.last() {
            1nat
        } else {
            0
        }
    }
}

impl Backpressure {
    /// There is a topic, a partition and a group, and the partitions can be
    /// counted.
    pub open spec fn wf(self) -> bool {
        &&& self.topic_count > 0
        &&& self.partitions_per_topic > 0
        &&& self.raft_group_count > 0
        &&& self.topic_count * self.partitions_per_topic <= usize::MAX
    }

    /// Backpressure with its limits put in order: none is zero, and none is
    /// below the one before.
    pub fn new(
        soft: u64,
        hard: u64,
        emergency: u64,
        soft_delay_ms: u64,
        topic_count: usize,
        partitions_per_topic: u32,
        raft_group_count: usize,
        raft_group_pins: HashMap<u32, usize>,
    ) -> (r: Backpressure)
        requires
            topic_count <= u32::MAX,
            topic_count * partitions_per_topic <= usize::MAX,
        ensures
            r.wf(),
            r.soft == greater(soft, 1),
            r.hard == greater(hard, r.soft),
            r.emergency == greater(emergency, r.hard),
            r.soft_delay_ms == soft_delay_ms,
            r.topic_count == if topic_count == 0 {
                1
            } else {
                topic_count
            },
            r.partitions_per_topic == if partitions_per_topic == 0 {
                1
            } else {
                partitions_per_topic
            },
            r.raft_group_count == if raft_group_count == 0 {
                1
            } else {
                raft_group_count
            },
            r.raft_group_pins@ == raft_group_pins@,
            r.mysql_lag@ == repeated(0u64, (topic_count * partitions_per_topic) as nat),
            r.match_lag@ == repeated(0u64, (topic_count * partitions_per_topic) as nat),
            r.group_unhealthy@ == repeated(false, r.raft_group_count as nat),
            r.soft_events == 0 && r.hard_events == 0 && r.emergency_events == 0,
    {
        let soft: u64 = max_of(soft, 1);
        let hard: u64 = max_of(hard, soft);
        let emergency: u64 = max_of(emergency, hard);
        let partitions: usize = topic_count * partitions_per_topic as usize;
        let groups: usize = if raft_group_count == 0 {
            1
        } else {
            raft_group_count
        };
        let topics: u32 = if topic_count == 0 {
            1
        } else {
            topic_count as u32
        };
        let width: u32 = if partitions_per_topic == 0 {
            1
        } else {
            partitions_per_topic
        };
        proof {
            assert(topic_count == 0 ==> topics * width == width) by (nonlinear_arith)
                requires
                    topic_count == 0 ==> topics == 1,
            ;
            assert(partitions_per_topic == 0 ==> topics * width == topics) by (nonlinear_arith)
                requires
                    partitions_per_topic == 0 ==> width == 1,
            ;
        }
        Backpressure {
            soft,
            hard,
            emergency,
            soft_delay_ms,
            topic_count: topics,
            partitions_per_topic: width,
            raft_group_count: groups,
            raft_group_pins,
            mysql_lag: zeros(partitions),
            match_lag: zeros(partitions),
            group_unhealthy: all_false(groups),
            soft_events: 0,
            hard_events: 0,
            emergency_events: 0,
        }
    }

    /// The tier for a lag.
    pub open spec fn tier(self, lag: u64, quorum_lost: bool) -> BackpressureTier {
        if quorum_lost || lag >= self.emergency {
            BackpressureTier::Emergency
        } else if lag >= self.hard {
            BackpressureTier::Hard
        } else if lag >= self.soft {
            BackpressureTier::Soft
        } else {
            BackpressureTier::Normal
        }
    }

    /// The tier for a lag.
    pub fn classify(&self, lag: u64, quorum_lost: bool) -> (r: BackpressureTier)
        ensures
            r == self.tier(lag, quorum_lost),
    {
        if quorum_lost || lag >= self.emergency {
            BackpressureTier::Emergency
        } else if lag >= self.hard {
            BackpressureTier::Hard
        } else if lag >= self.soft {
            BackpressureTier::Soft
        } else {
            BackpressureTier::Normal
        }
    }

    /// The partition of a category, counted over all topics.
    pub open spec fn place(self, category: u32) -> int {
        (category as int % self.topic_count as int) * self.partitions_per_topic + (
        category as int / self.topic_count as int) % self.partitions_per_topic as int
    }

    /// The partition of a category, counted over all topics.
    pub fn partition_index(&self, category_id: u32) -> (r: usize)
        requires
            self.wf(),
        ensures
            r == self.place(category_id),
            r < self.topic_count * self.partitions_per_topic,
    {
        let topic: usize = (category_id % self.topic_count) as usize;
        let partition: usize = ((category_id / self.topic_count) % self.partitions_per_topic)
            as usize;
        proof {
            let n = self.topic_count as int;
            let w = self.partitions_per_topic as int;
            assert(topic * w + partition < n * w && topic * w <= n * w) by (nonlinear_arith)
                requires
                    0 <= topic < n,
                    0 <= partition < w,
            ;
        }
        topic * self.partitions_per_topic as usize + partition
    }

    /// The replication group of a category.
    pub open spec fn group(self, category: u32) -> int {
        group_of(category, self.raft_group_count as int, self.raft_group_pins@)
    }

    fn raft_group(&self, category_id: u32) -> (r: usize)
        requires
            self.wf(),
        ensures
            r == self.group(category_id),
    {
        raft_group_for_category_pinned(category_id, self.raft_group_count, &self.raft_group_pins)
    }

    /// How far the slower consumer of a partition is behind.
    pub open spec fn lag_at(self, index: int) -> u64 {
        greater(
            if 0 <= index < self.mysql_lag@.len() {
                self.mysql_lag@[index]
            } else {
                0
            },
            if 0 <= index < self.match_lag@.len() {
                self.match_lag@[index]
            } else {
                0
            },
        )
    }

    /// How far the slower consumer of a partition is behind.
    pub fn partition_lag(&self, index: usize) -> (r: u64)
        ensures
            r == self.lag_at(index as int),
    {
        let mysql: u64 = if index < self.mysql_lag.len() {
            self.mysql_lag[index]
        } else {
            0
        };
        let matcher: u64 = if index < self.match_lag.len() {
            self.match_lag[index]
        } else {
            0
        };
        max_of(mysql, matcher)
    }

    /// Takes over how far a stage is behind, by partition.
    pub fn set_partition_lags(&mut self, stage: &str, lags: &[u64])
        ensures
            final(self).mysql_lag@ == if stage_named(stage@) == Some(Stage::Mysql) {
                refreshed(old(self).mysql_lag@, lags@)
            } else {
                old(self).mysql_lag@
            },
            final(self).match_lag@ == if stage_named(stage@) == Some(Stage::Match) {
                refreshed(old(self).match_lag@, lags@)
            } else {
                old(self).match_lag@
            },
            *final(self) == (Backpressure {
                mysql_lag: final(self).mysql_lag,
                match_lag: final(self).match_lag,
                ..*old(self)
            }),
    {
        match stage_of(stage) {
            Some(Stage::Mysql) => refresh(&mut self.mysql_lag, lags),
            Some(Stage::Match) => refresh(&mut self.match_lag, lags),
            None => {},
        }
    }

    /// Takes over whether a group has a quorum. A group that is not there is
    /// passed over.
    pub fn set_group_health(&mut self, group: usize, healthy: bool)
        ensures
            final(self).group_unhealthy@ == if group < old(self).group_unhealthy@.len() {
                old(self).group_unhealthy@.update(group as int, !healthy)
            } else {
                old(self).group_unhealthy@
            },
            *final(self) == (Backpressure {
                group_unhealthy: final(self).group_unhealthy,
                ..*old(self)
            }),
    {
        if group < self.group_unhealthy.len() {
            self.group_unhealthy.set(group, !healthy);
        }
    }

    /// The group is there and has lost its quorum.
    pub open spec fn lost(self, group: int) -> bool {
        0 <= group < self.group_unhealthy@.len() && self.group_unhealthy@[group]
    }

    /// The tier of a category.
    pub open spec fn tier_of(self, category: u32) -> BackpressureTier {
        self.tier(self.lag_at(self.place(category)), self.lost(self.group(category)))
    }

    /// The tier of a category, from the lag of its partition and the health of
    /// its group.
    pub fn tier_for_category(&self, category_id: u32) -> (r: BackpressureTier)
        requires
            self.wf(),
        ensures
            r == self.tier_of(category_id),
    {
        let lag: u64 = self.partition_lag(self.partition_index(category_id));
        let group: usize = self.raft_group(category_id);
        let lost: bool = group < self.group_unhealthy.len() && self.group_unhealthy[group];
        self.classify(lag, lost)
    }

    /// The state after a write in a tier was counted.
    pub open spec fn noted(self, tier: BackpressureTier) -> Backpressure {
        match tier {
            BackpressureTier::Normal => self,
            BackpressureTier::Soft => (Backpressure {
                soft_events: self.soft_events.wrapping_add(1),
                ..self
            }),
            BackpressureTier::Hard => (Backpressure {
                hard_events: self.hard_events.wrapping_add(1),
                ..self
            }),
            BackpressureTier::Emergency => (Backpressure {
                emergency_events: self.emergency_events.wrapping_add(1),
                ..self
            }),
        }
    }

    /// Whether a write of a category is taken: after how many milliseconds, or
    /// why not.
    pub open spec fn admission(self, category: u32) -> Result<u64, Seq<char>> {
        match self.tier_of(category) {
            BackpressureTier::Normal => Ok(0),
            BackpressureTier::Soft => Ok(self.soft_delay_ms),
            BackpressureTier::Hard => Err(
                "backpressure: category "@ + decimal(category as nat)
                    + " throttled at hard limit "@ + decimal(self.hard as nat),
            ),
            BackpressureTier::Emergency => Err(
                "backpressure-emergency: category "@ + decimal(category as nat)
                    + " writes stopped (lag/quorum)"@,
            ),
        }
    }

    /// Admits a write of a category, with the delay that slows its caller down,
    /// or refuses it.
    pub fn admit_write(&mut self, category_id: u32) -> (r: Result<u64, String>)
        requires
            old(self).wf(),
        ensures
            *final(self) == old(self).noted(old(self).tier_of(category_id)),
            match r {
                Ok(delay) => old(self).admission(category_id) == Ok::<u64, Seq<char>>(delay),
                Err(e) => old(self).admission(category_id) == Err::<u64, Seq<char>>(e@),
            },
    {
        let tier = self.tier_for_category(category_id);
        match tier {
            BackpressureTier::Normal => Ok(0),
            BackpressureTier::Soft => {
                self.soft_events = self.soft_events.wrapping_add(1);
                Ok(self.soft_delay_ms)
            },
            BackpressureTier::Hard => {
                self.hard_events = self.hard_events.wrapping_add(1);
                let mut e = String::new();
                e.append("backpressure: category ");
                assert(e@ =~= "backpressure: category "@);
                push_decimal(&mut e, category_id as u64);
                e.append(" throttled at hard limit ");
                push_decimal(&mut e, self.hard);
                Err(e)
            },
            BackpressureTier::Emergency => {
                self.emergency_events = self.emergency_events.wrapping_add(1);
                let mut e = String::new();
                e.append("backpressure-emergency: category ");
                assert(e@ =~= "backpressure-emergency: category "@);
                push_decimal(&mut e, category_id as u64);
                e.append(" writes stopped (lag/quorum)");
                Err(e)
            },
        }
    }

    /// The worst of the categories: of the severest tier, and among those the
    /// greatest.
    pub open spec fn worst(self, categories: Seq<u32>) -> Option<u32>
        decreases categories.len(),
    {
        if categories.len() == 0 {
            None
        } else {
            let last = categories.last();
            match self.worst(categories.drop_last()) {
                None => Some(last),
                Some(c) => if self.beyond(last, c) {
                    Some(last)
                } else {
                    Some(c)
                },
            }
        }
    }

    /// `a` is not before `b` in the order of tier and number.
    pub open spec fn beyond(self, a: u32, b: u32) -> bool {
        let (s, t) = (self.tier_of(a).severity(), self.tier_of(b).severity());
        s > t || s == t && a >= b
    }

    /// The worst category of a batch is of a tier that no other one exceeds.
    pub proof fn law_worst_is_severest(&self, categories: Seq<u32>, i: int)
        requires
            0 <= i < categories.len(),
        ensures
            self.worst(categories) is Some,
            categories.contains(self.worst(categories)->0),
            self.tier_of(categories[i]).severity() <= self.tier_of(
                self.worst(categories)->0,
            ).severity(),
        decreases categories.len(),
    {
        let rest = categories.drop_last();
        let last = categories.last();
        assert(categories[categories.len() - 1] == last);
        if rest.len() > 0 {
            let j = if i < rest.len() {
                i
            } else {
                0
            };
            self.law_worst_is_severest(rest, j);
            let k = choose|k: int| 0 <= k < rest.len() && rest[k] == self.worst(rest)->0;
            assert(categories[k] == self.worst(rest)->0);
        }
    }

    /// The category that decides over a batch, if the batch is not empty.
    pub fn worst_category(&self, categories: &[u32]) -> (r: Option<u32>)
        requires
            self.wf(),
        ensures
            r == self.worst(categories@),
    {
        let mut found: Option<u32> = None;
        let mut i: usize = 0;
        let size: usize = categories.len();
        while i < size
            invariant
                self.wf(),
                i <= size == categories@.len(),
                found == self.worst(categories@.take(i as int)),
            decreases size - i,
        {
            let category: u32 = categories[i];
            proof {
                assert(categories@.take(i + 1).drop_last() =~= categories@.take(i as int));
            }
            match found {
                None => {
                    found = Some(category);
                },
                Some(c) => {
                    let s: u8 = self.tier_for_category(category).rank();
                    let t: u8 = self.tier_for_category(c).rank();
                    if s > t || (s == t && category >= c) {
                        found = Some(category);
                    }
                },
            }
            i += 1;
        }
        assert(categories@.take(i as int) =~= categories@);
        found
    }

    /// The greatest lag of a partition.
    pub open spec fn peak(self) -> u64 {
        greatest(|i: int| self.lag_at(i), self.mysql_lag@.len())
    }

    /// The greatest lag of a partition.
    pub fn max_partition_lag(&self) -> (r: u64)
        ensures
            r == self.peak(),
    {
        let ghost f = |i: int| self.lag_at(i);
        let mut max: u64 = 0;
        let mut i: usize = 0;
        while i < self.mysql_lag.len()
            invariant
                i <= self.mysql_lag@.len(),
                f == (|i: int| self.lag_at(i)),
                max == greatest(f, i as nat),
            decreases self.mysql_lag@.len() - i,
        {
            let lag: u64 = self.partition_lag(i);
            assert(f(i as int) == lag);
            max = max_of(max, lag);
            i += 1;
        }
        max
    }

    /// How many groups have lost their quorum.
    pub fn unhealthy_groups(&self) -> (r: u64)
        ensures
            r == count_set(self.group_unhealthy@),
    {
        let mut n: u64 = 0;
        let mut i: usize = 0;
        while i < self.group_unhealthy.len()
            invariant
                i <= self.group_unhealthy@.len(),
                n == count_set(self.group_unhealthy@.take(i as int)),
                n <= i,
            decreases self.group_unhealthy@.len() - i,
        {
            assert(self.group_unhealthy@.take(i + 1).drop_last() =~= self.group_unhealthy@.take(
                i as int,
            ));
            if self.group_unhealthy[i] {
                n += 1;
            }
            i += 1;
        }
        assert(self.group_unhealthy@.take(i as int) =~= self.group_unhealthy@);
        n
    }

    /// The exposition.
    pub open spec fn exposition(self) -> Seq<char> {
        typed_metric("tc_order_bp_soft_limit"@, "gauge"@, self.soft as nat) + typed_metric(
            "tc_order_bp_hard_limit"@,
            "gauge"@,
            self.hard as nat,
        ) + typed_metric(
            "tc_order_bp_emergency_limit"@,
            "gauge"@,
            self.emergency as nat,
        ) + typed_metric(
            "tc_order_bp_soft_total"@,
            "counter"@,
            self.soft_events as nat,
        ) + typed_metric(
            "tc_order_bp_hard_total"@,
            "counter"@,
            self.hard_events as nat,
        ) + typed_metric(
            "tc_order_bp_emergency_total"@,
            "counter"@,
            self.emergency_events as nat,
        ) + typed_metric(
            "tc_order_bp_max_partition_lag"@,
            "gauge"@,
            self.peak() as nat,
        ) + typed_metric(
            "tc_order_bp_quorum_unhealthy_groups"@,
            "gauge"@,
            count_set(self.group_unhealthy@),
        )
    }

    /// The exposition in the Prometheus text format.
    pub fn render(&self) -> (r: String)
        ensures
            r@ == self.exposition(),
    {
        let mut out = String::new();
        push_typed(&mut out, "tc_order_bp_soft_limit", "gauge", self.soft);
        assert(out@ =~= typed_metric("tc_order_bp_soft_limit"@, "gauge"@, self.soft as nat));
        push_typed(&mut out, "tc_order_bp_hard_limit", "gauge", self.hard);
        push_typed(&mut out, "tc_order_bp_emergency_limit", "gauge", self.emergency);
        push_typed(&mut out, "tc_order_bp_soft_total", "counter", self.soft_events);
        push_typed(&mut out, "tc_order_bp_hard_total", "counter", self.hard_events);
        push_typed(&mut out, "tc_order_bp_emergency_total", "counter", self.emergency_events);
        let peak: u64 = self.max_partition_lag();
        push_typed(&mut out, "tc_order_bp_max_partition_lag", "gauge", peak);
        let unhealthy: u64 = self.unhealthy_groups();
        push_typed(&mut out, "tc_order_bp_quorum_unhealthy_groups", "gauge", unhealthy);
        out
    }
}

fn refresh(slots: &mut Vec<u64>, lags: &[u64])
    ensures
        final(slots)@ == refreshed(old(slots)@, lags@),
{
    let ghost was = slots@;
    let mut i: usize = 0;
    while i < slots.len() && i < lags.len()
        invariant
            i <= slots@.len() == was.len(),
            i <= lags@.len(),
            slots@ == refreshed(was, lags@.take(i as int)),
        decreases slots@.len() - i,
    {
        slots.set(i, lags[i]);
        i += 1;
        assert(slots@ =~= refreshed(was, lags@.take(i as int)));
    }
    assert(slots@ =~= refreshed(was, lags@));
}

/// A category that shares neither partition nor group with others keeps its tier
/// whatever becomes of those: the lag of other partitions and the health of other
/// groups do not count.
pub proof fn law_categories_are_isolated(a: Backpressure, b: Backpressure, category: u32)
    requires
        a.soft == b.soft && a.hard == b.hard && a.emergency == b.emergency,
        a.topic_count == b.topic_count && a.partitions_per_topic == b.partitions_per_topic,
        a.raft_group_count == b.raft_group_count && a.raft_group_pins@ == b.raft_group_pins@,
        a.lag_at(a.place(category)) == b.lag_at(b.place(category)),
        a.lost(a.group(category)) == b.lost(b.group(category)),
    ensures
        a.tier_of(category) == b.tier_of(category),
{
}

/// With the limits in order, a greater lag never gives a milder tier.
pub proof fn law_tiers_climb(b: Backpressure, lag: u64, more: u64, quorum_lost: bool)
    requires
        b.soft <= b.hard <= b.emergency,
        lag <= more,
    ensures
        b.tier(lag, quorum_lost).severity() <= b.tier(more, quorum_lost).severity(),
{
}

/// A reservation that is given back whole leaves the backlog as it was.
pub proof fn law_reservation_is_given_back(inflight: u64, commands: u64)
    requires
        inflight + commands <= u64::MAX,
    ensures
        capped_sum(inflight, commands).wrapping_sub(commands) == inflight,
{
}

/// The status line that answers a refused write.
pub open spec fn error_status(error: Seq<char>) -> Seq<char> {
    if has_prefix(error, "backpressure:"@) {
        "429 Too Many Requests"@
    } else {
        "503 Service Unavailable"@
    }
}

/// The status that answers a refused write: too many requests when its caller
/// was throttled, else the service is unavailable.
pub fn ingress_error_status(error: &str) -> (r: &'static str)
    ensures
        r@ == error_status(error@),
{
    let chars = chars_of(error);
    if strip_prefix(&chars, "backpressure:").is_some() {
        "429 Too Many Requests"
    } else {
        "503 Service Unavailable"
    }
}

/// A refusal at the hard limit is answered as too many requests, and one in an
/// emergency as unavailable.
pub proof fn law_refusals_are_told_apart(b: Backpressure, category: u32)
    ensures
        b.tier_of(category) is Hard ==> error_status(b.admission(category)->Err_0)
            == "429 Too Many Requests"@,
        b.tier_of(category) is Emergency ==> error_status(b.admission(category)->Err_0)
            == "503 Service Unavailable"@,
{
    reveal_strlit("backpressure:");
    reveal_strlit("backpressure: category ");
    reveal_strlit("backpressure-emergency: category ");
    if b.tier_of(category) is Hard {
        let e = b.admission(category)->Err_0;
        assert(e.len() >= 13);
        assert(e.take(13) =~= "backpressure:"@);
    }
    if b.tier_of(category) is Emergency {
        let e = b.admission(category)->Err_0;
        assert(e[12] == '-');
        if has_prefix(e, "backpressure:"@) {
            assert(e.take(13)[12] == "backpressure:"@[12]);
        }
    }
}

/// The tier of a lag is told by the limits that it has reached, of which the highest counts;
/// a group without a quorum is an emergency.
pub proof fn law_tiers_are_told_by_the_limits(b: Backpressure, lag: u64)
    requires
        b.soft <= b.hard <= b.emergency,
    ensures
        b.tier(lag, true) is Emergency,
        b.tier(lag, false) is Normal <==> lag < b.soft,
        b.tier(lag, false) is Soft <==> b.soft <= lag < b.hard,
        b.tier(lag, false) is Hard <==> b.hard <= lag < b.emergency,
        b.tier(lag, false) is Emergency <==> b.emergency <= lag,
        BackpressureTier::Normal.severity() < BackpressureTier::Soft.severity(),
        BackpressureTier::Soft.severity() < BackpressureTier::Hard.severity(),
        BackpressureTier::Hard.severity() < BackpressureTier::Emergency.severity(),
{
}

/// A write is taken at once below the soft limit, after the delay from there to the hard
/// limit, and refused from the hard limit on or when the group has lost its quorum; what
/// counts of a category is the slower consumer of its partition.
pub proof fn law_admission_follows_the_lag(b: Backpressure, category: u32)
    requires
        b.wf(),
        b.soft <= b.hard <= b.emergency,
        b.place(category) < b.mysql_lag@.len(),
        b.place(category) < b.match_lag@.len(),
    ensures
        ({
            let at = b.place(category);
            let (slow, fast) = if b.mysql_lag@[at] >= b.match_lag@[at] {
                (b.mysql_lag@[at], b.match_lag@[at])
            } else {
                (b.match_lag@[at], b.mysql_lag@[at])
            };
            let refused = slow >= b.hard || b.lost(b.group(category));
            &&& 0 <= at < b.topic_count * b.partitions_per_topic
            &&& refused <==> b.admission(category) is Err
            &&& !refused && slow < b.soft ==> b.admission(category) == Ok::<u64, Seq<char>>(0)
            &&& !refused && slow >= b.soft ==> b.admission(category) == Ok::<u64, Seq<char>>(
                b.soft_delay_ms,
            )
        }),
{
    let n = b.topic_count as int;
    let w = b.partitions_per_topic as int;
    let c = category as int;
    let t = c % n;
    let p = (c / n) % w;
    assert(0 <= t < n && 0 <= p < w) by (nonlinear_arith)
        requires
            n > 0,
            w > 0,
            c >= 0,
            t == c % n,
            p == (c / n) % w,
    ;
    assert(0 <= t * w + p < n * w) by (nonlinear_arith)
        requires
            0 <= t < n,
            0 <= p < w,
    ;
}

/// Commands are taken exactly if with them the backlog, which is what is on its way to the
/// queue and what the slower consumer has still to read, stays within its limit; and then
/// they are on their way, else they are counted as refused.
pub proof fn law_backlog_stays_within_its_limit(
    m: OrderPipelineMetrics,
    commands: u64,
    max_backlog: u64,
)
    requires
        m.inflight_publish_commands + m.observed_mysql_lag + commands <= u64::MAX,
        m.inflight_publish_commands + m.observed_match_lag + commands <= u64::MAX,
    ensures
        ({
            let now = m.reserved(commands, max_backlog);
            let fits = m.inflight_publish_commands + m.observed_mysql_lag + commands <= max_backlog
                && m.inflight_publish_commands + m.observed_match_lag + commands <= max_backlog;
            &&& m.overfull(commands, max_backlog) <==> !fits
            &&& fits ==> now.inflight_publish_commands == m.inflight_publish_commands + commands
                && now.backpressure_rejections == m.backpressure_rejections && now.pending()
                == m.pending() + commands && now.pending() <= max_backlog
            &&& !fits ==> now.inflight_publish_commands == m.inflight_publish_commands
                && now.pending() == m.pending()
        }),
{
}

} // verus!
