//! How the order queue is set up: what the environment says of its topics, its
//! consumers, its producer and its limits, and what holds where it says nothing.

use std::collections::HashMap;

use vstd::prelude::*;
use vstd::string::StringExecFns;

use crate::settings::{
    category_pins, env_number, numeric, pins_set, setting, strings, topic_names, topics,
};
use crate::text::{chars_of, decimal, is_text, push_decimal};

verus! {

/// The value of the variable `name`, if it is set.
pub open spec fn value_of(vars: Seq<(String, String)>, name: Seq<char>) -> Option<Seq<char>>
    decreases vars.len(),
{
    if vars.len() == 0 {
        None
    } else {
        match value_of(vars.drop_last(), name) {
            Some(value) => Some(value),
            None => if vars.last().0@ == name {
                Some(vars.last().1@)
            } else {
                None
            },
        }
    }
}

/// A variable that is set in the front is set there for the whole list.
proof fn lemma_value_found(vars: Seq<(String, String)>, name: Seq<char>, n: int)
    requires
        0 <= n <= vars.len(),
        value_of(vars.take(n), name) is Some,
    ensures
        value_of(vars, name) == value_of(vars.take(n), name),
    decreases vars.len() - n,
{
    if n < vars.len() {
        assert(vars.take(n + 1).drop_last() =~= vars.take(n));
        lemma_value_found(vars, name, n + 1);
    } else {
        assert(vars.take(n) =~= vars);
    }
}

/// The value of a variable.
pub fn lookup<'a>(vars: &'a Vec<(String, String)>, name: &str) -> (r: Option<&'a str>)
    ensures
        setting(r) == value_of(vars@, name@),
{
    let mut i: usize = 0;
    assert(vars@.take(0) =~= Seq::<(String, String)>::empty());
    while i < vars.len()
        invariant
            i <= vars@.len(),
            value_of(vars@.take(i as int), name@) is None,
        decreases vars@.len() - i,
    {
        let chars = chars_of(vars[i].0.as_str());
        assert(vars@.take(i + 1).drop_last() =~= vars@.take(i as int));
        if is_text(chars.as_slice(), name) {
            proof {
                lemma_value_found(vars@, name@, i + 1);
            }
            return Some(vars[i].1.as_str());
        }
        i += 1;
    }
    assert(vars@.take(i as int) =~= vars@);
    None
}

/// The number that a variable says; see [`env_number`].
fn number_in(vars: &Vec<(String, String)>, name: &str, default: u64, max: u64) -> (r: u64)
    ensures
        r == numeric(value_of(vars@, name@), default, max),
        default <= max ==> r <= max,
{
    env_number(lookup(vars, name), default, max)
}

/// What a variable says, else the default.
pub open spec fn said(value: Option<Seq<char>>, default: Seq<char>) -> Seq<char> {
    match value {
        Some(text) => text,
        None => default,
    }
}

fn text_in(vars: &Vec<(String, String)>, name: &str, default: &str) -> (r: String)
    ensures
        r@ == said(value_of(vars@, name@), default@),
{
    match lookup(vars, name) {
        Some(text) => String::from_str(text),
        None => String::from_str(default),
    }
}

/// How the order queue is produced to and consumed.
pub struct QueueSettings {
    pub brokers: String,
    pub topics: Vec<String>,
    pub partitions: u32,
    pub route_version: u32,
    /// How long the producer waits for more to send, in milliseconds.
    pub linger_ms: u64,
    /// Messages that the producer sends together at most.
    pub batch_messages: u64,
    pub compression: String,
    /// What the producer holds back at most.
    pub queue_kbytes: u64,
    pub db_consumers: usize,
    pub matcher_consumers: usize,
    pub execution_consumers: usize,
    pub db_group: String,
    pub matcher_group: String,
    pub execution_topic: String,
    pub execution_group: String,
    /// Categories that are pinned to a group.
    pub pins: HashMap<u32, usize>,
    /// Messages that a consumer takes together at most.
    pub batch_size: usize,
    /// How long a consumer waits for more, in milliseconds.
    pub batch_linger_ms: u64,
    pub max_pipeline_backlog: u64,
    /// Lags at which backpressure sets in, refuses, and shuts.
    pub soft: u64,
    pub hard: u64,
    pub emergency: u64,
    pub soft_delay_ms: u64,
}

/// What queue settings say.
#[verifier::ext_equal]
pub struct QueueSettingsView {
    pub brokers: Seq<char>,
    pub topics: Seq<Seq<char>>,
    pub partitions: u32,
    pub route_version: u32,
    pub linger_ms: u64,
    pub batch_messages: u64,
    pub compression: Seq<char>,
    pub queue_kbytes: u64,
    pub db_consumers: u64,
    pub matcher_consumers: u64,
    pub execution_consumers: u64,
    pub db_group: Seq<char>,
    pub matcher_group: Seq<char>,
    pub execution_topic: Seq<char>,
    pub execution_group: Seq<char>,
    pub pins: Map<u32, usize>,
    pub batch_size: u64,
    pub batch_linger_ms: u64,
    pub max_pipeline_backlog: u64,
    pub soft: u64,
    pub hard: u64,
    pub emergency: u64,
    pub soft_delay_ms: u64,
}

impl View for QueueSettings {
    type V = QueueSettingsView;

    open spec fn view(&self) -> QueueSettingsView {
        QueueSettingsView {
            brokers: self.brokers@,
            topics: strings(self.topics@),
            partitions: self.partitions,
            route_version: self.route_version,
            linger_ms: self.linger_ms,
            batch_messages: self.batch_messages,
            compression: self.compression@,
            queue_kbytes: self.queue_kbytes,
            db_consumers: self.db_consumers as u64,
            matcher_consumers: self.matcher_consumers as u64,
            execution_consumers: self.execution_consumers as u64,
            db_group: self.db_group@,
            matcher_group: self.matcher_group@,
            execution_topic: self.execution_topic@,
            execution_group: self.execution_group@,
            pins: self.pins@,
            batch_size: self.batch_size as u64,
            batch_linger_ms: self.batch_linger_ms,
            max_pipeline_backlog: self.max_pipeline_backlog,
            soft: self.soft,
            hard: self.hard,
            emergency: self.emergency,
            soft_delay_ms: self.soft_delay_ms,
        }
    }
}

/// One, or more.
pub open spec fn at_least_one(n: u64) -> u64 {
    if n == 0 {
        1
    } else {
        n
    }
}

/// One consumer for each partition, unless there are more than can be counted;
/// one at least.
pub open spec fn partition_workers(topics: nat, partitions: nat) -> u64 {
    let n = topics * partitions;
    if n == 0 {
        1
    } else if n > usize::MAX {
        usize::MAX as u64
    } else {
        n as u64
    }
}

/// The topics that the environment asks for.
pub open spec fn topics_set(vars: Seq<(String, String)>) -> Seq<Seq<char>> {
    topic_names(
        value_of(vars, "TC_ORDER_KAFKA_TOPICS"@),
        numeric(value_of(vars, "TC_ORDER_KAFKA_TOPIC_COUNT"@), 4, usize::MAX as u64),
        said(value_of(vars, "TC_ORDER_KAFKA_TOPIC_PREFIX"@), "orders-v2-g"@),
    )
}

/// The queue that the environment describes for `groups` replication groups; none
/// without brokers.
pub open spec fn queue_set(vars: Seq<(String, String)>, groups: u64) -> Option<QueueSettingsView> {
    let small = u32::MAX as u64;
    let count = usize::MAX as u64;
    let partitions = numeric(value_of(vars, "TC_ORDER_KAFKA_PARTITIONS_PER_TOPIC"@), 8, small);
    match value_of(vars, "TC_ORDER_KAFKA_BROKERS"@) {
        None => None,
        Some(brokers) => Some(
            QueueSettingsView {
                brokers,
                topics: topics_set(vars),
                partitions: partitions as u32,
                route_version: numeric(
                    value_of(vars, "TC_ORDER_KAFKA_ROUTE_VERSION"@),
                    1,
                    small,
                ) as u32,
                linger_ms: numeric(value_of(vars, "TC_ORDER_KAFKA_LINGER_MS"@), 1, u64::MAX),
                batch_messages: numeric(
                    value_of(vars, "TC_ORDER_KAFKA_BATCH_MESSAGES"@),
                    10_000,
                    count,
                ),
                compression: said(value_of(vars, "TC_ORDER_KAFKA_COMPRESSION"@), "lz4"@),
                queue_kbytes: numeric(
                    value_of(vars, "TC_ORDER_KAFKA_QUEUE_KBYTES"@),
                    1_048_576,
                    count,
                ),
                db_consumers: numeric(
                    value_of(vars, "TC_ORDER_KAFKA_DB_CONSUMERS"@),
                    numeric(
                        value_of(vars, "TC_ORDER_KAFKA_CONSUMERS"@),
                        partition_workers(topics_set(vars).len(), partitions as nat),
                        count,
                    ),
                    count,
                ),
                matcher_consumers: numeric(
                    value_of(vars, "TC_ORDER_KAFKA_MATCH_CONSUMERS"@),
                    at_least_one(groups),
                    count,
                ),
                execution_consumers: numeric(
                    value_of(vars, "TC_EXECUTION_KAFKA_MYSQL_CONSUMERS"@),
                    4,
                    count,
                ),
                db_group: said(
                    value_of(vars, "TC_ORDER_KAFKA_DB_GROUP"@),
                    "trade-order-persist-v1"@,
                ),
                matcher_group: said(
                    value_of(vars, "TC_ORDER_KAFKA_MATCH_GROUP"@),
                    "trade-order-match-v1"@,
                ),
                execution_topic: said(
                    value_of(vars, "TC_EXECUTION_KAFKA_TOPIC"@),
                    "trade-executions-v1"@,
                ),
                execution_group: said(
                    value_of(vars, "TC_EXECUTION_KAFKA_MYSQL_GROUP"@),
                    "trade-order-execution-mysql-v1"@,
                ),
                pins: pins_set(value_of(vars, "TC_RAFT_CATEGORY_PINS"@)),
                batch_size: at_least_one(
                    numeric(value_of(vars, "TC_ORDER_BATCH_SIZE"@), 1_000, count),
                ),
                batch_linger_ms: numeric(value_of(vars, "TC_ORDER_BATCH_LINGER_MS"@), 2, u64::MAX),
                max_pipeline_backlog: at_least_one(
                    numeric(value_of(vars, "TC_ORDER_MAX_PIPELINE_BACKLOG"@), 50_000, u64::MAX),
                ),
                soft: numeric(value_of(vars, "TC_ORDER_BP_SOFT"@), 100_000, u64::MAX),
                hard: numeric(value_of(vars, "TC_ORDER_BP_HARD"@), 250_000, u64::MAX),
                emergency: numeric(value_of(vars, "TC_ORDER_BP_EMERGENCY"@), 750_000, u64::MAX),
                soft_delay_ms: numeric(value_of(vars, "TC_ORDER_BP_SOFT_DELAY_MS"@), 2, u64::MAX),
            },
        ),
    }
}

fn or_one(n: u64) -> (r: u64)
    ensures
        r == at_least_one(n),
{
    if n == 0 {
        1
    } else {
        n
    }
}

fn workers_for(topics: usize, partitions: u32) -> (r: usize)
    ensures
        r == partition_workers(topics as nat, partitions as nat),
{
    proof {
        assert(topics * partitions <= u128::MAX) by (nonlinear_arith)
            requires
                topics <= u64::MAX,
                partitions <= u32::MAX,
        ;
        assert(topics * partitions >= 0) by (nonlinear_arith);
    }
    let n: u128 = topics as u128 * partitions as u128;
    if n == 0 {
        1
    } else if n > usize::MAX as u128 {
        usize::MAX
    } else {
        n as usize
    }
}

/// Reads the queue's settings from the environment `vars`; nothing without
/// brokers.
pub fn queue_settings(vars: &Vec<(String, String)>, raft_group_count: usize) -> (r: Option<
    QueueSettings,
>)
    ensures
        match r {
            Some(found) => queue_set(vars@, raft_group_count as u64) == Some(found@),
            None => queue_set(vars@, raft_group_count as u64) is None,
        },
{
    let small: u64 = u32::MAX as u64;
    let count: u64 = usize::MAX as u64;
    let brokers = match lookup(vars, "TC_ORDER_KAFKA_BROKERS") {
        Some(text) => String::from_str(text),
        None => {
            return None;
        },
    };
    let prefix = text_in(vars, "TC_ORDER_KAFKA_TOPIC_PREFIX", "orders-v2-g");
    let topics = topics(
        lookup(vars, "TC_ORDER_KAFKA_TOPICS"),
        number_in(vars, "TC_ORDER_KAFKA_TOPIC_COUNT", 4, count),
        prefix.as_str(),
    );
    let partitions: u32 = number_in(vars, "TC_ORDER_KAFKA_PARTITIONS_PER_TOPIC", 8, small) as u32;
    let workers: usize = workers_for(topics.len(), partitions);
    assert(topics@.len() == strings(topics@).len());
    let consumers: u64 = number_in(vars, "TC_ORDER_KAFKA_CONSUMERS", workers as u64, count);
    let found = QueueSettings {
        brokers,
        topics,
        partitions,
        route_version: number_in(vars, "TC_ORDER_KAFKA_ROUTE_VERSION", 1, small) as u32,
        linger_ms: number_in(vars, "TC_ORDER_KAFKA_LINGER_MS", 1, u64::MAX),
        batch_messages: number_in(vars, "TC_ORDER_KAFKA_BATCH_MESSAGES", 10_000, count),
        compression: text_in(vars, "TC_ORDER_KAFKA_COMPRESSION", "lz4"),
        queue_kbytes: number_in(vars, "TC_ORDER_KAFKA_QUEUE_KBYTES", 1_048_576, count),
        db_consumers: number_in(vars, "TC_ORDER_KAFKA_DB_CONSUMERS", consumers, count) as usize,
        matcher_consumers: number_in(
            vars,
            "TC_ORDER_KAFKA_MATCH_CONSUMERS",
            or_one(raft_group_count as u64),
            count,
        ) as usize,
        execution_consumers: number_in(vars, "TC_EXECUTION_KAFKA_MYSQL_CONSUMERS", 4, count)
            as usize,
        db_group: text_in(vars, "TC_ORDER_KAFKA_DB_GROUP", "trade-order-persist-v1"),
        matcher_group: text_in(vars, "TC_ORDER_KAFKA_MATCH_GROUP", "trade-order-match-v1"),
        execution_topic: text_in(vars, "TC_EXECUTION_KAFKA_TOPIC", "trade-executions-v1"),
        execution_group: text_in(
            vars,
            "TC_EXECUTION_KAFKA_MYSQL_GROUP",
            "trade-order-execution-mysql-v1",
        ),
        pins: category_pins(lookup(vars, "TC_RAFT_CATEGORY_PINS")),
        batch_size: or_one(number_in(vars, "TC_ORDER_BATCH_SIZE", 1_000, count)) as usize,
        batch_linger_ms: number_in(vars, "TC_ORDER_BATCH_LINGER_MS", 2, u64::MAX),
        max_pipeline_backlog: or_one(
            number_in(vars, "TC_ORDER_MAX_PIPELINE_BACKLOG", 50_000, u64::MAX),
        ),
        soft: number_in(vars, "TC_ORDER_BP_SOFT", 100_000, u64::MAX),
        hard: number_in(vars, "TC_ORDER_BP_HARD", 250_000, u64::MAX),
        emergency: number_in(vars, "TC_ORDER_BP_EMERGENCY", 750_000, u64::MAX),
        soft_delay_ms: number_in(vars, "TC_ORDER_BP_SOFT_DELAY_MS", 2, u64::MAX),
    };
    proof {
        assert(queue_set(vars@, raft_group_count as u64)->0 =~= found@);
    }
    Some(found)
}

/// An option of the producer, as text.
pub open spec fn option(pair: (String, String)) -> (Seq<char>, Seq<char>) {
    (pair.0@, pair.1@)
}

/// The options that the queue's producer is made with: a message counts as sent
/// when all replicas have it, and a repeated attempt is not a second message.
pub open spec fn producer_set(settings: QueueSettingsView) -> Seq<(Seq<char>, Seq<char>)> {
    seq![
        ("bootstrap.servers"@, settings.brokers),
        ("acks"@, "all"@),
        ("enable.idempotence"@, "true"@),
        ("max.in.flight.requests.per.connection"@, "5"@),
        ("delivery.timeout.ms"@, "10000"@),
        ("linger.ms"@, decimal(settings.linger_ms as nat)),
        ("batch.num.messages"@, decimal(settings.batch_messages as nat)),
        ("compression.type"@, settings.compression),
        ("queue.buffering.max.kbytes"@, decimal(settings.queue_kbytes as nat)),
    ]
}

fn pair(name: &str, value: &str) -> (r: (String, String))
    ensures
        option(r) == (name@, value@),
{
    (String::from_str(name), String::from_str(value))
}

fn decimal_pair(name: &str, value: u64) -> (r: (String, String))
    ensures
        option(r) == (name@, decimal(value as nat)),
{
    let mut text = String::new();
    push_decimal(&mut text, value);
    assert(text@ =~= decimal(value as nat));
    (String::from_str(name), text)
}

/// The options that the producer of execution events is made with.
pub open spec fn execution_producer_set(vars: Seq<(String, String)>, brokers: Seq<char>) -> Seq<
    (Seq<char>, Seq<char>),
> {
    seq![
        ("bootstrap.servers"@, brokers),
        ("acks"@, "all"@),
        ("enable.idempotence"@, "true"@),
        ("linger.ms"@, said(value_of(vars, "TC_EXECUTION_KAFKA_LINGER_MS"@), "2"@)),
        (
            "batch.num.messages"@,
            said(value_of(vars, "TC_EXECUTION_KAFKA_BATCH_MESSAGES"@), "10000"@),
        ),
        (
            "compression.type"@,
            said(value_of(vars, "TC_EXECUTION_KAFKA_COMPRESSION"@), "lz4"@),
        ),
        (
            "queue.buffering.max.kbytes"@,
            said(value_of(vars, "TC_EXECUTION_KAFKA_QUEUE_KBYTES"@), "1048576"@),
        ),
        (
            "message.timeout.ms"@,
            said(value_of(vars, "TC_EXECUTION_KAFKA_DELIVERY_TIMEOUT_MS"@), "5000"@),
        ),
    ]
}

fn set_pair(name: &str, vars: &Vec<(String, String)>, variable: &str, default: &str) -> (r: (
    String,
    String,
))
    ensures
        option(r) == (name@, said(value_of(vars@, variable@), default@)),
{
    (String::from_str(name), text_in(vars, variable, default))
}

/// The options that the producer of execution events is made with.
pub fn execution_producer_options(vars: &Vec<(String, String)>, brokers: &str) -> (r: Vec<
    (String, String),
>)
    ensures
        r@.map_values(|pair: (String, String)| option(pair)) == execution_producer_set(
            vars@,
            brokers@,
        ),
{
    let mut out: Vec<(String, String)> = Vec::new();
    out.push(pair("bootstrap.servers", brokers));
    out.push(pair("acks", "all"));
    out.push(pair("enable.idempotence", "true"));
    out.push(set_pair("linger.ms", vars, "TC_EXECUTION_KAFKA_LINGER_MS", "2"));
    out.push(
        set_pair("batch.num.messages", vars, "TC_EXECUTION_KAFKA_BATCH_MESSAGES", "10000"),
    );
    out.push(set_pair("compression.type", vars, "TC_EXECUTION_KAFKA_COMPRESSION", "lz4"));
    out.push(
        set_pair("queue.buffering.max.kbytes", vars, "TC_EXECUTION_KAFKA_QUEUE_KBYTES", "1048576"),
    );
    out.push(
        set_pair("message.timeout.ms", vars, "TC_EXECUTION_KAFKA_DELIVERY_TIMEOUT_MS", "5000"),
    );
    assert(out@.map_values(|pair: (String, String)| option(pair)) =~= execution_producer_set(
        vars@,
        brokers@,
    ));
    out
}

/// The options that a consumer of the queue is made with: it starts at the oldest
/// message that is kept, and what it has dealt with is committed by hand.
pub open spec fn consumer_set(
    vars: Seq<(String, String)>,
    brokers: Seq<char>,
    group: Seq<char>,
) -> Seq<(Seq<char>, Seq<char>)> {
    let count = usize::MAX as u64;
    let min_bytes = numeric(value_of(vars, "TC_KAFKA_FETCH_MIN_BYTES"@), 1, count);
    let wait_ms = numeric(value_of(vars, "TC_KAFKA_FETCH_WAIT_MS"@), 10, u64::MAX);
    let max_bytes = numeric(value_of(vars, "TC_KAFKA_FETCH_MAX_BYTES"@), 52_428_800, count);
    seq![
        ("bootstrap.servers"@, brokers),
        ("group.id"@, group),
        ("fetch.min.bytes"@, decimal(min_bytes as nat)),
        ("fetch.wait.max.ms"@, decimal(wait_ms as nat)),
        ("fetch.message.max.bytes"@, decimal(max_bytes as nat)),
        ("enable.auto.commit"@, "false"@),
        ("enable.auto.offset.store"@, "false"@),
        ("auto.offset.reset"@, "earliest"@),
        ("partition.assignment.strategy"@, "cooperative-sticky"@),
    ]
}

/// The options that a consumer of the queue is made with.
pub fn consumer_options(vars: &Vec<(String, String)>, brokers: &str, group: &str) -> (r: Vec<
    (String, String),
>)
    ensures
        r@.map_values(|pair: (String, String)| option(pair)) == consumer_set(
            vars@,
            brokers@,
            group@,
        ),
{
    let count: u64 = usize::MAX as u64;
    let min_bytes: u64 = number_in(vars, "TC_KAFKA_FETCH_MIN_BYTES", 1, count);
    let wait_ms: u64 = number_in(vars, "TC_KAFKA_FETCH_WAIT_MS", 10, u64::MAX);
    let max_bytes: u64 = number_in(vars, "TC_KAFKA_FETCH_MAX_BYTES", 52_428_800, count);
    let mut out: Vec<(String, String)> = Vec::new();
    out.push(pair("bootstrap.servers", brokers));
    out.push(pair("group.id", group));
    out.push(decimal_pair("fetch.min.bytes", min_bytes));
    out.push(decimal_pair("fetch.wait.max.ms", wait_ms));
    out.push(decimal_pair("fetch.message.max.bytes", max_bytes));
    out.push(pair("enable.auto.commit", "false"));
    out.push(pair("enable.auto.offset.store", "false"));
    out.push(pair("auto.offset.reset", "earliest"));
    out.push(pair("partition.assignment.strategy", "cooperative-sticky"));
    assert(out@.map_values(|pair: (String, String)| option(pair)) =~= consumer_set(
        vars@,
        brokers@,
        group@,
    ));
    out
}

impl QueueSettings {
    /// The options that the queue's producer is made with.
    pub fn producer_options(&self) -> (r: Vec<(String, String)>)
        ensures
            r@.map_values(|pair: (String, String)| option(pair)) == producer_set(self@),
    {
        let mut out: Vec<(String, String)> = Vec::new();
        out.push(pair("bootstrap.servers", self.brokers.as_str()));
        out.push(pair("acks", "all"));
        out.push(pair("enable.idempotence", "true"));
        out.push(pair("max.in.flight.requests.per.connection", "5"));
        out.push(pair("delivery.timeout.ms", "10000"));
        out.push(decimal_pair("linger.ms", self.linger_ms));
        out.push(decimal_pair("batch.num.messages", self.batch_messages));
        out.push(pair("compression.type", self.compression.as_str()));
        out.push(decimal_pair("queue.buffering.max.kbytes", self.queue_kbytes));
        assert(out@.map_values(|pair: (String, String)| option(pair)) =~= producer_set(self@));
        out
    }
}

} // verus!
