//! How orders are spread over databases and tables, and instruments over
//! categories and replication groups.

use std::collections::HashMap;

use vstd::prelude::*;
use vstd::string::StringExecFns;

use crate::text::{at_least, push_at_least};
use crate::types::InstrumentId;

verus! {

broadcast use vstd::std_specs::hash::group_hash_axioms;

/// Instruments in a category, unless configured otherwise.
pub const DEFAULT_ASSET_CATEGORY_SIZE: u32 = 1000;

/// Databases.
pub const DB_COUNT: u32 = 10;

/// Tables in each database.
pub const TABLES_PER_DB: u32 = 100;

/// The category of an instrument: instruments are numbered from 1 on, and each
/// category has `size` of them.
pub open spec fn category(instrument: u32, size: u32) -> u32 {
    if instrument == 0 {
        0
    } else {
        ((instrument - 1) as u32) / size
    }
}

/// The category of an instrument.
pub fn asset_category(instrument: InstrumentId, category_size: u32) -> (r: u32)
    requires
        category_size > 0,
    ensures
        r == category(instrument.0, category_size),
{
    if instrument.0 == 0 {
        return 0;
    }
    (instrument.0 - 1) / category_size
}

/// The replication group of a category: the one that it is pinned to, else by
/// remainder.
pub open spec fn group_of(category: u32, groups: int, pins: Map<u32, usize>) -> int {
    if pins.contains_key(category) {
        pins[category] as int
    } else {
        (category as int) % groups
    }
}

/// The replication group of a category.
pub fn raft_group_for_category_pinned(
    category_id: u32,
    group_count: usize,
    pins: &HashMap<u32, usize>,
) -> (r: usize)
    requires
        group_count > 0,
    ensures
        r == group_of(category_id, group_count as int, pins@),
{
    match pins.get(&category_id) {
        Some(group) => *group,
        None => category_id as usize % group_count,
    }
}

/// A mixing of 64 bits that spreads consecutive numbers evenly.
pub open spec fn mixed(x: u64) -> u64 {
    let a = x.wrapping_add(0x9e37_79b9_7f4a_7c15);
    let b = (a ^ (a >> 30)).wrapping_mul(0xbf58_476d_1ce4_e5b9);
    let c = (b ^ (b >> 27)).wrapping_mul(0x94d0_49bb_1331_11eb);
    c ^ (c >> 31)
}

/// Mixes 64 bits.
pub fn splitmix64(x: u64) -> (r: u64)
    ensures
        r == mixed(x),
{
    let a: u64 = x.wrapping_add(0x9e37_79b9_7f4a_7c15);
    let b: u64 = (a ^ (a >> 30)).wrapping_mul(0xbf58_476d_1ce4_e5b9);
    let c: u64 = (b ^ (b >> 27)).wrapping_mul(0x94d0_49bb_1331_11eb);
    c ^ (c >> 31)
}

/// A database and a table in it.
#[derive(Clone, Copy, Debug, PartialEq, Eq, Structural)]
pub struct ShardRoute {
    pub db: u32,
    pub table: u32,
}

impl ShardRoute {
    /// Name of the table.
    pub fn table_name(&self) -> (r: String)
        ensures
            r@ == "asset_orders_"@ + at_least(self.table as nat, 3),
    {
        let mut out = String::new();
        out.append("asset_orders_");
        assert(out@ =~= "asset_orders_"@);
        push_at_least(&mut out, self.table as u64, 3);
        out
    }
}

/// How many databases and tables there are. Another shape needs another version.
#[derive(Clone, Copy, Debug, PartialEq, Eq, Structural)]
pub struct RouteConfig {
    pub db_count: u32,
    pub tables_per_db: u32,
    pub route_version: u32,
}

impl Default for RouteConfig {
    fn default() -> (r: RouteConfig)
        ensures
            r == (RouteConfig {
                db_count: DB_COUNT,
                tables_per_db: TABLES_PER_DB,
                route_version: 1,
            }),
    {
        RouteConfig { db_count: DB_COUNT, tables_per_db: TABLES_PER_DB, route_version: 1 }
    }
}

impl RouteConfig {
    /// There is a table.
    pub open spec fn wf(self) -> bool {
        self.db_count > 0 && self.tables_per_db > 0
    }

    /// The slot of a key, counted over all tables.
    pub open spec fn slot(self, key: u64) -> int {
        (mixed(key) as int) % (self.db_count * self.tables_per_db)
    }

    /// The table of a key.
    pub open spec fn table_of(self, key: u64) -> ShardRoute {
        ShardRoute {
            db: (self.slot(key) / self.tables_per_db as int) as u32,
            table: (self.slot(key) % self.tables_per_db as int) as u32,
        }
    }

    /// The table of an order.
    pub fn route_order_id(&self, order_id: u64) -> (r: ShardRoute)
        requires
            self.wf(),
        ensures
            r == self.table_of(order_id),
            r.db < self.db_count,
            r.table < self.tables_per_db,
    {
        let d = self.db_count;
        let t = self.tables_per_db;
        proof {
            assert(0 < d * t <= u64::MAX) by (nonlinear_arith)
                requires
                    0 < d <= u32::MAX,
                    0 < t <= u32::MAX,
            ;
        }
        let slot: u64 = splitmix64(order_id) % (d as u64 * t as u64);
        proof {
            let s = slot as int;
            assert(0 <= s / (t as int) <= s) by (nonlinear_arith)
                requires
                    s >= 0,
                    t > 0,
            ;
            assert(s / (t as int) < d) by (nonlinear_arith)
                requires
                    0 <= s < d * t,
                    t > 0,
            ;
        }
        ShardRoute { db: (slot / t as u64) as u32, table: (slot % t as u64) as u32 }
    }
}

/// The table of a user, in the default shape.
pub fn route(user: u64) -> (r: ShardRoute)
    ensures
        r == (RouteConfig {
            db_count: DB_COUNT,
            tables_per_db: TABLES_PER_DB,
            route_version: 1,
        }).table_of(user),
        r.db < DB_COUNT,
        r.table < TABLES_PER_DB,
{
    let config = RouteConfig {
        db_count: DB_COUNT,
        tables_per_db: TABLES_PER_DB,
        route_version: 1,
    };
    config.route_order_id(user)
}

/// Categories are blocks: the first one holds the instruments from 1 up to the size, the
/// next one as many after them, and so on.
pub proof fn law_categories_are_blocks(instrument: u32, size: u32)
    requires
        size > 0,
        instrument > 0,
    ensures
        category(instrument, size) * size < instrument <= (category(instrument, size) + 1) * size,
{
    let i = (instrument - 1) as int;
    let s = size as int;
    let c = i / s;
    assert(c * s <= i < (c + 1) * s) by (nonlinear_arith)
        requires
            s > 0,
            c == i / s,
    ;
}

/// A category that is pinned is where it is pinned to. Of the others, each is in one of the
/// groups, and two of them are in one group exactly if their numbers differ by a multiple of
/// the number of groups.
pub proof fn law_groups_share_the_categories(a: u32, b: u32, groups: int, pins: Map<u32, usize>)
    requires
        groups > 0,
    ensures
        pins.contains_key(a) ==> group_of(a, groups, pins) == pins[a],
        !pins.contains_key(a) ==> 0 <= group_of(a, groups, pins) < groups,
        !pins.contains_key(a) && a < groups ==> group_of(a, groups, pins) == a,
        !pins.contains_key(a) && !pins.contains_key(b) ==> (group_of(a, groups, pins) == group_of(
            b,
            groups,
            pins,
        ) <==> (a - b) % groups == 0),
{
    let (x, y) = (a as int, b as int);
    assert(x == groups * (x / groups) + x % groups && 0 <= x % groups < groups)
        by (nonlinear_arith)
        requires
            groups > 0,
    ;
    assert(y == groups * (y / groups) + y % groups && 0 <= y % groups < groups)
        by (nonlinear_arith)
        requires
            groups > 0,
    ;
    if x < groups {
        assert(x % groups == x) by (nonlinear_arith)
            requires
                0 <= x < groups,
        ;
    }
    vstd::arithmetic::div_mod::lemma_mod_equivalence(x, y, groups);
}

/// Every table of every database has its own slot: databases and tables are counted through,
/// so that two keys are in one table exactly if they have one slot.
pub proof fn law_tables_have_their_slots(config: RouteConfig, a: u64, b: u64)
    requires
        config.wf(),
    ensures
        config.table_of(a).db < config.db_count,
        config.table_of(a).table < config.tables_per_db,
        config.table_of(a).db * config.tables_per_db + config.table_of(a).table == mixed(a) as int
            % (config.db_count * config.tables_per_db),
        config.table_of(a) == config.table_of(b) <==> config.slot(a) == config.slot(b),
{
    lemma_slot(config, a);
    lemma_slot(config, b);
}

proof fn lemma_slot(config: RouteConfig, a: u64)
    requires
        config.wf(),
    ensures
        config.table_of(a).db < config.db_count,
        config.table_of(a).table < config.tables_per_db,
        config.table_of(a).db * config.tables_per_db + config.table_of(a).table == config.slot(a),
{
    let d = config.db_count as int;
    let t = config.tables_per_db as int;
    let n = d * t;
    assert(n > 0) by (nonlinear_arith)
        requires
            d > 0,
            t > 0,
            n == d * t,
    ;
    let m = mixed(a) as int;
    let s = m % n;
    assert(0 <= s < n) by (nonlinear_arith)
        requires
            n > 0,
            s == m % n,
    ;
    let q = s / t;
    assert(0 <= q < d && s == q * t + s % t && 0 <= s % t < t) by (nonlinear_arith)
        requires
            0 <= s < d * t,
            t > 0,
            q == s / t,
    ;
}

} // verus!
