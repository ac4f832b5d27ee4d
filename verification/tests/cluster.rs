//! Instrument routing, category migration and queue routing.

use std::collections::HashMap;

use trade_core::cluster::{
    ClusterMap, ClusterRouter, MigrationError, MigrationState, RouteControlPlane,
};
use trade_core::order_queue::{encode_envelope, QueueEnvelope, QueueRouter, ENVELOPE_LEN};
use trade_core::sharding::{
    asset_category, raft_group_for_category_pinned, route, splitmix64, RouteConfig, ShardRoute,
};
use trade_core::types::{InstrumentId, OrderId, Side};
use trade_core::wire::{encode_new, MSG_LEN};
use trade_core::Order;

#[test]
fn routes_deterministically_with_pins() {
    let map = ClusterMap::new(vec![
        "10.0.0.1:9001".into(),
        "10.0.0.2:9001".into(),
        "10.0.0.3:9001".into(),
    ])
    .pin(InstrumentId(42), 0);

    assert_eq!(map.node_for(InstrumentId(0)), 0);
    assert_eq!(map.node_for(InstrumentId(1)), 1);
    assert_eq!(map.node_for(InstrumentId(5)), 2);
    let map = map.pin(InstrumentId(43), 0);
    assert_eq!(map.node_for(InstrumentId(43)), 0);
    assert_eq!(map.addr_for(InstrumentId(43)), "10.0.0.1:9001");
}

#[test]
fn routes_large_disjoint_asset_ranges_to_their_owners() {
    let map = ClusterMap::new(vec!["10.0.0.1:9001".into(), "10.0.0.2:9001".into()])
        .pin_range(InstrumentId(1), InstrumentId(5_000), 0)
        .pin_range(InstrumentId(5_001), InstrumentId(10_000), 1);

    assert_eq!(map.node_for(InstrumentId(1)), 0);
    assert_eq!(map.node_for(InstrumentId(5_000)), 0);
    assert_eq!(map.node_for(InstrumentId(5_001)), 1);
    assert_eq!(map.node_for(InstrumentId(10_000)), 1);
}

#[test]
fn router_swaps_ownership_atomically_and_versions_the_change() {
    let mut router = ClusterRouter::new(
        ClusterMap::new(vec!["a:9001".into(), "b:9001".into()]).pin_range(
            InstrumentId(1),
            InstrumentId(5_000),
            0,
        ),
    );
    assert_eq!(router.node_for(InstrumentId(42)), (0, 1));

    let version = router.replace(
        ClusterMap::new(vec!["a:9001".into(), "b:9001".into()]).pin_range(
            InstrumentId(1),
            InstrumentId(5_000),
            1,
        ),
    );
    assert_eq!(version, 2);
    assert_eq!(router.node_for(InstrumentId(42)), (1, 2));
}

#[test]
fn category_migration_freezes_verifies_and_switches_atomically() {
    let mut control = RouteControlPlane::new(4, HashMap::new());
    assert_eq!(control.group_for(1), 1);
    let started = control.begin(1, 3).unwrap();
    assert_eq!(started.state, MigrationState::Freezing);
    assert!(!control.accepts(1));
    assert!(control.activate(1).is_err());
    control.frozen(1, 90).unwrap();
    assert!(control.caught_up(1, 89, 7, 7).is_err());
    assert!(control.caught_up(1, 90, 7, 8).is_err());
    control.caught_up(1, 90, 7, 7).unwrap();
    control.activate(1).unwrap();
    assert!(control.accepts(1));
    assert_eq!(control.group_for(1), 3);
}

#[test]
fn each_migration_error_has_its_cause() {
    let mut control = RouteControlPlane::new(4, HashMap::new());
    assert_eq!(control.begin(1, 4), Err(MigrationError::TargetOutOfRange));
    assert_eq!(control.begin(1, 1), Err(MigrationError::AlreadyThere));
    assert_eq!(control.frozen(1, 5), Err(MigrationError::NotActive));
    assert_eq!(control.caught_up(1, 5, 1, 1), Err(MigrationError::NotActive));
    assert_eq!(control.activate(1), Err(MigrationError::NotActive));
    control.begin(1, 2).unwrap();
    assert_eq!(control.begin(1, 3), Err(MigrationError::AlreadyActive));
    assert_eq!(control.activate(1), Err(MigrationError::NotVerified));
    control.frozen(1, 10).unwrap();
    assert_eq!(control.frozen(1, 11), Err(MigrationError::NotFreezing));
    assert_eq!(control.caught_up(1, 9, 1, 1), Err(MigrationError::NotCaughtUp));
    assert_eq!(
        control.caught_up(1, 10, 1, 2),
        Err(MigrationError::FingerprintsDiffer)
    );
    assert!(control.abort(1));
    assert!(!control.abort(1));
    assert!(control.accepts(1));
    assert_eq!(control.group_for(1), 1);
}

#[test]
fn a_migrating_category_leaves_the_others_alone() {
    let mut control = RouteControlPlane::new(3, HashMap::from([(7, 2)]));
    assert_eq!(control.group_for(7), 2);
    control.begin(7, 0).unwrap();
    assert!(!control.accepts(7));
    assert!(control.accepts(8));
    assert_eq!(control.group_for(7), 2, "the old group serves until the switch");
    assert_eq!(control.group_for(8), 2);
}

#[test]
fn ranges_that_overlap_are_not_accepted() {
    let map = ClusterMap::new(vec!["a".into(), "b".into()]).pin_range(
        InstrumentId(10),
        InstrumentId(20),
        0,
    );
    assert!(!map.accepts_range(InstrumentId(20), InstrumentId(30), 1));
    assert!(!map.accepts_range(InstrumentId(1), InstrumentId(10), 1));
    assert!(map.accepts_range(InstrumentId(21), InstrumentId(30), 1));
    assert!(!map.accepts_range(InstrumentId(31), InstrumentId(30), 1));
    assert!(!map.accepts_range(InstrumentId(31), InstrumentId(32), 2));
    assert_eq!(map.len(), 2);
    assert!(!map.is_empty());
    assert_eq!(map.addrs()[1], "b");
}

#[test]
fn categories_are_stable_across_multiple_queue_groups() {
    let router = QueueRouter::new(
        vec!["orders-g0".into(), "orders-g1".into(), "orders-g2".into()],
        64,
        7,
    );
    assert_eq!(router.route(0).topic, "orders-g0");
    assert_eq!(router.route(1).topic, "orders-g1");
    assert_eq!(router.route(3).partition, 1);
    assert_eq!(router.route(3), router.route(3));
    assert_eq!(router.route(3).version, 7);
}

#[test]
fn partition_index_is_stable_and_matches_route() {
    let router = QueueRouter::new(
        vec!["orders-g0".into(), "orders-g1".into(), "orders-g2".into()],
        64,
        1,
    );
    assert_eq!(router.partition_count(), 3 * 64);
    for category in [0u32, 1, 2, 3, 5, 191, 200, 100_000] {
        let idx = router.partition_index(category);
        assert!(idx < router.partition_count());
        assert_eq!(idx, router.partition_index(category));
        let route = router.route(category);
        let topic_pos = router
            .topics()
            .iter()
            .position(|t| *t == route.topic)
            .unwrap();
        assert_eq!(idx, topic_pos * 64 + route.partition as usize);
    }
}

#[test]
fn envelope_round_trips_user_version_and_wire_frame() {
    let frame = encode_new(
        &Order::limit(OrderId(9), Side::Buy, 100, 2)
            .on(InstrumentId(42))
            .owned_by(100_000),
    );
    let bytes = encode_envelope(100_000, 11, &frame);
    let decoded = QueueEnvelope::decode(&bytes).unwrap();
    assert_eq!(decoded.user, 100_000);
    assert_eq!(decoded.route_version, 11);
    assert_eq!(decoded.instrument(), InstrumentId(42));
    assert_eq!(&decoded.frame, &frame);
}

#[test]
fn an_envelope_of_another_size_or_magic_is_refused() {
    let frame = [0u8; MSG_LEN];
    let mut bytes = encode_envelope(1, 2, &frame).to_vec();
    assert_eq!(bytes.len(), ENVELOPE_LEN);
    assert!(QueueEnvelope::decode(&bytes[1..]).is_none());
    bytes[0] ^= 1;
    assert!(QueueEnvelope::decode(&bytes).is_none());
}

#[test]
fn categories_are_cut_from_instrument_one_on() {
    assert_eq!(asset_category(InstrumentId(0), 1_000), 0);
    assert_eq!(asset_category(InstrumentId(1), 1_000), 0);
    assert_eq!(asset_category(InstrumentId(1_000), 1_000), 0);
    assert_eq!(asset_category(InstrumentId(1_001), 1_000), 1);
    assert_eq!(raft_group_for_category_pinned(7, 4, &HashMap::new()), 3);
    assert_eq!(
        raft_group_for_category_pinned(7, 4, &HashMap::from([(7, 1)])),
        1
    );
}

#[test]
fn order_rows_are_spread_by_the_mixed_id() {
    // First output of the splitmix64 generator seeded with zero.
    assert_eq!(splitmix64(0), 0xe220_a839_7b1d_cdaf);
    let config = RouteConfig {
        db_count: 3,
        tables_per_db: 4,
        route_version: 1,
    };
    let slot = splitmix64(77) % 12;
    let placed = config.route_order_id(77);
    assert_eq!(u64::from(placed.db) * 4 + u64::from(placed.table), slot);
    assert_eq!(
        ShardRoute { db: 2, table: 7 }.table_name().contains('7'),
        true
    );
    assert_eq!(route(77), RouteConfig::default().route_order_id(77));
}
