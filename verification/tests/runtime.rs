//! Replication nodes: placements, peer frames, proposals, fences.

use std::collections::HashSet;

use protobuf::Message as PbMessage;
use raft::prelude::Message;
use trade_core::exchange::{Command, ExecReport};
use trade_core::metrics::Metrics;
use trade_core::peers::{
    default_placements, frame_message, frame_size, group_port, message_frame, parse_peers,
    parse_placements, read_message, read_peer_frames, to_message, PeerMessage, PeerWrite,
    PlacementError, WriteAction, MAX_RAFT_MESSAGE_BYTES,
};
use trade_core::runtime::{
    compaction_due, compaction_point, execution_category_key, forget_cut,
    is_execution_outbox_file, is_fit, note_publish, plan_proposal, proposal_index,
    take_committed, take_recovered, CommittedIdWindow, Fence, ProposalStep, PublishOutcome,
};
use trade_core::types::{InstrumentId, OrderId};
use trade_core::wire::{decode_raft_entry, encode_report};

fn category_key(instrument: u32) -> [u8; 4] {
    let frame = encode_report(&ExecReport::Accepted {
        instrument: InstrumentId(instrument),
        order_id: OrderId(instrument as u64),
    });
    execution_category_key(&frame, 1_000)
}

#[test]
fn execution_reports_partition_by_category_not_instrument() {
    assert_eq!(category_key(1), category_key(1_000));
    assert_ne!(category_key(1_000), category_key(1_001));
    assert_eq!(category_key(1_001), [0, 0, 0, 1]);
}

#[test]
fn execution_outbox_discovery_ignores_publisher_cursor() {
    assert!(is_execution_outbox_file("outbox-shard-0.bin"));
    assert!(!is_execution_outbox_file("outbox-shard-0.published.cursor"));
    assert!(!is_execution_outbox_file("unrelated.bin"));
}

#[test]
fn peer_connection_carries_multiple_framed_messages() {
    let messages = [(1, 2), (2, 1)].map(|(from, to)| Message {
        from,
        to,
        ..Default::default()
    });
    let mut wire = Vec::new();
    for message in &messages {
        let bytes = message.write_to_bytes().unwrap();
        wire.extend_from_slice(&(bytes.len() as u32).to_be_bytes());
        wire.extend_from_slice(&bytes);
    }
    let received = read_peer_frames(&wire);
    assert_eq!(received[0].from, 1);
    assert_eq!(received[1].from, 2);
    assert_eq!(received.len(), 2);
    assert_eq!((received[0].to, received[1].to), (2, 1));
}

#[test]
fn peer_connection_rejects_oversized_frame() {
    let received = read_peer_frames(&((MAX_RAFT_MESSAGE_BYTES + 1) as u32).to_be_bytes());
    assert!(received.is_empty());
}

#[test]
fn a_message_that_cannot_be_read_is_passed_over() {
    let message = Message {
        from: 3,
        to: 4,
        ..Default::default()
    };
    let bytes = message.write_to_bytes().unwrap();
    let mut wire = frame_message(&bytes);
    wire.extend_from_slice(&frame_message(&[0xff, 0xff]));
    wire.extend_from_slice(&frame_message(&bytes));
    wire.extend_from_slice(&[0, 0, 0, 0]);
    wire.extend_from_slice(&frame_message(&bytes));
    let received = read_peer_frames(&wire);
    assert_eq!(received.len(), 2, "a frame without content ends the connection");
    assert_eq!(received[0].bytes, bytes);
    assert_eq!((received[1].from, received[1].to), (3, 4));
    assert!(read_message(vec![0xff]).is_none());
    assert_eq!(to_message(Some((5, 6)), vec![1]).unwrap().to, 6);
    assert!(to_message(None, vec![1]).is_none());
    assert_eq!(frame_size(&[0, 0, 1, 0]), Some(256));
}

#[test]
fn committed_id_window_evicts_oldest_id() {
    let mut window = CommittedIdWindow::new(2);
    window.remember(11, 101);
    window.remember(12, 102);
    window.remember(13, 103);
    assert!(!window.contains(11));
    assert_eq!(window.get(12), Some(102));
    assert_eq!(window.get(13), Some(103));
}

#[test]
fn committed_id_window_keeps_original_commit_index_for_duplicates() {
    let mut window = CommittedIdWindow::new(2);
    window.remember(11, 101);
    window.remember(11, 999);
    window.remember(12, 102);
    assert_eq!(window.get(11), Some(101));
    assert_eq!(window.get(12), Some(102));
}

#[test]
fn committed_id_window_never_holds_zero_and_has_room_for_one() {
    let mut window = CommittedIdWindow::new(0);
    window.remember(0, 7);
    assert!(!window.contains(0));
    assert_eq!(window.get(0), None);
    window.remember(11, 101);
    assert_eq!(window.get(11), Some(101));
    window.remember(0, 8);
    assert_eq!(window.get(11), Some(101));
    window.remember(12, 102);
    assert_eq!((window.get(11), window.get(12)), (None, Some(102)));
}

#[test]
fn placement_assigns_only_explicit_local_replicas() {
    let placements = parse_placements(
        "7|2|1@rack-a:7071,2@rack-b:7072,3@rack-c:7073;19|1|1@rack-b:7191,2@rack-d:7192,3@rack-e:7193",
    )
    .unwrap();
    assert_eq!(placements.len(), 2);
    assert_eq!(placements[0].group, 7);
    assert_eq!(placements[0].local_node, 2);
    assert_eq!(placements[0].raft_port, 7072);
    assert_eq!(placements[1].group, 19);
    assert_eq!(placements[1].raft_port, 7191);
}

#[test]
fn placement_requires_the_local_node_in_peer_set() {
    assert!(parse_placements("7|3|1@rack-a:7071,2@rack-b:7072").is_err());
}

#[test]
fn each_placement_error_has_its_cause() {
    assert_eq!(
        parse_placements("x|1|1@a:1").unwrap_err(),
        PlacementError::InvalidGroup
    );
    assert_eq!(
        parse_placements("7").unwrap_err(),
        PlacementError::MissingLocalNode
    );
    assert_eq!(
        parse_placements("7|x|1@a:1").unwrap_err(),
        PlacementError::InvalidLocalNode
    );
    assert_eq!(
        parse_placements("7|1").unwrap_err(),
        PlacementError::MissingPeers
    );
    assert_eq!(
        parse_placements("7|3|1@a:1").unwrap_err(),
        PlacementError::LocalNodeAbsent {
            local_node: 3,
            group: 7
        }
    );
    assert_eq!(
        parse_placements("7|1|1@a").unwrap_err(),
        PlacementError::InvalidAddress
    );
}

#[test]
fn default_groups_have_ports_of_their_own() {
    let placements = default_placements(2, 3, 5);
    assert_eq!(placements.len(), 3);
    let mut ports = HashSet::new();
    for placement in &placements {
        assert_eq!(placement.local_node, 2);
        assert_eq!(placement.raft_port, group_port(7000, placement.group, 2));
        assert!(ports.insert(placement.raft_port));
    }
    let peers = parse_peers("1@a:1,2@b:2").unwrap();
    assert_eq!(peers.get(&2).map(String::as_str), Some("b:2"));
    assert!(parse_peers("nonsense").is_none());
}

#[test]
fn a_message_is_written_twice_at_most() {
    let mut write = PeerWrite::start(false);
    assert_eq!(write.action(), WriteAction::Connect);
    assert!(write.connect_done(false), "a short rest before the second attempt");
    assert_eq!(write.action(), WriteAction::Connect);
    assert!(!write.connect_done(false));
    assert_eq!(write.action(), WriteAction::Dropped);

    let mut write = PeerWrite::start(true);
    assert_eq!(write.action(), WriteAction::Write);
    write.write_done(false);
    assert_eq!(write.action(), WriteAction::Connect);
    write.connect_done(true);
    assert_eq!(write.action(), WriteAction::Write);
    write.write_done(true);
    assert_eq!(write.action(), WriteAction::Delivered);
}

fn cancel(id: u64) -> Command {
    Command::Cancel {
        instrument: InstrumentId(1),
        order_id: OrderId(id),
        cmd_id: id,
    }
}

#[test]
fn a_known_request_is_not_proposed_again() {
    let mut window = CommittedIdWindow::new(10);
    match plan_proposal(&window, &vec![cancel(1), cancel(2)]) {
        ProposalStep::Propose(bytes) => {
            assert_eq!(
                decode_raft_entry(&bytes).unwrap(),
                vec![cancel(1), cancel(2)]
            );
        }
        _ => panic!("a new request is proposed"),
    }
    window.remember(1, 40);
    window.remember(2, 41);
    assert!(matches!(
        plan_proposal(&window, &vec![cancel(1), cancel(2)]),
        ProposalStep::Known(41)
    ));
    assert!(matches!(
        plan_proposal(&window, &vec![cancel(3); 1025]),
        ProposalStep::Dropped
    ));
    assert_eq!(proposal_index(10, 3, 0), 8);
    assert_eq!(proposal_index(10, 3, 2), 10);
}

#[test]
fn a_command_is_applied_once() {
    let mut window = CommittedIdWindow::new(10);
    let commands = vec![cancel(1), cancel(2)];
    let marks = vec![1, 2];
    assert_eq!(take_committed(&mut window, &commands, &marks, 5), commands);
    assert!(take_committed(&mut window, &commands, &marks, 6).is_empty());
    assert_eq!(window.get(2), Some(5));
}

#[test]
fn a_recovered_batch_that_was_applied_is_skipped() {
    let mut window = CommittedIdWindow::new(10);
    let commands = vec![cancel(1)];
    let applied = HashSet::from([5]);
    assert!(take_recovered(&mut window, &commands, &vec![1], 5, true, &applied).is_empty());
    assert_eq!(window.get(1), Some(5), "it is known from then on");
    assert_eq!(
        take_recovered(&mut window, &vec![cancel(2)], &vec![2], 6, true, &applied),
        vec![cancel(2)]
    );
}

#[test]
fn an_older_term_does_not_pass_the_fence() {
    let mut fence = Fence { term: 4 };
    assert!(fence.pass(4));
    assert!(fence.pass(6));
    assert!(!fence.pass(5));
    assert_eq!(fence.term, 6);
}

#[test]
fn the_log_is_cut_behind_what_was_applied() {
    let applied = HashSet::from([11, 12, 14]);
    assert_eq!(compaction_point(10, &vec![11, 12, 13, 14], &applied), 12);
    assert_eq!(compaction_point(10, &vec![13], &applied), 10);
    assert_eq!(forget_cut(&vec![11, 12, 13], 12), vec![13]);
    assert!(!compaction_due(0, 1_000_000, 99, 1));
    assert!(compaction_due(5, 1_000_000, 99, 1));
}

#[test]
fn a_failing_outbox_shows_in_the_metrics() {
    let mut metrics = Metrics::default();
    note_publish(
        &mut metrics,
        PublishOutcome::Published {
            records: 3,
            elapsed_ns: 50,
        },
    );
    assert_eq!(metrics.execution_outbox_published, 3);
    assert_eq!(metrics.execution_kafka_publish_ns_max, 50);
    assert_eq!(metrics.execution_outbox_publish_healthy, 1);
    note_publish(&mut metrics, PublishOutcome::NotAcknowledged);
    assert_eq!(metrics.execution_outbox_publish_failures, 1);
    assert_eq!(metrics.execution_outbox_publish_healthy, 0);
    assert!(!is_fit(&metrics, 1, 100, 100));
}

#[test]
fn an_outgoing_message_reaches_its_reader() {
    let message = Message {
        from: 3,
        to: 4,
        term: 9,
        ..Default::default()
    };
    let bytes = message.write_to_bytes().unwrap();
    let outgoing = PeerMessage {
        from: message.from,
        to: message.to,
        bytes: bytes.clone(),
    };
    let frame = message_frame(&outgoing).unwrap();
    assert_eq!(frame[..4], (bytes.len() as u32).to_be_bytes());
    assert_eq!(frame[4..], bytes[..]);
    let received = read_peer_frames(&frame);
    assert_eq!(received.len(), 1);
    assert_eq!((received[0].from, received[0].to), (3, 4));
    let read = Message::parse_from_bytes(&received[0].bytes).unwrap();
    assert_eq!(read.term, 9);
}
