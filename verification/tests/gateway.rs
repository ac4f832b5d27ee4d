//! Request framing, rate limiting and the shards' queues.

use trade_core::exchange::{Command, ExecReport, RejectReason};
use trade_core::gateway::{
    encode_ack, encode_reports, read_request, FrameBuffer, Request, RequestError, TokenBucket,
    COMMITTED_BATCH_MAGIC, SECOND,
};
use trade_core::shard::{
    books_of, ends_idle, snapshot_due, OrderGateway, ParkedCount, Parking, ResultSink, ShardQueues,
    ShardTurn,
};
use trade_core::types::{InstrumentId, OrderId, Side};
use trade_core::wire::{decode_report, encode_command, encode_new, MSG_LEN, REPORT_LEN};
use trade_core::Order;

#[test]
fn committed_batch_protocol_acks_one_index_for_many_commands() {
    let orders = [
        Order::limit(OrderId(1), Side::Sell, 100, 2).on(InstrumentId(9)),
        Order::limit(OrderId(2), Side::Buy, 100, 2).on(InstrumentId(9)),
    ];
    let mut bytes = Vec::new();
    bytes.extend_from_slice(&COMMITTED_BATCH_MAGIC);
    bytes.extend_from_slice(&(orders.len() as u32).to_be_bytes());
    for order in orders {
        bytes.extend_from_slice(&encode_new(&order));
    }
    let input_len = bytes.len();

    let observed: Vec<u64> = match read_request(&bytes, 0) {
        Request::Complete { commands, consumed } => {
            assert_eq!(consumed, input_len);
            commands.into_iter().map(|command| command.id()).collect()
        }
        _ => panic!("a whole request is read"),
    };
    bytes.extend_from_slice(&encode_ack(77));

    assert_eq!(observed, vec![1, 2]);
    assert_eq!(bytes[input_len], 1);
    assert_eq!(
        u64::from_be_bytes(bytes[input_len + 1..].try_into().unwrap()),
        77
    );
}

fn cancel(id: u64) -> Command {
    Command::Cancel {
        instrument: InstrumentId(3),
        order_id: OrderId(id),
        cmd_id: id,
    }
}

#[test]
fn a_single_frame_is_a_request_of_its_own() {
    let frame = encode_command(&cancel(5));
    match read_request(&frame, 0) {
        Request::Complete { commands, consumed } => {
            assert_eq!(commands, vec![cancel(5)]);
            assert_eq!(consumed, MSG_LEN);
        }
        _ => panic!("a frame is a request"),
    }
    assert!(matches!(read_request(&frame[..3], 0), Request::Partial(_)));
    assert!(matches!(read_request(&frame[..39], 0), Request::Partial(_)));
}

#[test]
fn each_refusal_of_a_request_has_its_cause() {
    let mut empty = COMMITTED_BATCH_MAGIC.to_vec();
    empty.extend_from_slice(&0u32.to_be_bytes());
    assert!(matches!(
        read_request(&empty, 0),
        Request::Refused(RequestError::BatchSize)
    ));
    let mut large = COMMITTED_BATCH_MAGIC.to_vec();
    large.extend_from_slice(&1025u32.to_be_bytes());
    assert!(matches!(
        read_request(&large, 0),
        Request::Refused(RequestError::BatchSize)
    ));
    let mut fast = COMMITTED_BATCH_MAGIC.to_vec();
    fast.extend_from_slice(&2u32.to_be_bytes());
    fast.extend_from_slice(&encode_command(&cancel(1)));
    fast.extend_from_slice(&encode_command(&cancel(2)));
    assert!(matches!(
        read_request(&fast, 1),
        Request::Refused(RequestError::RateLimit)
    ));
    assert!(matches!(
        read_request(&[0xee; MSG_LEN], 0),
        Request::Refused(RequestError::InvalidCommand)
    ));
}

#[test]
fn frames_come_out_whole_however_they_arrive() {
    let mut buffer = FrameBuffer::new();
    let mut stream = encode_command(&cancel(1)).to_vec();
    stream.extend_from_slice(&encode_command(&cancel(2)));
    for chunk in stream.chunks(7) {
        buffer.extend(chunk);
    }
    assert_eq!(buffer.next_frame(), Some(Some(cancel(1))));
    assert_eq!(buffer.next_frame(), Some(Some(cancel(2))));
    assert_eq!(buffer.next_frame(), None);
    buffer.extend(&[0xee; MSG_LEN]);
    assert_eq!(buffer.next_frame(), Some(None));
}

#[test]
fn a_bucket_makes_the_command_over_the_limit_wait() {
    let mut bucket = TokenBucket::new(2, 0);
    assert_eq!(bucket.take(10), 0);
    assert_eq!(bucket.take(20), 0);
    assert_eq!(bucket.take(30), SECOND - 30);
    let mut free = TokenBucket::new(0, 0);
    assert_eq!(free.take(5), 0);
    assert_eq!(free.take(5), 0);
}

#[test]
fn reports_are_framed_one_after_another() {
    let reports = vec![
        ExecReport::Accepted {
            instrument: InstrumentId(1),
            order_id: OrderId(2),
        },
        ExecReport::Rejected {
            instrument: InstrumentId(1),
            order_id: OrderId(3),
            reason: RejectReason::PriceBand,
        },
    ];
    let bytes = encode_reports(&reports);
    assert_eq!(bytes.len(), 2 * REPORT_LEN);
    let second = decode_report(&bytes[REPORT_LEN..]).unwrap();
    assert_eq!(second.order_id, OrderId(3));
}

#[test]
fn cancels_pass_waiting_orders() {
    let mut queues = ShardQueues::new(8);
    let order = Order::limit(OrderId(1), Side::Buy, 10, 1).on(InstrumentId(3));
    queues.submit(Command::New(order)).unwrap();
    queues.submit(cancel(9)).unwrap();
    let mut taken = 0usize;
    assert_eq!(queues.next(&mut taken), Some(cancel(9)));
    assert_eq!(queues.next(&mut taken), Some(Command::New(order)));
    assert_eq!(queues.next(&mut taken), None);
    assert!(queues.is_empty());
}

#[test]
fn an_instrument_always_goes_to_one_shard() {
    let mut gateway = OrderGateway::new(3, 4);
    let shard = gateway.shard_of(InstrumentId(5));
    assert_eq!(shard, 2);
    gateway
        .new_order(Order::limit(OrderId(1), Side::Buy, 10, 1).on(InstrumentId(5)))
        .unwrap();
    gateway.cancel(InstrumentId(5), OrderId(1), 2).unwrap();
    gateway.modify(InstrumentId(5), OrderId(1), 11, 1, 3).unwrap();
    gateway
        .force_close(InstrumentId(5), 7, OrderId(9), Side::Sell, 4)
        .unwrap();
    let mut taken = 0usize;
    let mut served = 0;
    while gateway.next(shard, &mut taken).is_some() {
        served += 1;
    }
    assert_eq!(served, 4);
    assert_eq!(gateway.next(0, &mut taken), None);
}

#[test]
fn a_full_queue_gives_the_command_back() {
    let mut gateway = OrderGateway::new(1, 2);
    gateway.cancel(InstrumentId(5), OrderId(1), 1).unwrap();
    gateway.cancel(InstrumentId(5), OrderId(1), 2).unwrap();
    assert_eq!(
        gateway.cancel(InstrumentId(5), OrderId(2), 3),
        Err(Command::Cancel {
            instrument: InstrumentId(5),
            order_id: OrderId(2),
            cmd_id: 3
        })
    );
}

#[test]
fn results_are_polled_shard_by_shard() {
    let mut sink = ResultSink::new(2, 4);
    let a = ExecReport::Accepted {
        instrument: InstrumentId(1),
        order_id: OrderId(1),
    };
    let b = ExecReport::Filled {
        instrument: InstrumentId(2),
        order_id: OrderId(2),
    };
    sink.publish(1, b).unwrap();
    sink.publish(0, a).unwrap();
    assert_eq!(sink.poll(), vec![a, b]);
    assert!(sink.poll().is_empty());
}

#[test]
fn snapshots_are_taken_when_asked_or_due() {
    assert!(snapshot_due(true, true, None, 0));
    assert!(snapshot_due(true, false, Some(10), 10));
    assert!(!snapshot_due(true, false, Some(10), 9));
    assert!(!snapshot_due(false, true, Some(10), 99));
    let all = vec![InstrumentId(1), InstrumentId(2), InstrumentId(3)];
    assert_eq!(books_of(&all, 2, 1), vec![InstrumentId(1), InstrumentId(3)]);
}

#[test]
fn a_batch_takes_all_cancels_and_some_new_orders() {
    let mut queues = ShardQueues::new(40);
    for id in 0..40u64 {
        let order = Order::limit(OrderId(id), Side::Buy, 10, 1).on(InstrumentId(3));
        queues.submit(Command::New(order)).unwrap();
        queues.submit(cancel(id)).unwrap();
    }
    let mut taken = 0usize;
    let mut served = Vec::new();
    while let Some(command) = queues.next(&mut taken) {
        served.push(command);
    }
    assert_eq!(served.len(), 72);
    assert_eq!(served[0], cancel(0));
    assert_eq!(served[39], cancel(39));
    assert!(matches!(served[40], Command::New(order) if order.id == OrderId(0)));
    assert!(matches!(served[71], Command::New(order) if order.id == OrderId(31)));
}

#[test]
fn queue_room_is_rounded_up_to_a_power_of_two() {
    for (asked, room) in [(0, 2), (2, 2), (3, 4), (5, 8)] {
        let mut queues = ShardQueues::new(asked);
        let mut held = 0;
        while queues.submit(cancel(held)).is_ok() {
            held += 1;
        }
        assert_eq!(held, room);
    }
}

#[test]
fn paused_shards_park_and_leave() {
    let mut parking = Parking { parked: false };
    assert_eq!(
        parking.begin_turn(true, true),
        (ShardTurn::Work, ParkedCount::Same)
    );
    assert_eq!(
        parking.begin_turn(false, true),
        (ShardTurn::Wait, ParkedCount::OneMore)
    );
    assert_eq!(
        parking.begin_turn(false, true),
        (ShardTurn::Wait, ParkedCount::Same)
    );
    assert_eq!(
        parking.begin_turn(true, true),
        (ShardTurn::Work, ParkedCount::OneLess)
    );
    assert_eq!(
        parking.begin_turn(false, false),
        (ShardTurn::Stop, ParkedCount::OneMore)
    );
    assert_eq!(parking.end_run(), ParkedCount::OneLess);
    assert_eq!(parking.end_run(), ParkedCount::Same);
    assert!(ends_idle(false, false));
    assert!(!ends_idle(false, true));
    assert!(!ends_idle(true, false));

    let mut gateway = OrderGateway::new(2, 4);
    gateway.cancel(InstrumentId(5), OrderId(1), 2).unwrap();
    assert!(gateway.is_idle(0));
    assert!(!gateway.is_idle(1));
}
