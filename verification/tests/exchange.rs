//! The command processor, risk checks, replay and the wire formats.

use trade_core::crossing::SelfTradePolicy;
use trade_core::exchange::{
    fingerprint_engine_states, Command, ExecReport, Processor, RejectReason, Snapshot,
};
use trade_core::fees::FeeSchedule;
use trade_core::journal::{JournalWriter, JOURNAL_HEADER};
use trade_core::replay::{fingerprint_reports, recover_into, replay_journal, ReplayError};
use trade_core::risk::{PriceGuard, RiskLimits};
use trade_core::snapshot::{decode_snapshot, encode_snapshot};
use trade_core::types::{InstrumentId, OrderId, Side, TimeInForce};
use trade_core::wire::{
    decode_command, decode_raft_entry, decode_report, encode_cancel, encode_command,
    encode_force_close, encode_modify, encode_new, encode_raft_batch, encode_report, frame_at,
    WireView, MSG_LEN, RAFT_BATCH_MAX_COMMANDS, REPORT_LEN, RT_REJECTED, RT_TRADE,
};
use trade_core::{Order, PriceTimePriority};

const BTC: InstrumentId = InstrumentId(1);

fn processor() -> Processor<PriceTimePriority> {
    Processor::new(PriceTimePriority, None)
}

fn buy(id: u64, price: u64, qty: u64) -> Order {
    Order::limit(OrderId(id), Side::Buy, price, qty).on(BTC)
}

fn sell(id: u64, price: u64, qty: u64) -> Order {
    Order::limit(OrderId(id), Side::Sell, price, qty).on(BTC)
}

fn run(p: &mut Processor<PriceTimePriority>, command: Command) -> Vec<ExecReport> {
    let mut out = Vec::new();
    assert!(p.accepts(&command));
    p.process(command, &mut out);
    out
}

#[test]
fn a_trade_is_reported_with_its_fees() {
    let mut p = processor().with_fees(FeeSchedule {
        maker_bps: 10,
        taker_bps: 20,
    });
    assert_eq!(
        run(&mut p, Command::New(sell(1, 1_000, 3))),
        vec![
            ExecReport::Accepted {
                instrument: BTC,
                order_id: OrderId(1)
            },
            ExecReport::Resting {
                instrument: BTC,
                order_id: OrderId(1)
            },
        ]
    );
    assert_eq!(
        run(&mut p, Command::New(buy(2, 1_000, 3))),
        vec![
            ExecReport::Accepted {
                instrument: BTC,
                order_id: OrderId(2)
            },
            ExecReport::Trade {
                instrument: BTC,
                taker: OrderId(2),
                maker: OrderId(1),
                aggressor: Side::Buy,
                price: 1_000,
                qty: 3,
                maker_fee: 3,
                taker_fee: 6,
            },
            ExecReport::Filled {
                instrument: BTC,
                order_id: OrderId(2)
            },
        ]
    );
}

#[test]
fn cancels_and_modifies_are_answered() {
    let mut p = processor();
    run(&mut p, Command::New(buy(1, 100, 5)));
    assert_eq!(
        run(
            &mut p,
            Command::Modify {
                instrument: BTC,
                order_id: OrderId(1),
                new_price: 100,
                new_qty: 2,
                cmd_id: 10
            }
        ),
        vec![ExecReport::Modified {
            instrument: BTC,
            order_id: OrderId(1),
            remaining: 2
        }]
    );
    let cancel = Command::Cancel {
        instrument: BTC,
        order_id: OrderId(1),
        cmd_id: 11,
    };
    assert_eq!(
        run(&mut p, cancel),
        vec![ExecReport::Cancelled {
            instrument: BTC,
            order_id: OrderId(1)
        }]
    );
    assert_eq!(
        run(&mut p, cancel),
        vec![ExecReport::NotFound {
            instrument: BTC,
            order_id: OrderId(1)
        }]
    );
}

#[test]
fn a_liquidation_cancels_before_it_closes() {
    let mut p = processor();
    run(&mut p, Command::New(buy(1, 100, 5).owned_by(7)));
    run(&mut p, Command::New(buy(2, 90, 5).owned_by(8)));
    let reports = run(
        &mut p,
        Command::ForceClose {
            instrument: BTC,
            user: 7,
            close_order_id: OrderId(3),
            close_side: Side::Sell,
            close_qty: 2,
        },
    );
    assert_eq!(
        reports[0],
        ExecReport::Cancelled {
            instrument: BTC,
            order_id: OrderId(1)
        }
    );
    assert!(reports.iter().any(|r| matches!(
        r,
        ExecReport::Trade {
            maker: OrderId(2),
            taker: OrderId(3),
            qty: 2,
            ..
        }
    )));
}

#[test]
fn each_refusal_of_an_order_has_its_cause() {
    let limits = RiskLimits {
        max_order_qty: 10,
        max_notional: 1_000,
        max_user_orders: 1,
    };
    let mut p = processor().with_limits(Some(limits));
    let refused = |reports: Vec<ExecReport>| match reports.last() {
        Some(ExecReport::Rejected { reason, .. }) => Some(*reason),
        _ => None,
    };
    assert_eq!(
        refused(run(&mut p, Command::New(buy(1, 1, 11)))),
        Some(RejectReason::MaxOrderQty)
    );
    assert_eq!(
        refused(run(&mut p, Command::New(buy(2, 101, 10)))),
        Some(RejectReason::MaxNotional)
    );
    run(&mut p, Command::New(buy(3, 10, 1).owned_by(7)));
    assert_eq!(
        refused(run(&mut p, Command::New(buy(4, 10, 1).owned_by(7)))),
        Some(RejectReason::MaxUserOrders)
    );
    assert_eq!(
        refused(run(
            &mut p,
            Command::New(buy(5, 10, 1).with_tif(TimeInForce::Fok))
        )),
        Some(RejectReason::Unfillable)
    );

    let mut guard = PriceGuard::new(100);
    guard.set_reference(BTC, 1_000);
    assert!(guard.vet(&buy(1, 1_010, 1)).is_ok());
    assert_eq!(guard.vet(&buy(1, 1_011, 1)), Err(RejectReason::PriceBand));
    assert!(guard.vet(&buy(1, 5, 1).on(InstrumentId(2))).is_ok());
    assert_eq!(limits.check_static(&buy(1, 1, 10)), Ok(()));
}

#[test]
fn a_restored_processor_continues_alike() {
    let mut p = processor();
    run(&mut p, Command::New(buy(1, 100, 5)));
    run(&mut p, Command::New(sell(2, 110, 5).on(InstrumentId(9))));
    let snap = Snapshot {
        journal_seq: 2,
        raft_applied_index: 2,
        engines: p.export_state(),
    };
    assert_eq!(
        fingerprint_engine_states(&snap.engines, None),
        p.state_fingerprint()
    );
    let mut copy = processor();
    copy.restore_state(&snap);
    assert_eq!(copy.state_fingerprint(), p.state_fingerprint());
    let next = Command::New(sell(3, 100, 7));
    assert_eq!(run(&mut copy, next), run(&mut p, next));
    assert_eq!(copy.state_fingerprint(), p.state_fingerprint());
}

fn journal(commands: &[Command]) -> Vec<u8> {
    let mut w = JournalWriter::open(1, 0);
    for (i, command) in commands.iter().enumerate() {
        w.append(10 * (i as u64 + 1), &encode_command(command), 0);
    }
    let mut bytes = JOURNAL_HEADER.to_vec();
    bytes.extend_from_slice(&w.flush(0));
    bytes
}

#[test]
fn replay_reproduces_what_was_executed() {
    let commands = [
        Command::New(sell(1, 100, 5)),
        Command::New(buy(2, 100, 3)),
        Command::New(buy(3, 90, 4)),
    ];
    let mut live = processor();
    let mut reports = Vec::new();
    for command in commands {
        live.process(command, &mut reports);
    }
    let summary = replay_journal(&journal(&commands), PriceTimePriority, None, None)
        .ok()
        .expect("a journal that replays");
    assert_eq!(summary.commands, 3);
    assert_eq!(summary.reports, reports);
    assert_eq!(summary.fingerprint, fingerprint_reports(&reports));
    assert_eq!(
        summary.processor.state_fingerprint(),
        live.state_fingerprint()
    );

    let early = replay_journal(&journal(&commands), PriceTimePriority, None, Some(20))
        .ok()
        .expect("a journal that replays");
    assert_eq!(early.commands, 2);
    assert_eq!(
        replay_journal(b"whatever", PriceTimePriority, None, None)
            .err()
            .unwrap(),
        ReplayError::Format
    );
}

#[test]
fn recovery_is_snapshot_and_tail() {
    let commands = [
        Command::New(sell(1, 100, 5)),
        Command::New(buy(2, 100, 3)),
        Command::New(buy(3, 90, 4)),
    ];
    let mut live = processor();
    let mut out = Vec::new();
    live.process(commands[0], &mut out);
    let snap = Snapshot {
        journal_seq: 1,
        raft_applied_index: 0,
        engines: live.export_state(),
    };
    live.process(commands[1], &mut out);
    live.process(commands[2], &mut out);

    let mut recovered = processor();
    let applied = recover_into(&mut recovered, Some(&snap), Some(&journal(&commands))).unwrap();
    assert_eq!(applied, 2, "the snapshot covers the first command");
    assert_eq!(recovered.state_fingerprint(), live.state_fingerprint());
}

#[test]
fn every_command_survives_the_wire() {
    let order = buy(1, 100, 5).owned_by(1_000_000).with_tif(TimeInForce::Fok);
    let commands = [
        Command::New(order),
        Command::Cancel {
            instrument: BTC,
            order_id: OrderId(1),
            cmd_id: 2,
        },
        Command::Modify {
            instrument: BTC,
            order_id: OrderId(1),
            new_price: 3,
            new_qty: 4,
            cmd_id: 5,
        },
        Command::ForceClose {
            instrument: BTC,
            user: 6,
            close_order_id: OrderId(7),
            close_side: Side::Sell,
            close_qty: 8,
        },
    ];
    for command in commands {
        let frame = encode_command(&command);
        assert_eq!(decode_command(&frame), Some(command));
        assert_eq!(WireView::parse(&frame).unwrap().instrument(), BTC);
    }
    assert_eq!(encode_new(&order), encode_command(&commands[0]));
    assert_eq!(
        encode_cancel(BTC, OrderId(1), 2),
        encode_command(&commands[1])
    );
    assert_eq!(
        encode_modify(BTC, OrderId(1), 3, 4, 5),
        encode_command(&commands[2])
    );
    assert_eq!(
        encode_force_close(BTC, 6, OrderId(7), Side::Sell, 8),
        encode_command(&commands[3])
    );
    assert!(decode_command(&[0xee; MSG_LEN]).is_none());
    assert!(WireView::parse(&[0; 3]).is_none());
}

#[test]
fn batches_of_commands_survive_the_log() {
    let commands = vec![Command::New(buy(1, 100, 5)), Command::New(sell(2, 100, 5))];
    let bytes = encode_raft_batch(&commands).unwrap();
    assert_eq!(decode_raft_entry(&bytes).unwrap(), commands);
    assert!(encode_raft_batch(&vec![commands[0]; RAFT_BATCH_MAX_COMMANDS + 1]).is_none());
    let single = encode_command(&commands[0]);
    assert_eq!(decode_raft_entry(&single).unwrap(), vec![commands[0]]);
    assert_eq!(frame_at(&bytes, bytes.len() - MSG_LEN), encode_command(&commands[1]));
}

#[test]
fn reports_survive_the_wire() {
    let trade = ExecReport::Trade {
        instrument: BTC,
        taker: OrderId(2),
        maker: OrderId(1),
        aggressor: Side::Sell,
        price: 100,
        qty: 3,
        maker_fee: 4,
        taker_fee: 5,
    };
    let decoded = decode_report(&encode_report(&trade)).unwrap();
    assert_eq!(decoded.type_code, RT_TRADE);
    assert_eq!(decoded.side, Side::Sell);
    assert_eq!((decoded.order_id, decoded.aux_id), (OrderId(2), 1));
    assert_eq!((decoded.price, decoded.qty), (100, 3));
    assert_eq!((decoded.maker_fee, decoded.taker_fee), (4, 5));
    let rejected = encode_report(&ExecReport::Rejected {
        instrument: BTC,
        order_id: OrderId(9),
        reason: RejectReason::PriceBand,
    });
    assert_eq!(decode_report(&rejected).unwrap().type_code, RT_REJECTED);
    assert!(decode_report(&[0; REPORT_LEN]).is_none());
}

#[test]
fn the_fingerprint_tells_a_buy_from_a_sell() {
    let after = |order: Order| {
        let mut p = processor();
        run(&mut p, Command::New(order));
        (p.state_fingerprint(), p.category_fingerprint(0, 16))
    };
    let bid = after(buy(1, 100, 5));
    let ask = after(sell(1, 100, 5));
    assert_ne!(bid.0, ask.0);
    assert_ne!(bid.1, ask.1);
    assert_eq!(bid, after(buy(1, 100, 5)));
    assert_ne!(bid.0, after(buy(1, 100, 6)).0);
}

#[test]
fn the_fingerprint_covers_the_original_quantity() {
    let mut a = processor();
    run(&mut a, Command::New(sell(1, 100, 5)));
    run(&mut a, Command::New(buy(2, 100, 2)));
    let mut b = processor();
    run(&mut b, Command::New(sell(1, 100, 4)));
    run(&mut b, Command::New(buy(2, 100, 1)));
    let left = |p: &Processor<PriceTimePriority>| {
        p.engine(BTC).unwrap().book().get(OrderId(1)).unwrap().remaining
    };
    assert_eq!((left(&a), left(&b)), (3, 3));
    assert_ne!(a.state_fingerprint(), b.state_fingerprint());
}

#[test]
fn a_reused_id_that_does_not_rest_is_replayed_and_recovered() {
    let commands = [
        Command::New(sell(1, 100, 5)),
        Command::New(buy(1, 100, 5)),
        Command::New(buy(3, 90, 4)),
    ];
    let mut live = processor();
    let mut reports = Vec::new();
    for command in commands {
        reports.extend(run(&mut live, command));
    }
    let summary = replay_journal(&journal(&commands), PriceTimePriority, None, None)
        .ok()
        .expect("a journal that replays");
    assert_eq!(summary.commands, 3);
    assert_eq!(summary.reports, reports);
    assert_eq!(
        summary.processor.state_fingerprint(),
        live.state_fingerprint()
    );

    let mut recovered = processor();
    assert_eq!(
        recover_into(&mut recovered, None, Some(&journal(&commands))).unwrap(),
        3
    );
    assert_eq!(recovered.state_fingerprint(), live.state_fingerprint());
    let mut untouched = processor();
    assert_eq!(recover_into(&mut untouched, None, None).unwrap(), 0);
    assert_eq!(
        untouched.state_fingerprint(),
        processor().state_fingerprint()
    );
}

#[test]
fn only_an_order_that_would_rest_beside_its_id_is_refused() {
    let mut p = processor();
    run(&mut p, Command::New(sell(1, 100, 5)));
    run(&mut p, Command::New(buy(2, 90, 5)));
    let before = p.state_fingerprint();
    // Rests beside the resting order of its id.
    assert!(!p.accepts(&Command::New(buy(2, 80, 1))));
    assert!(!p.accepts(&Command::New(buy(2, 100, 6))));
    // Fills, takes its own id out of the book, or never rests.
    assert!(p.accepts(&Command::New(buy(2, 100, 5))));
    assert!(p.accepts(&Command::New(buy(1, 100, 6))));
    assert!(p.accepts(&Command::New(buy(2, 80, 1).with_tif(TimeInForce::Ioc))));
    assert!(p.accepts(&Command::New(buy(2, 80, 1).on(InstrumentId(2)))));
    assert_eq!(p.state_fingerprint(), before, "asking changes nothing");
    run(&mut p, Command::New(buy(1, 100, 6)));
    let resting = *p.engine(BTC).unwrap().book().get(OrderId(1)).unwrap();
    assert_eq!((resting.side, resting.remaining), (Side::Buy, 1));
}

#[test]
fn runs_of_the_same_commands_are_the_same() {
    let commands = [
        Command::New(sell(1, 100, 5)),
        Command::New(buy(2, 101, 7)),
        Command::Modify {
            instrument: BTC,
            order_id: OrderId(2),
            new_price: 101,
            new_qty: 1,
            cmd_id: 9,
        },
        Command::New(sell(3, 101, 1).on(InstrumentId(4))),
    ];
    let mut a = processor();
    let mut b = processor();
    for command in commands {
        assert_eq!(run(&mut a, command), run(&mut b, command));
        assert_eq!(a.state_fingerprint(), b.state_fingerprint());
    }
}

#[test]
fn a_policy_reaches_the_books_that_are_there() {
    let mut p = processor();
    run(&mut p, Command::New(sell(1, 100, 5).owned_by(7)));
    run(&mut p, Command::New(sell(2, 100, 5).on(InstrumentId(3)).owned_by(7)));
    let before = p.state_fingerprint();
    let mut p = p.with_stp(SelfTradePolicy::CancelTaker);
    assert_eq!(p.state_fingerprint(), before);
    for instrument in [BTC, InstrumentId(3), InstrumentId(4)] {
        run(
            &mut p,
            Command::New(sell(10 + instrument.0 as u64, 100, 1).on(instrument).owned_by(7)),
        );
        let reports = run(
            &mut p,
            Command::New(buy(20 + instrument.0 as u64, 100, 5).on(instrument).owned_by(7)),
        );
        assert!(!reports
            .iter()
            .any(|r| matches!(r, ExecReport::Trade { .. })));
    }
}

#[test]
fn a_small_default_pool_grows_with_its_book() {
    let mut p = processor().with_default_pool(1, true);
    for i in 1..=5 {
        run(&mut p, Command::New(buy(i, 100 - i, 1)));
    }
    assert_eq!(p.engine(BTC).unwrap().book().len(), 5);
}

#[test]
fn a_snapshot_file_reads_back() {
    let mut p = processor();
    run(&mut p, Command::New(buy(1, 100, 5).owned_by(7)));
    run(&mut p, Command::New(sell(2, 110, 5).on(InstrumentId(9))));
    run(&mut p, Command::New(sell(3, 100, 2)));
    let snap = Snapshot {
        journal_seq: 3,
        raft_applied_index: 8,
        engines: p.export_state(),
    };
    let file = encode_snapshot(&snap);
    let back = decode_snapshot(&file).unwrap();
    assert_eq!((back.journal_seq, back.raft_applied_index), (3, 8));
    assert_eq!(
        fingerprint_engine_states(&back.engines, None),
        p.state_fingerprint()
    );
    let mut copy = processor();
    assert!(copy.can_restore(&back));
    copy.restore_state(&back);
    assert_eq!(copy.state_fingerprint(), p.state_fingerprint());
    assert!(!copy.can_restore(&back), "the instruments are in use");

    for at in 0..file.len() {
        let mut damaged = file.clone();
        damaged[at] ^= 1;
        assert!(decode_snapshot(&damaged).is_none(), "byte {at}");
        assert!(decode_snapshot(&file[..at]).is_none(), "cut at {at}");
    }
}

#[test]
fn a_snapshot_that_makes_no_book_is_not_restored() {
    let mut p = processor();
    run(&mut p, Command::New(buy(1, 100, 5)));
    run(&mut p, Command::New(buy(2, 100, 5)));
    let take = |p: &Processor<PriceTimePriority>| Snapshot {
        journal_seq: 2,
        raft_applied_index: 0,
        engines: p.export_state(),
    };
    assert!(processor().can_restore(&take(&p)));
    let mut backwards = take(&p);
    backwards.engines[0].orders.swap(0, 1);
    assert!(!processor().can_restore(&backwards));
    let mut twice = take(&p);
    twice.engines[0].orders[1].id = OrderId(1);
    assert!(!processor().can_restore(&twice));
    let mut late = take(&p);
    late.engines[0].engine_seq = 1;
    assert!(!processor().can_restore(&late));
    let mut empty = take(&p);
    empty.engines[0].orders[0].remaining = 0;
    assert!(!processor().can_restore(&empty));
    let mut repeated = take(&p);
    repeated.engines.extend(take(&p).engines);
    assert!(!processor().can_restore(&repeated));
}
