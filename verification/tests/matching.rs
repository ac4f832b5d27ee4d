//! The order book and the matching engine.

use trade_core::book::OrderBook;
use trade_core::crossing::SelfTradePolicy;
use trade_core::pool::OrderPool;
use trade_core::strategy::MatchingStrategy;
use trade_core::types::{InstrumentId, OrderId, Side, TimeInForce};
use trade_core::{
    Allocation, MatchingEngine, ModifyOutcome, Order, OrderStatus, PriceTimePriority, RestingOrder,
    SubmitReport,
};

fn engine() -> MatchingEngine<PriceTimePriority> {
    MatchingEngine::new(PriceTimePriority)
}

fn buy(id: u64, price: u64, qty: u64) -> Order {
    Order::limit(OrderId(id), Side::Buy, price, qty)
}

fn sell(id: u64, price: u64, qty: u64) -> Order {
    Order::limit(OrderId(id), Side::Sell, price, qty)
}

#[test]
fn best_price_and_oldest_order_trade_first() {
    let mut e = engine();
    e.submit(sell(1, 101, 5));
    e.submit(sell(2, 100, 5));
    e.submit(sell(3, 100, 5));
    let report = e.submit(buy(4, 101, 12));
    assert_eq!(report.status, OrderStatus::Filled);
    assert_eq!(report.filled, 12);
    let makers: Vec<(u64, u64, u64)> = report
        .trades
        .iter()
        .map(|t| (t.maker.0, t.price, t.quantity))
        .collect();
    assert_eq!(makers, vec![(2, 100, 5), (3, 100, 5), (1, 101, 2)]);
    assert_eq!(e.book().best_ask(), Some(101));
    assert_eq!(e.book().get(OrderId(1)).unwrap().remaining, 3);
}

#[test]
fn what_is_left_of_a_limit_order_rests() {
    let mut e = engine();
    e.submit(sell(1, 100, 5));
    let report = e.submit(buy(2, 100, 8));
    assert_eq!(report.status, OrderStatus::PartiallyFilled);
    assert!(report.resting);
    assert_eq!(e.book().best_bid(), Some(100));
    assert_eq!(e.book().best_ask(), None);
    assert_eq!(e.book().depth(Side::Buy), vec![(100, 3, 1)]);
}

#[test]
fn a_book_is_never_left_crossed() {
    let mut e = engine();
    for (id, price) in [(1, 105), (2, 103), (3, 101)] {
        e.submit(sell(id, price, 4));
    }
    for (id, price) in [(4, 99), (5, 102), (6, 104)] {
        e.submit(buy(id, price, 5));
        let (bid, ask) = (e.book().best_bid(), e.book().best_ask());
        assert!(bid.is_none() || ask.is_none() || bid.unwrap() < ask.unwrap());
    }
}

#[test]
fn market_orders_never_rest() {
    let mut e = engine();
    let report = e.submit(Order::market(OrderId(1), Side::Buy, 5));
    assert_eq!(report.status, OrderStatus::Cancelled);
    assert!(!report.resting);
    e.submit(sell(2, 100, 3));
    let report = e.submit(Order::market(OrderId(3), Side::Buy, 5));
    assert_eq!(report.status, OrderStatus::PartiallyFilled);
    assert_eq!(report.filled, 3);
    assert!(e.book().is_empty());
}

#[test]
fn immediate_or_cancel_drops_the_rest() {
    let mut e = engine();
    e.submit(sell(1, 100, 3));
    let report = e.submit(buy(2, 100, 5).with_tif(TimeInForce::Ioc));
    assert_eq!(report.filled, 3);
    assert!(!report.resting);
    assert!(e.book().is_empty());
}

#[test]
fn fill_or_kill_is_all_or_nothing() {
    let mut e = engine();
    e.submit(sell(1, 100, 3));
    e.submit(sell(2, 102, 3));
    let report = e.submit(buy(3, 101, 4).with_tif(TimeInForce::Fok));
    assert_eq!(report.status, OrderStatus::Rejected);
    assert!(report.trades.is_empty());
    assert_eq!(e.book().len(), 2);
    let report = e.submit(buy(4, 102, 4).with_tif(TimeInForce::Fok));
    assert_eq!(report.status, OrderStatus::Filled);
    assert_eq!(report.filled, 4);
}

#[test]
fn a_budget_buys_what_it_pays_for() {
    let mut e = engine();
    e.submit(sell(1, 100, 2));
    e.submit(sell(2, 200, 5));
    // The price of a budget order is what it may spend.
    let mut order = Order::market(OrderId(3), Side::Buy, 5).with_tif(TimeInForce::IocBudget);
    order.price = 450;
    let report = e.submit(order);
    assert_eq!(report.filled, 3, "two at 100 and one at 200");
    assert_eq!(e.book().get(OrderId(2)).unwrap().remaining, 4);
}

#[test]
fn own_orders_are_not_traded_against() {
    let mut e = engine().with_stp(SelfTradePolicy::CancelTaker);
    e.submit(sell(1, 100, 3).owned_by(7));
    let report = e.submit(buy(2, 100, 3).owned_by(7));
    assert!(report.trades.is_empty());
    assert_eq!(report.status, OrderStatus::Cancelled);
    assert_eq!(e.book().len(), 1);

    let mut e = engine().with_stp(SelfTradePolicy::CancelMaker);
    e.submit(sell(1, 100, 3).owned_by(7));
    e.submit(sell(2, 100, 3).owned_by(8));
    let report = e.submit(buy(3, 100, 3).owned_by(7));
    assert_eq!(report.trades.len(), 1);
    assert_eq!(report.trades[0].maker, OrderId(2));
    assert_eq!(e.stp_cancelled(), &vec![OrderId(1)]);

    let mut e = engine().with_stp(SelfTradePolicy::CancelBoth);
    e.submit(sell(1, 100, 3).owned_by(7));
    e.submit(buy(2, 100, 3).owned_by(7));
    assert!(e.book().is_empty());

    let mut e = engine();
    e.submit(sell(1, 100, 3).owned_by(7));
    assert_eq!(e.submit(buy(2, 100, 3).owned_by(7)).trades.len(), 1);
}

#[test]
fn a_cancel_takes_the_order_out() {
    let mut e = engine();
    e.submit(buy(1, 100, 3));
    assert!(e.cancel(OrderId(1)));
    assert!(!e.cancel(OrderId(1)));
    assert!(e.book().is_empty());
    assert_eq!(e.book().best_bid(), None);
}

#[test]
fn a_smaller_quantity_keeps_the_place_in_the_queue() {
    let mut e = engine();
    e.submit(buy(1, 100, 5));
    e.submit(buy(2, 100, 5));
    assert!(matches!(
        e.modify(OrderId(1), 100, 3),
        ModifyOutcome::Reduced {
            order_id: OrderId(1),
            remaining: 3
        }
    ));
    let report = e.submit(sell(3, 100, 3));
    assert_eq!(report.trades[0].maker, OrderId(1));
}

#[test]
fn another_price_loses_the_place_in_the_queue() {
    let mut e = engine();
    e.submit(buy(1, 100, 5));
    e.submit(buy(2, 101, 5));
    match e.modify(OrderId(1), 101, 5) {
        ModifyOutcome::Requoted(report) => assert!(report.resting),
        _ => panic!("the order is quoted anew"),
    }
    let report = e.submit(sell(3, 101, 5));
    assert_eq!(report.trades[0].maker, OrderId(2));
    assert!(matches!(
        e.modify(OrderId(9), 101, 5),
        ModifyOutcome::NotFound
    ));
    assert!(matches!(
        e.modify(OrderId(1), 101, 0),
        ModifyOutcome::Cancelled {
            order_id: OrderId(1)
        }
    ));
}

#[test]
fn an_order_quoted_at_the_price_of_the_other_side_trades() {
    let mut e = engine();
    e.submit(sell(1, 105, 2));
    e.submit(buy(2, 100, 5));
    match e.modify(OrderId(2), 105, 6) {
        ModifyOutcome::Requoted(report) => {
            assert_eq!(report.filled, 2);
            assert!(report.resting);
        }
        _ => panic!("the order is quoted anew"),
    }
    assert_eq!(e.book().best_bid(), Some(105));
    assert_eq!(e.book().best_ask(), None);
    assert_eq!(e.book().get(OrderId(2)).unwrap().remaining, 4);
}

#[test]
fn a_larger_quantity_loses_the_place_in_the_queue() {
    let mut e = engine();
    e.submit(buy(1, 100, 5));
    e.submit(buy(2, 100, 5));
    assert!(matches!(
        e.modify(OrderId(1), 100, 6),
        ModifyOutcome::Requoted(_)
    ));
    let makers: Vec<(u64, u64)> = e
        .submit(sell(3, 100, 11))
        .trades
        .iter()
        .map(|t| (t.maker.0, t.quantity))
        .collect();
    assert_eq!(makers, vec![(2, 5), (1, 6)]);
}

#[test]
fn an_order_with_nothing_left_is_not_kept() {
    let mut book = OrderBook::new();
    book.insert(buy(1, 100, 5));
    book.insert(buy(2, 101, 0));
    assert_eq!(book.len(), 1);
    assert!(book.get(OrderId(2)).is_none());
    assert_eq!(book.best_bid(), Some(100));
    assert_eq!(book.depth(Side::Buy), vec![(100, 5, 1)]);
}

#[test]
fn a_restored_engine_answers_later_orders_alike() {
    let mut e = engine();
    e.submit(buy(1, 100, 5));
    e.submit(buy(2, 100, 7));
    e.submit(sell(3, 110, 5));
    e.submit(sell(4, 100, 2));
    e.cancel(OrderId(3));
    let mut copy = engine();
    copy.restore(e.seq(), &e.export_orders());
    for order in [sell(5, 99, 9), buy(6, 105, 3), sell(7, 105, 4), sell(8, 100, 1)] {
        let (one, other) = (e.submit(order), copy.submit(order));
        assert_eq!(one.status, other.status);
        assert_eq!((one.filled, one.resting), (other.filled, other.resting));
        let list = |report: &SubmitReport| -> Vec<(u64, u64, u64, u64)> {
            report
                .trades
                .iter()
                .map(|t| (t.maker.0, t.taker.0, t.price, t.quantity))
                .collect()
        };
        assert_eq!(list(&one), list(&other));
        assert_eq!(e.seq(), copy.seq());
        assert_eq!(e.book().depth(Side::Buy), copy.book().depth(Side::Buy));
        assert_eq!(e.book().depth(Side::Sell), copy.book().depth(Side::Sell));
    }
    assert_eq!(e.book().len(), copy.book().len());
}

#[test]
fn all_orders_of_a_user_are_cancelled() {
    let mut e = engine();
    e.submit(buy(1, 100, 5).owned_by(7));
    e.submit(buy(2, 101, 5).owned_by(8));
    e.submit(sell(3, 110, 5).owned_by(7));
    assert_eq!(e.book().user_open_orders(7), 2);
    let mut gone = e.cancel_all_for_user(7);
    gone.sort();
    assert_eq!(gone, vec![OrderId(1), OrderId(3)]);
    assert_eq!(e.book().len(), 1);
    assert_eq!(e.book().user_open_orders(7), 0);
}

#[test]
fn an_exported_engine_is_restored() {
    let mut e = engine();
    e.submit(buy(1, 100, 5));
    e.submit(buy(2, 100, 5));
    e.submit(sell(3, 110, 5));
    let mut copy = engine();
    copy.restore(e.seq(), &e.export_orders());
    assert_eq!(copy.seq(), e.seq());
    assert_eq!(copy.submit(sell(4, 100, 5)).trades[0].maker, OrderId(1));
    assert_eq!(e.strategy_name(), copy.strategy_name());
}

#[test]
fn depth_is_listed_from_the_best_price_on() {
    let mut book = OrderBook::new();
    for (id, price, qty) in [(1, 100, 5), (2, 102, 1), (3, 100, 2), (4, 101, 7)] {
        book.insert(buy(id, price, qty));
    }
    book.insert(sell(9, 110, 4));
    assert_eq!(
        book.depth(Side::Buy),
        vec![(102, 1, 1), (101, 7, 1), (100, 7, 2)]
    );
    assert_eq!(book.top_levels(Side::Buy, 2), vec![(102, 1), (101, 7)]);
    assert_eq!(book.best(Side::Sell), Some(110));
    assert_eq!(book.crossable_qty(Side::Sell, 101), 8);
    assert_eq!(book.cost_to_fill(Side::Sell, 3), (3, 102 + 2 * 101));
    assert_eq!(book.level_view(Side::Buy, 100).len(), 2);
    assert_eq!(book.iter_orders().len(), 5);
    assert_eq!(book.orders_of_user(0).len(), 5);
    assert!(book.reduce(OrderId(1), 1));
    assert!(!book.reduce(OrderId(77), 1));
    assert_eq!(book.cancel(OrderId(4)).unwrap().quantity, 7);
}

#[test]
fn a_level_can_be_viewed_in_part() {
    let mut book = OrderBook::with_capacity(4, false);
    for id in 1..=3 {
        book.insert(buy(id, 100, 5));
    }
    let mut out = Vec::new();
    book.level_view_capped(Side::Buy, 100, 6, &mut out);
    let ids: Vec<u64> = out.iter().map(|o| o.id.0).collect();
    assert_eq!(ids, vec![1, 2]);
    book.apply_fills(
        Side::Buy,
        100,
        &vec![(OrderId(1), 5), (OrderId(2), 1)],
    );
    assert_eq!(book.len(), 2);
    assert_eq!(book.get(OrderId(2)).unwrap().remaining, 4);
}

#[test]
fn the_oldest_orders_of_a_level_are_served() {
    let level: Vec<RestingOrder> = [(1, 5), (2, 3), (3, 4)]
        .iter()
        .map(|&(id, remaining)| RestingOrder {
            id: OrderId(id),
            remaining,
            timestamp: id,
            user: 0,
        })
        .collect();
    let mut out = Vec::new();
    PriceTimePriority.allocate_into(&level, 7, &mut out);
    assert_eq!(
        out,
        vec![
            Allocation {
                id: OrderId(1),
                qty: 5
            },
            Allocation {
                id: OrderId(2),
                qty: 2
            },
        ]
    );
    assert!(!PriceTimePriority.full_level_required());
}

#[test]
fn a_pool_reuses_its_slots() {
    let mut pool = OrderPool::with_capacity(2, true);
    assert!(pool.capacity() >= 2);
    let a = pool.store(buy(1, 100, 5));
    let b = pool.store(buy(2, 100, 5));
    assert_ne!(a, b);
    assert_eq!(pool.in_use(), 2);
    pool.set_remaining(a, 0);
    pool.release(a);
    assert_eq!(pool.in_use(), 1);
    assert_eq!(pool.store(buy(3, 100, 5)), a);
    assert_eq!(pool.get(a).id, OrderId(3));
}

#[test]
fn orders_are_built_field_by_field() {
    let order = sell(9, 100, 5)
        .on(InstrumentId(4))
        .owned_by(7)
        .with_tif(TimeInForce::Ioc);
    assert_eq!(order.instrument, InstrumentId(4));
    assert_eq!(order.user, 7);
    assert_eq!(order.tif, TimeInForce::Ioc);
    assert_eq!(order.filled(), 0);
    assert_eq!(Side::Buy.opposite(), Side::Sell);
}

#[test]
fn older_orders_at_a_price_fill_first() {
    let mut e = MatchingEngine::with_strategy(PriceTimePriority);
    e.submit(sell(1, 100, 5));
    e.submit(sell(2, 100, 5));
    let report = e.submit(buy(3, 100, 8));
    assert_eq!(report.status, OrderStatus::Filled);
    assert_eq!(report.filled, 8);
    assert_eq!(report.trades[0].maker, OrderId(1));
    assert_eq!(report.trades[0].quantity, 5);
    assert_eq!(report.trades[1].maker, OrderId(2));
    assert_eq!(report.trades[1].quantity, 3);
    assert_eq!(e.book().get(OrderId(2)).unwrap().remaining, 2);
}

#[test]
fn a_sweep_takes_the_best_prices_first() {
    let mut e = engine();
    e.submit(sell(12, 102, 5));
    e.submit(sell(10, 100, 5));
    e.submit(sell(11, 101, 5));
    let report = e.submit(buy(20, 101, 20).with_tif(TimeInForce::Ioc));
    assert_eq!(report.status, OrderStatus::PartiallyFilled);
    assert_eq!(report.filled, 10);
    let met: Vec<(OrderId, u64, u64)> = report
        .trades
        .iter()
        .map(|t| (t.maker, t.price, t.quantity))
        .collect();
    assert_eq!(met, vec![(OrderId(10), 100, 5), (OrderId(11), 101, 5)]);
    assert_eq!(e.book().depth(Side::Sell), vec![(102, 5, 1)]);

    let mut e = engine();
    e.submit(buy(1, 98, 2));
    e.submit(buy(2, 99, 2));
    let report = e.submit(sell(3, 98, 3));
    assert_eq!(report.trades[0].price, 99);
    assert_eq!(report.trades[1].price, 98);
}

#[test]
fn a_budget_that_must_buy_all_buys_all_or_nothing() {
    let budget = |id: u64, qty: u64, spend: u64| {
        let mut order = Order::market(OrderId(id), Side::Buy, qty).with_tif(TimeInForce::FokBudget);
        order.price = spend;
        order
    };
    let mut e = engine();
    e.submit(sell(1, 100, 2));
    e.submit(sell(2, 200, 5));
    let report = e.submit(budget(3, 4, 599));
    assert_eq!(report.status, OrderStatus::Rejected, "four lots cost 600");
    assert!(report.trades.is_empty());
    let report = e.submit(budget(4, 8, 10_000));
    assert_eq!(report.status, OrderStatus::Rejected, "there are seven lots");
    let report = e.submit(budget(5, 4, 600));
    assert_eq!(report.status, OrderStatus::Filled);
    assert_eq!(report.filled, 4);
    assert_eq!(e.book().depth(Side::Sell), vec![(200, 3, 1)]);
}

#[test]
fn an_id_may_come_again_while_it_does_not_come_to_rest() {
    let mut e = engine();
    e.submit(sell(1, 100, 5));
    e.submit(buy(2, 90, 5));
    let report = e.submit(buy(2, 100, 3));
    assert_eq!(report.status, OrderStatus::Filled);
    assert_eq!(e.book().get(OrderId(2)).unwrap().price, 90);
}
