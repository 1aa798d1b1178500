use matching_engine::event::Event;
use matching_engine::gate::trading_enabled_after;
use matching_engine::order::TimeInForce;
use matching_engine::order_book::OrderBook;
use matching_engine::side::Side;

fn book(trading_enabled: bool) -> OrderBook {
    OrderBook::new("XYZ".to_string(), trading_enabled)
}

fn accepted(user_id: u32, order_id: u32) -> Event {
    Event::Accepted { user_id, order_id }
}

fn trade(taker: (u32, u32), maker: (u32, u32), price: usize, quantity: usize) -> Event {
    Event::Trade {
        taker_user_id: taker.0,
        taker_order_id: taker.1,
        maker_user_id: maker.0,
        maker_order_id: maker.1,
        price,
        quantity,
    }
}

fn best(side: Side, best: Option<(usize, usize)>) -> Event {
    Event::BestPrice { side, best }
}

#[test]
fn empty_book_rest() {
    let mut b = book(true);
    let r = b.add_limit_order(Side::Buy, 100, 50, 1, 1, TimeInForce::GTC);
    assert!(r.err.is_none());
    assert_eq!(r.quantity_left, 100);
    assert_eq!(b.take_events(), vec![accepted(1, 1), best(Side::Buy, Some((50, 100)))]);
    assert_eq!(b.bids().max_price(), 50);
    assert_eq!(b.bids().max_price_queue().unwrap().volume, 100);
}

#[test]
fn simple_cross_equal_size() {
    let mut b = book(true);
    b.add_limit_order(Side::Buy, 100, 50, 1, 1, TimeInForce::GTC);
    b.take_events();
    let r = b.add_limit_order(Side::Sell, 100, 50, 2, 2, TimeInForce::GTC);
    assert_eq!(r.quantity_left, 0);
    assert_eq!(
        b.take_events(),
        vec![accepted(2, 2), trade((2, 2), (1, 1), 50, 100), best(Side::Buy, None)]
    );
    assert_eq!(b.bids().num_orders, 0);
    assert_eq!(b.asks().num_orders, 0);
    assert!(b.get_order(1).is_none());
    assert!(b.get_order(2).is_none());
    let agg = r.done.last().unwrap();
    assert_eq!((agg.id, agg.price, agg.quantity), (2, 50, 100));
}

#[test]
fn partial_taker_rests_remainder() {
    let mut b = book(true);
    b.add_limit_order(Side::Sell, 5, 10, 1, 1, TimeInForce::GTC);
    b.take_events();
    let r = b.add_limit_order(Side::Buy, 8, 12, 2, 2, TimeInForce::GTC);
    assert_eq!(
        b.take_events(),
        vec![
            accepted(2, 2),
            trade((2, 2), (1, 1), 10, 5),
            best(Side::Sell, None),
            accepted(2, 2),
            best(Side::Buy, Some((12, 3))),
        ]
    );
    assert_eq!(r.quantity_left, 3);
    assert_eq!(r.partial.unwrap().quantity, 3);
    assert_eq!(r.partial_quantity_processed, 5);
    assert_eq!(b.bids().max_price(), 12);
    assert_eq!(b.bids().volume, 3);
    assert_eq!(b.asks().num_orders, 0);
    assert_eq!(b.get_order(2).unwrap().quantity, 3);
}

#[test]
fn partial_maker_head_trimmed() {
    let mut b = book(true);
    b.add_limit_order(Side::Sell, 10, 10, 1, 1, TimeInForce::GTC);
    b.take_events();
    let r = b.add_limit_order(Side::Buy, 4, 10, 2, 2, TimeInForce::GTC);
    assert_eq!(
        b.take_events(),
        vec![accepted(2, 2), trade((2, 2), (1, 1), 10, 4), best(Side::Sell, Some((10, 6)))]
    );
    assert_eq!(r.quantity_left, 0);
    assert_eq!(r.partial.unwrap().quantity, 6);
    assert_eq!(r.partial_quantity_processed, 4);
    assert_eq!(b.asks().min_price_queue().unwrap().head().unwrap().quantity, 6);
    assert_eq!(b.get_order(1).unwrap().quantity, 6);
    assert_eq!(b.asks().volume, 6);
    assert_eq!(b.asks().total, 60);
    assert_eq!(b.bids().num_orders, 0);
}

#[test]
fn trading_disabled_reject() {
    let mut b = book(false);
    b.add_limit_order(Side::Sell, 5, 10, 1, 1, TimeInForce::GTC);
    b.take_events();
    let r = b.add_limit_order(Side::Buy, 5, 10, 2, 2, TimeInForce::GTC);
    assert_eq!(r.err.as_deref(), Some("Trading is not enabled"));
    assert_eq!(r.quantity_left, 5);
    assert_eq!(b.take_events(), vec![Event::Rejected { user_id: 2, order_id: 2 }]);
    assert_eq!(b.asks().volume, 5);
    assert_eq!(b.bids().num_orders, 0);
    assert!(b.get_order(2).is_none());
}

#[test]
fn cancel_with_best_price_change() {
    let mut b = book(true);
    b.add_limit_order(Side::Buy, 5, 10, 3, 1, TimeInForce::GTC);
    b.add_limit_order(Side::Buy, 3, 9, 3, 2, TimeInForce::GTC);
    b.take_events();
    let r = b.cancel_order_user(3, 1);
    assert_eq!(r.unwrap().id, 1);
    assert_eq!(b.take_events(), vec![accepted(3, 1), best(Side::Buy, Some((9, 5)))]);
    assert_eq!(b.bids().max_price(), 9);
    assert_eq!(b.bids().volume, 3);
}

#[test]
fn duplicate_id_is_refused() {
    let mut b = book(true);
    b.add_limit_order(Side::Buy, 5, 10, 1, 1, TimeInForce::GTC);
    b.take_events();
    let r = b.add_limit_order(Side::Sell, 5, 20, 1, 1, TimeInForce::GTC);
    assert_eq!(r.err.as_deref(), Some("Order Already Exists"));
    assert_eq!(r.quantity_left, 5);
    assert!(b.take_events().is_empty());
    assert_eq!(b.asks().num_orders, 0);
    assert_eq!(b.bids().volume, 5);
}

#[test]
fn cancel_unknown_id_is_a_no_op() {
    let mut b = book(true);
    b.add_limit_order(Side::Sell, 5, 10, 1, 1, TimeInForce::GTC);
    b.take_events();
    assert!(b.cancel_order_user(1, 99).is_none());
    assert!(b.take_events().is_empty());
    assert_eq!(b.asks().volume, 5);
    assert_eq!(b.asks().num_orders, 1);
    assert_eq!(b.get_order(1).unwrap().quantity, 5);
}

#[test]
fn flush_restores_ground_state() {
    let mut b = book(true);
    b.add_limit_order(Side::Sell, 5, 10, 1, 1, TimeInForce::GTC);
    b.add_limit_order(Side::Buy, 4, 8, 2, 2, TimeInForce::GTC);
    b.flush();
    assert_eq!((b.bids().volume, b.bids().total, b.bids().num_orders), (0, 0, 0));
    assert_eq!((b.asks().volume, b.asks().total, b.asks().num_orders), (0, 0, 0));
    assert_eq!(b.bids().max_price(), 0);
    assert_eq!(b.asks().min_price(), usize::MAX);
    assert!(b.get_order(1).is_none());
}

#[test]
fn earliest_arrival_fills_first() {
    let mut b = book(true);
    b.add_limit_order(Side::Sell, 3, 10, 1, 1, TimeInForce::GTC);
    b.add_limit_order(Side::Sell, 3, 10, 2, 2, TimeInForce::GTC);
    b.take_events();
    b.add_limit_order(Side::Buy, 4, 10, 9, 9, TimeInForce::GTC);
    let events = b.take_events();
    assert_eq!(events[1], trade((9, 9), (1, 1), 10, 3));
    assert_eq!(events[3], trade((9, 9), (2, 2), 10, 1));
    assert!(b.get_order(1).is_none());
    assert_eq!(b.get_order(2).unwrap().quantity, 2);
}

#[test]
fn sweep_conserves_quantity_and_notional() {
    let mut b = book(true);
    b.add_limit_order(Side::Sell, 2, 10, 1, 1, TimeInForce::GTC);
    b.add_limit_order(Side::Sell, 3, 11, 1, 2, TimeInForce::GTC);
    b.add_limit_order(Side::Sell, 4, 12, 1, 3, TimeInForce::GTC);
    b.take_events();
    let (volume0, total0) = (b.asks().volume, b.asks().total);
    let r = b.add_limit_order(Side::Buy, 7, 11, 5, 5, TimeInForce::GTC);
    let events = b.take_events();
    let mut qty = 0;
    let mut notional = 0;
    for e in &events {
        if let Event::Trade { price, quantity, .. } = e {
            qty += quantity;
            notional += price * quantity;
        }
    }
    assert_eq!(qty, 7 - r.quantity_left);
    assert_eq!(b.asks().volume, volume0 - qty);
    assert_eq!(b.asks().total, total0 - notional);
    // 2 at 10 and 3 at 11; the level at 12 is beyond the limit
    assert_eq!(notional, 53);
    assert_eq!(r.quantity_left, 2);
    for e in &events {
        if let Event::Trade { price, .. } = e {
            assert!(*price <= 11);
        }
    }
    assert_eq!(r.done.iter().map(|o| o.id).collect::<Vec<u32>>(), vec![1, 2]);
    assert_eq!(r.partial.unwrap().quantity, 2);
    assert_eq!(r.partial_quantity_processed, 5);
    assert_eq!(b.asks().min_price(), 12);
    assert_eq!(b.asks().min_price_queue().unwrap().volume, 4);
    assert_eq!(b.bids().max_price(), 11);
    assert_eq!(b.bids().volume, 2);
}

#[test]
fn full_fill_records_average_price() {
    let mut b = book(true);
    b.add_limit_order(Side::Sell, 2, 10, 1, 1, TimeInForce::GTC);
    b.add_limit_order(Side::Sell, 3, 11, 1, 2, TimeInForce::GTC);
    b.take_events();
    let r = b.add_limit_order(Side::Buy, 5, 11, 5, 5, TimeInForce::GTC);
    assert_eq!(r.quantity_left, 0);
    // 2 * 10 + 3 * 11 = 53, over 5
    let agg = r.done.last().unwrap();
    assert_eq!((agg.id, agg.quantity, agg.price), (5, 5, 10));
    assert_eq!(b.asks().num_orders, 0);
}

#[test]
fn book_never_stays_crossed() {
    let mut b = book(true);
    b.add_limit_order(Side::Sell, 2, 10, 1, 1, TimeInForce::GTC);
    b.add_limit_order(Side::Buy, 5, 15, 2, 2, TimeInForce::GTC);
    assert_eq!(b.asks().num_orders, 0);
    assert_eq!(b.bids().max_price(), 15);
    b.add_limit_order(Side::Sell, 1, 20, 3, 3, TimeInForce::GTC);
    assert!(b.bids().max_price() < b.asks().min_price());
}

#[test]
fn market_order_never_rests() {
    let mut b = book(false);
    b.add_limit_order(Side::Buy, 4, 10, 1, 1, TimeInForce::GTC);
    b.take_events();
    let r = b.add_market_order(Side::Sell, 6, 2, 2);
    assert!(r.err.is_none());
    assert_eq!(r.quantity_left, 2);
    assert_eq!(
        b.take_events(),
        vec![accepted(2, 2), trade((2, 2), (1, 1), 10, 4), best(Side::Buy, None)]
    );
    assert_eq!(b.bids().num_orders, 0);
    assert_eq!(b.asks().num_orders, 0);
    assert!(b.get_order(2).is_none());
}

#[test]
fn market_order_on_empty_book_does_nothing() {
    let mut b = book(true);
    let r = b.add_market_order(Side::Buy, 6, 2, 2);
    assert_eq!(r.quantity_left, 6);
    assert!(r.done.is_empty());
    assert!(b.take_events().is_empty());
}

#[test]
fn joining_the_best_level_reports_its_volume() {
    let mut b = book(true);
    b.add_limit_order(Side::Sell, 2, 10, 1, 1, TimeInForce::GTC);
    b.add_limit_order(Side::Sell, 3, 10, 1, 2, TimeInForce::GTC);
    b.add_limit_order(Side::Sell, 1, 12, 1, 3, TimeInForce::GTC);
    assert_eq!(
        b.take_events(),
        vec![
            accepted(1, 1),
            best(Side::Sell, Some((10, 2))),
            accepted(1, 2),
            best(Side::Sell, Some((10, 5))),
            accepted(1, 3),
        ]
    );
}

#[test]
fn trading_gate_opens_at_ten_flushes() {
    assert!(!trading_enabled_after(0));
    assert!(!trading_enabled_after(9));
    assert!(trading_enabled_after(10));
    assert!(trading_enabled_after(11));
}
