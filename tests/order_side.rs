use matching_engine::event::Event;
use matching_engine::order::{Order, OrderType, TimeInForce};
use matching_engine::order_queue::OrderQueue;
use matching_engine::order_side::OrderSide;
use matching_engine::side::Side;

fn buy(id: u32, user_id: u32, price: usize, quantity: usize) -> Order {
    Order::new(id, user_id, Side::Buy, OrderType::Limit, TimeInForce::GTC, price, quantity)
}

fn level(side: &OrderSide, price: usize) -> &OrderQueue {
    side.prices.iter().find(|q| q.price == price).unwrap()
}

fn three_levels(third_price: usize) -> OrderSide {
    let mut order_side = OrderSide::new(Side::Buy);
    order_side.add_order(buy(1, 1, 100, 100));
    order_side.add_order(buy(2, 1, 200, 100));
    order_side.add_order(buy(3, 1, third_price, 100));
    order_side
}

#[test]
fn test_add_order() {
    let mut order_side = OrderSide::new(Side::Buy);
    let id = 1;
    order_side.add_order(buy(id, id, 500, 100));
    assert_eq!(order_side.num_orders, 1);
    assert_eq!(order_side.volume, 100);
    assert_eq!(order_side.total, 500 * 100);
    assert_eq!(order_side.prices.len(), 1);
    assert_eq!(&level(&order_side, 500).head().unwrap().id, &id);
}

#[test]
fn test_remove_order() {
    let mut order_side = OrderSide::new(Side::Buy);
    let mut events: Vec<Event> = Vec::new();
    let id = 1;
    let order = order_side.add_order(buy(id, 1, 500, 100));
    assert_eq!(order_side.num_orders, 1);
    assert_eq!(order_side.volume, 100);
    assert_eq!(order_side.total, 500 * 100);
    assert_eq!(order_side.prices.len(), 1);
    assert_eq!(&level(&order_side, 500).head().unwrap().id, &id);
    let order_two = order_side.add_order(buy(id, 1, 123, 456));
    assert_eq!(order_side.num_orders, 2);
    assert_eq!(order_side.volume, 556);
    assert_eq!(order_side.total, (500 * 100) + (123 * 456));
    assert_eq!(order_side.prices.len(), 2);
    assert_eq!(&level(&order_side, 123).head().unwrap().id, &id);
    order_side.remove_order(&order, &mut events);
    assert_eq!(order_side.num_orders, 1);
    assert_eq!(order_side.volume, 456);
    assert_eq!(order_side.total, (123 * 456));
    assert_eq!(order_side.prices.len(), 1);
    order_side.remove_order(&order_two, &mut events);
    assert_eq!(order_side.num_orders, 0);
    assert_eq!(order_side.volume, 0);
    assert_eq!(order_side.total, 0);
    assert_eq!(order_side.prices.len(), 0);
}

#[test]
fn test_decrease_volume_and_total() {
    let mut order_side = OrderSide::new(Side::Buy);
    let id = 1;
    let order = order_side.add_order(buy(id, 1, 500, 100));
    assert_eq!(order_side.num_orders, 1);
    assert_eq!(order_side.volume, 100);
    assert_eq!(order_side.total, 500 * 100);
    assert_eq!(order_side.prices.len(), 1);
    assert_eq!(&level(&order_side, 500).head().unwrap().id, &id);
    order_side.decrease_volume_and_total(&order);
    assert_eq!(order_side.num_orders, 1);
    assert_eq!(order_side.volume, 0);
    assert_eq!(order_side.total, 0);
    assert_eq!(order_side.prices.len(), 1);
    assert_eq!(&level(&order_side, 500).head().unwrap().id, &id);
}

#[test]
fn test_max_price_queue() {
    let order_side = three_levels(500);
    assert_eq!(order_side.num_orders, 3);
    assert_eq!(order_side.volume, 300);
    assert_eq!(order_side.total, 100 * 100 + 200 * 100 + 500 * 100);
    assert_eq!(order_side.prices.len(), 3);
    let max_price_queue = order_side.max_price_queue();
    assert_eq!(max_price_queue.unwrap().head().unwrap().id, 3);
}

#[test]
fn test_max_price_queue_mut() {
    let mut order_side = three_levels(500);
    assert_eq!(order_side.num_orders, 3);
    assert_eq!(order_side.volume, 300);
    assert_eq!(order_side.total, 100 * 100 + 200 * 100 + 500 * 100);
    assert_eq!(order_side.prices.len(), 3);
    let max_price_queue = order_side.max_price_queue_mut();
    assert_eq!(max_price_queue.unwrap().head().unwrap().id, 3);
}

#[test]
fn test_min_price_queue() {
    let order_side = three_levels(50);
    assert_eq!(order_side.num_orders, 3);
    assert_eq!(order_side.volume, 300);
    assert_eq!(order_side.total, 100 * 100 + 200 * 100 + 50 * 100);
    assert_eq!(order_side.prices.len(), 3);
    let min_price_queue = order_side.min_price_queue();
    assert_eq!(min_price_queue.unwrap().head().unwrap().id, 3);
}

#[test]
fn test_min_price_queue_mut() {
    let mut order_side = three_levels(50);
    assert_eq!(order_side.num_orders, 3);
    assert_eq!(order_side.volume, 300);
    assert_eq!(order_side.total, 100 * 100 + 200 * 100 + 50 * 100);
    assert_eq!(order_side.prices.len(), 3);
    let min_price_queue = order_side.min_price_queue_mut();
    assert_eq!(min_price_queue.unwrap().head().unwrap().id, 3);
}

#[test]
fn empty_side_reports_sentinels() {
    let order_side = OrderSide::new(Side::Sell);
    assert_eq!(order_side.max_price(), 0);
    assert_eq!(order_side.min_price(), usize::MAX);
    assert!(order_side.max_price_queue().is_none());
    assert!(order_side.min_price_queue().is_none());
}

#[test]
fn levels_stay_sorted_and_merge_equal_prices() {
    let mut order_side = OrderSide::new(Side::Buy);
    order_side.add_order(buy(1, 1, 30, 1));
    order_side.add_order(buy(2, 1, 10, 2));
    order_side.add_order(buy(3, 1, 20, 3));
    order_side.add_order(buy(4, 1, 20, 4));
    let prices: Vec<usize> = order_side.prices.iter().map(|q| q.price).collect();
    assert_eq!(prices, vec![10, 20, 30]);
    assert_eq!(level(&order_side, 20).volume, 7);
    assert_eq!(level(&order_side, 20).head().unwrap().id, 3);
    assert_eq!(order_side.max_price(), 30);
    assert_eq!(order_side.min_price(), 10);
}

#[test]
fn remove_order_reports_cancel_and_best() {
    let mut order_side = OrderSide::new(Side::Buy);
    let mut events: Vec<Event> = Vec::new();
    let top = order_side.add_order(buy(1, 7, 10, 5));
    order_side.add_order(buy(2, 8, 9, 3));
    let removed = order_side.remove_order(&top, &mut events);
    assert_eq!(removed.unwrap().id, 1);
    assert_eq!(
        events,
        vec![
            Event::Accepted { user_id: 7, order_id: 1 },
            Event::BestPrice { side: Side::Buy, best: Some((9, 5)) },
        ]
    );
    let mut internal: Vec<Event> = Vec::new();
    let last = buy(2, 8, 9, 3);
    order_side.remove_order_internal(&last, &mut internal);
    assert_eq!(internal, vec![Event::BestPrice { side: Side::Buy, best: None }]);
    assert!(order_side.remove_order(&last, &mut internal).is_none());
    assert_eq!(internal.len(), 1);
}

#[test]
fn flush_clears_side() {
    let mut order_side = three_levels(500);
    order_side.flush();
    assert_eq!(order_side.num_orders, 0);
    assert_eq!(order_side.volume, 0);
    assert_eq!(order_side.total, 0);
    assert_eq!(order_side.prices.len(), 0);
    assert_eq!(order_side.max_price(), 0);
    assert_eq!(order_side.min_price(), usize::MAX);
}
