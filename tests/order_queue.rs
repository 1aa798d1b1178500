use matching_engine::order::{Order, OrderType, TimeInForce};
use matching_engine::order_queue::OrderQueue;
use matching_engine::side::Side;

fn buy(id: u32, price: usize, quantity: usize) -> Order {
    Order::new(id, 1, Side::Buy, OrderType::Limit, TimeInForce::GTC, price, quantity)
}

#[test]
fn test_append() {
    let mut queue = OrderQueue::new(100);
    let order = buy(1, 100, 100);
    let order = queue.append(order);
    assert_eq!(order.id, 1);
    assert_eq!(order.price, 100);
    assert_eq!(order.quantity, 100);
    assert_eq!(queue.volume, 100);
    assert_eq!(queue.len(), 1);
}

#[test]
fn test_remove() {
    let mut queue = OrderQueue::new(100);
    for id in 1..=9 {
        queue.append(buy(id, 100, 100));
    }
    let order = queue.remove(&buy(5, 100, 100));
    assert_eq!(order.unwrap().id, 5);
    assert_eq!(queue.len(), 8);
    assert_eq!(queue.volume, 800);
}

#[test]
fn test_len() {
    let mut queue = OrderQueue::new(100);
    queue.append(buy(1, 100, 100));
    queue.append(buy(2, 100, 100));
    queue.append(buy(3, 100, 100));
    assert_eq!(queue.len(), 3);
}

#[test]
fn test_head() {
    let mut queue = OrderQueue::new(100);
    queue.append(buy(1, 100, 100));
    queue.append(buy(2, 100, 100));
    queue.append(buy(3, 100, 100));
    assert_eq!(queue.head().unwrap().id, 1);
}

#[test]
fn test_update_head() {
    let mut queue = OrderQueue::new(100);
    queue.append(buy(1, 100, 100));
    queue.append(buy(2, 100, 100));
    let old_order = buy(3, 100, 100);
    let new_order = buy(3, 100, 200);
    assert_eq!(queue.len(), 2);
    assert_eq!(queue.head().unwrap().quantity, 100);
    queue.update_head(old_order, new_order);
    assert_eq!(queue.len(), 2);
    assert_eq!(queue.head().unwrap().quantity, 200);
}

#[test]
fn remove_unknown_id_changes_nothing() {
    let mut queue = OrderQueue::new(10);
    queue.append(buy(1, 10, 4));
    assert!(queue.remove(&buy(2, 10, 4)).is_none());
    assert_eq!(queue.len(), 1);
    assert_eq!(queue.volume, 4);
}

#[test]
fn empty_queue_has_no_head() {
    let queue = OrderQueue::new(10);
    assert!(queue.head().is_none());
    assert_eq!(queue.len(), 0);
    assert_eq!(queue.volume, 0);
}
