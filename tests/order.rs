use matching_engine::order::{Order, OrderType, TimeInForce};
use matching_engine::side::Side;

#[test]
fn test_order_new() {
    let order = Order::new(1, 1, Side::Buy, OrderType::Limit, TimeInForce::GTC, 100, 100);
    assert_eq!(order.id, 1);
    assert_eq!(order.side, Side::Buy);
    assert_eq!(order.order_type, OrderType::Limit);
    assert_eq!(order.time_in_force, TimeInForce::GTC);
    assert_eq!(order.price, 100);
    assert_eq!(order.quantity, 100);
}

#[test]
fn test_all_order_types() {
    let order_types = vec![OrderType::Limit, OrderType::Market];
    for order_type in order_types {
        assert!(order_type == OrderType::Limit || order_type == OrderType::Market);
    }
}

#[test]
fn test_all_time_in_force() {
    let time_in_forces = vec![
        TimeInForce::GTC,
        TimeInForce::IOC,
        TimeInForce::GTD,
        TimeInForce::FOK,
    ];
    for time_in_force in time_in_forces {
        assert!(
            (time_in_force == TimeInForce::GTC
                || time_in_force == TimeInForce::IOC
                || time_in_force == TimeInForce::GTD
                || time_in_force == TimeInForce::FOK)
        );
    }
}

#[test]
fn order_new_stamps_the_clock() {
    let order = Order::new(7, 3, Side::Sell, OrderType::Market, TimeInForce::IOC, 0, 5);
    assert_eq!(order.created_at, order.updated_at);
    assert!(order.created_at > 0);
    assert_eq!(order.user_id, 3);
}
