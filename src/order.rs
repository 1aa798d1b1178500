use crate::side::Side;
use vstd::prelude::*;

verus! {

#[derive(Debug, Clone, Copy, PartialEq, Eq, Structural)]
pub enum OrderType {
    Limit,
    Market,
}

/// Time-in-force policy. Only good-till-cancelled is acted upon; the others
/// are accepted and treated the same way.
#[derive(Debug, Clone, Copy, PartialEq, Eq, Structural)]
pub enum TimeInForce {
    GTC,
    IOC,
    GTD,
    FOK,
}

/// An order. Timestamps are microseconds since the Unix epoch; they are
/// informational and take no part in priority.
#[derive(Debug, Clone, Copy, PartialEq, Eq, Structural)]
pub struct Order {
    pub id: u32,
    pub user_id: u32,
    pub side: Side,
    pub order_type: OrderType,
    pub time_in_force: TimeInForce,
    pub price: usize,
    pub quantity: usize,
    pub created_at: i64,
    pub updated_at: i64,
}

/// Relies on chrono::Utc::now and DateTime::timestamp_micros: the current
/// wall-clock time in microseconds. Nothing is known of the value.
#[verifier::external_body]
pub(crate) fn now_micros() -> (r: i64) {
    chrono::Utc::now().timestamp_micros()
}

impl Order {
    /// Creates an order stamped with the current time.
    pub fn new(
        id: u32,
        user_id: u32,
        side: Side,
        order_type: OrderType,
        time_in_force: TimeInForce,
        price: usize,
        quantity: usize,
    ) -> (r: Order)
        ensures
            r.id == id,
            r.user_id == user_id,
            r.side == side,
            r.order_type == order_type,
            r.time_in_force == time_in_force,
            r.price == price,
            r.quantity == quantity,
            r.created_at == r.updated_at,
    {
        let now = now_micros();
        Order {
            id,
            user_id,
            side,
            order_type,
            time_in_force,
            price,
            quantity,
            created_at: now,
            updated_at: now,
        }
    }
}

} // verus!
