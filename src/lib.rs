//! A single-symbol central limit order book with price-time priority matching.

pub mod side;
pub mod order;
pub mod sums;
pub mod order_queue;
pub mod event;
pub mod order_side;
pub mod order_book;
pub mod gate;
