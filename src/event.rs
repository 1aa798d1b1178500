use crate::side::Side;
use vstd::prelude::*;

verus! {

/// What the engine reports, in the order it happens.
#[derive(Debug, Clone, Copy, PartialEq, Eq)]
pub enum Event {
    /// An order was accepted (to match or to rest), or a resting order was cancelled.
    Accepted { user_id: u32, order_id: u32 },
    /// An order would have crossed while trading is disabled.
    Rejected { user_id: u32, order_id: u32 },
    /// A fill against one resting order, at the resting order's price.
    Trade {
        taker_user_id: u32,
        taker_order_id: u32,
        maker_user_id: u32,
        maker_order_id: u32,
        price: usize,
        quantity: usize,
    },
    /// The best price of a side, or its volume there, changed; `None` when
    /// the side became empty.
    BestPrice { side: Side, best: Option<(usize, usize)> },
}

/// Quantity traded in a run of events.
pub open spec fn traded_qty(evs: Seq<Event>) -> int
    decreases evs.len(),
{
    if evs.len() == 0 {
        0
    } else {
        traded_qty(evs.drop_last()) + match evs.last() {
            Event::Trade { quantity, .. } => quantity as int,
            _ => 0,
        }
    }
}

/// Notional (price times quantity) traded in a run of events.
pub open spec fn traded_notional(evs: Seq<Event>) -> int
    decreases evs.len(),
{
    if evs.len() == 0 {
        0
    } else {
        traded_notional(evs.drop_last()) + match evs.last() {
            Event::Trade { price, quantity, .. } => price * quantity,
            _ => 0,
        }
    }
}

pub proof fn lemma_traded_push(evs: Seq<Event>, e: Event)
    ensures
        traded_qty(evs.push(e)) == traded_qty(evs) + match e {
            Event::Trade { quantity, .. } => quantity as int,
            _ => 0,
        },
        traded_notional(evs.push(e)) == traded_notional(evs) + match e {
            Event::Trade { price, quantity, .. } => price * quantity,
            _ => 0,
        },
{
    assert(evs.push(e).drop_last() =~= evs);
}

} // verus!
