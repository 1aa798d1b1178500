use crate::event::{lemma_traded_push, traded_notional, traded_qty, Event};
use crate::order::{Order, OrderType, TimeInForce};
use crate::order_queue::{first_with_id, lemma_qty_push, qty_of, OrderQueue};
use crate::sums::{lemma_sum_prefix_le, lemma_sum_push, sum_of};
use crate::order_side::{
    appended, count_of, level_of_price, removed_at, holds, ids_unique, lemma_extremes_after_remove, lemma_holds_after_remove,
    lemma_holds_side, level_ok, notional_of, removal_report, sorted, vol_of, OrderSide,
};
use crate::side::Side;
use std::collections::BTreeMap;
use vstd::prelude::*;

verus! {

broadcast use vstd::std_specs::btree::group_btree_axioms;

/// The levels of the side named by `s`.
pub open spec fn levels_for(bids: Seq<OrderQueue>, asks: Seq<OrderQueue>, s: Side) -> Seq<OrderQueue> {
    match s {
        Side::Buy => bids,
        Side::Sell => asks,
    }
}

/// The side opposite to `s`.
pub open spec fn opposite(s: Side) -> Side {
    match s {
        Side::Buy => Side::Sell,
        Side::Sell => Side::Buy,
    }
}

/// The id index and the two sides agree: every indexed order rests, exactly
/// once, on its own side, and every resting order is indexed as it rests.
#[verifier::opaque]
pub open spec fn consistent(index: Map<u32, Order>, bids: Seq<OrderQueue>, asks: Seq<OrderQueue>) -> bool {
    &&& ids_unique(bids)
    &&& ids_unique(asks)
    &&& forall|id: u32| #[trigger]
        index.contains_key(id) ==> index[id].id == id && holds(
            levels_for(bids, asks, index[id].side),
            index[id],
        )
    &&& forall|o: Order| #[trigger] holds(bids, o) ==> index.contains_key(o.id) && index[o.id] == o
    &&& forall|o: Order| #[trigger] holds(asks, o) ==> index.contains_key(o.id) && index[o.id] == o
}

/// The events appended to `before` to give `after`.
pub open spec fn added_events(before: Seq<Event>, after: Seq<Event>) -> Seq<Event> {
    after.subrange(before.len() as int, after.len() as int)
}

/// The best-price report that follows resting `quantity` at `price` on a
/// side that was `before` and is `after`: a new best when the price improves
/// on the side's best, the level's new volume when it joins the best level,
/// nothing when it rests behind.
pub open spec fn rest_report(side: Side, price: usize, quantity: usize, before: OrderSide, after: OrderSide) -> Seq<Event> {
    match side {
        Side::Buy => if price > before.max_price_spec() {
            seq![Event::BestPrice { side: Side::Buy, best: Some((price, quantity)) }]
        } else if price == before.max_price_spec() {
            seq![Event::BestPrice { side: Side::Buy, best: Some((price, after.best_level().volume)) }]
        } else {
            Seq::empty()
        },
        Side::Sell => if price < before.min_price_spec() {
            seq![Event::BestPrice { side: Side::Sell, best: Some((price, quantity)) }]
        } else if price == before.min_price_spec() {
            seq![Event::BestPrice { side: Side::Sell, best: Some((price, after.best_level().volume)) }]
        } else {
            Seq::empty()
        },
    }
}

/// A trade at `p` respects the limit of an order on `side`: at or below it
/// for a buy, at or above it for a sell; a market order has none.
pub open spec fn within(side: Side, limit: Option<usize>, p: usize) -> bool {
    match limit {
        None => true,
        Some(l) => match side {
            Side::Buy => p <= l,
            Side::Sell => p >= l,
        },
    }
}

/// The opposite side `opp` holds an order that an order on `side` with
/// `limit` may trade with.
pub open spec fn meets(side: Side, limit: Option<usize>, opp: OrderSide) -> bool {
    &&& opp.levels().len() > 0
    &&& match limit {
        None => true,
        Some(l) => crosses(side, l, opp),
    }
}

/// An event that matching an order `id` of `user_id` on `side` may produce:
/// a trade with that order as taker, within its limit, or a report; never a
/// rejection.
pub open spec fn taker_event(e: Event, side: Side, user_id: u32, id: u32, limit: Option<usize>) -> bool {
    match e {
        Event::Trade { taker_user_id, taker_order_id, price, .. } => taker_user_id == user_id
            && taker_order_id == id && within(side, limit, price),
        Event::Rejected { .. } => false,
        _ => true,
    }
}

pub open spec fn taker_events(evs: Seq<Event>, side: Side, user_id: u32, id: u32, limit: Option<usize>) -> bool {
    forall|k: int| 0 <= k < evs.len() ==> taker_event(#[trigger] evs[k], side, user_id, id, limit)
}

pub proof fn lemma_taker_concat(a: Seq<Event>, b: Seq<Event>, side: Side, user_id: u32, id: u32, limit: Option<usize>)
    requires
        taker_events(a, side, user_id, id, limit),
        taker_events(b, side, user_id, id, limit),
    ensures
        taker_events(a + b, side, user_id, id, limit),
{
    assert forall|k: int| 0 <= k < (a + b).len() implies taker_event(#[trigger] (a + b)[k], side, user_id, id, limit) by {
        if k < a.len() {
            assert((a + b)[k] == a[k]);
        } else {
            assert((a + b)[k] == b[k - a.len()]);
        }
    }
}

/// Reports hold no trade and no rejection.
pub proof fn lemma_report_taker(
    s: Side,
    ls: Seq<OrderQueue>,
    price: usize,
    quantity: usize,
    side: Side,
    user_id: u32,
    id: u32,
    limit: Option<usize>,
)
    ensures
        taker_events(removal_report(s, ls, price, quantity), side, user_id, id, limit),
{
}

/// Each level as its price and its orders, head first.
pub open spec fn level_view(ls: Seq<OrderQueue>) -> Seq<(usize, Seq<Order>)> {
    ls.map_values(|q: OrderQueue| (q.price, q.orders@))
}

/// Where the best level of a side stands in its view: last on bids, first
/// on asks.
pub open spec fn best_at(s: Side, n: int) -> int {
    match s {
        Side::Buy => n - 1,
        Side::Sell => 0,
    }
}

/// The view without the head of level `b`; the level goes with its last order.
pub open spec fn popped(lv: Seq<(usize, Seq<Order>)>, b: int) -> Seq<(usize, Seq<Order>)> {
    if lv[b].1.len() == 1 {
        lv.remove(b)
    } else {
        lv.update(b, (lv[b].0, lv[b].1.subrange(1, lv[b].1.len() as int)))
    }
}

/// The events of an order `id` of `user_id` on `taker` with `quantity` to
/// fill and `limit`, swept against the opposite side whose levels are `lv`:
/// best level first and head first within it, until the quantity is filled,
/// the side is empty, or its best price is beyond the limit. A head filled in
/// full gives its trade and the report of its removal; one filled in part
/// gives its trade and the new volume of its level, and ends the sweep.
pub open spec fn sweep(
    taker: Side,
    lv: Seq<(usize, Seq<Order>)>,
    quantity: nat,
    user_id: u32,
    id: u32,
    limit: Option<usize>,
) -> Seq<Event>
    decreases quantity,
{
    let opp = opposite(taker);
    let b = best_at(opp, lv.len() as int);
    if quantity == 0 || lv.len() == 0 || !within(taker, limit, lv[b].0) || lv[b].1.len() == 0
        || lv[b].1[0].quantity == 0 {
        Seq::empty()
    } else {
        let p = lv[b].0;
        let h = lv[b].1[0];
        if quantity < h.quantity {
            seq![
                Event::Trade {
                    taker_user_id: user_id,
                    taker_order_id: id,
                    maker_user_id: h.user_id,
                    maker_order_id: h.id,
                    price: p,
                    quantity: quantity as usize,
                },
                Event::BestPrice { side: opp, best: Some((p, (qty_of(lv[b].1) - quantity) as usize)) },
            ]
        } else {
            let rest = popped(lv, b);
            seq![
                Event::Trade {
                    taker_user_id: user_id,
                    taker_order_id: id,
                    maker_user_id: h.user_id,
                    maker_order_id: h.id,
                    price: p,
                    quantity: h.quantity,
                },
            ] + view_report(opp, rest, p, h.quantity) + sweep(
                taker,
                rest,
                (quantity - h.quantity) as nat,
                user_id,
                id,
                limit,
            )
        }
    }
}

proof fn lemma_sweep_trim(
    taker: Side,
    lv: Seq<(usize, Seq<Order>)>,
    q: nat,
    user_id: u32,
    id: u32,
    limit: Option<usize>,
    b: int,
)
    requires
        b == best_at(opposite(taker), lv.len() as int),
        0 <= b < lv.len(),
        within(taker, limit, lv[b].0),
        lv[b].1.len() > 0,
        0 < q < lv[b].1[0].quantity,
    ensures
        sweep(taker, lv, q, user_id, id, limit) == seq![
            Event::Trade {
                taker_user_id: user_id,
                taker_order_id: id,
                maker_user_id: lv[b].1[0].user_id,
                maker_order_id: lv[b].1[0].id,
                price: lv[b].0,
                quantity: q as usize,
            },
            Event::BestPrice {
                side: opposite(taker),
                best: Some((lv[b].0, (qty_of(lv[b].1) - q) as usize)),
            },
        ],
{
}

proof fn lemma_sweep_consume(
    taker: Side,
    lv: Seq<(usize, Seq<Order>)>,
    q: nat,
    user_id: u32,
    id: u32,
    limit: Option<usize>,
    b: int,
)
    requires
        b == best_at(opposite(taker), lv.len() as int),
        0 <= b < lv.len(),
        within(taker, limit, lv[b].0),
        lv[b].1.len() > 0,
        0 < lv[b].1[0].quantity <= q,
    ensures
        sweep(taker, lv, q, user_id, id, limit) == seq![
            Event::Trade {
                taker_user_id: user_id,
                taker_order_id: id,
                maker_user_id: lv[b].1[0].user_id,
                maker_order_id: lv[b].1[0].id,
                price: lv[b].0,
                quantity: lv[b].1[0].quantity,
            },
        ] + view_report(opposite(taker), popped(lv, b), lv[b].0, lv[b].1[0].quantity) + sweep(
            taker,
            popped(lv, b),
            (q - lv[b].1[0].quantity) as nat,
            user_id,
            id,
            limit,
        ),
{
}

proof fn lemma_sweep_stop(
    taker: Side,
    lv: Seq<(usize, Seq<Order>)>,
    q: nat,
    user_id: u32,
    id: u32,
    limit: Option<usize>,
)
    requires
        q == 0 || lv.len() == 0 || !within(taker, limit, lv[best_at(opposite(taker), lv.len() as int)].0),
    ensures
        sweep(taker, lv, q, user_id, id, limit) == Seq::<Event>::empty(),
{
}

/// `removal_report` over a level view.
pub open spec fn view_report(side: Side, lv: Seq<(usize, Seq<Order>)>, price: usize, quantity: usize) -> Seq<Event> {
    match side {
        Side::Buy => {
            let p = if lv.len() == 0 { 0 } else { lv.last().0 };
            if price >= p {
                if lv.len() == 0 {
                    seq![Event::BestPrice { side, best: None }]
                } else {
                    seq![Event::BestPrice { side, best: Some((p, quantity)) }]
                }
            } else {
                Seq::empty()
            }
        },
        Side::Sell => {
            let p = if lv.len() == 0 { usize::MAX } else { lv[0].0 };
            if price <= p {
                if lv.len() == 0 {
                    seq![Event::BestPrice { side, best: None }]
                } else {
                    seq![Event::BestPrice { side, best: Some((p, quantity)) }]
                }
            } else {
                Seq::empty()
            }
        },
    }
}

proof fn lemma_view_report(side: Side, ls: Seq<OrderQueue>, price: usize, quantity: usize)
    ensures
        view_report(side, level_view(ls), price, quantity) == removal_report(side, ls, price, quantity),
{
    if ls.len() > 0 {
        assert(level_view(ls).last().0 == ls.last().price);
        assert(level_view(ls)[0].0 == ls[0].price);
    }
}

/// Taking the head of level `b` off, as a removal at position 0 does, pops
/// the view.
proof fn lemma_view_after_pop(ls: Seq<OrderQueue>, nls: Seq<OrderQueue>, b: int)
    requires
        0 <= b < ls.len(),
        ls[b].orders@.len() > 0,
        removed_at(ls, nls, b, 0),
    ensures
        level_view(nls) == popped(level_view(ls), b),
{
    let lv = level_view(ls);
    if ls[b].orders@.len() == 1 {
        assert(level_view(nls) =~= lv.remove(b));
    } else {
        assert(nls[b].orders@ =~= ls[b].orders@.subrange(1, ls[b].orders@.len() as int));
        assert(level_view(nls) =~= lv.update(b, (lv[b].0, lv[b].1.subrange(1, lv[b].1.len() as int))));
    }
}

/// Notional matched against a trimmed order.
pub open spec fn partial_part(partial: Option<Order>, quantity: usize) -> int {
    match partial {
        Some(p) => p.price * quantity,
        None => 0,
    }
}

/// Whether an order at `price` on `side` meets the best level of `opp`.
pub open spec fn crosses(side: Side, price: usize, opp: OrderSide) -> bool {
    &&& opp.levels().len() > 0
    &&& match side {
        Side::Buy => price >= opp.min_price_spec(),
        Side::Sell => price <= opp.max_price_spec(),
    }
}

/// Notional (price times quantity) of a run of filled orders.
pub open spec fn fills_notional(s: Seq<Order>) -> int {
    sum_of(s.map_values(|o: Order| o.price * o.quantity))
}

pub proof fn lemma_fills_push(s: Seq<Order>, o: Order)
    ensures
        fills_notional(s.push(o)) == fills_notional(s) + o.price * o.quantity,
        qty_of(s.push(o)) == qty_of(s) + o.quantity,
{
    let f = |o: Order| o.price * o.quantity;
    assert(s.push(o).map_values(f) =~= s.map_values(f).push(f(o)));
    lemma_sum_push(s.map_values(f), f(o));
    lemma_qty_push(s, o);
}

/// A best-price report holds no trade.
pub proof fn lemma_traded_report(evs: Seq<Event>, side: Side, ls: Seq<OrderQueue>, price: usize, quantity: usize)
    ensures
        traded_qty(evs + removal_report(side, ls, price, quantity)) == traded_qty(evs),
        traded_notional(evs + removal_report(side, ls, price, quantity)) == traded_notional(evs),
{
    let t = removal_report(side, ls, price, quantity);
    if t.len() == 0 {
        assert(evs + t =~= evs);
    } else {
        assert(evs + t =~= evs.push(t[0]));
        lemma_traded_push(evs, t[0]);
    }
}

/// Trades of two runs of events add up.
pub proof fn lemma_traded_concat(a: Seq<Event>, b: Seq<Event>)
    ensures
        traded_qty(a + b) == traded_qty(a) + traded_qty(b),
        traded_notional(a + b) == traded_notional(a) + traded_notional(b),
    decreases b.len(),
{
    if b.len() == 0 {
        assert(a + b =~= a);
    } else {
        assert((a + b).drop_last() =~= a + b.drop_last());
        lemma_traded_concat(a, b.drop_last());
    }
}

/// Partial sums of fills never exceed the whole.
proof fn lemma_fills_prefix(s: Seq<Order>, i: int)
    requires
        0 <= i <= s.len(),
    ensures
        qty_of(s.subrange(0, i)) <= qty_of(s),
        fills_notional(s.subrange(0, i)) <= fills_notional(s),
{
    let f = |o: Order| o.quantity as int;
    let g = |o: Order| o.price * o.quantity;
    assert(s.subrange(0, i).map_values(f) =~= s.map_values(f).subrange(0, i));
    assert(s.subrange(0, i).map_values(g) =~= s.map_values(g).subrange(0, i));
    assert forall|k: int| 0 <= k < s.len() implies s.map_values(g)[k] >= 0 by {
        let a = s[k].price as int;
        let b = s[k].quantity as int;
        assert(a * b >= 0) by (nonlinear_arith)
            requires
                a >= 0,
                b >= 0,
        ;
    }
    lemma_sum_prefix_le(s.map_values(f), i);
    lemma_sum_prefix_le(s.map_values(g), i);
}

/// The two sides of a consistent book hold each id at most once.
proof fn lemma_unique(index: Map<u32, Order>, bids: Seq<OrderQueue>, asks: Seq<OrderQueue>)
    requires
        consistent(index, bids, asks),
    ensures
        ids_unique(bids),
        ids_unique(asks),
        forall|o: Order| holds(bids, o) ==> index.contains_key(o.id),
        forall|o: Order| holds(asks, o) ==> index.contains_key(o.id),
{
    reveal(consistent);
}

/// A resting order is indexed as it rests.
proof fn lemma_indexed(index: Map<u32, Order>, bids: Seq<OrderQueue>, asks: Seq<OrderQueue>, o: Order)
    requires
        consistent(index, bids, asks),
        holds(bids, o) || holds(asks, o),
    ensures
        index.contains_key(o.id),
        index[o.id] == o,
{
    reveal(consistent);
}

/// An indexed id rests only on its own side.
proof fn lemma_other_side_lacks(
    index: Map<u32, Order>,
    bids: Seq<OrderQueue>,
    asks: Seq<OrderQueue>,
    id: u32,
)
    requires
        consistent(index, bids, asks),
        forall|a: int| 0 <= a < bids.len() ==> level_ok(#[trigger] bids[a], Side::Buy),
        forall|a: int| 0 <= a < asks.len() ==> level_ok(#[trigger] asks[a], Side::Sell),
        index.contains_key(id),
    ensures
        forall|x: Order|
            holds(levels_for(bids, asks, opposite(index[id].side)), x) ==> x.id != id,
        ids_unique(bids),
        ids_unique(asks),
        index[id].id == id,
        index[id].side == Side::Buy ==> holds(bids, index[id]),
        index[id].side == Side::Sell ==> holds(asks, index[id]),
{
    reveal(consistent);
    let o = index[id];
    assert forall|x: Order| holds(levels_for(bids, asks, opposite(o.side)), x) implies x.id != id by {
        if x.id == id {
            match o.side {
                Side::Buy => {
                    assert(holds(asks, x));
                    lemma_holds_side(asks, Side::Sell, x);
                },
                Side::Sell => {
                    assert(holds(bids, x));
                    lemma_holds_side(bids, Side::Buy, x);
                },
            }
        }
    }
}

/// Taking an indexed id off the book, and out of the index, keeps them in
/// agreement.
proof fn lemma_consistent_remove(
    index: Map<u32, Order>,
    bids: Seq<OrderQueue>,
    asks: Seq<OrderQueue>,
    nbids: Seq<OrderQueue>,
    nasks: Seq<OrderQueue>,
    id: u32,
)
    requires
        consistent(index, bids, asks),
        index.contains_key(id),
        forall|x: Order| holds(nbids, x) <==> holds(bids, x) && x.id != id,
        forall|x: Order| holds(nasks, x) <==> holds(asks, x) && x.id != id,
        ids_unique(nbids),
        ids_unique(nasks),
    ensures
        consistent(index.remove(id), nbids, nasks),
{
    reveal(consistent);
    let ni = index.remove(id);
    assert forall|k: u32| #[trigger] ni.contains_key(k) implies ni[k].id == k && holds(
        levels_for(nbids, nasks, ni[k].side),
        ni[k],
    ) by {
        assert(index.contains_key(k));
        assert(holds(levels_for(bids, asks, index[k].side), index[k]));
    }
    assert forall|o: Order| #[trigger] holds(nbids, o) implies ni.contains_key(o.id) && ni[o.id] == o by {
        assert(holds(bids, o));
    }
    assert forall|o: Order| #[trigger] holds(nasks, o) implies ni.contains_key(o.id) && ni[o.id] == o by {
        assert(holds(asks, o));
    }
}

/// Replacing a resting order by `h2` with the same id, on the book and in
/// the index, keeps them in agreement.
proof fn lemma_consistent_replace(
    index: Map<u32, Order>,
    bids: Seq<OrderQueue>,
    asks: Seq<OrderQueue>,
    nbids: Seq<OrderQueue>,
    nasks: Seq<OrderQueue>,
    h2: Order,
)
    requires
        consistent(index, bids, asks),
        index.contains_key(h2.id),
        index[h2.id].side == h2.side,
        forall|x: Order|
            holds(levels_for(nbids, nasks, h2.side), x) <==> (holds(
                levels_for(bids, asks, h2.side),
                x,
            ) && x.id != h2.id) || x == h2,
        levels_for(nbids, nasks, opposite(h2.side)) == levels_for(bids, asks, opposite(h2.side)),
        forall|x: Order| holds(levels_for(bids, asks, opposite(h2.side)), x) ==> x.id != h2.id,
        ids_unique(nbids),
        ids_unique(nasks),
    ensures
        consistent(index.insert(h2.id, h2), nbids, nasks),
{
    reveal(consistent);
    let ni = index.insert(h2.id, h2);
    assert forall|k: u32| #[trigger] ni.contains_key(k) implies ni[k].id == k && holds(
        levels_for(nbids, nasks, ni[k].side),
        ni[k],
    ) by {
        if k != h2.id {
            assert(index.contains_key(k));
            let o = index[k];
            assert(holds(levels_for(bids, asks, o.side), o));
            if o.side == h2.side {
                assert(holds(levels_for(nbids, nasks, h2.side), o));
            } else {
                assert(levels_for(nbids, nasks, o.side) == levels_for(bids, asks, opposite(h2.side)));
            }
        } else {
            assert(holds(levels_for(nbids, nasks, h2.side), h2));
        }
    }
    assert forall|o: Order| #[trigger] holds(nbids, o) implies ni.contains_key(o.id) && ni[o.id] == o by {
        if h2.side == Side::Buy {
            if o != h2 {
                assert(holds(bids, o));
            }
        } else {
            assert(holds(bids, o));
        }
    }
    assert forall|o: Order| #[trigger] holds(nasks, o) implies ni.contains_key(o.id) && ni[o.id] == o by {
        if h2.side == Side::Sell {
            if o != h2 {
                assert(holds(asks, o));
            }
        } else {
            assert(holds(asks, o));
        }
    }
}

/// Resting a new order under a fresh id, on the book and in the index,
/// keeps them in agreement.
proof fn lemma_consistent_add(
    index: Map<u32, Order>,
    bids: Seq<OrderQueue>,
    asks: Seq<OrderQueue>,
    nbids: Seq<OrderQueue>,
    nasks: Seq<OrderQueue>,
    o: Order,
)
    requires
        consistent(index, bids, asks),
        !index.contains_key(o.id),
        forall|x: Order|
            holds(levels_for(nbids, nasks, o.side), x) <==> holds(levels_for(bids, asks, o.side), x)
                || x == o,
        levels_for(nbids, nasks, opposite(o.side)) == levels_for(bids, asks, opposite(o.side)),
        ids_unique(nbids),
        ids_unique(nasks),
    ensures
        consistent(index.insert(o.id, o), nbids, nasks),
{
    reveal(consistent);
    let ni = index.insert(o.id, o);
    assert forall|k: u32| #[trigger] ni.contains_key(k) implies ni[k].id == k && holds(
        levels_for(nbids, nasks, ni[k].side),
        ni[k],
    ) by {
        if k != o.id {
            let x = index[k];
            assert(holds(levels_for(bids, asks, x.side), x));
            if x.side != o.side {
                assert(levels_for(nbids, nasks, x.side) == levels_for(bids, asks, opposite(o.side)));
            }
        } else {
            assert(holds(levels_for(nbids, nasks, o.side), o));
        }
    }
    assert forall|x: Order| #[trigger] holds(nbids, x) implies ni.contains_key(x.id) && ni[x.id] == x by {
        if x != o {
            if o.side == Side::Buy {
                assert(holds(levels_for(nbids, nasks, o.side), x));
            } else {
                assert(levels_for(nbids, nasks, Side::Buy) == levels_for(bids, asks, Side::Buy));
            }
            assert(holds(bids, x));
        }
    }
    assert forall|x: Order| #[trigger] holds(nasks, x) implies ni.contains_key(x.id) && ni[x.id] == x by {
        if x != o {
            if o.side == Side::Sell {
                assert(holds(levels_for(nbids, nasks, o.side), x));
            } else {
                assert(levels_for(nbids, nasks, Side::Sell) == levels_for(bids, asks, Side::Sell));
            }
            assert(holds(asks, x));
        }
    }
}

/// What a matching command hands back.
#[derive(Debug)]
pub struct InProcessOrder {
    /// Orders filled in full during the command; when the incoming order
    /// filled in full, a last record of it at its average price.
    pub done: Vec<Order>,
    /// The resting remainder of the incoming order, or the trimmed resting head.
    pub partial: Option<Order>,
    /// Quantity matched against `partial`.
    pub partial_quantity_processed: usize,
    /// Quantity of the incoming order left unfilled.
    pub quantity_left: usize,
    pub err: Option<String>,
}

/// The matching engine of one symbol: both sides of the book, an index of
/// resting orders by id, and the events produced so far.
#[derive(Debug)]
pub struct OrderBook {
    orders: BTreeMap<u32, Order>,
    bids: OrderSide,
    asks: OrderSide,
    symbol: String,
    trading_enabled: bool,
    events: Vec<Event>,
}

impl OrderBook {
    /// Resting orders by id.
    pub closed spec fn index(&self) -> Map<u32, Order> {
        self.orders@
    }

    pub closed spec fn bid_side(&self) -> OrderSide {
        self.bids
    }

    pub closed spec fn ask_side(&self) -> OrderSide {
        self.asks
    }

    /// The side named by `s`.
    pub open spec fn book_side(&self, s: Side) -> OrderSide {
        match s {
            Side::Buy => self.bid_side(),
            Side::Sell => self.ask_side(),
        }
    }

    /// Events not yet handed out, oldest first.
    pub closed spec fn events(&self) -> Seq<Event> {
        self.events@
    }

    pub closed spec fn trading(&self) -> bool {
        self.trading_enabled
    }

    pub closed spec fn symbol_view(&self) -> Seq<char> {
        self.symbol@
    }

    /// Neither a duplicate id nor a crossing while trading is disabled: the
    /// order is taken.
    pub open spec fn goes_ahead(&self, side: Side, price: usize, id: u32) -> bool {
        !self.index().contains_key(id) && !(crosses(side, price, self.book_side(opposite(side)))
            && !self.trading())
    }

    /// Both sides consistent, the index in agreement with them, the book not
    /// crossed (the best bid lies below the best ask), and no level at price 0.
    pub closed spec fn wf(&self) -> bool {
        &&& self.bids.wf()
        &&& self.bids.side == Side::Buy
        &&& self.asks.wf()
        &&& self.asks.side == Side::Sell
        &&& consistent(self.orders@, self.bids.levels(), self.asks.levels())
        &&& self.bids.levels().len() > 0 && self.asks.levels().len() > 0
            ==> self.bids.max_price_spec() < self.asks.min_price_spec()
        &&& self.bids.levels().len() > 0 ==> self.bids.min_price_spec() > 0
        &&& self.asks.levels().len() > 0 ==> self.asks.min_price_spec() > 0
    }

    pub fn new(symbol: String, trading_enabled: bool) -> (r: OrderBook)
        ensures
            r.wf(),
            r.index() == Map::<u32, Order>::empty(),
            r.bid_side().levels().len() == 0,
            r.ask_side().levels().len() == 0,
            r.bid_side().side == Side::Buy,
            r.ask_side().side == Side::Sell,
            r.bid_side().volume == 0 && r.bid_side().total == 0 && r.bid_side().num_orders == 0,
            r.ask_side().volume == 0 && r.ask_side().total == 0 && r.ask_side().num_orders == 0,
            r.events() == Seq::<Event>::empty(),
            r.trading() == trading_enabled,
            r.symbol_view() == symbol@,
    {
        let r = OrderBook {
            orders: BTreeMap::new(),
            bids: OrderSide::new(Side::Buy),
            asks: OrderSide::new(Side::Sell),
            symbol,
            trading_enabled,
            events: Vec::new(),
        };
        proof {
            reveal(consistent);
            assert(consistent(r.orders@, r.bids.levels(), r.asks.levels()));
        }
        r
    }

    /// Empties both sides and the index.
    pub fn flush(&mut self)
        requires
            old(self).wf(),
        ensures
            final(self).wf(),
            final(self).index() == Map::<u32, Order>::empty(),
            final(self).bid_side().levels().len() == 0,
            final(self).ask_side().levels().len() == 0,
            final(self).bid_side().volume == 0,
            final(self).bid_side().total == 0,
            final(self).bid_side().num_orders == 0,
            final(self).ask_side().volume == 0,
            final(self).ask_side().total == 0,
            final(self).ask_side().num_orders == 0,
            final(self).bid_side().max_price_spec() == 0,
            final(self).bid_side().min_price_spec() == usize::MAX,
            final(self).ask_side().max_price_spec() == 0,
            final(self).ask_side().min_price_spec() == usize::MAX,
            final(self).events() == old(self).events(),
            final(self).trading() == old(self).trading(),
            final(self).symbol_view() == old(self).symbol_view(),
    {
        self.bids.flush();
        self.asks.flush();
        self.orders.clear();
        proof {
            reveal(consistent);
            assert(consistent(self.orders@, self.bids.levels(), self.asks.levels()));
        }
    }

    /// Hands out the events produced so far, oldest first.
    pub fn take_events(&mut self) -> (r: Vec<Event>)
        ensures
            r@ == old(self).events(),
            final(self).events() == Seq::<Event>::empty(),
            final(self).index() == old(self).index(),
            final(self).bid_side() == old(self).bid_side(),
            final(self).ask_side() == old(self).ask_side(),
            final(self).trading() == old(self).trading(),
            final(self).symbol_view() == old(self).symbol_view(),
            old(self).wf() ==> final(self).wf(),
    {
        let mut out: Vec<Event> = Vec::new();
        std::mem::swap(&mut self.events, &mut out);
        out
    }

    pub fn bids(&self) -> (r: &OrderSide)
        ensures
            *r == self.bid_side(),
    {
        &self.bids
    }

    pub fn asks(&self) -> (r: &OrderSide)
        ensures
            *r == self.ask_side(),
    {
        &self.asks
    }

    /// Takes the resting order `id` off its side and out of the index,
    /// acknowledging the cancel when asked to, and reports the best price of
    /// that side when the order stood at it.
    #[verifier::rlimit(100)]
    #[verifier::spinoff_prover]
    fn withdraw(&mut self, id: u32, acknowledge: bool) -> (r: Option<Order>)
        requires
            old(self).wf(),
        ensures
            final(self).wf(),
            final(self).trading() == old(self).trading(),
            final(self).symbol_view() == old(self).symbol_view(),
            !old(self).index().contains_key(id) ==> r.is_none() && *final(self) == *old(self),
            old(self).index().contains_key(id) ==> ({
                let o = old(self).index()[id];
                let before = old(self).book_side(o.side);
                let after = final(self).book_side(o.side);
                &&& r == Some(o)
                &&& o.id == id
                &&& final(self).index() == old(self).index().remove(id)
                &&& after.volume == before.volume - o.quantity
                &&& after.total == before.total - o.price * o.quantity
                &&& after.num_orders == before.num_orders - 1
                &&& removed_at(
                    before.levels(),
                    after.levels(),
                    level_of_price(before.levels(), o.price),
                    first_with_id(before.levels()[level_of_price(before.levels(), o.price)].orders@, id),
                )
                &&& forall|x: Order| holds(after.levels(), x) <==> holds(before.levels(), x) && x.id != id
                &&& after.levels().len() > 0 ==> after.max_price_spec() <= before.max_price_spec()
                    && after.min_price_spec() >= before.min_price_spec()
                &&& final(self).book_side(opposite(o.side)) == old(self).book_side(opposite(o.side))
                &&& final(self).events() == old(self).events() + (if acknowledge {
                    seq![Event::Accepted { user_id: o.user_id, order_id: id }]
                } else {
                    Seq::<Event>::empty()
                }) + removal_report(o.side, after.levels(), o.price, o.quantity)
            }),
    {
        if !self.orders.contains_key(&id) {
            return None;
        }
        let ghost index0 = self.orders@;
        let ghost bids0 = self.bids.levels();
        let ghost asks0 = self.asks.levels();
        let o = match self.orders.remove(&id) {
            Some(o) => o,
            None => {
                return None;
            },
        };
        proof {
            lemma_other_side_lacks(index0, bids0, asks0, id);
        }
        let r = match o.side {
            Side::Buy => self.bids.detach(&o, &mut self.events, acknowledge),
            Side::Sell => self.asks.detach(&o, &mut self.events, acknowledge),
        };
        proof {
            let ls = levels_for(bids0, asks0, o.side);
            let nls = levels_for(self.bids.levels(), self.asks.levels(), o.side);
            assert(r == Some(o));
            let i = crate::order_side::level_of_price(ls, o.price);
            let j = first_with_id(ls[i].orders@, o.id);
            lemma_holds_after_remove(ls, nls, i, j);
            lemma_extremes_after_remove(ls, nls, i, j);
            match o.side {
                Side::Buy => {
                    assert(levels_for(bids0, asks0, opposite(o.side)) == asks0);
                    assert(forall|x: Order| holds(asks0, x) ==> x.id != id);
                },
                Side::Sell => {
                    assert(levels_for(bids0, asks0, opposite(o.side)) == bids0);
                    assert(forall|x: Order| holds(bids0, x) ==> x.id != id);
                },
            }
            lemma_consistent_remove(index0, bids0, asks0, self.bids.levels(), self.asks.levels(), id);
        }
        r
    }

    /// Fills `quantity` of the head of the best opposite level, trimming it
    /// in place, and reports the trade and that level's new volume.
    fn trim_head(&mut self, side: Side, quantity: usize, user_id: u32, id: u32) -> (r: Order)
        requires
            old(self).wf(),
            old(self).book_side(opposite(side)).levels().len() > 0,
            0 < quantity < old(self).book_side(opposite(side)).best_head().quantity,
        ensures
            final(self).wf(),
            final(self).trading() == old(self).trading(),
            final(self).symbol_view() == old(self).symbol_view(),
            ({
                let before = old(self).book_side(opposite(side));
                let after = final(self).book_side(opposite(side));
                let h = before.best_head();
                &&& r.id == h.id
                &&& r.user_id == h.user_id
                &&& r.price == h.price
                &&& r.quantity == h.quantity - quantity
                &&& after.best_head() == r
                &&& after.best_level().volume == before.best_level().volume - quantity
                &&& after.volume == before.volume - quantity
                &&& after.total == before.total - h.price * quantity
                &&& after.levels().len() > 0
                &&& after.max_price_spec() == before.max_price_spec()
                &&& after.min_price_spec() == before.min_price_spec()
                &&& final(self).index() == old(self).index().insert(h.id, r)
                &&& old(self).index().contains_key(h.id)
                &&& final(self).events() == old(self).events() + seq![
                    Event::Trade {
                        taker_user_id: user_id,
                        taker_order_id: id,
                        maker_user_id: h.user_id,
                        maker_order_id: h.id,
                        price: h.price,
                        quantity,
                    },
                    Event::BestPrice {
                        side: opposite(side),
                        best: Some((h.price, (before.best_level().volume - quantity) as usize)),
                    },
                ]
            }),
            final(self).book_side(side) == old(self).book_side(side),
    {
        let ghost index0 = self.orders@;
        let ghost bids0 = self.bids.levels();
        let ghost asks0 = self.asks.levels();
        let head = match side {
            Side::Buy => self.asks.head_of_best(),
            Side::Sell => self.bids.head_of_best(),
        };
        proof {
            lemma_indexed(index0, bids0, asks0, head);
            lemma_other_side_lacks(index0, bids0, asks0, head.id);
        }
        self.events.push(
            Event::Trade {
                taker_user_id: user_id,
                taker_order_id: id,
                maker_user_id: head.user_id,
                maker_order_id: head.id,
                price: head.price,
                quantity,
            },
        );
        let h2 = match side {
            Side::Buy => self.asks.trim_best(quantity),
            Side::Sell => self.bids.trim_best(quantity),
        };
        self.orders.insert(h2.id, h2);
        let best = match side {
            Side::Buy => {
                let m_price = self.asks.min_price();
                let volume = match self.asks.min_price_queue() {
                    Some(q) => q.volume,
                    None => 0,
                };
                Event::BestPrice { side: Side::Sell, best: Some((m_price, volume)) }
            },
            Side::Sell => {
                let m_price = self.bids.max_price();
                let volume = match self.bids.max_price_queue() {
                    Some(q) => q.volume,
                    None => 0,
                };
                Event::BestPrice { side: Side::Buy, best: Some((m_price, volume)) }
            },
        };
        self.events.push(best);
        proof {
            match side {
                Side::Buy => {
                    assert(levels_for(bids0, asks0, opposite(h2.side)) == bids0);
                },
                Side::Sell => {
                    assert(levels_for(bids0, asks0, opposite(h2.side)) == asks0);
                },
            }
            lemma_consistent_replace(index0, bids0, asks0, self.bids.levels(), self.asks.levels(), h2);
        }
        h2
    }

    /// Fills the head of the best opposite level in full: reports the trade
    /// and takes the head off the book.
    fn consume_head(&mut self, side: Side, user_id: u32, id: u32) -> (r: Order)
        requires
            old(self).wf(),
            old(self).book_side(opposite(side)).levels().len() > 0,
        ensures
            final(self).wf(),
            final(self).trading() == old(self).trading(),
            final(self).symbol_view() == old(self).symbol_view(),
            ({
                let before = old(self).book_side(opposite(side));
                let after = final(self).book_side(opposite(side));
                &&& r == before.best_head()
                &&& r.quantity > 0
                &&& after.volume == before.volume - r.quantity
                &&& after.total == before.total - r.price * r.quantity
                &&& after.levels().len() > 0 ==> after.max_price_spec() <= before.max_price_spec()
                    && after.min_price_spec() >= before.min_price_spec()
                &&& final(self).index() == old(self).index().remove(r.id)
                &&& level_view(after.levels()) == popped(level_view(before.levels()), before.best_index())
                &&& final(self).events() == old(self).events() + seq![
                    Event::Trade {
                        taker_user_id: user_id,
                        taker_order_id: id,
                        maker_user_id: r.user_id,
                        maker_order_id: r.id,
                        price: r.price,
                        quantity: r.quantity,
                    },
                ] + removal_report(opposite(side), after.levels(), r.price, r.quantity)
            }),
            final(self).book_side(side) == old(self).book_side(side),
    {
        let head = match side {
            Side::Buy => self.asks.head_of_best(),
            Side::Sell => self.bids.head_of_best(),
        };
        proof {
            lemma_indexed(self.orders@, self.bids.levels(), self.asks.levels(), head);
        }
        self.events.push(
            Event::Trade {
                taker_user_id: user_id,
                taker_order_id: id,
                maker_user_id: head.user_id,
                maker_order_id: head.id,
                price: head.price,
                quantity: head.quantity,
            },
        );
        let ghost before = self.book_side(opposite(side));
        let r = match self.cancel_order(head.id) {
            Some(o) => o,
            None => head,
        };
        proof {
            let ls = before.levels();
            let b = before.best_index();
            crate::order_side::lemma_level_found(ls, before.side, &head, b);
            let c = first_with_id(ls[b].orders@, head.id);
            assert(ls[b].orders@[0].id == head.id);
            assert(c == 0);
            lemma_view_after_pop(ls, self.book_side(opposite(side)).levels(), b);
        }
        r
    }

    /// Whether the side opposite to `side` holds any order.
    fn has_liquidity_against(&self, side: Side) -> (r: bool)
        ensures
            r == (self.book_side(opposite(side)).levels().len() > 0),
    {
        match side {
            Side::Buy => self.asks.prices.len() > 0,
            Side::Sell => self.bids.prices.len() > 0,
        }
    }

    /// Whether an order on `side` with `limit` may trade with the opposite side.
    fn meets_best(&self, side: Side, limit: Option<usize>) -> (r: bool)
        requires
            self.wf(),
        ensures
            r == meets(side, limit, self.book_side(opposite(side))),
    {
        match limit {
            None => self.has_liquidity_against(side),
            Some(p) => self.crosses_best(side, p),
        }
    }

    /// The order that trades next against an order on `side`.
    fn head_against(&self, side: Side) -> (r: Order)
        requires
            self.wf(),
            self.book_side(opposite(side)).levels().len() > 0,
        ensures
            r == self.book_side(opposite(side)).best_head(),
    {
        match side {
            Side::Buy => self.asks.head_of_best(),
            Side::Sell => self.bids.head_of_best(),
        }
    }

    /// Sweeps the side opposite to `side`, best level first and head first
    /// within a level, until `quantity_to_trade` is filled, that side is
    /// empty, or its best price is beyond `limit`. Heads filled in full leave
    /// the book; a head filled in part is trimmed in place.
    #[verifier::rlimit(100)]
    #[verifier::spinoff_prover]
    fn process_queue(
        &mut self,
        side: Side,
        quantity_to_trade: usize,
        user_id: u32,
        id: u32,
        limit: Option<usize>,
    ) -> (r: InProcessOrder)
        requires
            old(self).wf(),
        ensures
            final(self).wf(),
            final(self).trading() == old(self).trading(),
            final(self).symbol_view() == old(self).symbol_view(),
            r.err.is_none(),
            r.quantity_left <= quantity_to_trade,
            r.quantity_left > 0 ==> !meets(side, limit, final(self).book_side(opposite(side))),
            quantity_to_trade > 0 && meets(side, limit, old(self).book_side(opposite(side)))
                ==> r.quantity_left < quantity_to_trade,
            r.partial.is_none() ==> r.partial_quantity_processed == 0,
            r.partial.is_some() ==> r.quantity_left == 0,
            final(self).book_side(side) == old(self).book_side(side),
            taker_events(
                added_events(old(self).events(), final(self).events()),
                side,
                user_id,
                id,
                limit,
            ),
            added_events(old(self).events(), final(self).events()) == sweep(
                side,
                level_view(old(self).book_side(opposite(side)).levels()),
                quantity_to_trade as nat,
                user_id,
                id,
                limit,
            ),
            match r.partial {
                Some(p) => {
                    let added = added_events(old(self).events(), final(self).events());
                    let after = final(self).book_side(opposite(side));
                    &&& p == after.best_head()
                    &&& final(self).index().contains_key(p.id)
                    &&& final(self).index()[p.id] == p
                    &&& added.len() >= 2
                    &&& added[added.len() - 2] == (Event::Trade {
                        taker_user_id: user_id,
                        taker_order_id: id,
                        maker_user_id: p.user_id,
                        maker_order_id: p.id,
                        price: p.price,
                        quantity: r.partial_quantity_processed,
                    })
                    &&& added.last() == (Event::BestPrice {
                        side: opposite(side),
                        best: Some((p.price, after.best_level().volume)),
                    })
                },
                None => true,
            },
            forall|k: u32| #[trigger]
                final(self).index().contains_key(k) ==> old(self).index().contains_key(k),
            ({
                let before = old(self).book_side(opposite(side));
                let after = final(self).book_side(opposite(side));
                let added = final(self).events().subrange(
                    old(self).events().len() as int,
                    final(self).events().len() as int,
                );
                &&& final(self).events() == old(self).events() + added
                &&& traded_qty(added) == quantity_to_trade - r.quantity_left
                &&& traded_notional(added) == before.total - after.total
                &&& after.volume == before.volume - (quantity_to_trade - r.quantity_left)
                &&& after.levels().len() > 0 ==> after.max_price_spec() <= before.max_price_spec()
                    && after.min_price_spec() >= before.min_price_spec()
                &&& qty_of(r.done@) + r.partial_quantity_processed == quantity_to_trade
                    - r.quantity_left
                &&& fills_notional(r.done@) + match r.partial {
                    Some(p) => p.price * r.partial_quantity_processed,
                    None => 0,
                } == traded_notional(added)
            }),
    {
        let mut r = InProcessOrder {
            done: Vec::new(),
            partial: None,
            partial_quantity_processed: 0,
            quantity_left: quantity_to_trade,
            err: None,
        };
        let ghost ev0 = self.events@;
        let ghost opp0 = self.book_side(opposite(side));
        let ghost own0 = self.book_side(side);
        let ghost index0 = self.orders@;
        let ghost mut added: Seq<Event> = Seq::empty();
        proof {
            assert(ev0 + added =~= ev0);
            assert(added + sweep(side, level_view(opp0.levels()), quantity_to_trade as nat, user_id, id, limit)
                =~= sweep(side, level_view(opp0.levels()), quantity_to_trade as nat, user_id, id, limit));
            assert(r.done@.map_values(|o: Order| o.price * o.quantity) =~= Seq::<int>::empty());
            assert(r.done@.map_values(|o: Order| o.quantity as int) =~= Seq::<int>::empty());
        }
        while r.quantity_left > 0 && self.meets_best(side, limit)
            invariant
                sweep(side, level_view(opp0.levels()), quantity_to_trade as nat, user_id, id, limit)
                    == added + sweep(
                    side,
                    level_view(self.book_side(opposite(side)).levels()),
                    r.quantity_left as nat,
                    user_id,
                    id,
                    limit,
                ),
                taker_events(added, side, user_id, id, limit),
                r.quantity_left == quantity_to_trade ==> self.book_side(opposite(side)) == opp0,
                match r.partial {
                    Some(p) => {
                        let after = self.book_side(opposite(side));
                        &&& p == after.best_head()
                        &&& self.index().contains_key(p.id)
                        &&& self.index()[p.id] == p
                        &&& added.len() >= 2
                        &&& added[added.len() - 2] == (Event::Trade {
                            taker_user_id: user_id,
                            taker_order_id: id,
                            maker_user_id: p.user_id,
                            maker_order_id: p.id,
                            price: p.price,
                            quantity: r.partial_quantity_processed,
                        })
                        &&& added.last() == (Event::BestPrice {
                            side: opposite(side),
                            best: Some((p.price, after.best_level().volume)),
                        })
                    },
                    None => true,
                },
                self.wf(),
                self.trading() == old(self).trading(),
                self.symbol_view() == old(self).symbol_view(),
                r.err.is_none(),
                r.quantity_left <= quantity_to_trade,
                self.book_side(side) == own0,
                forall|k: u32| #[trigger] self.index().contains_key(k) ==> index0.contains_key(k),
                self.events@ == ev0 + added,
                traded_qty(added) == quantity_to_trade - r.quantity_left,
                traded_notional(added) == opp0.total - self.book_side(opposite(side)).total,
                self.book_side(opposite(side)).volume == opp0.volume - (quantity_to_trade
                    - r.quantity_left),
                self.book_side(opposite(side)).levels().len() > 0 ==> self.book_side(
                    opposite(side),
                ).max_price_spec() <= opp0.max_price_spec() && self.book_side(
                    opposite(side),
                ).min_price_spec() >= opp0.min_price_spec(),
                qty_of(r.done@) + r.partial_quantity_processed == quantity_to_trade
                    - r.quantity_left,
                fills_notional(r.done@) + match r.partial {
                    Some(p) => p.price * r.partial_quantity_processed,
                    None => 0,
                } == traded_notional(added),
                r.partial.is_some() ==> r.quantity_left == 0,
                r.partial.is_none() ==> r.partial_quantity_processed == 0,
            decreases r.quantity_left,
        {
            let head = self.head_against(side);
            let ghost events1 = self.events@;
            let ghost cur = self.book_side(opposite(side));
            let ghost q0 = r.quantity_left;
            let ghost added0 = added;
            proof {
                let opp = self.book_side(opposite(side));
                assert(opp.side == opposite(side));
                assert(head.price == opp.best_level().price);
                assert(within(side, limit, head.price));
                let lv = level_view(cur.levels());
                let b = cur.best_index();
                assert(best_at(opposite(side), lv.len() as int) == b);
                assert(lv[b] == (cur.best_level().price, cur.best_level().orders@));
                assert(level_ok(cur.levels()[b], cur.side));
            }
            if r.quantity_left < head.quantity {
                let h2 = self.trim_head(side, r.quantity_left, user_id, id);
                proof {
                    let t = self.events@[events1.len() as int];
                    let b = self.events@[events1.len() + 1int];
                    lemma_traded_push(added, t);
                    lemma_traded_push(added.push(t), b);
                    lemma_taker_concat(added, seq![t, b], side, user_id, id, limit);
                    assert(added + seq![t, b] =~= added.push(t).push(b));
                    added = added.push(t).push(b);
                    assert(self.events@ =~= ev0 + added);
                    let lv = level_view(cur.levels());
                    let bi = cur.best_index();
                    lemma_sweep_trim(side, lv, q0 as nat, user_id, id, limit, bi);
                    assert(seq![t, b] =~= sweep(side, lv, q0 as nat, user_id, id, limit));
                    assert(added0 + sweep(side, lv, q0 as nat, user_id, id, limit) =~= added);
                    lemma_sweep_stop(side, level_view(self.book_side(opposite(side)).levels()), 0nat, user_id, id, limit);
                    assert(added + Seq::<Event>::empty() =~= added);
                }
                r.partial = Some(h2);
                r.partial_quantity_processed = r.quantity_left;
                r.quantity_left = 0;
            } else {
                let h = self.consume_head(side, user_id, id);
                proof {
                    let t = self.events@[events1.len() as int];
                    let rep = removal_report(
                        opposite(side),
                        self.book_side(opposite(side)).levels(),
                        h.price,
                        h.quantity,
                    );
                    lemma_traded_push(added, t);
                    lemma_traded_report(added.push(t), opposite(side), self.book_side(opposite(side)).levels(), h.price, h.quantity);
                    lemma_taker_concat(added, seq![t], side, user_id, id, limit);
                    assert(added + seq![t] =~= added.push(t));
                    lemma_report_taker(opposite(side), self.book_side(opposite(side)).levels(), h.price, h.quantity, side, user_id, id, limit);
                    lemma_taker_concat(added.push(t), rep, side, user_id, id, limit);
                    added = added.push(t) + rep;
                    assert(self.events@ =~= ev0 + added);
                    let lv = level_view(cur.levels());
                    let bi = cur.best_index();
                    let nlv = level_view(self.book_side(opposite(side)).levels());
                    lemma_view_report(opposite(side), self.book_side(opposite(side)).levels(), h.price, h.quantity);
                    assert(nlv == popped(lv, bi));
                    lemma_sweep_consume(side, lv, q0 as nat, user_id, id, limit, bi);
                    assert(added0 + (seq![t] + rep + sweep(side, nlv, (q0 - h.quantity) as nat, user_id, id, limit))
                        =~= added + sweep(side, nlv, (q0 - h.quantity) as nat, user_id, id, limit));
                    lemma_fills_push(r.done@, h);
                }
                r.quantity_left = r.quantity_left - h.quantity;
                r.done.push(h);
            }
        }
        proof {
            assert(self.events@.subrange(ev0.len() as int, self.events@.len() as int) =~= added);
            assert(added_events(ev0, self.events@) == added);
            let fin = level_view(self.book_side(opposite(side)).levels());
            if r.quantity_left > 0 && fin.len() > 0 {
                let opp = self.book_side(opposite(side));
                assert(opp.side == opposite(side));
                assert(fin[opp.best_index()].0 == opp.best_level().price);
            }
            lemma_sweep_stop(side, fin, r.quantity_left as nat, user_id, id, limit);
            assert(added + Seq::<Event>::empty() =~= added);
        }
        r
    }

    fn greater_than_or_equal(a: &usize, b: &usize) -> (r: bool)
        ensures
            r == (*a >= *b),
    {
        a >= b
    }

    fn lower_than_or_equal(a: &usize, b: &usize) -> (r: bool)
        ensures
            r == (*a <= *b),
    {
        a <= b
    }

    /// Whether an order at `price` on `side` meets the best opposite level.
    fn crosses_best(&self, side: Side, price: usize) -> (r: bool)
        requires
            self.wf(),
        ensures
            r == crosses(side, price, self.book_side(opposite(side))),
    {
        match side {
            Side::Buy => match self.asks.min_price_queue() {
                Some(q) => Self::greater_than_or_equal(&price, &q.price),
                None => false,
            },
            Side::Sell => match self.bids.max_price_queue() {
                Some(q) => Self::lower_than_or_equal(&price, &q.price),
                None => false,
            },
        }
    }

    /// Adds a resting order for what is left of a limit order, acknowledges
    /// it, and reports the best price of its side when the order stands at
    /// or beyond it.
    fn rest(&mut self, order: Order)
        requires
            old(self).wf(),
            !old(self).index().contains_key(order.id),
            order.quantity > 0,
            order.price > 0,
            old(self).book_side(order.side).volume + order.quantity <= usize::MAX,
            old(self).book_side(order.side).total + order.price * order.quantity <= usize::MAX,
            old(self).book_side(order.side).num_orders < usize::MAX,
            !crosses(order.side, order.price, old(self).book_side(opposite(order.side))),
        ensures
            final(self).wf(),
            final(self).trading() == old(self).trading(),
            final(self).symbol_view() == old(self).symbol_view(),
            final(self).index() == old(self).index().insert(order.id, order),
            appended(old(self).book_side(order.side).levels(), final(self).book_side(order.side).levels(), order),
            final(self).book_side(opposite(order.side)) == old(self).book_side(opposite(order.side)),
            final(self).book_side(order.side).volume == old(self).book_side(order.side).volume
                + order.quantity,
            final(self).book_side(order.side).total == old(self).book_side(order.side).total
                + order.price * order.quantity,
            final(self).book_side(order.side).num_orders == old(self).book_side(order.side).num_orders + 1,
            final(self).events() == old(self).events() + seq![
                Event::Accepted { user_id: order.user_id, order_id: order.id },
            ] + rest_report(
                order.side,
                order.price,
                order.quantity,
                old(self).book_side(order.side),
                final(self).book_side(order.side),
            ),
            final(self).events().len() > old(self).events().len(),
            final(self).events() == old(self).events() + final(self).events().subrange(old(self).events().len() as int, final(self).events().len() as int),
            final(self).events()[old(self).events().len() as int] == (Event::Accepted { user_id: order.user_id, order_id: order.id }),
            traded_qty(final(self).events().subrange(old(self).events().len() as int, final(self).events().len() as int)) == 0,
            traded_notional(final(self).events().subrange(old(self).events().len() as int, final(self).events().len() as int)) == 0,
    {
        let ghost index0 = self.orders@;
        let ghost bids0 = self.bids.levels();
        let ghost asks0 = self.asks.levels();
        let ghost ev0 = self.events@;
        proof {
            lemma_unique(index0, bids0, asks0);
        }
        self.events.push(Event::Accepted { user_id: order.user_id, order_id: order.id });
        let qt = order.quantity;
        let p = order.price;
        let report = match order.side {
            Side::Buy => {
                let m_price = self.bids.max_price();
                let value = self.bids.add_order(order);
                self.orders.insert(order.id, value);
                if p > m_price {
                    Some(Event::BestPrice { side: Side::Buy, best: Some((p, qt)) })
                } else if p == m_price {
                    let volume = match self.bids.max_price_queue() {
                        Some(q) => q.volume,
                        None => 0,
                    };
                    Some(Event::BestPrice { side: Side::Buy, best: Some((p, volume)) })
                } else {
                    None
                }
            },
            Side::Sell => {
                let m_price = self.asks.min_price();
                let value = self.asks.add_order(order);
                self.orders.insert(order.id, value);
                if p < m_price {
                    Some(Event::BestPrice { side: Side::Sell, best: Some((p, qt)) })
                } else if p == m_price {
                    let volume = match self.asks.min_price_queue() {
                        Some(q) => q.volume,
                        None => 0,
                    };
                    Some(Event::BestPrice { side: Side::Sell, best: Some((p, volume)) })
                } else {
                    None
                }
            },
        };
        match report {
            Some(e) => self.events.push(e),
            None => {},
        }
        proof {
            lemma_consistent_add(index0, bids0, asks0, self.bids.levels(), self.asks.levels(), order);
            let added = self.events@.subrange(ev0.len() as int, self.events@.len() as int);
            lemma_traded_push(Seq::<Event>::empty(), added[0]);
            assert(Seq::<Event>::empty().push(added[0]) =~= added.subrange(0, 1));
            if added.len() == 2 {
                assert(added =~= added.subrange(0, 1).push(added[1]));
                lemma_traded_push(added.subrange(0, 1), added[1]);
            } else {
                assert(added =~= added.subrange(0, 1));
            }
            assert(self.events@ =~= ev0 + added);
        }
    }

    /// Total quantity and notional of the fills of a command: the orders
    /// filled in full and the part of `partial` that was matched.
    fn fill_totals(done: &Vec<Order>, partial: &Option<Order>, partial_quantity_processed: usize) -> (r: (usize, usize))
        requires
            qty_of(done@) + partial_quantity_processed <= usize::MAX,
            fills_notional(done@) + partial_part(*partial, partial_quantity_processed) <= usize::MAX,
            partial.is_none() ==> partial_quantity_processed == 0,
        ensures
            r.0 == qty_of(done@) + partial_quantity_processed,
            r.1 == fills_notional(done@) + partial_part(*partial, partial_quantity_processed),
    {
        let mut total_quantity: usize = 0;
        let mut total_price: usize = 0;
        let n = done.len();
        let mut i: usize = 0;
        proof {
            match *partial {
                Some(p) => {
                    let a = p.price as int;
                    let b = partial_quantity_processed as int;
                    assert(a * b >= 0) by (nonlinear_arith)
                        requires
                            a >= 0,
                            b >= 0,
                    ;
                },
                None => {},
            }
            assert(done@.subrange(0, 0).map_values(|o: Order| o.quantity as int) =~= Seq::<int>::empty());
            assert(done@.subrange(0, 0).map_values(|o: Order| o.price * o.quantity) =~= Seq::<int>::empty());
        }
        while i < n
            invariant
                n == done@.len(),
                0 <= i <= n,
                total_quantity == qty_of(done@.subrange(0, i as int)),
                total_price == fills_notional(done@.subrange(0, i as int)),
                qty_of(done@) <= usize::MAX,
                fills_notional(done@) <= usize::MAX,
            decreases n - i,
        {
            proof {
                assert(done@.subrange(0, i + 1) =~= done@.subrange(0, i as int).push(done@[i as int]));
                lemma_fills_push(done@.subrange(0, i as int), done@[i as int]);
                lemma_fills_prefix(done@, i + 1);
            }
            total_quantity = total_quantity + done[i].quantity;
            total_price = total_price + done[i].price * done[i].quantity;
            i = i + 1;
        }
        proof {
            assert(done@.subrange(0, n as int) =~= done@);
        }
        if partial_quantity_processed > 0 && partial.is_some() {
            let partial_price = match partial {
                Some(p) => p.price,
                None => 0,
            };
            total_quantity = total_quantity + partial_quantity_processed;
            total_price = total_price + partial_price * partial_quantity_processed;
        } else {
            proof {
                match *partial {
                    Some(p) => {
                        assert(p.price * partial_quantity_processed == 0) by (nonlinear_arith)
                            requires
                                partial_quantity_processed == 0,
                        ;
                    },
                    None => {},
                }
            }
        }
        (total_quantity, total_price)
    }

    /// Enters a limit order. A duplicate id is refused with no change. An
    /// order that meets the best opposite level while trading is disabled is
    /// rejected with no change to the book. Otherwise the order is
    /// acknowledged and sweeps the opposite side; what is left rests on its
    /// own side, and when nothing is left a last record of the order at its
    /// average fill price ends `done`.
    #[verifier::rlimit(100)]
    #[verifier::spinoff_prover]
    pub fn add_limit_order(
        &mut self,
        side: Side,
        size: usize,
        price: usize,
        user_id: u32,
        id: u32,
        time_in_force: TimeInForce,
    ) -> (r: InProcessOrder)
        requires
            old(self).wf(),
            size > 0,
            price > 0,
            old(self).book_side(side).volume + size <= usize::MAX,
            old(self).book_side(side).total + price * size <= usize::MAX,
            old(self).book_side(side).num_orders < usize::MAX,
        ensures
            final(self).wf(),
            final(self).trading() == old(self).trading(),
            final(self).symbol_view() == old(self).symbol_view(),
            r.quantity_left <= size,
            old(self).index().contains_key(id) ==> {
                &&& r.err.is_some()
                &&& r.err.unwrap()@ == "Order Already Exists"@
                &&& r.quantity_left == size
                &&& r.done@.len() == 0
                &&& r.partial.is_none()
                &&& r.partial_quantity_processed == 0
                &&& *final(self) == *old(self)
            },
            !old(self).index().contains_key(id) && crosses(
                side,
                price,
                old(self).book_side(opposite(side)),
            ) && !old(self).trading() ==> {
                &&& r.err.is_some()
                &&& r.err.unwrap()@ == "Trading is not enabled"@
                &&& r.quantity_left == size
                &&& r.done@.len() == 0
                &&& r.partial.is_none()
                &&& r.partial_quantity_processed == 0
                &&& final(self).events() == old(self).events().push(
                    Event::Rejected { user_id, order_id: id },
                )
                &&& final(self).index() == old(self).index()
                &&& final(self).bid_side() == old(self).bid_side()
                &&& final(self).ask_side() == old(self).ask_side()
            },
            old(self).goes_ahead(side, price, id) ==> r.err.is_none(),
            old(self).goes_ahead(side, price, id) ==> taker_events(
                added_events(old(self).events(), final(self).events()),
                side,
                user_id,
                id,
                Some(price),
            ),
            old(self).goes_ahead(side, price, id) && crosses(
                side,
                price,
                old(self).book_side(opposite(side)),
            ) ==> r.quantity_left < size && added_events(old(self).events(), final(self).events())
                == seq![Event::Accepted { user_id, order_id: id }] + sweep(
                side,
                level_view(old(self).book_side(opposite(side)).levels()),
                size as nat,
                user_id,
                id,
                Some(price),
            ) + if r.quantity_left > 0 {
                seq![Event::Accepted { user_id, order_id: id }] + rest_report(
                    side,
                    price,
                    r.quantity_left,
                    old(self).book_side(side),
                    final(self).book_side(side),
                )
            } else {
                Seq::<Event>::empty()
            },
            old(self).goes_ahead(side, price, id) && r.quantity_left == 0 ==> match r.partial {
                Some(p) => {
                    let after = final(self).book_side(opposite(side));
                    let added = added_events(old(self).events(), final(self).events());
                    &&& p == after.best_head()
                    &&& final(self).index()[p.id] == p
                    &&& added.len() >= 2
                    &&& added[added.len() - 2] == (Event::Trade {
                        taker_user_id: user_id,
                        taker_order_id: id,
                        maker_user_id: p.user_id,
                        maker_order_id: p.id,
                        price: p.price,
                        quantity: r.partial_quantity_processed,
                    })
                    &&& added.last() == (Event::BestPrice {
                        side: opposite(side),
                        best: Some((p.price, after.best_level().volume)),
                    })
                },
                None => r.partial_quantity_processed == 0,
            },
            old(self).goes_ahead(side, price, id) ==> final(self).events() == old(self).events()
                + added_events(old(self).events(), final(self).events()),
            old(self).goes_ahead(side, price, id) ==> added_events(
                old(self).events(),
                final(self).events(),
            ).len() > 0 && added_events(old(self).events(), final(self).events())[0]
                == (Event::Accepted { user_id, order_id: id }),
            old(self).goes_ahead(side, price, id) ==> traded_qty(
                added_events(old(self).events(), final(self).events()),
            ) == size - r.quantity_left,
            old(self).goes_ahead(side, price, id) ==> final(self).book_side(opposite(side)).volume
                == old(self).book_side(opposite(side)).volume - (size - r.quantity_left),
            old(self).goes_ahead(side, price, id) ==> final(self).book_side(opposite(side)).total
                == old(self).book_side(opposite(side)).total - traded_notional(
                added_events(old(self).events(), final(self).events()),
            ),
            old(self).goes_ahead(side, price, id) && !crosses(
                side,
                price,
                old(self).book_side(opposite(side)),
            ) ==> r.quantity_left == size && final(self).book_side(opposite(side)) == old(
                self,
            ).book_side(opposite(side)) && final(self).index() == old(self).index().insert(
                id,
                final(self).index()[id],
            ) && final(self).events() == old(self).events() + seq![
                Event::Accepted { user_id, order_id: id },
            ] + rest_report(side, price, size, old(self).book_side(side), final(self).book_side(side)),
            old(self).goes_ahead(side, price, id) ==> forall|k: u32| #[trigger]
                final(self).index().contains_key(k) && k != id ==> old(self).index().contains_key(k),
            old(self).goes_ahead(side, price, id) && r.quantity_left > 0 ==> {
                let o = final(self).index()[id];
                &&& final(self).index().contains_key(id)
                &&& o.id == id
                &&& o.user_id == user_id
                &&& o.side == side
                &&& o.order_type == OrderType::Limit
                &&& o.time_in_force == time_in_force
                &&& o.price == price
                &&& o.quantity == r.quantity_left
                &&& final(self).book_side(side).volume == old(self).book_side(side).volume
                    + r.quantity_left
                &&& final(self).book_side(side).total == old(self).book_side(side).total + price
                    * r.quantity_left
                &&& final(self).book_side(side).num_orders == old(self).book_side(side).num_orders + 1
                &&& appended(old(self).book_side(side).levels(), final(self).book_side(side).levels(), o)
                &&& r.done@.len() == 0 ==> r.partial.is_none() && r.partial_quantity_processed == 0
                &&& r.done@.len() > 0 ==> r.partial == Some(o) && r.partial_quantity_processed == size
                    - r.quantity_left
                &&& !crosses(side, price, final(self).book_side(opposite(side)))
            },
            old(self).goes_ahead(side, price, id) && r.quantity_left == 0 ==> {
                let agg = r.done@.last();
                &&& !final(self).index().contains_key(id)
                &&& final(self).book_side(side) == old(self).book_side(side)
                &&& r.done@.len() > 0
                &&& agg.id == id
                &&& agg.user_id == user_id
                &&& agg.side == side
                &&& agg.quantity == size
                &&& agg.price == traded_notional(added_events(old(self).events(), final(self).events()))
                    / (size as int)
            },
    {
        let mut order = InProcessOrder {
            done: Vec::new(),
            partial: None,
            partial_quantity_processed: 0,
            quantity_left: size,
            err: None,
        };
        if self.orders.contains_key(&id) {
            order.err = Some("Order Already Exists".to_string());
            return order;
        }
        let ghost ev0 = self.events@;
        let ghost opp0 = self.book_side(opposite(side));
        let mut quantity_to_trade = size;
        let ghost mut added: Seq<Event> = Seq::empty();
        if self.crosses_best(side, price) {
            if !self.trading_enabled {
                order.err = Some("Trading is not enabled".to_string());
                self.events.push(Event::Rejected { user_id, order_id: id });
                return order;
            }
            self.events.push(Event::Accepted { user_id, order_id: id });
            let ghost ev1 = self.events@;
            let process_queue = self.process_queue(side, quantity_to_trade, user_id, id, Some(price));
            proof {
                let acc = seq![Event::Accepted { user_id, order_id: id }];
                let a = self.events@.subrange(ev1.len() as int, self.events@.len() as int);
                assert(self.events@ =~= ev0 + (acc + a));
                lemma_traded_push(Seq::<Event>::empty(), acc[0]);
                assert(Seq::<Event>::empty().push(acc[0]) =~= acc);
                lemma_traded_concat(acc, a);
                assert(taker_events(acc, side, user_id, id, Some(price)));
                lemma_taker_concat(acc, a, side, user_id, id, Some(price));
                assert(a == added_events(ev1, self.events@));
                added = acc + a;
            }
            order.done = process_queue.done;
            order.partial = process_queue.partial;
            order.partial_quantity_processed = process_queue.partial_quantity_processed;
            quantity_to_trade = process_queue.quantity_left;
            order.quantity_left = quantity_to_trade;
        } else {
            proof {
                assert(self.events@ =~= ev0 + added);
            }
        }
        if quantity_to_trade > 0 {
            let new_order = Order::new(
                id,
                user_id,
                side,
                OrderType::Limit,
                time_in_force,
                price,
                quantity_to_trade,
            );
            if order.done.len() > 0 {
                order.partial_quantity_processed = size - quantity_to_trade;
                order.partial = Some(new_order);
            }
            proof {
                let q = quantity_to_trade as int;
                assert(price * q <= price * size) by (nonlinear_arith)
                    requires
                        q <= size,
                ;
            }
            let ghost ev2 = self.events@;
            let ghost old_own = self.book_side(side);
            self.rest(new_order);
            proof {
                let b = self.events@.subrange(ev2.len() as int, self.events@.len() as int);
                assert(self.events@ =~= ev2 + b);
                assert(taker_events(b, side, user_id, id, Some(price))) by {
                    let rep = rest_report(side, price, new_order.quantity, old_own, self.book_side(side));
                    assert(b =~= seq![Event::Accepted { user_id, order_id: id }] + rep);
                    assert forall|k: int| 0 <= k < b.len() implies taker_event(#[trigger] b[k], side, user_id, id, Some(price)) by {
                        if k > 0 {
                            assert(b[k] == rep[k - 1]);
                        }
                    }
                }
                if added.len() > 0 {
                    assert(added + b =~= added + (seq![Event::Accepted { user_id, order_id: id }]
                        + rest_report(side, price, new_order.quantity, old_own, self.book_side(side))));
                }
                if added.len() == 0 {
                    assert(added + b =~= b);
                } else {
                    lemma_taker_concat(added, b, side, user_id, id, Some(price));
                }
                lemma_traded_concat(added, b);
                added = added + b;
                assert(self.events@ =~= ev0 + added);
            }
        } else {
            proof {
                assert(traded_notional(added) <= opp0.total);
            }
            let (total_quantity, total_price) = Self::fill_totals(
                &order.done,
                &order.partial,
                order.partial_quantity_processed,
            );
            proof {
                assert(total_quantity == size);
                assert(total_price == traded_notional(added));
            }
            let aggregate = Order::new(
                id,
                user_id,
                side,
                OrderType::Limit,
                time_in_force,
                total_price / total_quantity,
                total_quantity,
            );
            order.done.push(aggregate);
            proof {
                assert(order.done@.last() == aggregate);
                assert(!self.orders@.contains_key(id));
            }
        }
        proof {
            assert(self.events@ =~= ev0 + added);
            assert(added_events(ev0, self.events@) =~= added);
        }
        order
    }

    /// Enters a market order: when the opposite side holds orders, it is
    /// acknowledged and sweeps that side; what is left never rests. Neither
    /// the id nor the trading gate is checked.
    pub fn add_market_order(&mut self, side: Side, size: usize, user_id: u32, id: u32) -> (r:
        InProcessOrder)
        requires
            old(self).wf(),
        ensures
            final(self).wf(),
            final(self).trading() == old(self).trading(),
            final(self).symbol_view() == old(self).symbol_view(),
            r.err.is_none(),
            r.quantity_left <= size,
            final(self).events() == old(self).events() + added_events(
                old(self).events(),
                final(self).events(),
            ),
            traded_qty(added_events(old(self).events(), final(self).events())) == size
                - r.quantity_left,
            final(self).book_side(opposite(side)).volume == old(self).book_side(
                opposite(side),
            ).volume - (size - r.quantity_left),
            final(self).book_side(opposite(side)).total == old(self).book_side(opposite(side)).total
                - traded_notional(added_events(old(self).events(), final(self).events())),
            final(self).book_side(side) == old(self).book_side(side),
            r.quantity_left > 0 ==> final(self).book_side(opposite(side)).levels().len() == 0,
            forall|k: u32| #[trigger]
                final(self).index().contains_key(k) ==> old(self).index().contains_key(k),
            size == 0 || old(self).book_side(opposite(side)).levels().len() == 0 ==> *final(self)
                == *old(self) && r.quantity_left == size && r.done@.len() == 0 && r.partial.is_none()
                && r.partial_quantity_processed == 0,
            size > 0 && old(self).book_side(opposite(side)).levels().len() > 0 ==> added_events(
                old(self).events(),
                final(self).events(),
            )[0] == (Event::Accepted { user_id, order_id: id }) && r.quantity_left < size
                && added_events(old(self).events(), final(self).events()) == seq![
                Event::Accepted { user_id, order_id: id },
            ] + sweep(
                side,
                level_view(old(self).book_side(opposite(side)).levels()),
                size as nat,
                user_id,
                id,
                None,
            ),
            taker_events(added_events(old(self).events(), final(self).events()), side, user_id, id, None),
    {
        let mut in_process_order = InProcessOrder {
            done: Vec::new(),
            partial: None,
            partial_quantity_processed: 0,
            quantity_left: size,
            err: None,
        };
        let ghost ev0 = self.events@;
        let mut quantity_to_trade = size;
        if quantity_to_trade > 0 && self.has_liquidity_against(side) {
            self.events.push(Event::Accepted { user_id, order_id: id });
            let ghost ev1 = self.events@;
            let process_queue = self.process_queue(side, quantity_to_trade, user_id, id, None);
            proof {
                let acc = seq![Event::Accepted { user_id, order_id: id }];
                let a = self.events@.subrange(ev1.len() as int, self.events@.len() as int);
                assert(self.events@ =~= ev0 + (acc + a));
                lemma_traded_push(Seq::<Event>::empty(), acc[0]);
                assert(Seq::<Event>::empty().push(acc[0]) =~= acc);
                lemma_traded_concat(acc, a);
                assert(added_events(ev0, self.events@) =~= acc + a);
                assert(taker_events(acc, side, user_id, id, None));
                lemma_taker_concat(acc, a, side, user_id, id, None);
            }
            in_process_order.done = process_queue.done;
            in_process_order.partial = process_queue.partial;
            in_process_order.partial_quantity_processed = process_queue.partial_quantity_processed;
            quantity_to_trade = process_queue.quantity_left;
        } else {
            proof {
                assert(added_events(ev0, self.events@) =~= Seq::<Event>::empty());
                assert(self.events@ =~= ev0 + Seq::<Event>::empty());
            }
        }
        in_process_order.quantity_left = quantity_to_trade;
        in_process_order
    }

    /// Cancels the resting order `id`, acknowledging it and reporting the
    /// side's best price when the order stood at it. An unknown id changes
    /// nothing. The user id is not checked against the order's owner.
    pub fn cancel_order_user(&mut self, user_id: u32, id: u32) -> (r: Option<Order>)
        requires
            old(self).wf(),
        ensures
            final(self).wf(),
            final(self).trading() == old(self).trading(),
            final(self).symbol_view() == old(self).symbol_view(),
            !old(self).index().contains_key(id) ==> r.is_none() && *final(self) == *old(self),
            old(self).index().contains_key(id) ==> ({
                let o = old(self).index()[id];
                let before = old(self).book_side(o.side);
                let after = final(self).book_side(o.side);
                &&& r == Some(o)
                &&& final(self).index() == old(self).index().remove(id)
                &&& after.volume == before.volume - o.quantity
                &&& after.total == before.total - o.price * o.quantity
                &&& after.num_orders == before.num_orders - 1
                &&& removed_at(
                    before.levels(),
                    after.levels(),
                    level_of_price(before.levels(), o.price),
                    first_with_id(before.levels()[level_of_price(before.levels(), o.price)].orders@, id),
                )
                &&& forall|x: Order| holds(after.levels(), x) <==> holds(before.levels(), x) && x.id != id
                &&& final(self).book_side(opposite(o.side)) == old(self).book_side(opposite(o.side))
                &&& final(self).events() == old(self).events() + seq![
                    Event::Accepted { user_id: o.user_id, order_id: id },
                ] + removal_report(o.side, after.levels(), o.price, o.quantity)
            }),
    {
        self.withdraw(id, true)
    }

    /// Takes a filled resting order off the book without acknowledging it.
    fn cancel_order(&mut self, id: u32) -> (r: Option<Order>)
        requires
            old(self).wf(),
        ensures
            final(self).wf(),
            final(self).trading() == old(self).trading(),
            final(self).symbol_view() == old(self).symbol_view(),
            !old(self).index().contains_key(id) ==> r.is_none() && *final(self) == *old(self),
            old(self).index().contains_key(id) ==> ({
                let o = old(self).index()[id];
                let before = old(self).book_side(o.side);
                let after = final(self).book_side(o.side);
                &&& r == Some(o)
                &&& o.id == id
                &&& final(self).index() == old(self).index().remove(id)
                &&& after.volume == before.volume - o.quantity
                &&& after.total == before.total - o.price * o.quantity
                &&& after.num_orders == before.num_orders - 1
                &&& forall|x: Order| holds(after.levels(), x) <==> holds(before.levels(), x) && x.id != id
                &&& after.levels().len() > 0 ==> after.max_price_spec() <= before.max_price_spec()
                    && after.min_price_spec() >= before.min_price_spec()
                &&& removed_at(
                    before.levels(),
                    after.levels(),
                    level_of_price(before.levels(), o.price),
                    first_with_id(before.levels()[level_of_price(before.levels(), o.price)].orders@, id),
                )
                &&& final(self).book_side(opposite(o.side)) == old(self).book_side(opposite(o.side))
                &&& final(self).events() == old(self).events() + removal_report(
                    o.side,
                    after.levels(),
                    o.price,
                    o.quantity,
                )
            }),
    {
        let r = self.withdraw(id, false);
        proof {
            if old(self).index().contains_key(id) {
                let o = old(self).index()[id];
                assert(old(self).events() + Seq::<Event>::empty() =~= old(self).events());
            }
        }
        r
    }

    /// The resting order with the given id.
    pub fn get_order(&self, id: u32) -> (r: Option<Order>)
        ensures
            r == (if self.index().contains_key(id) {
                Some(self.index()[id])
            } else {
                None
            }),
    {
        match self.orders.get(&id) {
            Some(o) => Some(*o),
            None => None,
        }
    }
}

/// On each side of a consistent book the volume is the sum of the level
/// volumes, the total is the sum of price times volume, the order count is
/// the sum of the level lengths, each level's volume is the sum of its
/// quantities, and no level is empty.
pub proof fn lemma_side_aggregates(book: &OrderBook)
    requires
        book.wf(),
    ensures
        forall|s: Side| {
            let side = #[trigger] book.book_side(s);
            &&& side.volume == vol_of(side.levels())
            &&& side.total == notional_of(side.levels())
            &&& side.num_orders == count_of(side.levels())
            &&& forall|i: int|
                0 <= i < side.levels().len() ==> (#[trigger] side.levels()[i]).orders@.len() > 0
                    && side.levels()[i].volume == qty_of(side.levels()[i].orders@)
        },
{
    assert forall|s: Side| {
        let side = #[trigger] book.book_side(s);
        &&& side.volume == vol_of(side.levels())
        &&& side.total == notional_of(side.levels())
        &&& side.num_orders == count_of(side.levels())
        &&& forall|i: int|
            0 <= i < side.levels().len() ==> (#[trigger] side.levels()[i]).orders@.len() > 0
                && side.levels()[i].volume == qty_of(side.levels()[i].orders@)
    } by {
        let side = book.book_side(s);
        assert forall|i: int| 0 <= i < side.levels().len() implies (#[trigger] side.levels()[i]).orders@.len() > 0
            && side.levels()[i].volume == qty_of(side.levels()[i].orders@) by {
            assert(level_ok(side.levels()[i], side.side));
        }
    }
}

/// Every indexed order rests on its own side exactly once, at a level of its
/// own price, with the quantity the index records.
pub proof fn lemma_index_agrees(book: &OrderBook, id: u32)
    requires
        book.wf(),
        book.index().contains_key(id),
    ensures
        ({
            let o = book.index()[id];
            let ls = book.book_side(o.side).levels();
            &&& o.id == id
            &&& exists|i: int, j: int|
                0 <= i < ls.len() && 0 <= j < ls[i].orders@.len() && #[trigger] ls[i].orders@[j] == o
                    && ls[i].price == o.price
            &&& forall|i: int, j: int, i2: int, j2: int|
                0 <= i < ls.len() && 0 <= j < ls[i].orders@.len() && 0 <= i2 < ls.len() && 0 <= j2
                    < ls[i2].orders@.len() && (#[trigger] ls[i].orders@[j]).id == id && (
                #[trigger] ls[i2].orders@[j2]).id == id ==> i == i2 && j == j2
        }),
{
    let o = book.index()[id];
    lemma_other_side_lacks(book.orders@, book.bids.levels(), book.asks.levels(), id);
    let ls = book.book_side(o.side).levels();
    assert(holds(ls, o));
    let (i, j) = choose|i: int, j: int|
        0 <= i < ls.len() && 0 <= j < ls[i].orders@.len() && #[trigger] ls[i].orders@[j] == o;
    assert(level_ok(ls[i], o.side));
    assert(ls[i].orders@[j].price == ls[i].price);
}

/// The best bid is the highest bid price and the best ask the lowest ask
/// price, and neither is crossed: the best bid lies below the best ask.
pub proof fn lemma_best_prices(book: &OrderBook)
    requires
        book.wf(),
    ensures
        forall|i: int|
            0 <= i < book.bid_side().levels().len() ==> (#[trigger] book.bid_side().levels()[i]).price
                <= book.bid_side().max_price_spec(),
        forall|i: int|
            0 <= i < book.ask_side().levels().len() ==> (#[trigger] book.ask_side().levels()[i]).price
                >= book.ask_side().min_price_spec(),
        book.bid_side().levels().len() > 0 && book.ask_side().levels().len() > 0
            ==> book.bid_side().max_price_spec() < book.ask_side().min_price_spec(),
{
    let b = book.bid_side().levels();
    let a = book.ask_side().levels();
    assert forall|i: int| 0 <= i < b.len() implies (#[trigger] b[i]).price <= book.bid_side().max_price_spec() by {
        if i < b.len() - 1 {
            assert(sorted(b));
        }
    }
    assert forall|i: int| 0 <= i < a.len() implies (#[trigger] a[i]).price >= book.ask_side().min_price_spec() by {
        if i > 0 {
            assert(sorted(a));
        }
    }
}

/// Appending to a level's orders leaves its head and every earlier order in
/// place and puts the new order last.
pub proof fn lemma_append_keeps_order(s: Seq<Order>, o: Order)
    ensures
        s.len() > 0 ==> s.push(o)[0] == s[0],
        s.len() == 0 ==> s.push(o)[0] == o,
        s.push(o).last() == o,
        forall|k: int| 0 <= k < s.len() ==> #[trigger] s.push(o)[k] == s[k],
{
}

/// Bids are tagged Buy and asks Sell, and no level of either side stands at
/// price 0.
pub proof fn lemma_sides_tagged(book: &OrderBook)
    requires
        book.wf(),
    ensures
        book.bid_side().side == Side::Buy,
        book.ask_side().side == Side::Sell,
        forall|i: int|
            0 <= i < book.bid_side().levels().len() ==> (#[trigger] book.bid_side().levels()[i]).price > 0,
        forall|i: int|
            0 <= i < book.ask_side().levels().len() ==> (#[trigger] book.ask_side().levels()[i]).price > 0,
{
    let b = book.bid_side().levels();
    let a = book.ask_side().levels();
    assert forall|i: int| 0 <= i < b.len() implies (#[trigger] b[i]).price > 0 by {
        if i > 0 {
            assert(sorted(b));
        }
    }
    assert forall|i: int| 0 <= i < a.len() implies (#[trigger] a[i]).price > 0 by {
        if i > 0 {
            assert(sorted(a));
        }
    }
}

} // verus!
