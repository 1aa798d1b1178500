use crate::event::Event;
use crate::order::{now_micros, Order};
use crate::order_queue::{first_with_id, OrderQueue};
use crate::side::Side;
use crate::sums::{lemma_sum_insert, lemma_sum_nonneg, lemma_sum_remove, lemma_sum_update, sum_of};
use vstd::prelude::*;

verus! {

/// Total volume of a run of levels.
pub open spec fn vol_of(ls: Seq<OrderQueue>) -> int {
    sum_of(ls.map_values(|q: OrderQueue| q.volume as int))
}

/// Total notional (price times volume) of a run of levels.
pub open spec fn notional_of(ls: Seq<OrderQueue>) -> int {
    sum_of(ls.map_values(|q: OrderQueue| q.price * q.volume))
}

/// Number of resting orders in a run of levels.
pub open spec fn count_of(ls: Seq<OrderQueue>) -> int {
    sum_of(ls.map_values(|q: OrderQueue| q.orders@.len() as int))
}

/// A level is consistent, non-empty, and holds only positive orders of its
/// own price and side.
pub open spec fn level_ok(q: OrderQueue, side: Side) -> bool {
    &&& q.wf()
    &&& q.orders@.len() > 0
    &&& forall|k: int|
        0 <= k < q.orders@.len() ==> {
            &&& (#[trigger] q.orders@[k]).price == q.price
            &&& q.orders@[k].side == side
            &&& q.orders@[k].quantity > 0
        }
}

/// Levels are kept in strictly ascending price order.
pub open spec fn sorted(ls: Seq<OrderQueue>) -> bool {
    forall|i: int, j: int| 0 <= i < j < ls.len() ==> ls[i].price < ls[j].price
}

/// `o` rests somewhere in `ls`.
pub open spec fn holds(ls: Seq<OrderQueue>, o: Order) -> bool {
    exists|i: int, j: int|
        0 <= i < ls.len() && 0 <= j < ls[i].orders@.len() && #[trigger] ls[i].orders@[j] == o
}

/// No id rests at two places of `ls`.
pub open spec fn ids_unique(ls: Seq<OrderQueue>) -> bool {
    forall|i: int, j: int, i2: int, j2: int|
        0 <= i < ls.len() && 0 <= j < ls[i].orders@.len() && 0 <= i2 < ls.len() && 0 <= j2
            < ls[i2].orders@.len() && (#[trigger] ls[i].orders@[j]).id == (#[trigger] ls[i2].orders@[j2]).id
            ==> i == i2 && j == j2
}

/// Some level of `ls` has price `p`.
pub open spec fn has_price(ls: Seq<OrderQueue>, p: usize) -> bool {
    exists|i: int| 0 <= i < ls.len() && ls[i].price == p
}

/// `new_ls` is `old_ls` with `o` appended at the tail of the level at its
/// price, or, when there was none, with a one-order level for it inserted;
/// every other level is unchanged.
pub open spec fn appended(old_ls: Seq<OrderQueue>, new_ls: Seq<OrderQueue>, o: Order) -> bool {
    ||| exists|i: int|
        0 <= i < old_ls.len() && #[trigger] old_ls[i].price == o.price && new_ls == old_ls.update(
            i,
            new_ls[i],
        ) && new_ls[i].price == o.price && new_ls[i].orders@ == old_ls[i].orders@.push(o)
            && new_ls[i].volume == old_ls[i].volume + o.quantity
    ||| !has_price(old_ls, o.price) && exists|i: int|
        0 <= i <= old_ls.len() && new_ls == old_ls.insert(i, #[trigger] new_ls[i])
            && new_ls[i].price == o.price && new_ls[i].orders@ == seq![o] && new_ls[i].volume
            == o.quantity
}

/// The level of `ls` at price `p`.
pub open spec fn level_of_price(ls: Seq<OrderQueue>, p: usize) -> int {
    choose|i: int| 0 <= i < ls.len() && ls[i].price == p
}

/// `new_ls` is `old_ls` without the order at position `j` of level `i`; the
/// level goes when that was its last order.
pub open spec fn removed_at(old_ls: Seq<OrderQueue>, new_ls: Seq<OrderQueue>, i: int, j: int) -> bool {
    if old_ls[i].orders@.len() == 1 {
        new_ls == old_ls.remove(i)
    } else {
        &&& new_ls.len() == old_ls.len()
        &&& forall|k: int| 0 <= k < old_ls.len() && k != i ==> new_ls[k] == old_ls[k]
        &&& new_ls[i].price == old_ls[i].price
        &&& new_ls[i].volume == old_ls[i].volume - old_ls[i].orders@[j].quantity
        &&& new_ls[i].orders@ == old_ls[i].orders@.remove(j)
    }
}

/// The best-price report that follows a removal at `price` of an order of
/// `quantity`, given the levels left: on bids the new highest price, on asks
/// the new lowest one, when the removal was at or beyond it.
pub open spec fn removal_report(side: Side, ls: Seq<OrderQueue>, price: usize, quantity: usize) -> Seq<Event> {
    match side {
        Side::Buy => {
            let p = if ls.len() == 0 { 0 } else { ls.last().price };
            if price >= p {
                if ls.len() == 0 {
                    seq![Event::BestPrice { side, best: None }]
                } else {
                    seq![Event::BestPrice { side, best: Some((p, quantity)) }]
                }
            } else {
                Seq::empty()
            }
        },
        Side::Sell => {
            let p = if ls.len() == 0 { usize::MAX } else { ls[0].price };
            if price <= p {
                if ls.len() == 0 {
                    seq![Event::BestPrice { side, best: None }]
                } else {
                    seq![Event::BestPrice { side, best: Some((p, quantity)) }]
                }
            } else {
                Seq::empty()
            }
        },
    }
}

pub proof fn lemma_levels_update(ls: Seq<OrderQueue>, i: int, q: OrderQueue)
    requires
        0 <= i < ls.len(),
    ensures
        vol_of(ls.update(i, q)) == vol_of(ls) - ls[i].volume + q.volume,
        notional_of(ls.update(i, q)) == notional_of(ls) - ls[i].price * ls[i].volume + q.price
            * q.volume,
        count_of(ls.update(i, q)) == count_of(ls) - ls[i].orders@.len() + q.orders@.len(),
{
    let f1 = |q: OrderQueue| q.volume as int;
    let f2 = |q: OrderQueue| q.price * q.volume;
    let f3 = |q: OrderQueue| q.orders@.len() as int;
    assert(ls.update(i, q).map_values(f1) =~= ls.map_values(f1).update(i, f1(q)));
    assert(ls.update(i, q).map_values(f2) =~= ls.map_values(f2).update(i, f2(q)));
    assert(ls.update(i, q).map_values(f3) =~= ls.map_values(f3).update(i, f3(q)));
    lemma_sum_update(ls.map_values(f1), i, f1(q));
    lemma_sum_update(ls.map_values(f2), i, f2(q));
    lemma_sum_update(ls.map_values(f3), i, f3(q));
}

pub proof fn lemma_levels_remove(ls: Seq<OrderQueue>, i: int)
    requires
        0 <= i < ls.len(),
    ensures
        vol_of(ls.remove(i)) == vol_of(ls) - ls[i].volume,
        notional_of(ls.remove(i)) == notional_of(ls) - ls[i].price * ls[i].volume,
        count_of(ls.remove(i)) == count_of(ls) - ls[i].orders@.len(),
{
    let f1 = |q: OrderQueue| q.volume as int;
    let f2 = |q: OrderQueue| q.price * q.volume;
    let f3 = |q: OrderQueue| q.orders@.len() as int;
    assert(ls.remove(i).map_values(f1) =~= ls.map_values(f1).remove(i));
    assert(ls.remove(i).map_values(f2) =~= ls.map_values(f2).remove(i));
    assert(ls.remove(i).map_values(f3) =~= ls.map_values(f3).remove(i));
    lemma_sum_remove(ls.map_values(f1), i);
    lemma_sum_remove(ls.map_values(f2), i);
    lemma_sum_remove(ls.map_values(f3), i);
}

pub proof fn lemma_levels_insert(ls: Seq<OrderQueue>, i: int, q: OrderQueue)
    requires
        0 <= i <= ls.len(),
    ensures
        vol_of(ls.insert(i, q)) == vol_of(ls) + q.volume,
        notional_of(ls.insert(i, q)) == notional_of(ls) + q.price * q.volume,
        count_of(ls.insert(i, q)) == count_of(ls) + q.orders@.len(),
{
    let f1 = |q: OrderQueue| q.volume as int;
    let f2 = |q: OrderQueue| q.price * q.volume;
    let f3 = |q: OrderQueue| q.orders@.len() as int;
    assert(ls.insert(i, q).map_values(f1) =~= ls.map_values(f1).insert(i, f1(q)));
    assert(ls.insert(i, q).map_values(f2) =~= ls.map_values(f2).insert(i, f2(q)));
    assert(ls.insert(i, q).map_values(f3) =~= ls.map_values(f3).insert(i, f3(q)));
    lemma_sum_insert(ls.map_values(f1), i, f1(q));
    lemma_sum_insert(ls.map_values(f2), i, f2(q));
    lemma_sum_insert(ls.map_values(f3), i, f3(q));
}

pub proof fn lemma_levels_nonneg(ls: Seq<OrderQueue>)
    ensures
        forall|i: int| 0 <= i < ls.len() ==> #[trigger] ls[i].volume <= vol_of(ls),
        vol_of(ls) >= 0,
        notional_of(ls) >= 0,
        count_of(ls) >= 0,
{
    let f1 = |q: OrderQueue| q.volume as int;
    let f2 = |q: OrderQueue| q.price * q.volume;
    let f3 = |q: OrderQueue| q.orders@.len() as int;
    assert forall|i: int| 0 <= i < ls.len() implies ls.map_values(f2)[i] >= 0 by {
        let a = ls[i].price as int;
        let b = ls[i].volume as int;
        assert(a * b >= 0) by (nonlinear_arith)
            requires
                a >= 0,
                b >= 0,
        ;
    }
    lemma_sum_nonneg(ls.map_values(f1));
    lemma_sum_nonneg(ls.map_values(f2));
    lemma_sum_nonneg(ls.map_values(f3));
    assert forall|i: int| 0 <= i < ls.len() implies #[trigger] ls[i].volume <= vol_of(ls) by {
        assert(ls.map_values(f1)[i] == ls[i].volume);
    }
}

/// One side of the book: its price levels in ascending price order, and the
/// aggregates kept over them.
#[derive(Debug)]
pub struct OrderSide {
    pub prices: Vec<OrderQueue>,
    pub volume: usize,
    pub total: usize,
    pub num_orders: usize,
    pub side: Side,
}

impl OrderSide {
    pub open spec fn levels(&self) -> Seq<OrderQueue> {
        self.prices@
    }

    pub open spec fn wf(&self) -> bool {
        &&& sorted(self.levels())
        &&& forall|i: int| 0 <= i < self.levels().len() ==> level_ok(#[trigger] self.levels()[i], self.side)
        &&& self.volume == vol_of(self.levels())
        &&& self.total == notional_of(self.levels())
        &&& self.num_orders == count_of(self.levels())
    }

    /// The highest price, or 0 on an empty side.
    pub open spec fn max_price_spec(&self) -> usize {
        if self.levels().len() == 0 { 0 } else { self.levels().last().price }
    }

    /// The lowest price, or `usize::MAX` on an empty side.
    pub open spec fn min_price_spec(&self) -> usize {
        if self.levels().len() == 0 { usize::MAX } else { self.levels()[0].price }
    }

    /// Where the best level stands: last on bids, first on asks.
    pub open spec fn best_index(&self) -> int {
        match self.side {
            Side::Buy => self.levels().len() - 1,
            Side::Sell => 0,
        }
    }

    /// The best level: highest price on bids, lowest on asks.
    pub open spec fn best_level(&self) -> OrderQueue {
        self.levels()[self.best_index()]
    }

    /// The order that trades next against this side.
    pub open spec fn best_head(&self) -> Order {
        self.best_level().orders@[0]
    }

    pub fn new(side: Side) -> (r: OrderSide)
        ensures
            r.side == side,
            r.levels() == Seq::<OrderQueue>::empty(),
            r.volume == 0,
            r.total == 0,
            r.num_orders == 0,
            r.wf(),
    {
        let r = OrderSide { prices: Vec::new(), volume: 0, total: 0, num_orders: 0, side };
        proof {
            lemma_empty_sums(r.prices@);
        }
        r
    }

    /// Drops every level and zeroes the aggregates.
    pub fn flush(&mut self)
        ensures
            final(self).side == old(self).side,
            final(self).levels() == Seq::<OrderQueue>::empty(),
            final(self).volume == 0,
            final(self).total == 0,
            final(self).num_orders == 0,
            final(self).wf(),
    {
        self.prices.clear();
        self.volume = 0;
        self.total = 0;
        self.num_orders = 0;
        proof {
            lemma_empty_sums(self.prices@);
        }
    }

    /// Appends `order` to the level at its price, creating the level when
    /// there is none, and returns it.
    pub fn add_order(&mut self, order: Order) -> (r: Order)
        requires
            old(self).wf(),
            order.side == old(self).side,
            order.quantity > 0,
            old(self).volume + order.quantity <= usize::MAX,
            old(self).total + order.price * order.quantity <= usize::MAX,
            old(self).num_orders + 1 <= usize::MAX,
        ensures
            r == order,
            final(self).wf(),
            final(self).side == old(self).side,
            appended(old(self).levels(), final(self).levels(), order),
            final(self).volume == old(self).volume + order.quantity,
            final(self).total == old(self).total + order.price * order.quantity,
            final(self).num_orders == old(self).num_orders + 1,
            forall|x: Order|
                holds(final(self).levels(), x) <==> holds(old(self).levels(), x) || x == order,
            ids_unique(old(self).levels()) && (forall|x: Order|
                holds(old(self).levels(), x) ==> x.id != order.id) ==> ids_unique(
                final(self).levels(),
            ),
            final(self).max_price_spec() == if old(self).levels().len() == 0 || order.price
                > old(self).max_price_spec() {
                order.price
            } else {
                old(self).max_price_spec()
            },
            final(self).min_price_spec() == if old(self).levels().len() == 0 || order.price
                < old(self).min_price_spec() {
                order.price
            } else {
                old(self).min_price_spec()
            },
    {
        let price = order.price;
        let quantity = order.quantity;
        let n = self.prices.len();
        let mut i: usize = 0;
        while i < n && self.prices[i].price < price
            invariant
                *self == *old(self),
                n == self.prices@.len(),
                0 <= i <= n,
                forall|a: int| 0 <= a < i ==> self.prices@[a].price < price,
            decreases n - i,
        {
            i = i + 1;
        }
        let ghost ls = self.prices@;
        proof {
            lemma_levels_nonneg(ls);
        }
        if i < n && self.prices[i].price == price {
            let ghost q = ls[i as int];
            proof {
                assert(q.volume <= vol_of(ls));
            }
            self.prices[i].append(order);
            proof {
                let q2 = self.prices@[i as int];
                assert(self.prices@ == ls.update(i as int, q2));
                lemma_levels_update(ls, i as int, q2);
                assert(price * q2.volume == price * q.volume + price * quantity) by (nonlinear_arith)
                    requires
                        q2.volume == q.volume + quantity,
                ;
                assert(level_ok(q2, self.side)) by {
                    assert forall|k: int| 0 <= k < q2.orders@.len() implies {
                        &&& (#[trigger] q2.orders@[k]).price == q2.price
                        &&& q2.orders@[k].side == self.side
                        &&& q2.orders@[k].quantity > 0
                    } by {
                        if k < q.orders@.len() {
                            assert(q2.orders@[k] == q.orders@[k]);
                            assert(level_ok(ls[i as int], self.side));
                        }
                    }
                }
                lemma_holds_after_append(ls, i as int, order, self.prices@);
                assert(ls[i as int].price == order.price);
            }
        } else {
            let mut q = OrderQueue::new(price);
            q.append(order);
            proof {
                assert(q.orders@ =~= seq![order]);
            }
            self.prices.insert(i, q);
            proof {
                lemma_levels_insert(ls, i as int, q);
                assert(level_ok(q, self.side));
                lemma_holds_after_insert(ls, i as int, q, self.prices@);
                assert(self.prices@[i as int] == q);
                assert forall|a: int| 0 <= a < ls.len() implies ls[a].price != price by {
                    if a > i as int {
                        assert(ls[a].price > ls[i as int].price);
                    }
                }
                assert(!has_price(ls, price));
            }
        }
        self.volume = self.volume + quantity;
        self.total = self.total + price * quantity;
        self.num_orders = self.num_orders + 1;
        proof {
            assert forall|a: int| 0 <= a < self.levels().len() implies level_ok(
                #[trigger] self.levels()[a],
                self.side,
            ) by {
                if a != i {
                    if self.levels().len() > ls.len() && a > i {
                        assert(self.levels()[a] == ls[a - 1]);
                    } else {
                        assert(self.levels()[a] == ls[a]);
                    }
                }
            }
        }
        order
    }

    /// Finds the level at `order.price` and takes out of it the first order
    /// with `order.id`, dropping the level if it empties; the aggregates
    /// follow the order taken out.
    #[verifier::rlimit(30)]
    #[verifier::spinoff_prover]
    fn take(&mut self, order: &Order) -> (r: Option<Order>)
        requires
            old(self).wf(),
        ensures
            final(self).wf(),
            final(self).side == old(self).side,
            ids_unique(old(self).levels()) && holds(old(self).levels(), *order) ==> r == Some(
                *order,
            ),
            match r {
                None => {
                    &&& forall|a: int, b: int|
                        0 <= a < old(self).levels().len() && old(self).levels()[a].price
                            == order.price && 0 <= b < old(self).levels()[a].orders@.len()
                            ==> (#[trigger] old(self).levels()[a].orders@[b]).id != order.id
                    &&& final(self).levels() == old(self).levels()
                    &&& final(self).volume == old(self).volume
                    &&& final(self).total == old(self).total
                    &&& final(self).num_orders == old(self).num_orders
                },
                Some(o) => {
                    let i = level_of_price(old(self).levels(), order.price);
                    let j = first_with_id(old(self).levels()[i].orders@, order.id);
                    &&& 0 <= i < old(self).levels().len()
                    &&& old(self).levels()[i].price == order.price
                    &&& 0 <= j < old(self).levels()[i].orders@.len()
                    &&& o == old(self).levels()[i].orders@[j]
                    &&& o.id == order.id
                    &&& o.price == order.price
                    &&& removed_at(old(self).levels(), final(self).levels(), i, j)
                    &&& final(self).volume == old(self).volume - o.quantity
                    &&& final(self).total == old(self).total - o.price * o.quantity
                    &&& final(self).num_orders == old(self).num_orders - 1
                },
            },
    {
        let n = self.prices.len();
        let mut i: usize = 0;
        while i < n && self.prices[i].price != order.price
            invariant
                *self == *old(self),
                n == self.prices@.len(),
                0 <= i <= n,
                forall|a: int| 0 <= a < i ==> self.prices@[a].price != order.price,
            decreases n - i,
        {
            i = i + 1;
        }
        let ghost ls = self.prices@;
        if i == n {
            return None;
        }
        proof {
            lemma_level_found(ls, self.side, order, i as int);
            lemma_levels_nonneg(ls);
        }
        let r = self.prices[i].remove(order);
        match r {
            None => {
                proof {
                    assert(self.prices@ =~= ls);
                }
                None
            },
            Some(o) => {
                let ghost q = ls[i as int];
                let ghost q2 = self.prices@[i as int];
                proof {
                    assert(self.prices@ == ls.update(i as int, q2));
                    lemma_levels_update(ls, i as int, q2);
                    assert(o.price == q.price);
                    assert(q.price * q2.volume == q.price * q.volume - q.price * o.quantity)
                        by (nonlinear_arith)
                        requires
                            q2.volume == q.volume - o.quantity,
                    ;
                    lemma_levels_nonneg(self.prices@);
                }
                if self.prices[i].len() == 0 {
                    self.prices.remove(i);
                    proof {
                        lemma_levels_remove(ls.update(i as int, q2), i as int);
                        assert(self.prices@ =~= ls.remove(i as int));
                        lemma_levels_nonneg(self.prices@);
                    }
                }
                self.volume = self.volume - o.quantity;
                self.total = self.total - o.price * o.quantity;
                self.num_orders = self.num_orders - 1;
                proof {
                    assert(removed_at(ls, self.prices@, i as int, first_with_id(q.orders@, order.id)));
                    lemma_levels_ok_after_remove(ls, self.prices@, i as int, first_with_id(q.orders@, order.id), self.side);
                }
                Some(o)
            },
        }
    }

    /// Appends the best-price report that follows a removal at `price` of an
    /// order of `quantity`.
    fn report_removal(&self, price: usize, quantity: usize, events: &mut Vec<Event>)
        ensures
            final(events)@ == old(events)@ + removal_report(self.side, self.levels(), price, quantity),
    {
        match self.side {
            Side::Buy => {
                let p = self.max_price();
                if price >= p {
                    if self.prices.len() == 0 {
                        events.push(Event::BestPrice { side: Side::Buy, best: None });
                    } else {
                        events.push(Event::BestPrice { side: Side::Buy, best: Some((p, quantity)) });
                    }
                }
            },
            Side::Sell => {
                let p = self.min_price();
                if price <= p {
                    if self.prices.len() == 0 {
                        events.push(Event::BestPrice { side: Side::Sell, best: None });
                    } else {
                        events.push(Event::BestPrice { side: Side::Sell, best: Some((p, quantity)) });
                    }
                }
            },
        }
        proof {
            assert(events@ =~= old(events)@ + removal_report(self.side, self.levels(), price, quantity));
        }
    }

    /// Cancels `order`: removes the order with its id from the level at its
    /// price, acknowledges the cancel, and reports the best price when the
    /// removal was at or beyond it. Nothing happens when no such order rests.
    pub fn remove_order(&mut self, order: &Order, events: &mut Vec<Event>) -> (r: Option<Order>)
        requires
            old(self).wf(),
        ensures
            final(self).wf(),
            final(self).side == old(self).side,
            ids_unique(old(self).levels()) && holds(old(self).levels(), *order) ==> r == Some(
                *order,
            ),
            match r {
                None => {
                    &&& forall|a: int, b: int|
                        0 <= a < old(self).levels().len() && old(self).levels()[a].price
                            == order.price && 0 <= b < old(self).levels()[a].orders@.len()
                            ==> (#[trigger] old(self).levels()[a].orders@[b]).id != order.id
                    &&& final(self).levels() == old(self).levels()
                    &&& final(self).volume == old(self).volume
                    &&& final(self).total == old(self).total
                    &&& final(self).num_orders == old(self).num_orders
                    &&& final(events)@ == old(events)@
                },
                Some(o) => {
                    let i = level_of_price(old(self).levels(), order.price);
                    let j = first_with_id(old(self).levels()[i].orders@, order.id);
                    &&& 0 <= i < old(self).levels().len()
                    &&& old(self).levels()[i].price == order.price
                    &&& 0 <= j < old(self).levels()[i].orders@.len()
                    &&& o == old(self).levels()[i].orders@[j]
                    &&& o.id == order.id
                    &&& removed_at(old(self).levels(), final(self).levels(), i, j)
                    &&& final(self).volume == old(self).volume - o.quantity
                    &&& final(self).total == old(self).total - o.price * o.quantity
                    &&& final(self).num_orders == old(self).num_orders - 1
                    &&& final(events)@ == old(events)@ + seq![
                        Event::Accepted { user_id: o.user_id, order_id: o.id },
                    ] + removal_report(final(self).side, final(self).levels(), o.price, o.quantity)
                },
            },
    {
        let r = self.take(order);
        match r {
            None => None,
            Some(o) => {
                events.push(Event::Accepted { user_id: o.user_id, order_id: o.id });
                self.report_removal(o.price, o.quantity, events);
                Some(o)
            },
        }
    }

    /// Removes `order` as `remove_order` does, without the acknowledgement:
    /// used when a resting order is filled.
    pub fn remove_order_internal(&mut self, order: &Order, events: &mut Vec<Event>) -> (r: Option<Order>)
        requires
            old(self).wf(),
        ensures
            final(self).wf(),
            final(self).side == old(self).side,
            ids_unique(old(self).levels()) && holds(old(self).levels(), *order) ==> r == Some(
                *order,
            ),
            match r {
                None => {
                    &&& forall|a: int, b: int|
                        0 <= a < old(self).levels().len() && old(self).levels()[a].price
                            == order.price && 0 <= b < old(self).levels()[a].orders@.len()
                            ==> (#[trigger] old(self).levels()[a].orders@[b]).id != order.id
                    &&& final(self).levels() == old(self).levels()
                    &&& final(self).volume == old(self).volume
                    &&& final(self).total == old(self).total
                    &&& final(self).num_orders == old(self).num_orders
                    &&& final(events)@ == old(events)@
                },
                Some(o) => {
                    let i = level_of_price(old(self).levels(), order.price);
                    let j = first_with_id(old(self).levels()[i].orders@, order.id);
                    &&& 0 <= i < old(self).levels().len()
                    &&& old(self).levels()[i].price == order.price
                    &&& 0 <= j < old(self).levels()[i].orders@.len()
                    &&& o == old(self).levels()[i].orders@[j]
                    &&& o.id == order.id
                    &&& removed_at(old(self).levels(), final(self).levels(), i, j)
                    &&& final(self).volume == old(self).volume - o.quantity
                    &&& final(self).total == old(self).total - o.price * o.quantity
                    &&& final(self).num_orders == old(self).num_orders - 1
                    &&& final(events)@ == old(events)@ + removal_report(
                        final(self).side,
                        final(self).levels(),
                        o.price,
                        o.quantity,
                    )
                },
            },
    {
        let r = self.take(order);
        match r {
            None => None,
            Some(o) => {
                self.report_removal(o.price, o.quantity, events);
                Some(o)
            },
        }
    }

    /// `remove_order` when `acknowledge` holds, else `remove_order_internal`.
    pub(crate) fn detach(&mut self, order: &Order, events: &mut Vec<Event>, acknowledge: bool) -> (r: Option<Order>)
        requires
            old(self).wf(),
            ids_unique(old(self).levels()),
            holds(old(self).levels(), *order),
        ensures
            final(self).wf(),
            final(self).side == old(self).side,
            r == Some(*order),
            ({
                let i = level_of_price(old(self).levels(), order.price);
                let j = first_with_id(old(self).levels()[i].orders@, order.id);
                &&& 0 <= i < old(self).levels().len()
                &&& 0 <= j < old(self).levels()[i].orders@.len()
                &&& *order == old(self).levels()[i].orders@[j]
                &&& removed_at(old(self).levels(), final(self).levels(), i, j)
            }),
            final(self).volume == old(self).volume - order.quantity,
            final(self).total == old(self).total - order.price * order.quantity,
            final(self).num_orders == old(self).num_orders - 1,
            final(events)@ == old(events)@ + (if acknowledge {
                seq![Event::Accepted { user_id: order.user_id, order_id: order.id }]
            } else {
                Seq::<Event>::empty()
            }) + removal_report(final(self).side, final(self).levels(), order.price, order.quantity),
    {
        if acknowledge {
            self.remove_order(order, events)
        } else {
            let r = self.remove_order_internal(order, events);
            proof {
                assert(old(events)@ + Seq::<Event>::empty() =~= old(events)@);
            }
            r
        }
    }

    /// The order that trades next against this side.
    pub fn head_of_best(&self) -> (r: Order)
        requires
            self.wf(),
            self.levels().len() > 0,
        ensures
            r == self.best_head(),
            holds(self.levels(), r),
            r.quantity > 0,
            r.side == self.side,
            r.price == self.best_level().price,
            r.quantity <= self.best_level().volume,
    {
        let n = self.prices.len();
        let i: usize = match self.side {
            Side::Buy => n - 1,
            Side::Sell => 0,
        };
        proof {
            let q = self.levels()[i as int];
            assert(level_ok(q, self.side));
            assert(self.levels()[i as int].orders@[0] == self.best_head());
            crate::order_queue::lemma_qty_nonneg(q.orders@);
        }
        self.prices[i].orders[0]
    }

    /// Fills `quantity` of the best head in place: the head keeps its place
    /// and id with that much less quantity, and the aggregates drop by the
    /// traded amount. Returns the trimmed head.
    pub(crate) fn trim_best(&mut self, quantity: usize) -> (r: Order)
        requires
            old(self).wf(),
            ids_unique(old(self).levels()),
            old(self).levels().len() > 0,
            0 < quantity < old(self).best_head().quantity,
        ensures
            final(self).wf(),
            final(self).side == old(self).side,
            ({
                let h = old(self).best_head();
                &&& r.id == h.id
                &&& r.user_id == h.user_id
                &&& r.side == h.side
                &&& r.order_type == h.order_type
                &&& r.time_in_force == h.time_in_force
                &&& r.price == h.price
                &&& r.quantity == h.quantity - quantity
                &&& r.created_at == h.created_at
                &&& final(self).volume == old(self).volume - quantity
                &&& final(self).total == old(self).total - h.price * quantity
                &&& forall|x: Order|
                    holds(final(self).levels(), x) <==> (holds(old(self).levels(), x) && x.id
                        != h.id) || x == r
            }),
            final(self).num_orders == old(self).num_orders,
            ids_unique(final(self).levels()),
            final(self).levels().len() == old(self).levels().len(),
            final(self).max_price_spec() == old(self).max_price_spec(),
            final(self).min_price_spec() == old(self).min_price_spec(),
            final(self).best_level().price == old(self).best_level().price,
            final(self).best_level().volume == old(self).best_level().volume - quantity,
            final(self).best_head() == r,
    {
        let head = self.head_of_best();
        let now = now_micros();
        let h2 = Order {
            id: head.id,
            user_id: head.user_id,
            side: head.side,
            order_type: head.order_type,
            time_in_force: head.time_in_force,
            price: head.price,
            quantity: head.quantity - quantity,
            created_at: head.created_at,
            updated_at: now,
        };
        let traded = Order { quantity, ..head };
        let ghost ls = self.levels();
        let ghost b = self.best_index();
        proof {
            assert(level_ok(ls[b], self.side));
        }
        match self.side {
            Side::Buy => {
                match self.max_price_queue_mut() {
                    Some(q) => q.update_head(head, h2),
                    None => {},
                }
            },
            Side::Sell => {
                match self.min_price_queue_mut() {
                    Some(q) => q.update_head(head, h2),
                    None => {},
                }
            },
        }
        proof {
            lemma_trim_head(ls, self.levels(), b, h2, self.side);
            lemma_levels_nonneg(self.levels());
            lemma_levels_nonneg(ls);
            assert(ls[b].volume <= vol_of(ls));
        }
        self.decrease_volume_and_total(&traded);
        h2
    }

    /// Takes `quantity` and `price * quantity` of `order` off the aggregates,
    /// after the head of a level was trimmed by a partial fill.
    pub fn decrease_volume_and_total(&mut self, order: &Order)
        requires
            order.quantity <= old(self).volume,
            order.price * order.quantity <= old(self).total,
        ensures
            final(self).volume == old(self).volume - order.quantity,
            final(self).total == old(self).total - order.price * order.quantity,
            final(self).prices@ == old(self).prices@,
            final(self).num_orders == old(self).num_orders,
            final(self).side == old(self).side,
    {
        self.volume = self.volume - order.quantity;
        self.total = self.total - order.price * order.quantity;
    }

    /// The level with the highest price.
    pub fn max_price_queue(&self) -> (r: Option<&OrderQueue>)
        ensures
            match r {
                Some(q) => self.levels().len() > 0 && *q == self.levels().last(),
                None => self.levels().len() == 0,
            },
    {
        let n = self.prices.len();
        if n > 0 {
            Some(&self.prices[n - 1])
        } else {
            None
        }
    }

    /// The level with the lowest price.
    pub fn min_price_queue(&self) -> (r: Option<&OrderQueue>)
        ensures
            match r {
                Some(q) => self.levels().len() > 0 && *q == self.levels()[0],
                None => self.levels().len() == 0,
            },
    {
        if self.prices.len() > 0 {
            Some(&self.prices[0])
        } else {
            None
        }
    }

    /// The level with the highest price, for updating its head in place.
    pub fn max_price_queue_mut(&mut self) -> (r: Option<&mut OrderQueue>)
        ensures
            final(self).volume == old(self).volume,
            final(self).total == old(self).total,
            final(self).num_orders == old(self).num_orders,
            final(self).side == old(self).side,
            match r {
                Some(q) => {
                    &&& old(self).levels().len() > 0
                    &&& *q == old(self).levels().last()
                    &&& final(self).levels() == old(self).levels().update(
                        old(self).levels().len() - 1,
                        *final(q),
                    )
                },
                None => old(self).levels().len() == 0 && final(self).levels() == old(self).levels(),
            },
    {
        let n = self.prices.len();
        if n > 0 {
            Some(&mut self.prices[n - 1])
        } else {
            None
        }
    }

    /// The level with the lowest price, for updating its head in place.
    pub fn min_price_queue_mut(&mut self) -> (r: Option<&mut OrderQueue>)
        ensures
            final(self).volume == old(self).volume,
            final(self).total == old(self).total,
            final(self).num_orders == old(self).num_orders,
            final(self).side == old(self).side,
            match r {
                Some(q) => {
                    &&& old(self).levels().len() > 0
                    &&& *q == old(self).levels()[0]
                    &&& final(self).levels() == old(self).levels().update(0, *final(q))
                },
                None => old(self).levels().len() == 0 && final(self).levels() == old(self).levels(),
            },
    {
        if self.prices.len() > 0 {
            Some(&mut self.prices[0])
        } else {
            None
        }
    }

    /// The highest price, or 0 when the side is empty.
    pub fn max_price(&self) -> (r: usize)
        ensures
            r == self.max_price_spec(),
    {
        let n = self.prices.len();
        if n > 0 {
            self.prices[n - 1].price
        } else {
            0
        }
    }

    /// The lowest price, or `usize::MAX` when the side is empty.
    pub fn min_price(&self) -> (r: usize)
        ensures
            r == self.min_price_spec(),
    {
        if self.prices.len() > 0 {
            self.prices[0].price
        } else {
            usize::MAX
        }
    }
}

/// In a consistent side, the level at `order.price` is the one that
/// `level_of_price` names, and when `order` rests it is the only order there
/// with its id.
pub proof fn lemma_level_found(ls: Seq<OrderQueue>, side: Side, order: &Order, i: int)
    requires
        0 <= i < ls.len(),
        ls[i].price == order.price,
        sorted(ls),
        forall|a: int| 0 <= a < ls.len() ==> level_ok(#[trigger] ls[a], side),
    ensures
        level_of_price(ls, order.price) == i,
        ids_unique(ls) && holds(ls, *order) ==> {
            &&& exists|b: int| 0 <= b < ls[i].orders@.len() && ls[i].orders@[b].id == order.id
            &&& forall|b: int|
                0 <= b < ls[i].orders@.len() && (#[trigger] ls[i].orders@[b]).id == order.id
                    ==> ls[i].orders@[b] == *order
        },
{
    let c = level_of_price(ls, order.price);
    assert(0 <= c < ls.len() && ls[c].price == order.price);
    if ids_unique(ls) && holds(ls, *order) {
        let (a, b) = choose|a: int, b: int|
            0 <= a < ls.len() && 0 <= b < ls[a].orders@.len() && #[trigger] ls[a].orders@[b] == *order;
        assert(level_ok(ls[a], side));
        assert(ls[a].orders@[b].price == ls[a].price);
        assert(a == i);
        assert(ls[i].orders@[b].id == order.id);
    }
}

/// Every resting order carries the side of its levels.
pub proof fn lemma_holds_side(ls: Seq<OrderQueue>, side: Side, o: Order)
    requires
        forall|a: int| 0 <= a < ls.len() ==> level_ok(#[trigger] ls[a], side),
        holds(ls, o),
    ensures
        o.side == side,
        o.quantity > 0,
{
    let (a, b) = choose|a: int, b: int|
        0 <= a < ls.len() && 0 <= b < ls[a].orders@.len() && #[trigger] ls[a].orders@[b] == o;
    assert(level_ok(ls[a], side));
}

/// A removal never raises the highest price nor lowers the lowest one.
pub proof fn lemma_extremes_after_remove(ls: Seq<OrderQueue>, nls: Seq<OrderQueue>, i: int, j: int)
    requires
        0 <= i < ls.len(),
        0 <= j < ls[i].orders@.len(),
        removed_at(ls, nls, i, j),
        sorted(ls),
    ensures
        nls.len() > 0 ==> nls.last().price <= ls.last().price && nls[0].price >= ls[0].price,
{
    if ls[i].orders@.len() == 1 {
        if nls.len() > 0 {
            if i == ls.len() - 1 {
                assert(nls.last() == ls[ls.len() - 2]);
            } else {
                assert(nls.last() == ls.last());
            }
            if i == 0 {
                assert(nls[0] == ls[1]);
            } else {
                assert(nls[0] == ls[0]);
            }
        }
    } else {
        assert(nls.last().price == ls.last().price);
        assert(nls[0].price == ls[0].price);
    }
}

/// Trimming the head of level `b` to `h2` (same id, smaller positive
/// quantity) keeps the levels consistent and swaps the head for `h2`.
pub proof fn lemma_trim_head(ls: Seq<OrderQueue>, nls: Seq<OrderQueue>, b: int, h2: Order, side: Side)
    requires
        sorted(ls),
        forall|a: int| 0 <= a < ls.len() ==> level_ok(#[trigger] ls[a], side),
        0 <= b < ls.len(),
        h2.id == ls[b].orders@[0].id,
        h2.price == ls[b].orders@[0].price,
        h2.side == ls[b].orders@[0].side,
        0 < h2.quantity < ls[b].orders@[0].quantity,
        nls.len() == ls.len(),
        forall|k: int| 0 <= k < ls.len() && k != b ==> nls[k] == ls[k],
        nls[b].price == ls[b].price,
        nls[b].orders@ == ls[b].orders@.update(0, h2),
        nls[b].volume == ls[b].volume - ls[b].orders@[0].quantity + h2.quantity,
    ensures
        sorted(nls),
        forall|a: int| 0 <= a < nls.len() ==> level_ok(#[trigger] nls[a], side),
        vol_of(nls) == vol_of(ls) - (ls[b].orders@[0].quantity - h2.quantity),
        notional_of(nls) == notional_of(ls) - ls[b].price * (ls[b].orders@[0].quantity
            - h2.quantity),
        count_of(nls) == count_of(ls),
        nls.last().price == ls.last().price,
        nls[0].price == ls[0].price,
        ids_unique(ls) ==> ids_unique(nls),
        ids_unique(ls) ==> forall|x: Order|
            holds(nls, x) <==> (holds(ls, x) && x.id != ls[b].orders@[0].id) || x == h2,
{
    let q = ls[b];
    let h = q.orders@[0];
    let t = h.quantity - h2.quantity;
    assert(level_ok(q, side));
    crate::order_queue::lemma_qty_update(q.orders@, 0, h2);
    assert(nls =~= ls.update(b, nls[b]));
    lemma_levels_update(ls, b, nls[b]);
    assert(q.price * nls[b].volume == q.price * q.volume - q.price * t) by (nonlinear_arith)
        requires
            nls[b].volume == q.volume - t,
    ;
    assert forall|a: int| 0 <= a < nls.len() implies level_ok(#[trigger] nls[a], side) by {
        if a == b {
            assert forall|k: int| 0 <= k < nls[b].orders@.len() implies {
                &&& (#[trigger] nls[b].orders@[k]).price == nls[b].price
                &&& nls[b].orders@[k].side == side
                &&& nls[b].orders@[k].quantity > 0
            } by {
                if k > 0 {
                    assert(nls[b].orders@[k] == q.orders@[k]);
                }
            }
        }
    }
    assert forall|a: int, c: int| 0 <= a < c < nls.len() implies nls[a].price < nls[c].price by {
        assert(nls[a].price == ls[a].price);
        assert(nls[c].price == ls[c].price);
    }
    assert(nls.last().price == ls.last().price);
    assert(nls[0].price == ls[0].price);
    if ids_unique(ls) {
        assert forall|a: int, c: int, a2: int, c2: int|
            0 <= a < nls.len() && 0 <= c < nls[a].orders@.len() && 0 <= a2 < nls.len() && 0 <= c2
                < nls[a2].orders@.len() && (#[trigger] nls[a].orders@[c]).id == (
            #[trigger] nls[a2].orders@[c2]).id implies a == a2 && c == c2 by {
            assert(nls[a].orders@[c].id == ls[a].orders@[c].id);
            assert(nls[a2].orders@[c2].id == ls[a2].orders@[c2].id);
        }
        assert forall|x: Order| holds(nls, x) implies (holds(ls, x) && x.id != h.id) || x == h2 by {
            let (a, c) = choose|a: int, c: int|
                0 <= a < nls.len() && 0 <= c < nls[a].orders@.len() && #[trigger] nls[a].orders@[c] == x;
            if a != b || c != 0 {
                assert(ls[a].orders@[c] == x);
                assert(ls[b].orders@[0].id == h.id);
            }
        }
        assert forall|x: Order| (holds(ls, x) && x.id != h.id) || x == h2 implies holds(nls, x) by {
            if x == h2 {
                assert(nls[b].orders@[0] == h2);
            } else {
                let (a, c) = choose|a: int, c: int|
                    0 <= a < ls.len() && 0 <= c < ls[a].orders@.len() && #[trigger] ls[a].orders@[c] == x;
                assert(nls[a].orders@[c] == x);
            }
        }
    }
}

/// Removing an order keeps the levels sorted and each one consistent.
pub proof fn lemma_levels_ok_after_remove(ls: Seq<OrderQueue>, nls: Seq<OrderQueue>, i: int, j: int, side: Side)
    requires
        0 <= i < ls.len(),
        0 <= j < ls[i].orders@.len(),
        removed_at(ls, nls, i, j),
        sorted(ls),
        forall|a: int| 0 <= a < ls.len() ==> level_ok(#[trigger] ls[a], side),
    ensures
        sorted(nls),
        forall|a: int| 0 <= a < nls.len() ==> level_ok(#[trigger] nls[a], side),
{
    let q = ls[i];
    assert(level_ok(q, side));
    if q.orders@.len() == 1 {
        assert forall|a: int| 0 <= a < nls.len() implies level_ok(#[trigger] nls[a], side) by {
            if a >= i {
                assert(nls[a] == ls[a + 1]);
            } else {
                assert(nls[a] == ls[a]);
            }
        }
    } else {
        let q2 = nls[i];
        crate::order_queue::lemma_qty_remove(q.orders@, j);
        assert forall|k: int| 0 <= k < q2.orders@.len() implies {
            &&& (#[trigger] q2.orders@[k]).price == q2.price
            &&& q2.orders@[k].side == side
            &&& q2.orders@[k].quantity > 0
        } by {
            if k < j {
                assert(q2.orders@[k] == q.orders@[k]);
            } else {
                assert(q2.orders@[k] == q.orders@[k + 1]);
            }
        }
        assert(level_ok(q2, side));
        assert forall|a: int| 0 <= a < nls.len() implies level_ok(#[trigger] nls[a], side) by {
            if a != i {
                assert(nls[a] == ls[a]);
            }
        }
        assert forall|a: int, b: int| 0 <= a < b < nls.len() implies nls[a].price < nls[b].price by {
            assert(nls[a].price == ls[a].price);
            assert(nls[b].price == ls[b].price);
        }
    }
}

/// Removing the order at position `j` of level `i` takes out its id and
/// nothing else.
pub proof fn lemma_holds_after_remove(ls: Seq<OrderQueue>, nls: Seq<OrderQueue>, i: int, j: int)
    requires
        0 <= i < ls.len(),
        0 <= j < ls[i].orders@.len(),
        removed_at(ls, nls, i, j),
        ids_unique(ls),
    ensures
        forall|x: Order| holds(nls, x) <==> holds(ls, x) && x.id != ls[i].orders@[j].id,
        ids_unique(nls),
{
    let gone = ls[i].orders@[j];
    let dropped = ls[i].orders@.len() == 1;
    // the old position of the order at (a, b) of nls
    let oa = |a: int| if dropped && a >= i { a + 1 } else { a };
    let ob = |a: int, b: int| if !dropped && a == i && b >= j { b + 1 } else { b };
    assert forall|a: int, b: int| 0 <= a < nls.len() && 0 <= b < nls[a].orders@.len() implies {
        &&& 0 <= oa(a) < ls.len()
        &&& 0 <= ob(a, b) < ls[oa(a)].orders@.len()
        &&& (oa(a), ob(a, b)) != (i, j)
        &&& #[trigger] nls[a].orders@[b] == ls[oa(a)].orders@[ob(a, b)]
    } by {
        if dropped {
            assert(nls[a] == ls[oa(a)]);
        } else if a != i {
            assert(nls[a] == ls[a]);
        }
    }
    assert forall|x: Order| holds(nls, x) implies holds(ls, x) && x.id != gone.id by {
        let (a, b) = choose|a: int, b: int|
            0 <= a < nls.len() && 0 <= b < nls[a].orders@.len() && #[trigger] nls[a].orders@[b] == x;
        assert(ls[oa(a)].orders@[ob(a, b)] == x);
    }
    assert forall|x: Order| holds(ls, x) && x.id != gone.id implies holds(nls, x) by {
        let (a, b) = choose|a: int, b: int|
            0 <= a < ls.len() && 0 <= b < ls[a].orders@.len() && #[trigger] ls[a].orders@[b] == x;
        assert((a, b) != (i, j));
        if dropped {
            assert(a != i);
            if a < i {
                assert(nls[a].orders@[b] == x);
            } else {
                assert(nls[a - 1].orders@[b] == x);
            }
        } else if a != i {
            assert(nls[a].orders@[b] == x);
        } else if b < j {
            assert(nls[a].orders@[b] == x);
        } else {
            assert(nls[a].orders@[b - 1] == x);
        }
    }
}

/// Appending `o` to level `i` adds `o` and nothing else.
pub proof fn lemma_holds_after_append(ls: Seq<OrderQueue>, i: int, o: Order, nls: Seq<OrderQueue>)
    requires
        0 <= i < ls.len(),
        nls.len() == ls.len(),
        forall|k: int| 0 <= k < ls.len() && k != i ==> nls[k] == ls[k],
        nls[i].orders@ == ls[i].orders@.push(o),
    ensures
        forall|x: Order| holds(nls, x) <==> holds(ls, x) || x == o,
        ids_unique(ls) && (forall|x: Order| holds(ls, x) ==> x.id != o.id) ==> ids_unique(nls),
{
    assert forall|x: Order| holds(nls, x) implies holds(ls, x) || x == o by {
        let (a, b) = choose|a: int, b: int|
            0 <= a < nls.len() && 0 <= b < nls[a].orders@.len() && #[trigger] nls[a].orders@[b] == x;
        if a != i || b < ls[i].orders@.len() {
            assert(ls[a].orders@[b] == x);
        }
    }
    assert forall|x: Order| holds(ls, x) || x == o implies holds(nls, x) by {
        if x == o {
            assert(nls[i].orders@[ls[i].orders@.len() as int] == o);
        } else {
            let (a, b) = choose|a: int, b: int|
                0 <= a < ls.len() && 0 <= b < ls[a].orders@.len() && #[trigger] ls[a].orders@[b] == x;
            assert(nls[a].orders@[b] == x);
        }
    }
    if ids_unique(ls) && (forall|x: Order| holds(ls, x) ==> x.id != o.id) {
        assert forall|a: int, b: int, a2: int, b2: int|
            0 <= a < nls.len() && 0 <= b < nls[a].orders@.len() && 0 <= a2 < nls.len() && 0 <= b2
                < nls[a2].orders@.len() && (#[trigger] nls[a].orders@[b]).id == (
            #[trigger] nls[a2].orders@[b2]).id implies a == a2 && b == b2 by {
            let top = ls[i].orders@.len() as int;
            let old_a = !(a == i && b == top);
            let old_a2 = !(a2 == i && b2 == top);
            if old_a {
                assert(nls[a].orders@[b] == ls[a].orders@[b]);
                assert(holds(ls, ls[a].orders@[b]));
            }
            if old_a2 {
                assert(nls[a2].orders@[b2] == ls[a2].orders@[b2]);
                assert(holds(ls, ls[a2].orders@[b2]));
            }
        }
    }
}

/// Inserting the one-order level `q` at `i` adds its order and nothing else.
pub proof fn lemma_holds_after_insert(ls: Seq<OrderQueue>, i: int, q: OrderQueue, nls: Seq<OrderQueue>)
    requires
        0 <= i <= ls.len(),
        q.orders@.len() == 1,
        nls == ls.insert(i, q),
    ensures
        forall|x: Order| holds(nls, x) <==> holds(ls, x) || x == q.orders@[0],
        ids_unique(ls) && (forall|x: Order| holds(ls, x) ==> x.id != q.orders@[0].id) ==> ids_unique(nls),
{
    let o = q.orders@[0];
    assert forall|x: Order| holds(nls, x) implies holds(ls, x) || x == o by {
        let (a, b) = choose|a: int, b: int|
            0 <= a < nls.len() && 0 <= b < nls[a].orders@.len() && #[trigger] nls[a].orders@[b] == x;
        if a < i {
            assert(ls[a].orders@[b] == x);
        } else if a > i {
            assert(ls[a - 1].orders@[b] == x);
        }
    }
    assert forall|x: Order| holds(ls, x) || x == o implies holds(nls, x) by {
        if x == o {
            assert(nls[i].orders@[0] == o);
        } else {
            let (a, b) = choose|a: int, b: int|
                0 <= a < ls.len() && 0 <= b < ls[a].orders@.len() && #[trigger] ls[a].orders@[b] == x;
            if a < i {
                assert(nls[a].orders@[b] == x);
            } else {
                assert(nls[a + 1].orders@[b] == x);
            }
        }
    }
    if ids_unique(ls) && (forall|x: Order| holds(ls, x) ==> x.id != o.id) {
        assert forall|a: int, b: int, a2: int, b2: int|
            0 <= a < nls.len() && 0 <= b < nls[a].orders@.len() && 0 <= a2 < nls.len() && 0 <= b2
                < nls[a2].orders@.len() && (#[trigger] nls[a].orders@[b]).id == (
            #[trigger] nls[a2].orders@[b2]).id implies a == a2 && b == b2 by {
            let oa = if a < i { a } else { a - 1 };
            let oa2 = if a2 < i { a2 } else { a2 - 1 };
            if a != i {
                assert(nls[a].orders@[b] == ls[oa].orders@[b]);
                assert(holds(ls, ls[oa].orders@[b]));
            }
            if a2 != i {
                assert(nls[a2].orders@[b2] == ls[oa2].orders@[b2]);
                assert(holds(ls, ls[oa2].orders@[b2]));
            }
        }
    }
}

proof fn lemma_empty_sums(ls: Seq<OrderQueue>)
    requires
        ls.len() == 0,
    ensures
        vol_of(ls) == 0,
        notional_of(ls) == 0,
        count_of(ls) == 0,
{
    assert(ls.map_values(|q: OrderQueue| q.volume as int) =~= Seq::<int>::empty());
    assert(ls.map_values(|q: OrderQueue| q.price * q.volume) =~= Seq::<int>::empty());
    assert(ls.map_values(|q: OrderQueue| q.orders@.len() as int) =~= Seq::<int>::empty());
}

} // verus!
