use crate::order::Order;
use crate::sums::{lemma_sum_push, lemma_sum_remove, lemma_sum_update, lemma_sum_nonneg, sum_of};
use vstd::prelude::*;

verus! {

/// The total quantity of a sequence of orders.
pub open spec fn qty_of(s: Seq<Order>) -> int {
    sum_of(s.map_values(|o: Order| o.quantity as int))
}

/// The position of the first order with the given id.
pub open spec fn first_with_id(s: Seq<Order>, id: u32) -> int {
    choose|i: int|
        0 <= i < s.len() && s[i].id == id && forall|k: int| 0 <= k < i ==> s[k].id != id
}

pub proof fn lemma_qty_push(s: Seq<Order>, o: Order)
    ensures
        qty_of(s.push(o)) == qty_of(s) + o.quantity,
{
    let f = |o: Order| o.quantity as int;
    assert(s.push(o).map_values(f) =~= s.map_values(f).push(f(o)));
    lemma_sum_push(s.map_values(f), f(o));
}

pub proof fn lemma_qty_remove(s: Seq<Order>, i: int)
    requires
        0 <= i < s.len(),
    ensures
        qty_of(s.remove(i)) == qty_of(s) - s[i].quantity,
        s[i].quantity <= qty_of(s),
{
    let f = |o: Order| o.quantity as int;
    assert(s.remove(i).map_values(f) =~= s.map_values(f).remove(i));
    lemma_sum_remove(s.map_values(f), i);
    lemma_sum_nonneg(s.map_values(f));
}

pub proof fn lemma_qty_update(s: Seq<Order>, i: int, o: Order)
    requires
        0 <= i < s.len(),
    ensures
        qty_of(s.update(i, o)) == qty_of(s) - s[i].quantity + o.quantity,
        s[i].quantity <= qty_of(s),
{
    let f = |o: Order| o.quantity as int;
    assert(s.update(i, o).map_values(f) =~= s.map_values(f).update(i, f(o)));
    lemma_sum_update(s.map_values(f), i, f(o));
    lemma_sum_nonneg(s.map_values(f));
}

pub proof fn lemma_qty_nonneg(s: Seq<Order>)
    ensures
        qty_of(s) >= 0,
        forall|i: int| 0 <= i < s.len() ==> s[i].quantity <= qty_of(s),
{
    let f = |o: Order| o.quantity as int;
    lemma_sum_nonneg(s.map_values(f));
    assert forall|i: int| 0 <= i < s.len() implies s[i].quantity <= qty_of(s) by {
        assert(s.map_values(f)[i] == s[i].quantity);
    }
}

/// The resting orders at one price, in arrival order: the head trades first.
#[derive(Debug)]
pub struct OrderQueue {
    pub price: usize,
    pub volume: usize,
    pub orders: Vec<Order>,
}

impl OrderQueue {
    /// The orders of the level, head first.
    pub open spec fn orders_view(&self) -> Seq<Order> {
        self.orders@
    }

    /// The level's volume is the total quantity of its orders.
    pub open spec fn wf(&self) -> bool {
        self.volume == qty_of(self.orders_view())
    }

    pub fn new(price: usize) -> (r: OrderQueue)
        ensures
            r.price == price,
            r.volume == 0,
            r.orders_view() == Seq::<Order>::empty(),
            r.wf(),
    {
        let r = OrderQueue { price, volume: 0, orders: Vec::new() };
        proof {
            assert(r.orders@.map_values(|o: Order| o.quantity as int) =~= Seq::<int>::empty());
        }
        r
    }

    /// Adds an order at the tail and returns it.
    pub fn append(&mut self, order: Order) -> (r: &Order)
        requires
            old(self).volume + order.quantity <= usize::MAX,
        ensures
            *r == order,
            final(self).price == old(self).price,
            final(self).volume == old(self).volume + order.quantity,
            final(self).orders_view() == old(self).orders_view().push(order),
            old(self).wf() ==> final(self).wf(),
    {
        proof {
            lemma_qty_push(self.orders@, order);
        }
        self.volume = self.volume + order.quantity;
        self.orders.push(order);
        let n = self.orders.len();
        &self.orders[n - 1]
    }

    /// Removes the first order whose id is that of `order`, if any.
    pub fn remove(&mut self, order: &Order) -> (r: Option<Order>)
        requires
            old(self).wf(),
        ensures
            final(self).price == old(self).price,
            final(self).wf(),
            match r {
                None => {
                    &&& forall|k: int|
                        0 <= k < old(self).orders_view().len() ==> old(self).orders_view()[k].id
                            != order.id
                    &&& *final(self) == *old(self)
                },
                Some(o) => {
                    let i = first_with_id(old(self).orders_view(), order.id);
                    &&& 0 <= i < old(self).orders_view().len()
                    &&& old(self).orders_view()[i].id == order.id
                    &&& forall|k: int| 0 <= k < i ==> old(self).orders_view()[k].id != order.id
                    &&& o == old(self).orders_view()[i]
                    &&& final(self).orders_view() == old(self).orders_view().remove(i)
                    &&& final(self).volume == old(self).volume - o.quantity
                },
            },
    {
        let n = self.orders.len();
        let mut i: usize = 0;
        while i < n
            invariant
                *self == *old(self),
                self.wf(),
                n == self.orders@.len(),
                0 <= i <= n,
                forall|k: int| 0 <= k < i ==> self.orders@[k].id != order.id,
            decreases n - i,
        {
            if self.orders[i].id == order.id {
                proof {
                    let s = self.orders@;
                    let c = first_with_id(s, order.id);
                    assert(0 <= c < s.len() && s[c].id == order.id && forall|k: int|
                        0 <= k < c ==> s[k].id != order.id);
                    assert(c == i as int);
                    lemma_qty_remove(s, i as int);
                }
                let o = self.orders.remove(i);
                self.volume = self.volume - o.quantity;
                return Some(o);
            }
            i = i + 1;
        }
        None
    }

    pub fn len(&self) -> (r: usize)
        ensures
            r == self.orders_view().len(),
    {
        self.orders.len()
    }

    /// The order that trades next, if any.
    pub fn head(&self) -> (r: Option<&Order>)
        ensures
            match r {
                Some(o) => self.orders_view().len() > 0 && *o == self.orders_view()[0],
                None => self.orders_view().len() == 0,
            },
    {
        if self.orders.len() > 0 {
            Some(&self.orders[0])
        } else {
            None
        }
    }

    /// Replaces the head in place, moving the volume by the difference of
    /// the two quantities.
    pub fn update_head(&mut self, old_order: Order, new_order: Order)
        requires
            old(self).orders_view().len() > 0,
            new_order.id == old_order.id,
            old_order.quantity <= old(self).volume,
            old(self).volume - old_order.quantity + new_order.quantity <= usize::MAX,
        ensures
            final(self).price == old(self).price,
            final(self).volume == old(self).volume - old_order.quantity + new_order.quantity,
            final(self).orders_view() == old(self).orders_view().update(0, new_order),
            old(self).wf() && old_order.quantity == old(self).orders_view()[0].quantity
                ==> final(self).wf(),
    {
        proof {
            lemma_qty_update(self.orders@, 0, new_order);
        }
        self.volume = self.volume - old_order.quantity;
        self.volume = self.volume + new_order.quantity;
        self.orders.set(0, new_order);
    }
}

} // verus!
