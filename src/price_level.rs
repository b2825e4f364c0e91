use crate::order::Order;
use vstd::prelude::*;

verus! {

/// Sum of the open quantities of a sequence of orders.
pub open spec fn total(s: Seq<Order>) -> nat
    decreases s.len(),
{
    if s.len() == 0 {
        0
    } else {
        total(s.drop_last()) + s.last().quantity as nat
    }
}

/// Time priority: identifiers strictly increase along the queue.
pub open spec fn ids_increasing(s: Seq<Order>) -> bool {
    forall|i: int, j: int| 0 <= i < j < s.len() ==> s[i].id < s[j].id
}

/// Every order in the queue still has quantity open.
pub open spec fn all_positive(s: Seq<Order>) -> bool {
    forall|i: int| 0 <= i < s.len() ==> s[i].quantity > 0
}

/// Whether an order with identifier `id` is in the queue.
pub open spec fn has_id(s: Seq<Order>, id: u64) -> bool {
    exists|k: int| 0 <= k < s.len() && s[k].id == id
}

/// The queue with the order of identifier `id` taken out (unchanged if absent).
pub open spec fn without(s: Seq<Order>, id: u64) -> Seq<Order> {
    if has_id(s, id) {
        s.remove(choose|k: int| 0 <= k < s.len() && s[k].id == id)
    } else {
        s
    }
}

/// A taker of quantity `q` against the queue `s`, front first: whole orders are
/// consumed while they fit, then the next one is reduced in place.
/// Gives the queue left and the quantity not matched.
pub open spec fn fill(s: Seq<Order>, q: nat) -> (Seq<Order>, nat)
    decreases s.len(),
{
    if q == 0 || s.len() == 0 {
        (s, q)
    } else if s[0].quantity <= q {
        fill(s.drop_first(), (q - s[0].quantity) as nat)
    } else {
        (s.update(0, Order { id: s[0].id, quantity: (s[0].quantity - q) as u64 }), 0)
    }
}

/// What a price level holds: its price, its aggregate quantity and its queue.
pub struct LevelView {
    pub price: u64,
    pub quantity: nat,
    pub orders: Seq<Order>,
}

pub proof fn lemma_total_update(s: Seq<Order>, k: int, x: Order)
    requires
        0 <= k < s.len(),
    ensures
        total(s.update(k, x)) + s[k].quantity == total(s) + x.quantity,
    decreases s.len(),
{
    if k == s.len() - 1 {
        assert(s.update(k, x).drop_last() =~= s.drop_last());
    } else {
        assert(s.update(k, x).drop_last() =~= s.drop_last().update(k, x));
        lemma_total_update(s.drop_last(), k, x);
    }
}

pub proof fn lemma_total_remove(s: Seq<Order>, k: int)
    requires
        0 <= k < s.len(),
    ensures
        total(s.remove(k)) + s[k].quantity == total(s),
    decreases s.len(),
{
    if k == s.len() - 1 {
        assert(s.remove(k) =~= s.drop_last());
    } else {
        assert(s.remove(k).drop_last() =~= s.drop_last().remove(k));
        lemma_total_remove(s.drop_last(), k);
    }
}

pub proof fn lemma_total_push(s: Seq<Order>, x: Order)
    ensures
        total(s.push(x)) == total(s) + x.quantity,
{
    assert(s.push(x).drop_last() =~= s);
}

/// A queue left non-empty by a fill means the taker was fully matched.
pub proof fn lemma_fill_leftover(s: Seq<Order>, q: nat)
    ensures
        fill(s, q).0.len() > 0 ==> fill(s, q).1 == 0,
        fill(s, q).1 <= q,
    decreases s.len(),
{
    if q == 0 || s.len() == 0 {
    } else if s[0].quantity <= q {
        lemma_fill_leftover(s.drop_first(), (q - s[0].quantity) as nat);
    }
}

/// All the resting orders at one price, in time priority, with their
/// aggregate quantity.
pub struct PriceLevel {
    price: u64,
    quantity: u64,
    orders: Vec<Order>,
}

impl View for PriceLevel {
    type V = LevelView;

    closed spec fn view(&self) -> LevelView {
        LevelView { price: self.price, quantity: self.quantity as nat, orders: self.orders@ }
    }
}

impl PriceLevel {
    /// The aggregate equals the sum of the queue, identifiers increase along
    /// the queue, and every queued order has quantity open.
    pub open spec fn wf(&self) -> bool {
        &&& self@.quantity == total(self@.orders)
        &&& ids_increasing(self@.orders)
        &&& all_positive(self@.orders)
    }

    pub fn new(price: u64) -> (r: Self)
        ensures
            r.wf(),
            r@.price == price,
            r@.orders == Seq::<Order>::empty(),
    {
        PriceLevel { price, quantity: 0, orders: Vec::new() }
    }

    /// The order at the front of the queue, if any.
    pub fn peek_next_order(&self) -> (r: Option<Order>)
        ensures
            r == (if self@.orders.len() > 0 {
                Some(self@.orders[0])
            } else {
                None
            }),
    {
        if self.orders.len() > 0 {
            Some(self.orders[0])
        } else {
            None
        }
    }

    /// The order at the back of the queue, if any.
    pub fn peek_last_order(&self) -> (r: Option<Order>)
        ensures
            r == (if self@.orders.len() > 0 {
                Some(self@.orders.last())
            } else {
                None
            }),
    {
        let n = self.orders.len();
        if n > 0 {
            Some(self.orders[n - 1])
        } else {
            None
        }
    }

    /// Appends `order` at the back of the queue.
    pub fn add_order(&mut self, order: Order)
        requires
            old(self).wf(),
            order.quantity > 0,
            forall|k: int| 0 <= k < old(self)@.orders.len() ==> old(self)@.orders[k].id < order.id,
            old(self)@.quantity + order.quantity <= u64::MAX,
        ensures
            final(self).wf(),
            final(self)@.price == old(self)@.price,
            final(self)@.orders == old(self)@.orders.push(order),
            final(self)@.quantity == old(self)@.quantity + order.quantity,
    {
        proof {
            lemma_total_push(self.orders@, order);
        }
        self.quantity = self.quantity + order.quantity;
        self.orders.push(order);
    }

    /// Takes the front order out of the queue; no change on an empty level.
    pub fn remove_next_order(&mut self)
        requires
            old(self).wf(),
        ensures
            final(self).wf(),
            final(self)@.price == old(self)@.price,
            final(self)@.orders == (if old(self)@.orders.len() > 0 {
                old(self)@.orders.drop_first()
            } else {
                old(self)@.orders
            }),
            final(self)@.quantity == (if old(self)@.orders.len() > 0 {
                old(self)@.quantity - old(self)@.orders[0].quantity
            } else {
                old(self)@.quantity as int
            }),
    {
        if self.orders.len() > 0 {
            proof {
                lemma_total_remove(self.orders@, 0);
                assert(self.orders@.remove(0) =~= self.orders@.drop_first());
            }
            let o = self.orders.remove(0);
            self.quantity = self.quantity - o.quantity;
        }
    }

    /// Takes the order of identifier `id` out of the queue, wherever it stands.
    pub fn cancel_order(&mut self, id: u64)
        requires
            old(self).wf(),
        ensures
            final(self).wf(),
            final(self)@.price == old(self)@.price,
            final(self)@.orders == without(old(self)@.orders, id),
            final(self)@.quantity == (if has_id(old(self)@.orders, id) {
                old(self)@.quantity - old(self)@.orders[choose|k: int|
                    0 <= k < old(self)@.orders.len() && old(self)@.orders[k].id == id].quantity
            } else {
                old(self)@.quantity as int
            }),
    {
        let n = self.orders.len();
        let mut k: usize = 0;
        while k < n && self.orders[k].id != id
            invariant
                n == self.orders@.len(),
                0 <= k <= n,
                forall|t: int| 0 <= t < k ==> self.orders@[t].id != id,
            decreases n - k,
        {
            k = k + 1;
        }
        if k < n {
            proof {
                let c = choose|c: int| 0 <= c < self.orders@.len() && self.orders@[c].id == id;
                assert(c == k) by {
                    if c < k {
                        assert(self.orders@[c].id < self.orders@[k as int].id);
                    } else if c > k {
                        assert(self.orders@[k as int].id < self.orders@[c].id);
                    }
                }
                lemma_total_remove(self.orders@, k as int);
            }
            let o = self.orders.remove(k);
            self.quantity = self.quantity - o.quantity;
        }
    }

    /// Matches a taker of quantity `q` against the queue, front first.
    /// Returns the quantity not matched and the identifiers of the orders
    /// that were filled completely, in the order they left.
    pub fn fill(&mut self, q: u64) -> (r: (u64, Vec<u64>))
        requires
            old(self).wf(),
        ensures
            final(self).wf(),
            final(self)@.price == old(self)@.price,
            (final(self)@.orders, r.0 as nat) == fill(old(self)@.orders, q as nat),
            r.1@.len() + final(self)@.orders.len() == old(self)@.orders.len(),
            forall|t: int| 0 <= t < r.1@.len() ==> r.1@[t] == old(self)@.orders[t].id,
            forall|t: int|
                0 <= t < final(self)@.orders.len() ==> final(self)@.orders[t].id == old(
                    self,
                )@.orders[t + r.1@.len()].id,
    {
        let ghost s0 = self.orders@;
        let mut rem = q;
        let mut filled: Vec<u64> = Vec::new();
        while rem > 0 && self.orders.len() > 0
            invariant
                self.wf(),
                self@.price == old(self)@.price,
                s0 == old(self)@.orders,
                fill(self@.orders, rem as nat) == fill(s0, q as nat),
                filled@.len() + self@.orders.len() == s0.len(),
                forall|t: int| 0 <= t < filled@.len() ==> filled@[t] == s0[t].id,
                forall|t: int|
                    0 <= t < self@.orders.len() ==> self@.orders[t].id == s0[t + filled@.len()].id,
            decreases self.orders.len(), rem,
        {
            let front = self.orders[0];
            if front.quantity <= rem {
                proof {
                    lemma_total_remove(self.orders@, 0);
                    assert(self.orders@.remove(0) =~= self.orders@.drop_first());
                }
                self.orders.remove(0);
                self.quantity = self.quantity - front.quantity;
                rem = rem - front.quantity;
                filled.push(front.id);
            } else {
                let reduced = Order { id: front.id, quantity: front.quantity - rem };
                proof {
                    lemma_total_update(self.orders@, 0, reduced);
                }
                self.orders.set(0, reduced);
                self.quantity = self.quantity - rem;
                rem = 0;
            }
        }
        (rem, filled)
    }

    /// The aggregate open quantity at this level.
    pub fn quantity(&self) -> (r: u64)
        ensures
            r == self@.quantity,
    {
        self.quantity
    }

    pub fn price(&self) -> (r: u64)
        ensures
            r == self@.price,
    {
        self.price
    }

    /// Number of orders queued at this level.
    pub fn len(&self) -> (r: usize)
        ensures
            r == self@.orders.len(),
    {
        self.orders.len()
    }
}

} // verus!
