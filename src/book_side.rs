//! One side of the book: its levels in price priority, the id index that
//! points into it, and the cross, rest and cancel routines on it.
use crate::order::{Order, OrderSide};
use crate::price_level::{
    all_positive, fill, has_id, ids_increasing, lemma_fill_leftover, lemma_total_push, total, without, LevelView, PriceLevel,
};
use crate::price_level_key::{better, is_better};
use std::collections::HashMap;
use vstd::prelude::*;

verus! {

broadcast use vstd::std_specs::hash::group_hash_axioms;

/// The views of a side's levels, best first.
pub open spec fn views(levels: Seq<PriceLevel>) -> Seq<LevelView> {
    levels.map_values(|l: PriceLevel| l@)
}

/// A level that may rest in the book: non-empty, its aggregate the sum of its
/// queue, time priority kept, and every order with quantity open.
pub open spec fn level_ok(l: LevelView) -> bool {
    &&& l.orders.len() > 0
    &&& l.quantity == total(l.orders)
    &&& ids_increasing(l.orders)
    &&& all_positive(l.orders)
}

/// A side of the book: levels strictly in price priority, each one valid.
pub open spec fn side_ok(ls: Seq<LevelView>, side: OrderSide) -> bool {
    &&& forall|i: int, j: int|
        0 <= i < j < ls.len() ==> #[trigger] better(side, ls[i].price, ls[j].price)
    &&& forall|i: int| 0 <= i < ls.len() ==> #[trigger] level_ok(ls[i])
}

/// The best price of a side, or `None` for an empty side.
pub open spec fn top(ls: Seq<LevelView>) -> Option<u64> {
    if ls.len() > 0 {
        Some(ls[0].price)
    } else {
        None
    }
}

/// Whether a level at `price` on `side` may be matched by a taker whose limit
/// is `bound` (`None` for a market order).
pub open spec fn acceptable(side: OrderSide, price: u64, bound: Option<u64>) -> bool {
    match bound {
        None => true,
        Some(b) => !better(side, b, price),
    }
}

/// The cross routine: a taker of quantity `q` walks the levels of `side`
/// best first, filling each acceptable level in time priority. Emptied levels
/// leave the side. Gives the side left and the quantity not matched.
pub open spec fn cross(ls: Seq<LevelView>, q: nat, side: OrderSide, bound: Option<u64>) -> (
    Seq<LevelView>,
    nat,
)
    decreases ls.len(),
{
    if q == 0 || ls.len() == 0 || !acceptable(side, ls[0].price, bound) {
        (ls, q)
    } else {
        let (os, r) = fill(ls[0].orders, q);
        if os.len() == 0 {
            cross(ls.drop_first(), r, side, bound)
        } else {
            (ls.update(0, LevelView { price: ls[0].price, quantity: total(os), orders: os }), r)
        }
    }
}

/// The queue resting at `price` on a side, empty if no level has that price.
pub open spec fn orders_at(ls: Seq<LevelView>, price: u64) -> Seq<Order> {
    if exists|i: int| 0 <= i < ls.len() && ls[i].price == price {
        ls[choose|i: int| 0 <= i < ls.len() && ls[i].price == price].orders
    } else {
        Seq::empty()
    }
}

/// Whether an order of identifier `id` rests on a side.
pub open spec fn side_has(ls: Seq<LevelView>, id: u64) -> bool {
    exists|i: int, j: int| 0 <= i < ls.len() && 0 <= j < ls[i].orders.len() && ls[i].orders[j].id == id
}

/// The id index agrees with a side: each order there is indexed under its side
/// and level price, and each index entry for that side names a resting order.
pub open spec fn index_agrees(idx: Map<u64, (OrderSide, u64)>, ls: Seq<LevelView>, side: OrderSide) -> bool {
    &&& forall|i: int, j: int|
        0 <= i < ls.len() && 0 <= j < ls[i].orders.len() ==> {
            &&& idx.contains_key(#[trigger] ls[i].orders[j].id)
            &&& idx[ls[i].orders[j].id] == (side, ls[i].price)
        }
    &&& forall|id: u64| idx.contains_key(id) && (#[trigger] idx[id]).0 == side ==> side_has(ls, id)
}

pub(crate) proof fn lemma_orders_at_index(ls: Seq<LevelView>, side: OrderSide, i: int)
    requires
        side_ok(ls, side),
        0 <= i < ls.len(),
    ensures
        orders_at(ls, ls[i].price) == ls[i].orders,
{
    let c = choose|c: int| 0 <= c < ls.len() && ls[c].price == ls[i].price;
    if c < i {
        assert(better(side, ls[c].price, ls[i].price));
    } else if c > i {
        assert(better(side, ls[i].price, ls[c].price));
    }
}

pub(crate) proof fn lemma_orders_at_absent(ls: Seq<LevelView>, price: u64)
    requires
        forall|i: int| 0 <= i < ls.len() ==> ls[i].price != price,
    ensures
        orders_at(ls, price) == Seq::<Order>::empty(),
{
}

/// An index that changed only in entries of other sides still agrees with `ls`.
pub(crate) proof fn lemma_agrees_transfer(
    a: Map<u64, (OrderSide, u64)>,
    b: Map<u64, (OrderSide, u64)>,
    ls: Seq<LevelView>,
    side: OrderSide,
)
    requires
        index_agrees(a, ls, side),
        forall|id: u64| a.contains_key(id) && a[id].0 == side ==> b.contains_key(id) && b[id] == a[id],
        forall|id: u64| b.contains_key(id) && b[id].0 == side ==> a.contains_key(id) && b[id] == a[id],
    ensures
        index_agrees(b, ls, side),
{
    assert forall|id: u64| b.contains_key(id) && (#[trigger] b[id]).0 == side implies side_has(ls, id) by {
        assert(a.contains_key(id) && a[id].0 == side);
    }
}

/// Facts on the result of the cross routine: the side stays no better than
/// it was, a remainder means nothing acceptable is left, and nothing is
/// matched beyond the taker's quantity.
pub(crate) proof fn lemma_cross(ls: Seq<LevelView>, q: nat, side: OrderSide, bound: Option<u64>)
    requires
        side_ok(ls, side),
    ensures
        ({
            let (ls2, r) = cross(ls, q, side, bound);
            &&& r <= q
            &&& ls2.len() > 0 ==> ls.len() > 0 && !better(side, ls2[0].price, ls[0].price)
            &&& r > 0 ==> ls2.len() == 0 || !acceptable(side, ls2[0].price, bound)
        }),
    decreases ls.len(),
{
    if q == 0 || ls.len() == 0 || !acceptable(side, ls[0].price, bound) {
    } else {
        let (os, r) = fill(ls[0].orders, q);
        lemma_fill_leftover(ls[0].orders, q);
        if os.len() == 0 {
            let tail = ls.drop_first();
            assert(side_ok(tail, side)) by {
                assert forall|i: int| 0 <= i < tail.len() implies #[trigger] level_ok(tail[i]) by {
                    assert(level_ok(ls[i + 1]));
                }
                assert forall|i: int, j: int| 0 <= i < j < tail.len() implies #[trigger] better(
                    side,
                    tail[i].price,
                    tail[j].price,
                ) by {
                    assert(better(side, ls[i + 1].price, ls[j + 1].price));
                }
            }
            lemma_cross(tail, r, side, bound);
            let (ls2, r2) = cross(tail, r, side, bound);
            if ls2.len() > 0 {
                assert(better(side, ls[0].price, ls[1].price));
            }
        }
    }
}



/// The side after one pass over its best level: that level replaced by what
/// is left of it, or dropped when nothing is.
spec fn after_front(before: Seq<LevelView>, lv: LevelView) -> Seq<LevelView> {
    if lv.orders.len() > 0 {
        before.update(0, lv)
    } else {
        before.drop_first()
    }
}

proof fn step_cross(
    before: Seq<LevelView>,
    lv: LevelView,
    q: nat,
    r: nat,
    side: OrderSide,
    bound: Option<u64>,
)
    requires
        before.len() > 0,
        q > 0,
        acceptable(side, before[0].price, bound),
        (lv.orders, r) == fill(before[0].orders, q),
        lv.price == before[0].price,
        lv.quantity == total(lv.orders),
    ensures
        cross(after_front(before, lv), r, side, bound) == cross(before, q, side, bound),
{
    lemma_fill_leftover(before[0].orders, q);
    if lv.orders.len() > 0 {
        assert(lv == (LevelView { price: before[0].price, quantity: total(lv.orders), orders: lv.orders }));
    }
}

proof fn step_side(before: Seq<LevelView>, lv: LevelView, side: OrderSide)
    requires
        side_ok(before, side),
        before.len() > 0,
        lv.price == before[0].price,
        lv.orders.len() > 0 ==> level_ok(lv),
    ensures
        side_ok(after_front(before, lv), side),
{
    let after = after_front(before, lv);
    assert forall|i: int, j: int| 0 <= i < j < after.len() implies #[trigger] better(side, after[i].price, after[j].price) by {
        if lv.orders.len() > 0 {
            assert(better(side, before[i].price, before[j].price));
        } else {
            assert(better(side, before[i + 1].price, before[j + 1].price));
        }
    }
    assert forall|i: int| 0 <= i < after.len() implies #[trigger] level_ok(after[i]) by {
        if lv.orders.len() > 0 {
            if i > 0 {
                assert(level_ok(before[i]));
            }
        } else {
            assert(level_ok(before[i + 1]));
        }
    }
}

proof fn step_index(
    before: Seq<LevelView>,
    idx1: Map<u64, (OrderSide, u64)>,
    idx2: Map<u64, (OrderSide, u64)>,
    filled: Seq<u64>,
    lv: LevelView,
    side: OrderSide,
)
    requires
        side_ok(before, side),
        index_agrees(idx1, before, side),
        before.len() > 0,
        lv.price == before[0].price,
        filled.len() + lv.orders.len() == before[0].orders.len(),
        forall|t: int| 0 <= t < filled.len() ==> filled[t] == before[0].orders[t].id,
        forall|t: int| 0 <= t < lv.orders.len() ==> lv.orders[t].id == before[0].orders[t + filled.len()].id,
        forall|id: u64| #[trigger] idx2.contains_key(id) <==> idx1.contains_key(id) && !filled.contains(id),
        forall|id: u64| #[trigger] idx2.contains_key(id) ==> idx2[id] == idx1[id],
    ensures
        index_agrees(idx2, after_front(before, lv), side),
{
    let after = after_front(before, lv);
    let k = filled.len() as int;
    let b0 = before[0];
    assert(level_ok(b0));
    assert forall|i: int, j: int| 0 <= i < after.len() && 0 <= j < after[i].orders.len() implies {
        &&& idx2.contains_key(#[trigger] after[i].orders[j].id)
        &&& idx2[after[i].orders[j].id] == (side, after[i].price)
    } by {
        let id = after[i].orders[j].id;
        if lv.orders.len() > 0 && i == 0 {
            assert(after[0] == lv);
            assert(id == b0.orders[j + k].id);
            assert(idx1.contains_key(b0.orders[j + k].id));
            assert(idx1[b0.orders[j + k].id] == (side, b0.price));
            if filled.contains(id) {
                let w = choose|w: int| 0 <= w < filled.len() && filled[w] == id;
                assert(b0.orders[w].id < b0.orders[j + k].id);
            }
            assert(idx2.contains_key(id));
        } else {
            let i2 = if lv.orders.len() > 0 { i } else { i + 1 };
            assert(after[i] == before[i2]);
            assert(idx1.contains_key(before[i2].orders[j].id));
            assert(better(side, b0.price, before[i2].price));
            assert(idx1[before[i2].orders[j].id] == (side, before[i2].price));
            if filled.contains(id) {
                let w = choose|w: int| 0 <= w < filled.len() && filled[w] == id;
                assert(idx1[b0.orders[w].id] == (side, b0.price));
            }
            assert(idx2.contains_key(id));
        }
    }
    assert forall|id: u64| idx2.contains_key(id) && (#[trigger] idx2[id]).0 == side implies side_has(after, id) by {
        assert(idx1.contains_key(id) && idx1[id].0 == side);
        assert(side_has(before, id));
        let (i, j) = choose|i: int, j: int| 0 <= i < before.len() && 0 <= j < before[i].orders.len() && before[i].orders[j].id == id;
        if i == 0 {
            if j < k {
                assert(filled[j] == id);
                assert(filled.contains(id));
            }
            assert(lv.orders[j - k].id == id);
            assert(after[0] == lv);
        } else if lv.orders.len() > 0 {
            assert(after[i] == before[i]);
        } else {
            assert(after[i - 1] == before[i]);
        }
    }
}

/// Runs the cross routine against one side of the book, keeping the id index
/// in step: the identifiers of the orders filled completely leave it.
pub(crate) fn cross_side(
    levels: &mut Vec<PriceLevel>,
    index: &mut HashMap<u64, (OrderSide, u64)>,
    side: OrderSide,
    bound: Option<u64>,
    quantity: u64,
) -> (rem: u64)
    requires
        side_ok(views(old(levels)@), side),
        index_agrees(old(index)@, views(old(levels)@), side),
    ensures
        (views(final(levels)@), rem as nat) == cross(views(old(levels)@), quantity as nat, side, bound),
        side_ok(views(final(levels)@), side),
        index_agrees(final(index)@, views(final(levels)@), side),
        forall|id: u64|
            #[trigger] final(index)@.contains_key(id) ==> old(index)@.contains_key(id)
                && final(index)@[id] == old(index)@[id],
        forall|id: u64|
            #[trigger] old(index)@.contains_key(id) && old(index)@[id].0 != side
                ==> final(index)@.contains_key(id),
{
    let ghost ls0 = views(levels@);
    let ghost idx0 = index@;
    let mut q = quantity;
    while q > 0 && levels.len() > 0 && acceptable_exec(side, levels[0].price(), bound)
        invariant
            side_ok(views(levels@), side),
            index_agrees(index@, views(levels@), side),
            cross(views(levels@), q as nat, side, bound) == cross(ls0, quantity as nat, side, bound),
            forall|id: u64|
                #[trigger] index@.contains_key(id) ==> idx0.contains_key(id) && index@[id] == idx0[id],
            forall|id: u64| #[trigger] idx0.contains_key(id) && idx0[id].0 != side ==> index@.contains_key(id),
            idx0 == old(index)@,
            ls0 == views(old(levels)@),
        decreases levels.len(), q,
    {
        let ghost before = views(levels@);
        let ghost idx1 = index@;
        let mut level = levels.remove(0);
        assert(views(levels@) =~= before.drop_first());
        assert(level@ == before[0]);
        let ghost q_in = q;
        assert(level_ok(before[0]));
        proof {
            lemma_fill_leftover(before[0].orders, q as nat);
        }
        let (r, filled) = level.fill(q);
        let ghost k = filled@.len();
        let ghost lv = level@;
        let mut t: usize = 0;
        while t < filled.len()
            invariant
                0 <= t <= filled@.len(),
                forall|id: u64|
                    #[trigger] index@.contains_key(id) <==> idx1.contains_key(id) && (forall|w: int|
                        0 <= w < t ==> filled@[w] != id),
                forall|id: u64| #[trigger] index@.contains_key(id) ==> index@[id] == idx1[id],
            decreases filled.len() - t,
        {
            let id = filled[t];
            let ghost prev = index@;
            index.remove(&id);
            proof {
                assert forall|x: u64| #[trigger] index@.contains_key(x) <==> idx1.contains_key(x) && (forall|w: int|
                        0 <= w < t + 1 ==> filled@[w] != x) by {
                    assert(prev.contains_key(x) <==> idx1.contains_key(x) && (forall|w: int|
                        0 <= w < t ==> filled@[w] != x));
                    if x != id {
                        if !(forall|w: int| 0 <= w < t + 1 ==> filled@[w] != x) {
                            let w = choose|w: int| 0 <= w < t + 1 && filled@[w] == x;
                            assert(w < t);
                        }
                    }
                }
            }
            t = t + 1;
        }
        assert forall|id: u64| #[trigger] index@.contains_key(id) <==> idx1.contains_key(id) && !filled@.contains(id) by {
            if filled@.contains(id) {
                let w = choose|w: int| 0 <= w < filled@.len() && filled@[w] == id;
                assert(filled@[w] == id);
            }
        }
        q = r;
        if level.len() > 0 {
            levels.insert(0, level);
            assert(views(levels@) =~= before.update(0, lv));
        }
        proof {
            assert(views(levels@) == after_front(before, lv));
            step_cross(before, lv, q_in as nat, r as nat, side, bound);
            step_side(before, lv, side);
            step_index(before, idx1, index@, filled@, lv, side);
        }
    }
    q
}


/// Resting on a side changes the queue at `price` only, by appending `o`.
pub open spec fn rested(before: Seq<LevelView>, after: Seq<LevelView>, price: u64, o: Order) -> bool {
    forall|p: u64|
        #[trigger] orders_at(after, p) == if p == price {
            orders_at(before, p).push(o)
        } else {
            orders_at(before, p)
        }
}

proof fn rest_index(
    before: Seq<LevelView>,
    after: Seq<LevelView>,
    idx: Map<u64, (OrderSide, u64)>,
    side: OrderSide,
    i: int,
    price: u64,
    o: Order,
    fresh_level: bool,
)
    requires
        side_ok(after, side),
        index_agrees(idx, before, side),
        !idx.contains_key(o.id),
        0 <= i < after.len(),
        after[i].price == price,
        i <= before.len(),
        fresh_level ==> after == before.insert(i, after[i]) && after[i].orders == seq![o],
        !fresh_level ==> i < before.len() && after == before.update(i, after[i])
            && after[i].orders == before[i].orders.push(o) && before[i].price == price,
    ensures
        index_agrees(idx.insert(o.id, (side, price)), after, side),
{
    let idx2 = idx.insert(o.id, (side, price));
    assert forall|a: int, j: int| 0 <= a < after.len() && 0 <= j < after[a].orders.len() implies {
        &&& idx2.contains_key(#[trigger] after[a].orders[j].id)
        &&& idx2[after[a].orders[j].id] == (side, after[a].price)
    } by {
        if a == i {
            if !fresh_level && j < before[i].orders.len() {
                assert(after[a].orders[j] == before[i].orders[j]);
                assert(idx.contains_key(before[i].orders[j].id));
            }
        } else if fresh_level && a > i {
            assert(after[a] == before[a - 1]);
            assert(idx.contains_key(before[a - 1].orders[j].id));
        } else {
            assert(after[a] == before[a]);
            assert(idx.contains_key(before[a].orders[j].id));
        }
    }
    assert forall|id: u64| idx2.contains_key(id) && (#[trigger] idx2[id]).0 == side implies side_has(after, id) by {
        if id == o.id {
            if fresh_level {
                assert(after[i].orders[0].id == id);
            } else {
                assert(after[i].orders[before[i].orders.len() as int].id == id);
            }
        } else {
            assert(idx.contains_key(id) && idx[id].0 == side);
            assert(side_has(before, id));
            let (a, j) = choose|a: int, j: int| 0 <= a < before.len() && 0 <= j < before[a].orders.len() && before[a].orders[j].id == id;
            if a == i && !fresh_level {
                assert(after[i].orders[j] == before[i].orders[j]);
            } else if fresh_level && a >= i {
                assert(after[a + 1] == before[a]);
            } else {
                assert(after[a] == before[a]);
            }
        }
    }
}

proof fn rest_orders_at(
    before: Seq<LevelView>,
    after: Seq<LevelView>,
    side: OrderSide,
    i: int,
    price: u64,
    o: Order,
    fresh_level: bool,
)
    requires
        side_ok(before, side),
        side_ok(after, side),
        0 <= i < after.len(),
        after[i].price == price,
        i <= before.len(),
        fresh_level ==> after == before.insert(i, after[i]) && after[i].orders == seq![o],
        fresh_level ==> forall|t: int| 0 <= t < before.len() ==> before[t].price != price,
        !fresh_level ==> i < before.len() && after == before.update(i, after[i])
            && after[i].orders == before[i].orders.push(o) && before[i].price == price,
    ensures
        rested(before, after, price, o),
{
    assert forall|p: u64| #[trigger] orders_at(after, p) == if p == price {
        orders_at(before, p).push(o)
    } else {
        orders_at(before, p)
    } by {
        if p == price {
            lemma_orders_at_index(after, side, i);
            if fresh_level {
                lemma_orders_at_absent(before, p);
                assert(seq![o] =~= Seq::<Order>::empty().push(o));
            } else {
                lemma_orders_at_index(before, side, i);
            }
        } else if exists|t: int| 0 <= t < before.len() && before[t].price == p {
            let t = choose|t: int| 0 <= t < before.len() && before[t].price == p;
            lemma_orders_at_index(before, side, t);
            if fresh_level && t >= i {
                assert(after[t + 1] == before[t]);
                lemma_orders_at_index(after, side, t + 1);
            } else {
                assert(after[t] == before[t]);
                lemma_orders_at_index(after, side, t);
            }
        } else {
            lemma_orders_at_absent(before, p);
            assert forall|t: int| 0 <= t < after.len() implies after[t].price != p by {
                if t != i {
                    if fresh_level && t > i {
                        assert(after[t] == before[t - 1]);
                    } else {
                        assert(after[t] == before[t]);
                    }
                }
            }
            lemma_orders_at_absent(after, p);
        }
    }
}

/// Rests `order` on a side at `price`, behind the orders already there,
/// opening a level where none has that price, and indexes it.
pub(crate) fn rest_side(
    levels: &mut Vec<PriceLevel>,
    index: &mut HashMap<u64, (OrderSide, u64)>,
    side: OrderSide,
    price: u64,
    order: Order,
)
    requires
        side_ok(views(old(levels)@), side),
        index_agrees(old(index)@, views(old(levels)@), side),
        order.quantity > 0,
        forall|id: u64| old(index)@.contains_key(id) ==> id < order.id,
        total(orders_at(views(old(levels)@), price)) + order.quantity <= u64::MAX,
    ensures
        side_ok(views(final(levels)@), side),
        index_agrees(final(index)@, views(final(levels)@), side),
        final(index)@ == old(index)@.insert(order.id, (side, price)),
        rested(views(old(levels)@), views(final(levels)@), price, order),
        top(views(final(levels)@)) == (if old(levels)@.len() == 0 || better(
            side,
            price,
            views(old(levels)@)[0].price,
        ) {
            Some(price)
        } else {
            top(views(old(levels)@))
        }),
{
    let ghost ls = views(levels@);
    let n = levels.len();
    let mut i: usize = 0;
    while i < n && is_better(side, levels[i].price(), price)
        invariant
            n == levels@.len(),
            ls == views(levels@),
            0 <= i <= n,
            forall|t: int| 0 <= t < i ==> better(side, ls[t].price, price),
        decreases n - i,
    {
        i = i + 1;
    }
    if i < n && levels[i].price() == price {
        let mut level = levels.remove(i);
        assert(level@ == ls[i as int]);
        assert(level_ok(ls[i as int]));
        proof {
            lemma_orders_at_index(ls, side, i as int);
            assert forall|k: int| 0 <= k < level@.orders.len() implies level@.orders[k].id < order.id by {
                assert(index@.contains_key(ls[i as int].orders[k].id));
            }
        }
        level.add_order(order);
        levels.insert(i, level);
        proof {
            let after = views(levels@);
            assert(after =~= ls.update(i as int, level@));
            lemma_total_push(ls[i as int].orders, order);
            assert forall|a: int, b: int| 0 <= a < b < after.len() implies #[trigger] better(side, after[a].price, after[b].price) by {
                assert(better(side, ls[a].price, ls[b].price));
            }
            assert forall|a: int| 0 <= a < after.len() implies #[trigger] level_ok(after[a]) by {
                if a != i {
                    assert(level_ok(ls[a]));
                }
            }
            if i > 0 {
                assert(better(side, ls[0].price, price));
            }
            rest_orders_at(ls, after, side, i as int, price, order, false);
            rest_index(ls, after, index@, side, i as int, price, order, false);
        }
    } else {
        let mut level = PriceLevel::new(price);
        level.add_order(order);
        levels.insert(i, level);
        proof {
            let after = views(levels@);
            assert(after =~= ls.insert(i as int, level@));
            assert(level@.orders =~= seq![order]);
            lemma_total_push(Seq::<Order>::empty(), order);
            assert forall|t: int| i <= t < ls.len() implies better(side, price, ls[t].price) by {
                if t > i {
                    assert(better(side, ls[i as int].price, ls[t].price));
                }
            }
            assert forall|a: int, b: int| 0 <= a < b < after.len() implies #[trigger] better(side, after[a].price, after[b].price) by {
                if a < i && b > i {
                    assert(better(side, ls[a].price, ls[b - 1].price));
                } else if a > i {
                    assert(better(side, ls[a - 1].price, ls[b - 1].price));
                } else if b < i {
                    assert(better(side, ls[a].price, ls[b].price));
                }
            }
            assert forall|a: int| 0 <= a < after.len() implies #[trigger] level_ok(after[a]) by {
                if a < i {
                    assert(level_ok(ls[a]));
                } else if a > i {
                    assert(level_ok(ls[a - 1]));
                }
            }
            if i > 0 {
                assert(after[0] == ls[0]);
                assert(better(side, ls[0].price, price));
            }
            rest_orders_at(ls, after, side, i as int, price, order, true);
            rest_index(ls, after, index@, side, i as int, price, order, true);
        }
    }
    index.insert(order.id, (side, price));
}

/// Cancelling on a side takes the order of identifier `id` out of every queue.
pub open spec fn cancelled(before: Seq<LevelView>, after: Seq<LevelView>, id: u64) -> bool {
    forall|p: u64| #[trigger] orders_at(after, p) == without(orders_at(before, p), id)
}

/// The side with the level at `i` replaced by `lv`, or dropped when `lv` is empty.
spec fn replace_level(before: Seq<LevelView>, i: int, lv: LevelView) -> Seq<LevelView> {
    if lv.orders.len() > 0 {
        before.update(i, lv)
    } else {
        before.remove(i)
    }
}

proof fn cancel_shape(
    before: Seq<LevelView>,
    idx: Map<u64, (OrderSide, u64)>,
    side: OrderSide,
    i: int,
    k: int,
    id: u64,
    lv: LevelView,
)
    requires
        side_ok(before, side),
        index_agrees(idx, before, side),
        0 <= i < before.len(),
        0 <= k < before[i].orders.len(),
        before[i].orders[k].id == id,
        lv.price == before[i].price,
        lv.quantity == total(lv.orders),
        ids_increasing(lv.orders),
        all_positive(lv.orders),
        lv.orders == without(before[i].orders, id),
    ensures
        lv.orders == before[i].orders.remove(k),
        side_ok(replace_level(before, i, lv), side),
        cancelled(before, replace_level(before, i, lv), id),
{
    let after = replace_level(before, i, lv);
    let os = before[i].orders;
    assert(level_ok(before[i]));
    let c = choose|c: int| 0 <= c < os.len() && os[c].id == id;
    if c < k {
        assert(os[c].id < os[k].id);
    } else if c > k {
        assert(os[k].id < os[c].id);
    }
    assert forall|a: int, b: int| 0 <= a < b < after.len() implies #[trigger] better(side, after[a].price, after[b].price) by {
        if lv.orders.len() > 0 {
            assert(better(side, before[a].price, before[b].price));
        } else if a >= i {
            assert(better(side, before[a + 1].price, before[b + 1].price));
        } else if b >= i {
            assert(better(side, before[a].price, before[b + 1].price));
        } else {
            assert(better(side, before[a].price, before[b].price));
        }
    }
    assert forall|a: int| 0 <= a < after.len() implies #[trigger] level_ok(after[a]) by {
        if lv.orders.len() > 0 {
            if a != i {
                assert(level_ok(before[a]));
            }
        } else if a >= i {
            assert(level_ok(before[a + 1]));
        } else {
            assert(level_ok(before[a]));
        }
    }
    assert forall|p: u64| #[trigger] orders_at(after, p) == without(orders_at(before, p), id) by {
        if p == before[i].price {
            lemma_orders_at_index(before, side, i);
            if lv.orders.len() > 0 {
                lemma_orders_at_index(after, side, i);
            } else {
                assert forall|t: int| 0 <= t < after.len() implies after[t].price != p by {
                    if t >= i {
                        assert(better(side, before[i].price, before[t + 1].price));
                    } else {
                        assert(better(side, before[t].price, before[i].price));
                    }
                }
                lemma_orders_at_absent(after, p);
            }
        } else if exists|t: int| 0 <= t < before.len() && before[t].price == p {
            let t = choose|t: int| 0 <= t < before.len() && before[t].price == p;
            lemma_orders_at_index(before, side, t);
            assert(!has_id(before[t].orders, id)) by {
                if has_id(before[t].orders, id) {
                    let w = choose|w: int| 0 <= w < before[t].orders.len() && before[t].orders[w].id == id;
                    assert(idx[before[t].orders[w].id] == (side, before[t].price));
                    assert(idx[before[i].orders[k].id] == (side, before[i].price));
                }
            }
            if lv.orders.len() == 0 && t > i {
                assert(after[t - 1] == before[t]);
                lemma_orders_at_index(after, side, t - 1);
            } else {
                assert(after[t] == before[t]);
                lemma_orders_at_index(after, side, t);
            }
        } else {
            lemma_orders_at_absent(before, p);
            assert forall|t: int| 0 <= t < after.len() implies after[t].price != p by {
                if lv.orders.len() == 0 && t >= i {
                    assert(after[t] == before[t + 1]);
                } else if t != i {
                    assert(after[t] == before[t]);
                }
            }
            lemma_orders_at_absent(after, p);
        }
    }
}

proof fn cancel_index(
    before: Seq<LevelView>,
    idx: Map<u64, (OrderSide, u64)>,
    side: OrderSide,
    i: int,
    k: int,
    id: u64,
    lv: LevelView,
)
    requires
        side_ok(before, side),
        index_agrees(idx, before, side),
        0 <= i < before.len(),
        0 <= k < before[i].orders.len(),
        before[i].orders[k].id == id,
        lv.price == before[i].price,
        lv.orders == before[i].orders.remove(k),
    ensures
        index_agrees(idx.remove(id), replace_level(before, i, lv), side),
{
    let after = replace_level(before, i, lv);
    let idx2 = idx.remove(id);
    let os = before[i].orders;
    assert(level_ok(before[i]));
    assert(idx[os[k].id] == (side, before[i].price));
    assert forall|a: int, j: int| 0 <= a < after.len() && 0 <= j < after[a].orders.len() implies {
        &&& idx2.contains_key(#[trigger] after[a].orders[j].id)
        &&& idx2[after[a].orders[j].id] == (side, after[a].price)
    } by {
        if lv.orders.len() > 0 && a == i {
            let j2 = if j < k { j } else { j + 1 };
            assert(after[a].orders[j] == os[j2]);
            assert(idx.contains_key(os[j2].id));
            if j < k {
                assert(os[j].id < os[k].id);
            } else {
                assert(os[k].id < os[j + 1].id);
            }
        } else {
            let a2 = if lv.orders.len() == 0 && a >= i { a + 1 } else { a };
            assert(after[a] == before[a2]);
            assert(idx.contains_key(before[a2].orders[j].id));
            assert(idx[before[a2].orders[j].id] == (side, before[a2].price));
            if a2 < i {
                assert(better(side, before[a2].price, before[i].price));
            } else if a2 > i {
                assert(better(side, before[i].price, before[a2].price));
            }
        }
    }
    assert forall|x: u64| idx2.contains_key(x) && (#[trigger] idx2[x]).0 == side implies side_has(after, x) by {
        assert(idx.contains_key(x) && idx[x].0 == side);
        assert(side_has(before, x));
        let (a, j) = choose|a: int, j: int| 0 <= a < before.len() && 0 <= j < before[a].orders.len() && before[a].orders[j].id == x;
        if a == i {
            assert(j != k);
            assert(lv.orders.len() > 0);
            if j < k {
                assert(after[i].orders[j].id == x);
            } else {
                assert(after[i].orders[j - 1].id == x);
            }
        } else if lv.orders.len() == 0 && a > i {
            assert(after[a - 1] == before[a]);
        } else {
            assert(after[a] == before[a]);
        }
    }
}

/// Takes the order of identifier `id`, indexed at `price` on this side, out
/// of its level, drops the level if it empties, and unindexes the order.
pub(crate) fn cancel_side(
    levels: &mut Vec<PriceLevel>,
    index: &mut HashMap<u64, (OrderSide, u64)>,
    side: OrderSide,
    price: u64,
    id: u64,
)
    requires
        side_ok(views(old(levels)@), side),
        index_agrees(old(index)@, views(old(levels)@), side),
        old(index)@.contains_key(id),
        old(index)@[id] == (side, price),
    ensures
        side_ok(views(final(levels)@), side),
        index_agrees(final(index)@, views(final(levels)@), side),
        final(index)@ == old(index)@.remove(id),
        cancelled(views(old(levels)@), views(final(levels)@), id),
        views(final(levels)@).len() > 0 ==> !better(
            side,
            views(final(levels)@)[0].price,
            views(old(levels)@)[0].price,
        ),
        top(views(old(levels)@)) != Some(price) ==> top(views(final(levels)@)) == top(
            views(old(levels)@),
        ),
{
    let ghost ls = views(levels@);
    let ghost idx = index@;
    assert(side_has(ls, id));
    let ghost (i0, k) = choose|a: int, j: int|
        0 <= a < ls.len() && 0 <= j < ls[a].orders.len() && ls[a].orders[j].id == id;
    assert(idx[ls[i0].orders[k].id] == (side, ls[i0].price));
    let n = levels.len();
    let mut i: usize = 0;
    while i < n && levels[i].price() != price
        invariant
            n == levels@.len(),
            ls == views(levels@),
            0 <= i <= n,
            forall|t: int| 0 <= t < i ==> ls[t].price != price,
        decreases n - i,
    {
        i = i + 1;
    }
    proof {
        assert(i <= i0);
        if i < i0 {
            assert(better(side, ls[i as int].price, ls[i0].price));
        }
    }
    let mut level = levels.remove(i);
    assert(level@ == ls[i as int]);
    assert(level_ok(ls[i as int]));
    level.cancel_order(id);
    proof {
        cancel_shape(ls, idx, side, i as int, k, id, level@);
        cancel_index(ls, idx, side, i as int, k, id, level@);
    }
    if level.len() > 0 {
        levels.insert(i, level);
        assert(views(levels@) =~= ls.update(i as int, level@));
    } else {
        assert(views(levels@) =~= ls.remove(i as int));
        if i == 0 && levels.len() > 0 {
            assert(better(side, ls[0].price, ls[1].price));
        }
    }
    if i > 0 {
        assert(views(levels@)[0] == ls[0]);
    }
    index.remove(&id);
}

/// An index entry on the side it names agrees with the side; this holds of
/// any index for a side that the entry does not name.
pub(crate) proof fn lemma_not_on_side(ls: Seq<LevelView>, idx: Map<u64, (OrderSide, u64)>, side: OrderSide, id: u64)
    requires
        side_ok(ls, side),
        index_agrees(idx, ls, side),
        idx.contains_key(id),
        idx[id].0 != side,
    ensures
        cancelled(ls, ls, id),
        !side_has(ls, id),
{
    assert forall|p: u64| #[trigger] orders_at(ls, p) == without(orders_at(ls, p), id) by {
        if exists|t: int| 0 <= t < ls.len() && ls[t].price == p {
            let t = choose|t: int| 0 <= t < ls.len() && ls[t].price == p;
            lemma_orders_at_index(ls, side, t);
            if has_id(ls[t].orders, id) {
                let w = choose|w: int| 0 <= w < ls[t].orders.len() && ls[t].orders[w].id == id;
                assert(idx[ls[t].orders[w].id] == (side, ls[t].price));
            }
        }
    }
    if side_has(ls, id) {
        let (t, w) = choose|t: int, w: int| 0 <= t < ls.len() && 0 <= w < ls[t].orders.len() && ls[t].orders[w].id == id;
        assert(idx[ls[t].orders[w].id] == (side, ls[t].price));
    }
}

pub(crate) proof fn lemma_absent_cancel(ls: Seq<LevelView>, side: OrderSide, id: u64)
    requires
        side_ok(ls, side),
        !side_has(ls, id),
    ensures
        cancelled(ls, ls, id),
{
    assert forall|p: u64| #[trigger] orders_at(ls, p) == without(orders_at(ls, p), id) by {
        if exists|t: int| 0 <= t < ls.len() && ls[t].price == p {
            let t = choose|t: int| 0 <= t < ls.len() && ls[t].price == p;
            lemma_orders_at_index(ls, side, t);
            if has_id(ls[t].orders, id) {
                let w = choose|w: int| 0 <= w < ls[t].orders.len() && ls[t].orders[w].id == id;
                assert(ls[t].orders[w].id == id);
            }
        }
    }
}

/// The best price of a side as it stands.
pub(crate) fn best_of(levels: &Vec<PriceLevel>) -> (r: Option<u64>)
    ensures
        r == top(views(levels@)),
{
    if levels.len() > 0 {
        Some(levels[0].price())
    } else {
        None
    }
}

pub(crate) fn acceptable_exec(side: OrderSide, price: u64, bound: Option<u64>) -> (r: bool)
    ensures
        r == acceptable(side, price, bound),
{
    match bound {
        None => true,
        Some(b) => !is_better(side, b, price),
    }
}

pub(crate) proof fn lemma_orders_at_tail(a: Seq<LevelView>, side: OrderSide, p: u64)
    requires
        side_ok(a, side),
        a.len() > 0,
    ensures
        orders_at(a.drop_first(), p) == (if p == a[0].price {
            Seq::<Order>::empty()
        } else {
            orders_at(a, p)
        }),
{
    let t = a.drop_first();
    if exists|i: int| 0 <= i < t.len() && t[i].price == p {
        let i = choose|i: int| 0 <= i < t.len() && t[i].price == p;
        assert(better(side, a[0].price, a[i + 1].price));
        assert(t[i] == a[i + 1]);
        lemma_orders_at_index(a, side, i + 1);
        assert forall|x: int, y: int| 0 <= x < y < t.len() implies #[trigger] better(side, t[x].price, t[y].price) by {
            assert(better(side, a[x + 1].price, a[y + 1].price));
        }
        assert forall|x: int| 0 <= x < t.len() implies #[trigger] level_ok(t[x]) by {
            assert(level_ok(a[x + 1]));
        }
        lemma_orders_at_index(t, side, i);
    } else {
        lemma_orders_at_absent(t, p);
        if p != a[0].price {
            assert forall|i: int| 0 <= i < a.len() implies a[i].price != p by {
                if i > 0 {
                    assert(t[i - 1] == a[i]);
                }
            }
            lemma_orders_at_absent(a, p);
        }
    }
}

/// Two valid sides with the same queue at every price are the same side.
pub proof fn lemma_side_determined(a: Seq<LevelView>, b: Seq<LevelView>, side: OrderSide)
    requires
        side_ok(a, side),
        side_ok(b, side),
        forall|p: u64| #[trigger] orders_at(a, p) == orders_at(b, p),
    ensures
        a == b,
    decreases a.len(),
{
    if a.len() == 0 {
        if b.len() > 0 {
            lemma_orders_at_index(b, side, 0);
            assert(level_ok(b[0]));
            lemma_orders_at_absent(a, b[0].price);
            assert(orders_at(a, b[0].price) == orders_at(b, b[0].price));
        }
        assert(a =~= b);
    } else if b.len() == 0 {
        lemma_orders_at_index(a, side, 0);
        assert(level_ok(a[0]));
        lemma_orders_at_absent(b, a[0].price);
        assert(orders_at(a, a[0].price) == orders_at(b, a[0].price));
    } else {
        let pa = a[0].price;
        let pb = b[0].price;
        assert(level_ok(a[0]));
        assert(level_ok(b[0]));
        lemma_orders_at_index(a, side, 0);
        lemma_orders_at_index(b, side, 0);
        assert(orders_at(a, pb) == orders_at(b, pb));
        assert(orders_at(b, pa) == orders_at(a, pa));
        if pa != pb {
            // each top price is found on the other side, behind its top: impossible both ways
            assert(exists|i: int| 0 <= i < a.len() && a[i].price == pb);
            let i = choose|i: int| 0 <= i < a.len() && a[i].price == pb;
            assert(better(side, a[0].price, a[i].price));
            assert(exists|j: int| 0 <= j < b.len() && b[j].price == pa);
            let j = choose|j: int| 0 <= j < b.len() && b[j].price == pa;
            assert(better(side, b[0].price, b[j].price));
        }
        assert(a[0] == b[0]);
        let ta = a.drop_first();
        let tb = b.drop_first();
        assert forall|p: u64| #[trigger] orders_at(ta, p) == orders_at(tb, p) by {
            lemma_orders_at_tail(a, side, p);
            lemma_orders_at_tail(b, side, p);
            assert(orders_at(a, p) == orders_at(b, p));
        }
        assert forall|x: int, y: int| 0 <= x < y < ta.len() implies #[trigger] better(side, ta[x].price, ta[y].price) by {
            assert(better(side, a[x + 1].price, a[y + 1].price));
        }
        assert forall|x: int| 0 <= x < ta.len() implies #[trigger] level_ok(ta[x]) by {
            assert(level_ok(a[x + 1]));
        }
        assert forall|x: int, y: int| 0 <= x < y < tb.len() implies #[trigger] better(side, tb[x].price, tb[y].price) by {
            assert(better(side, b[x + 1].price, b[y + 1].price));
        }
        assert forall|x: int| 0 <= x < tb.len() implies #[trigger] level_ok(tb[x]) by {
            assert(level_ok(b[x + 1]));
        }
        lemma_side_determined(ta, tb, side);
        assert forall|i: int| 0 <= i < a.len() implies a[i] == b[i] by {
            if i > 0 {
                assert(a[i] == ta[i - 1]);
                assert(b[i] == tb[i - 1]);
            }
        }
        assert(a =~= b);
    }
}

} // verus!
