use crate::book_side::{
    best_of, cancel_side, cancelled, cross, cross_side, index_agrees, lemma_absent_cancel,
    lemma_agrees_transfer, lemma_cross, lemma_not_on_side, lemma_orders_at_absent,
    lemma_orders_at_index, lemma_side_determined, level_ok, orders_at, rest_side, rested, side_has,
    side_ok, top, views,
};
use crate::order::{Order, OrderSide};
use crate::price_level::{has_id, total, without, LevelView, PriceLevel};
use crate::price_level_key::better;
use crate::TICK;
use std::collections::HashMap;
use vstd::prelude::*;
use vstd::string::StringExecFns;

verus! {

/// The only structural failure: a price that is not positive or not a whole
/// number of hundredths.
#[derive(Debug, Clone, Copy, PartialEq, Eq, Structural)]
pub enum MarketError {
    InvalidPrice,
}

/// A price the book accepts: positive and a whole number of ticks.
pub open spec fn valid_price(price: u64) -> bool {
    price > 0 && price % TICK == 0
}

/// The book is not crossed: the best bid is strictly below the best ask.
pub open spec fn uncrossed(bids: Seq<LevelView>, asks: Seq<LevelView>) -> bool {
    bids.len() > 0 && asks.len() > 0 ==> bids[0].price < asks[0].price
}

/// Whether `price` may be used for a limit order.
pub fn check_precision(price: u64) -> (r: bool)
    ensures
        r == valid_price(price),
{
    price > 0 && price % TICK == 0
}

/// The order book of one symbol: bids best (highest) first, asks best
/// (lowest) first, the cached best prices, and an index from order
/// identifier to the side and price where the order rests.
pub struct Market {
    symbol: String,
    total_orders: u64,
    lowest_ask: Option<u64>,
    highest_bid: Option<u64>,
    ask_levels: Vec<PriceLevel>,
    bid_levels: Vec<PriceLevel>,
    orders: HashMap<u64, (OrderSide, u64)>,
}

impl Market {
    /// The bid levels, best first.
    pub closed spec fn bids(&self) -> Seq<LevelView> {
        views(self.bid_levels@)
    }

    /// The ask levels, best first.
    pub closed spec fn asks(&self) -> Seq<LevelView> {
        views(self.ask_levels@)
    }

    /// How many order identifiers have been issued.
    pub closed spec fn issued(&self) -> u64 {
        self.total_orders
    }

    pub closed spec fn symbol_view(&self) -> Seq<char> {
        self.symbol@
    }

    /// Whether an order of identifier `id` rests in the book.
    pub open spec fn holds(&self, id: u64) -> bool {
        side_has(self.bids(), id) || side_has(self.asks(), id)
    }

    /// The book's invariant: both sides valid and in price priority, the id
    /// index in agreement with them, every identifier issued, the cached
    /// best prices current, and the book uncrossed.
    pub closed spec fn wf(&self) -> bool {
        &&& side_ok(self.bids(), OrderSide::Bid)
        &&& side_ok(self.asks(), OrderSide::Ask)
        &&& index_agrees(self.orders@, self.bids(), OrderSide::Bid)
        &&& index_agrees(self.orders@, self.asks(), OrderSide::Ask)
        &&& forall|id: u64| #[trigger] self.orders@.contains_key(id) ==> 1 <= id <= self.total_orders
        &&& self.highest_bid == top(self.bids())
        &&& self.lowest_ask == top(self.asks())
        &&& uncrossed(self.bids(), self.asks())
    }

    pub fn new(symbol: &str) -> (r: Market)
        ensures
            r.wf(),
            r.bids() == Seq::<LevelView>::empty(),
            r.asks() == Seq::<LevelView>::empty(),
            r.issued() == 0,
            r.symbol_view() == symbol@,
    {
        let r = Market {
            symbol: String::from_str(symbol),
            total_orders: 0,
            lowest_ask: None,
            highest_bid: None,
            ask_levels: Vec::new(),
            bid_levels: Vec::new(),
            orders: HashMap::new(),
        };
        assert(r.bids() =~= Seq::<LevelView>::empty());
        assert(r.asks() =~= Seq::<LevelView>::empty());
        r
    }

    pub fn symbol(&self) -> (r: &str)
        ensures
            r@ == self.symbol_view(),
    {
        self.symbol.as_str()
    }

    /// The best (highest) bid price; `None` stands for an empty bid side.
    pub fn best_bid(&self) -> (r: Option<u64>)
        requires
            self.wf(),
        ensures
            r == top(self.bids()),
    {
        self.highest_bid
    }

    /// The best (lowest) ask price; `None` stands for an empty ask side.
    pub fn best_ask(&self) -> (r: Option<u64>)
        requires
            self.wf(),
        ensures
            r == top(self.asks()),
    {
        self.lowest_ask
    }

    /// A market buy of `quantity`: crosses the asks with no price bound.
    /// Returns whether it was filled completely, and the quantity left.
    pub fn add_market_bid(&mut self, quantity: u64) -> (r: (bool, u64))
        requires
            old(self).wf(),
        ensures
            final(self).wf(),
            final(self).bids() == old(self).bids(),
            final(self).issued() == old(self).issued(),
            final(self).symbol_view() == old(self).symbol_view(),
            old(self).asks().len() == 0 ==> r == (false, quantity) && final(self).asks() == old(
                self,
            ).asks(),
            old(self).asks().len() > 0 ==> ({
                let (asks, rem) = cross(old(self).asks(), quantity as nat, OrderSide::Ask, None);
                &&& final(self).asks() == asks
                &&& r == (rem == 0, rem as u64)
            }),
    {
        if self.lowest_ask.is_none() {
            return (false, quantity);
        }
        let ghost before = *self;
        proof {
            lemma_cross(self.asks(), quantity as nat, OrderSide::Ask, None);
        }
        let rem = cross_side(&mut self.ask_levels, &mut self.orders, OrderSide::Ask, None, quantity);
        self.lowest_ask = best_of(&self.ask_levels);
        proof {
            lemma_agrees_transfer(before.orders@, self.orders@, self.bids(), OrderSide::Bid);
            assert(self.bids() == before.bids());
            assert(forall|id: u64| #[trigger] self.orders@.contains_key(id) ==> before.orders@.contains_key(id));
            assert(uncrossed(self.bids(), self.asks()));
        }
        (rem == 0, rem)
    }

    /// A market sell of `quantity`: crosses the bids with no price bound.
    /// Returns whether it was filled completely, and the quantity left.
    pub fn add_market_ask(&mut self, quantity: u64) -> (r: (bool, u64))
        requires
            old(self).wf(),
        ensures
            final(self).wf(),
            final(self).asks() == old(self).asks(),
            final(self).issued() == old(self).issued(),
            final(self).symbol_view() == old(self).symbol_view(),
            old(self).bids().len() == 0 ==> r == (false, quantity) && final(self).bids() == old(
                self,
            ).bids(),
            old(self).bids().len() > 0 ==> ({
                let (bids, rem) = cross(old(self).bids(), quantity as nat, OrderSide::Bid, None);
                &&& final(self).bids() == bids
                &&& r == (rem == 0, rem as u64)
            }),
    {
        if self.highest_bid.is_none() {
            return (false, quantity);
        }
        let ghost before = *self;
        proof {
            lemma_cross(self.bids(), quantity as nat, OrderSide::Bid, None);
        }
        let rem = cross_side(&mut self.bid_levels, &mut self.orders, OrderSide::Bid, None, quantity);
        self.highest_bid = best_of(&self.bid_levels);
        proof {
            lemma_agrees_transfer(before.orders@, self.orders@, self.asks(), OrderSide::Ask);
            assert(self.asks() == before.asks());
            assert(forall|id: u64| #[trigger] self.orders@.contains_key(id) ==> before.orders@.contains_key(id));
            assert(uncrossed(self.bids(), self.asks()));
        }
        (rem == 0, rem)
    }

    /// A limit buy of `quantity` at `price`. A valid price crosses the
    /// asks up to `price`; any remainder rests at `price` under a new
    /// identifier, which is returned. `Ok(0)` means nothing rested.
    pub fn add_limit_bid(&mut self, price: u64, quantity: u64) -> (r: Result<u64, MarketError>)
        requires
            old(self).wf(),
            old(self).issued() < u64::MAX,
            total(orders_at(old(self).bids(), price)) + quantity <= u64::MAX,
        ensures
            final(self).wf(),
            final(self).symbol_view() == old(self).symbol_view(),
            !valid_price(price) ==> r == Err::<u64, MarketError>(MarketError::InvalidPrice)
                && final(self).bids() == old(self).bids() && final(self).asks() == old(self).asks()
                && final(self).issued() == old(self).issued(),
            valid_price(price) ==> ({
                let (rest, rem) = cross(old(self).asks(), quantity as nat, OrderSide::Ask, Some(price));
                &&& final(self).asks() == rest
                &&& rem == 0 ==> r == Ok::<u64, MarketError>(0) && final(self).bids() == old(self).bids()
                    && final(self).issued() == old(self).issued()
                &&& rem > 0 ==> r == Ok::<u64, MarketError>((old(self).issued() + 1) as u64)
                    && final(self).issued() == old(self).issued() + 1 && rested(
                    old(self).bids(),
                    final(self).bids(),
                    price,
                    Order { id: (old(self).issued() + 1) as u64, quantity: rem as u64 },
                ) && top(final(self).bids()) == (if old(self).bids().len() == 0 || better(
                    OrderSide::Bid,
                    price,
                    old(self).bids()[0].price,
                ) {
                    Some(price)
                } else {
                    top(old(self).bids())
                })
            }),
    {
        if !check_precision(price) {
            return Err(MarketError::InvalidPrice);
        }
        let ghost before = *self;
        proof {
            lemma_cross(self.asks(), quantity as nat, OrderSide::Ask, Some(price));
        }
        let mut q = quantity;
        // a marketable order crosses first
        let marketable = match self.lowest_ask {
            Some(a) => price >= a,
            None => false,
        };
        if marketable {
            q = cross_side(&mut self.ask_levels, &mut self.orders, OrderSide::Ask, Some(price), quantity);
            self.lowest_ask = best_of(&self.ask_levels);
        }
        let ghost mid = *self;
        proof {
            lemma_agrees_transfer(before.orders@, self.orders@, self.bids(), OrderSide::Bid);
            assert(self.bids() == before.bids());
            assert(forall|id: u64| #[trigger] self.orders@.contains_key(id) ==> before.orders@.contains_key(id));
        }
        if q == 0 {
            return Ok(0);
        }
        self.total_orders = self.total_orders + 1;
        let id = self.total_orders;
        let order = Order::new(id, q);
        rest_side(&mut self.bid_levels, &mut self.orders, OrderSide::Bid, price, order);
        let keep = match self.highest_bid {
            Some(b) => b >= price,
            None => false,
        };
        if !keep {
            self.highest_bid = Some(price);
        }
        proof {
            assert(!mid.orders@.contains_key(id));
            lemma_agrees_transfer(mid.orders@, self.orders@, self.asks(), OrderSide::Ask);
            assert forall|x: u64| #[trigger] self.orders@.contains_key(x) implies 1 <= x <= self.total_orders by {
                if x != id {
                    assert(mid.orders@.contains_key(x));
                }
            }
        }
        Ok(id)
    }

    /// A limit sell of `quantity` at `price`. A valid price crosses the
    /// bids up to `price`; any remainder rests at `price` under a new
    /// identifier, which is returned. `Ok(0)` means nothing rested.
    pub fn add_limit_ask(&mut self, price: u64, quantity: u64) -> (r: Result<u64, MarketError>)
        requires
            old(self).wf(),
            old(self).issued() < u64::MAX,
            total(orders_at(old(self).asks(), price)) + quantity <= u64::MAX,
        ensures
            final(self).wf(),
            final(self).symbol_view() == old(self).symbol_view(),
            !valid_price(price) ==> r == Err::<u64, MarketError>(MarketError::InvalidPrice)
                && final(self).bids() == old(self).bids() && final(self).asks() == old(self).asks()
                && final(self).issued() == old(self).issued(),
            valid_price(price) ==> ({
                let (rest, rem) = cross(old(self).bids(), quantity as nat, OrderSide::Bid, Some(price));
                &&& final(self).bids() == rest
                &&& rem == 0 ==> r == Ok::<u64, MarketError>(0) && final(self).asks() == old(self).asks()
                    && final(self).issued() == old(self).issued()
                &&& rem > 0 ==> r == Ok::<u64, MarketError>((old(self).issued() + 1) as u64)
                    && final(self).issued() == old(self).issued() + 1 && rested(
                    old(self).asks(),
                    final(self).asks(),
                    price,
                    Order { id: (old(self).issued() + 1) as u64, quantity: rem as u64 },
                ) && top(final(self).asks()) == (if old(self).asks().len() == 0 || better(
                    OrderSide::Ask,
                    price,
                    old(self).asks()[0].price,
                ) {
                    Some(price)
                } else {
                    top(old(self).asks())
                })
            }),
    {
        if !check_precision(price) {
            return Err(MarketError::InvalidPrice);
        }
        let ghost before = *self;
        proof {
            lemma_cross(self.bids(), quantity as nat, OrderSide::Bid, Some(price));
        }
        let mut q = quantity;
        // a marketable order crosses first
        let marketable = match self.highest_bid {
            Some(a) => price <= a,
            None => false,
        };
        if marketable {
            q = cross_side(&mut self.bid_levels, &mut self.orders, OrderSide::Bid, Some(price), quantity);
            self.highest_bid = best_of(&self.bid_levels);
        }
        let ghost mid = *self;
        proof {
            lemma_agrees_transfer(before.orders@, self.orders@, self.asks(), OrderSide::Ask);
            assert(self.asks() == before.asks());
            assert(forall|id: u64| #[trigger] self.orders@.contains_key(id) ==> before.orders@.contains_key(id));
        }
        if q == 0 {
            return Ok(0);
        }
        self.total_orders = self.total_orders + 1;
        let id = self.total_orders;
        let order = Order::new(id, q);
        rest_side(&mut self.ask_levels, &mut self.orders, OrderSide::Ask, price, order);
        let keep = match self.lowest_ask {
            Some(b) => b <= price,
            None => false,
        };
        if !keep {
            self.lowest_ask = Some(price);
        }
        proof {
            assert(!mid.orders@.contains_key(id));
            lemma_agrees_transfer(mid.orders@, self.orders@, self.bids(), OrderSide::Bid);
            assert forall|x: u64| #[trigger] self.orders@.contains_key(x) implies 1 <= x <= self.total_orders by {
                if x != id {
                    assert(mid.orders@.contains_key(x));
                }
            }
        }
        Ok(id)
    }

    /// Cancels the resting order of identifier `id`. Returns whether there
    /// was one; the book is unchanged when there was not.
    pub fn cancel_limit_order(&mut self, id: u64) -> (r: bool)
        requires
            old(self).wf(),
        ensures
            final(self).wf(),
            r == old(self).holds(id),
            cancelled(old(self).bids(), final(self).bids(), id),
            cancelled(old(self).asks(), final(self).asks(), id),
            !r ==> final(self).bids() == old(self).bids() && final(self).asks() == old(self).asks(),
            final(self).issued() == old(self).issued(),
            final(self).symbol_view() == old(self).symbol_view(),
    {
        let ghost before = *self;
        let entry = self.orders.get(&id);
        match entry {
            None => {
                proof {
                    if side_has(self.bids(), id) {
                        let (t, w) = choose|t: int, w: int| 0 <= t < self.bids().len() && 0 <= w < self.bids()[t].orders.len() && self.bids()[t].orders[w].id == id;
                        assert(self.orders@.contains_key(self.bids()[t].orders[w].id));
                    }
                    if side_has(self.asks(), id) {
                        let (t, w) = choose|t: int, w: int| 0 <= t < self.asks().len() && 0 <= w < self.asks()[t].orders.len() && self.asks()[t].orders[w].id == id;
                        assert(self.orders@.contains_key(self.asks()[t].orders[w].id));
                    }
                    lemma_absent_cancel(self.bids(), OrderSide::Bid, id);
                    lemma_absent_cancel(self.asks(), OrderSide::Ask, id);
                }
                false
            },
            Some(e) => {
                let (side, price) = *e;
                match side {
                    OrderSide::Bid => {
                        proof {
                            assert(side_has(self.bids(), id));
                            lemma_not_on_side(self.asks(), self.orders@, OrderSide::Ask, id);
                        }
                        cancel_side(&mut self.bid_levels, &mut self.orders, OrderSide::Bid, price, id);
                        let at_best = match self.highest_bid {
                            Some(b) => b == price,
                            None => false,
                        };
                        if at_best {
                            self.highest_bid = best_of(&self.bid_levels);
                        }
                        proof {
                            lemma_agrees_transfer(before.orders@, self.orders@, self.asks(), OrderSide::Ask);
                        }
                    },
                    OrderSide::Ask => {
                        proof {
                            assert(side_has(self.asks(), id));
                            lemma_not_on_side(self.bids(), self.orders@, OrderSide::Bid, id);
                        }
                        cancel_side(&mut self.ask_levels, &mut self.orders, OrderSide::Ask, price, id);
                        let at_best = match self.lowest_ask {
                            Some(b) => b == price,
                            None => false,
                        };
                        if at_best {
                            self.lowest_ask = best_of(&self.ask_levels);
                        }
                        proof {
                            lemma_agrees_transfer(before.orders@, self.orders@, self.bids(), OrderSide::Bid);
                        }
                    },
                }
                true
            },
        }
    }

    /// How many order identifiers have been issued so far.
    pub fn orders_issued(&self) -> (r: u64)
        ensures
            r == self.issued(),
    {
        self.total_orders
    }

    /// The aggregate quantity resting at `price` on `side` (0 if no level).
    pub fn quantity_at(&self, side: OrderSide, price: u64) -> (r: u64)
        requires
            self.wf(),
        ensures
            r == total(orders_at(levels_of(*self, side), price)),
    {
        let levels = match side {
            OrderSide::Bid => &self.bid_levels,
            OrderSide::Ask => &self.ask_levels,
        };
        let ghost ls = views(levels@);
        assert(ls == levels_of(*self, side));
        assert(side_ok(ls, side));
        let n = levels.len();
        let mut i: usize = 0;
        while i < n
            invariant
                side_ok(ls, side),
                ls == levels_of(*self, side),
                n == levels@.len(),
                ls == views(levels@),
                0 <= i <= n,
                forall|t: int| 0 <= t < i ==> ls[t].price != price,
            decreases n - i,
        {
            if levels[i].price() == price {
                proof {
                    lemma_orders_at_index(ls, side, i as int);
                    assert(level_ok(ls[i as int]));
                    assert(levels@[i as int]@ == ls[i as int]);
                }
                return levels[i].quantity();
            }
            i = i + 1;
        }
        proof {
            lemma_orders_at_absent(ls, price);
        }
        0
    }

    pub fn order_exists(&self, order_id: u64) -> (r: bool)
        requires
            self.wf(),
        ensures
            r == self.holds(order_id),
    {
        let r = self.orders.contains_key(&order_id);
        proof {
            if r {
                let side = self.orders@[order_id].0;
                if side == OrderSide::Bid {
                    assert(side_has(self.bids(), order_id));
                } else {
                    assert(side_has(self.asks(), order_id));
                }
            }
            if side_has(self.bids(), order_id) {
                let (t, w) = choose|t: int, w: int| 0 <= t < self.bids().len() && 0 <= w < self.bids()[t].orders.len() && self.bids()[t].orders[w].id == order_id;
                assert(self.orders@.contains_key(self.bids()[t].orders[w].id));
            }
            if side_has(self.asks(), order_id) {
                let (t, w) = choose|t: int, w: int| 0 <= t < self.asks().len() && 0 <= w < self.asks()[t].orders.len() && self.asks()[t].orders[w].id == order_id;
                assert(self.orders@.contains_key(self.asks()[t].orders[w].id));
            }
        }
        r
    }
}

/// Sum of the aggregate quantities of a side's levels.
pub open spec fn level_sum(ls: Seq<LevelView>) -> nat
    decreases ls.len(),
{
    if ls.len() == 0 {
        0
    } else {
        level_sum(ls.drop_last()) + ls.last().quantity
    }
}

/// Sum of the quantities of every order resting on a side.
pub open spec fn order_sum(ls: Seq<LevelView>) -> nat
    decreases ls.len(),
{
    if ls.len() == 0 {
        0
    } else {
        order_sum(ls.drop_last()) + total(ls.last().orders)
    }
}

/// The levels of one side of a book.
pub open spec fn levels_of(m: Market, side: OrderSide) -> Seq<LevelView> {
    match side {
        OrderSide::Bid => m.bids(),
        OrderSide::Ask => m.asks(),
    }
}

proof fn lemma_sums(ls: Seq<LevelView>)
    requires
        forall|i: int| 0 <= i < ls.len() ==> #[trigger] level_ok(ls[i]),
    ensures
        level_sum(ls) == order_sum(ls),
    decreases ls.len(),
{
    if ls.len() > 0 {
        assert(level_ok(ls[ls.len() - 1]));
        let init = ls.drop_last();
        assert forall|i: int| 0 <= i < init.len() implies #[trigger] level_ok(init[i]) by {
            assert(level_ok(ls[i]));
        }
        lemma_sums(init);
    }
}

/// A resting order is unique: an identifier that rests in the book names one
/// order at one place, on one side only.
pub proof fn lemma_unique_order(m: Market, id: u64)
    requires
        m.wf(),
        m.holds(id),
    ensures
        !(side_has(m.bids(), id) && side_has(m.asks(), id)),
        forall|i1: int, j1: int, i2: int, j2: int|
            0 <= i1 < m.bids().len() && 0 <= j1 < m.bids()[i1].orders.len() && 0 <= i2 < m.bids().len()
                && 0 <= j2 < m.bids()[i2].orders.len() && #[trigger] m.bids()[i1].orders[j1].id == id
                && #[trigger] m.bids()[i2].orders[j2].id == id ==> i1 == i2 && j1 == j2,
        forall|i1: int, j1: int, i2: int, j2: int|
            0 <= i1 < m.asks().len() && 0 <= j1 < m.asks()[i1].orders.len() && 0 <= i2 < m.asks().len()
                && 0 <= j2 < m.asks()[i2].orders.len() && #[trigger] m.asks()[i1].orders[j1].id == id
                && #[trigger] m.asks()[i2].orders[j2].id == id ==> i1 == i2 && j1 == j2,
{
    if side_has(m.bids(), id) && side_has(m.asks(), id) {
        let (i, j) = choose|i: int, j: int| 0 <= i < m.bids().len() && 0 <= j < m.bids()[i].orders.len() && m.bids()[i].orders[j].id == id;
        let (k, l) = choose|k: int, l: int| 0 <= k < m.asks().len() && 0 <= l < m.asks()[k].orders.len() && m.asks()[k].orders[l].id == id;
        assert(m.orders@[m.bids()[i].orders[j].id].0 == OrderSide::Bid);
        assert(m.orders@[m.asks()[k].orders[l].id].0 == OrderSide::Ask);
    }
    lemma_unique_on_side(m.bids(), m.orders@, OrderSide::Bid, id);
    lemma_unique_on_side(m.asks(), m.orders@, OrderSide::Ask, id);
}

proof fn lemma_unique_on_side(ls: Seq<LevelView>, idx: Map<u64, (OrderSide, u64)>, side: OrderSide, id: u64)
    requires
        side_ok(ls, side),
        index_agrees(idx, ls, side),
    ensures
        forall|i1: int, j1: int, i2: int, j2: int|
            0 <= i1 < ls.len() && 0 <= j1 < ls[i1].orders.len() && 0 <= i2 < ls.len()
                && 0 <= j2 < ls[i2].orders.len() && #[trigger] ls[i1].orders[j1].id == id
                && #[trigger] ls[i2].orders[j2].id == id ==> i1 == i2 && j1 == j2,
{
    assert forall|i1: int, j1: int, i2: int, j2: int|
        0 <= i1 < ls.len() && 0 <= j1 < ls[i1].orders.len() && 0 <= i2 < ls.len()
            && 0 <= j2 < ls[i2].orders.len() && #[trigger] ls[i1].orders[j1].id == id
            && #[trigger] ls[i2].orders[j2].id == id implies i1 == i2 && j1 == j2 by {
        assert(idx[ls[i1].orders[j1].id] == (side, ls[i1].price));
        assert(idx[ls[i2].orders[j2].id] == (side, ls[i2].price));
        if i1 < i2 {
            assert(better(side, ls[i1].price, ls[i2].price));
        } else if i1 > i2 {
            assert(better(side, ls[i2].price, ls[i1].price));
        }
        assert(level_ok(ls[i1]));
        if j1 < j2 {
            assert(ls[i1].orders[j1].id < ls[i1].orders[j2].id);
        } else if j1 > j2 {
            assert(ls[i1].orders[j2].id < ls[i1].orders[j1].id);
        }
    }
}

/// Both sides of a valid book are valid sides: levels in strict price
/// priority, each non-empty, with its aggregate equal to its queue's sum and
/// its queue in time priority.
pub proof fn lemma_sides_valid(m: Market)
    requires
        m.wf(),
    ensures
        side_ok(m.bids(), OrderSide::Bid),
        side_ok(m.asks(), OrderSide::Ask),
{
}

/// The book is never crossed: when both sides hold orders, the best bid is
/// strictly below the best ask.
pub proof fn lemma_uncrossed(m: Market)
    requires
        m.wf(),
    ensures
        match (top(m.bids()), top(m.asks())) {
            (Some(b), Some(a)) => b < a,
            _ => true,
        },
{
}

/// On each side, the aggregate quantities of the levels add up to the
/// quantities of the orders resting there.
pub proof fn lemma_side_quantities(m: Market)
    requires
        m.wf(),
    ensures
        level_sum(m.bids()) == order_sum(m.bids()),
        level_sum(m.asks()) == order_sum(m.asks()),
{
    lemma_sums(m.bids());
    lemma_sums(m.asks());
}

/// Every resting order carries an identifier already issued, so the next
/// identifier issued is greater than all of them.
pub proof fn lemma_ids_issued(m: Market, id: u64)
    requires
        m.wf(),
        m.holds(id),
    ensures
        1 <= id <= m.issued(),
{
    if side_has(m.bids(), id) {
        let (i, j) = choose|i: int, j: int| 0 <= i < m.bids().len() && 0 <= j < m.bids()[i].orders.len() && m.bids()[i].orders[j].id == id;
        assert(m.orders@.contains_key(m.bids()[i].orders[j].id));
    } else {
        let (i, j) = choose|i: int, j: int| 0 <= i < m.asks().len() && 0 <= j < m.asks()[i].orders.len() && m.asks()[i].orders[j].id == id;
        assert(m.orders@.contains_key(m.asks()[i].orders[j].id));
    }
}

/// Resting a new order on a side and then cancelling it gives back the side
/// as it was, and with it the side's best price.
pub proof fn lemma_rest_cancel_round_trip(
    ls0: Seq<LevelView>,
    ls1: Seq<LevelView>,
    ls2: Seq<LevelView>,
    side: OrderSide,
    price: u64,
    o: Order,
)
    requires
        side_ok(ls0, side),
        side_ok(ls2, side),
        !side_has(ls0, o.id),
        rested(ls0, ls1, price, o),
        cancelled(ls1, ls2, o.id),
    ensures
        ls2 == ls0,
        top(ls2) == top(ls0),
{
    assert forall|p: u64| #[trigger] orders_at(ls2, p) == orders_at(ls0, p) by {
        let s = orders_at(ls0, p);
        assert(!has_id(s, o.id)) by {
            if has_id(s, o.id) {
                let t = choose|t: int| 0 <= t < ls0.len() && ls0[t].price == p;
                lemma_orders_at_index(ls0, side, t);
                let w = choose|w: int| 0 <= w < s.len() && s[w].id == o.id;
                assert(ls0[t].orders[w].id == o.id);
            }
        }
        if p == price {
            let sp = s.push(o);
            assert(has_id(sp, o.id)) by {
                assert(sp[s.len() as int].id == o.id);
            }
            let k = choose|k: int| 0 <= k < sp.len() && sp[k].id == o.id;
            if k < s.len() {
                assert(s[k].id == o.id);
            }
            assert(sp.remove(k) =~= s);
        }
    }
    lemma_side_determined(ls2, ls0, side);
}

/// Adding a limit order that does not cross and then cancelling it gives
/// back both sides of the book, hence its best bid and best ask.
pub proof fn lemma_add_cancel_restores(
    m0: Market,
    m1: Market,
    m2: Market,
    side: OrderSide,
    price: u64,
    o: Order,
)
    requires
        m0.wf(),
        m2.wf(),
        o.id > m0.issued(),
        match side {
            OrderSide::Bid => m1.asks() == m0.asks(),
            OrderSide::Ask => m1.bids() == m0.bids(),
        },
        rested(levels_of(m0, side), levels_of(m1, side), price, o),
        cancelled(m1.bids(), m2.bids(), o.id),
        cancelled(m1.asks(), m2.asks(), o.id),
    ensures
        m2.bids() == m0.bids(),
        m2.asks() == m0.asks(),
        top(m2.bids()) == top(m0.bids()),
        top(m2.asks()) == top(m0.asks()),
{
    if side_has(m0.bids(), o.id) {
        lemma_ids_issued(m0, o.id);
    }
    if side_has(m0.asks(), o.id) {
        lemma_ids_issued(m0, o.id);
    }
    match side {
        OrderSide::Bid => {
            lemma_rest_cancel_round_trip(m0.bids(), m1.bids(), m2.bids(), side, price, o);
            lemma_absent_cancel(m0.asks(), OrderSide::Ask, o.id);
            assert forall|p: u64| #[trigger] orders_at(m2.asks(), p) == orders_at(m0.asks(), p) by {
                assert(orders_at(m0.asks(), p) == without(orders_at(m0.asks(), p), o.id));
            }
            lemma_side_determined(m2.asks(), m0.asks(), OrderSide::Ask);
        },
        OrderSide::Ask => {
            lemma_rest_cancel_round_trip(m0.asks(), m1.asks(), m2.asks(), side, price, o);
            lemma_absent_cancel(m0.bids(), OrderSide::Bid, o.id);
            assert forall|p: u64| #[trigger] orders_at(m2.bids(), p) == orders_at(m0.bids(), p) by {
                assert(orders_at(m0.bids(), p) == without(orders_at(m0.bids(), p), o.id));
            }
            lemma_side_determined(m2.bids(), m0.bids(), OrderSide::Bid);
        },
    }
}

/// Cancelling an identifier that does not rest leaves the book as it was, so
/// a second cancel of it finds nothing either.
pub proof fn lemma_cancel_unknown_again(m0: Market, m1: Market, id: u64)
    requires
        m0.wf(),
        !m0.holds(id),
        m1.bids() == m0.bids(),
        m1.asks() == m0.asks(),
    ensures
        !m1.holds(id),
{
}

} // verus!
