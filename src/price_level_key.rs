use crate::order::OrderSide;
use vstd::prelude::*;

verus! {

/// Price priority on a side: `a` is strictly better than `b`.
/// On the bid side a higher price is better, on the ask side a lower one.
pub open spec fn better(side: OrderSide, a: u64, b: u64) -> bool {
    match side {
        OrderSide::Bid => a > b,
        OrderSide::Ask => a < b,
    }
}

/// Key of an ask level. Ask keys order ascending by price.
#[derive(Debug, Clone, Copy, PartialEq, Eq, Structural)]
pub struct PriceLevelKeyAsk(pub u64);

impl PriceLevelKeyAsk {
    pub fn new(price: u64) -> (r: Self)
        ensures
            r.0 == price,
    {
        PriceLevelKeyAsk(price)
    }

    pub fn get_price(&self) -> (r: u64)
        ensures
            r == self.0,
    {
        self.0
    }

    /// Whether this key comes strictly before `other` in the ask book.
    pub fn precedes(&self, other: &Self) -> (r: bool)
        ensures
            r == better(OrderSide::Ask, self.0, other.0),
    {
        self.0 < other.0
    }
}

/// Key of a bid level. Bid keys order descending by price.
#[derive(Debug, Clone, Copy, PartialEq, Eq, Structural)]
pub struct PriceLevelKeyBid(pub u64);

impl PriceLevelKeyBid {
    pub fn new(price: u64) -> (r: Self)
        ensures
            r.0 == price,
    {
        PriceLevelKeyBid(price)
    }

    pub fn get_price(&self) -> (r: u64)
        ensures
            r == self.0,
    {
        self.0
    }

    /// Whether this key comes strictly before `other` in the bid book.
    pub fn precedes(&self, other: &Self) -> (r: bool)
        ensures
            r == better(OrderSide::Bid, self.0, other.0),
    {
        self.0 > other.0
    }
}

/// Whether a level at price `a` on `side` is matched before one at price `b`.
pub fn is_better(side: OrderSide, a: u64, b: u64) -> (r: bool)
    ensures
        r == better(side, a, b),
{
    match side {
        OrderSide::Bid => PriceLevelKeyBid::new(a).precedes(&PriceLevelKeyBid::new(b)),
        OrderSide::Ask => PriceLevelKeyAsk::new(a).precedes(&PriceLevelKeyAsk::new(b)),
    }
}

} // verus!
