use vstd::prelude::*;

verus! {

/// The kinds of order the book accepts for resting.
#[derive(Debug, Clone, Copy, PartialEq, Eq, Structural)]
pub enum OrderType {
    Limit,
}

/// The two sides of the book.
#[derive(Debug, Clone, Copy, PartialEq, Eq, Structural)]
pub enum OrderSide {
    Bid,
    Ask,
}

/// A resting order: its identifier and the quantity still open.
#[derive(Debug, Clone, Copy, PartialEq, Eq, Structural)]
pub struct Order {
    pub id: u64,
    pub quantity: u64,
}

impl Order {
    pub fn new(id: u64, quantity: u64) -> (r: Order)
        ensures
            r.id == id,
            r.quantity == quantity,
    {
        Order { id, quantity }
    }

    pub fn id(&self) -> (r: u64)
        ensures
            r == self.id,
    {
        self.id
    }

    /// Takes a partial fill of `quantity` off the order.
    pub fn remove_quantity(&mut self, quantity: u64)
        requires
            quantity <= old(self).quantity,
        ensures
            final(self).id == old(self).id,
            final(self).quantity == old(self).quantity - quantity,
    {
        self.quantity = self.quantity - quantity;
    }

    pub fn quantity(&self) -> (r: u64)
        ensures
            r == self.quantity,
    {
        self.quantity
    }
}

} // verus!
