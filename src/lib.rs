//! A single-symbol continuous limit order book with price/time priority matching.
//!
//! Prices and quantities are fixed-point integers: one whole unit is `UNIT`
//! (six decimal places). A price is accepted only when it is positive and a
//! whole number of hundredths.
use vstd::prelude::*;

pub mod book_side;
pub mod market;
pub mod order;
pub mod price_level;
pub mod price_level_key;

verus! {

/// One whole unit of price or quantity in the fixed-point representation.
pub const UNIT: u64 = 1_000_000;

/// The smallest price increment: one hundredth of `UNIT`.
pub const TICK: u64 = 10_000;

} // verus!
