use trade_match::market::{check_precision, Market, MarketError};
use trade_match::order::OrderSide;
use trade_match::UNIT;

#[test]
fn test_create_market() {
    let market = Market::new("BTCUSD");
    assert_eq!(market.symbol(), "BTCUSD");
}

#[test]
fn test_initial_best_bid_and_best_ask() {
    let market = Market::new("BTCUSD");
    assert_eq!(market.best_bid(), None);
    assert_eq!(market.best_ask(), None);
}

#[test]
fn test_add_multiple_limit_bids() {
    let mut market = Market::new("BTCUSD");
    market.add_limit_bid(100 * UNIT, 10 * UNIT).unwrap();
    market.add_limit_bid(101 * UNIT, 10 * UNIT).unwrap();
    assert_eq!(market.best_bid(), Some(101 * UNIT));
}

#[test]
fn test_add_multiple_limit_asks() {
    let mut market = Market::new("BTCUSD");
    market.add_limit_ask(100 * UNIT, 10 * UNIT).unwrap();
    market.add_limit_ask(99 * UNIT, 10 * UNIT).unwrap();
    assert_eq!(market.best_ask(), Some(99 * UNIT));
}

#[test]
fn test_execute_limit_ask() {
    let mut market = Market::new("BTCUSD");

    market.add_limit_bid(101 * UNIT, 5 * UNIT).unwrap();
    market.add_limit_bid(102 * UNIT, 5 * UNIT).unwrap();
    market.add_limit_bid(103 * UNIT, 5 * UNIT).unwrap();
    market.add_limit_bid(104 * UNIT, 5 * UNIT).unwrap();

    assert_eq!(market.best_bid(), Some(104 * UNIT));

    // marketable order
    market.add_limit_ask(100 * UNIT, 10 * UNIT).unwrap();

    assert_eq!(market.best_bid(), Some(102 * UNIT));
}

#[test]
fn test_execute_limit_bid() {
    let mut market = Market::new("BTCUSD");

    market.add_limit_ask(100 * UNIT, 5 * UNIT).unwrap();
    market.add_limit_ask(99 * UNIT, 5 * UNIT).unwrap();
    market.add_limit_ask(98 * UNIT, 5 * UNIT).unwrap();
    market.add_limit_ask(97 * UNIT, 5 * UNIT).unwrap();

    assert_eq!(market.best_ask(), Some(97 * UNIT));

    // marketable order
    market.add_limit_bid(101 * UNIT, 10 * UNIT).unwrap();

    assert_eq!(market.best_ask(), Some(99 * UNIT));
}

#[test]
fn test_add_market_bid() {
    let mut market = Market::new("BTCUSD");

    market.add_limit_ask(99 * UNIT, 5 * UNIT).unwrap();
    market.add_limit_ask(100 * UNIT, 5 * UNIT).unwrap();
    market.add_limit_ask(101 * UNIT, 5 * UNIT).unwrap();
    market.add_limit_ask(102 * UNIT, 5 * UNIT).unwrap();
    market.add_limit_ask(103 * UNIT, 5 * UNIT).unwrap();

    assert_eq!(market.best_ask(), Some(99 * UNIT));

    market.add_market_bid(1499 * UNIT / 100);

    assert_eq!(market.best_ask(), Some(101 * UNIT));

    market.add_market_bid(5 * UNIT);

    assert_eq!(market.best_ask(), Some(102 * UNIT));
    assert_eq!(market.best_bid(), None);
}

#[test]
fn test_add_market_ask() {
    let mut market = Market::new("BTCUSD");

    market.add_limit_bid(10 * UNIT, 5 * UNIT).unwrap();
    market.add_limit_bid(9 * UNIT, 5 * UNIT).unwrap();
    market.add_limit_bid(8 * UNIT, 5 * UNIT).unwrap();
    market.add_limit_bid(7 * UNIT, 5 * UNIT).unwrap();
    market.add_limit_bid(6 * UNIT, 5 * UNIT).unwrap();

    assert_eq!(market.best_bid(), Some(10 * UNIT));

    market.add_market_ask(1499 * UNIT / 100);

    assert_eq!(market.best_bid(), Some(8 * UNIT));

    market.add_market_ask(5 * UNIT);

    assert_eq!(market.best_bid(), Some(7 * UNIT));
    assert_eq!(market.best_ask(), None);
}

#[test]
fn test_cancel_nonexistent_order() {
    let mut market = Market::new("BTCUSD");
    assert!(!market.cancel_limit_order(1));
}

#[test]
fn test_cancel_existing_order() {
    let mut market = Market::new("BTCUSD");
    let order_id = market.add_limit_bid(100 * UNIT, 10 * UNIT).unwrap();
    assert!(market.cancel_limit_order(order_id));
}

#[test]
fn test_cancel_order_updates_best_bid() {
    let mut market = Market::new("BTCUSD");
    let order_id = market.add_limit_bid(100 * UNIT, 10 * UNIT).unwrap();
    market.add_limit_bid(101 * UNIT, 10 * UNIT).unwrap();
    market.cancel_limit_order(order_id);
    assert_eq!(market.best_bid(), Some(101 * UNIT));
}

#[test]
fn test_cancel_order_updates_best_ask() {
    let mut market = Market::new("BTCUSD");
    let order_id = market.add_limit_ask(100 * UNIT, 10 * UNIT).unwrap();
    market.add_limit_ask(99 * UNIT, 10 * UNIT).unwrap();
    market.cancel_limit_order(order_id);
    assert_eq!(market.best_ask(), Some(99 * UNIT));
}

#[test]
fn test_partially_filled_limit_bid() {
    let mut market = Market::new("BTCUSD");
    market.add_limit_ask(100 * UNIT, 5 * UNIT).unwrap();
    let order_id = market.add_limit_bid(100 * UNIT, 10 * UNIT).unwrap();
    assert_eq!(market.best_bid(), Some(100 * UNIT));
    // Check if the partially filled order remains
    assert!(market.order_exists(order_id));
}

#[test]
fn test_partially_filled_limit_ask() {
    let mut market = Market::new("BTCUSD");
    market.add_limit_bid(100 * UNIT, 5 * UNIT).unwrap();
    let order_id = market.add_limit_ask(100 * UNIT, 10 * UNIT).unwrap();
    assert_eq!(market.best_ask(), Some(100 * UNIT));
    // Check if the partially filled order remains
    assert!(market.order_exists(order_id));
}

#[test]
fn price_with_three_decimals_is_rejected() {
    let mut market = Market::new("BTCUSD");
    // 100.001
    assert_eq!(market.add_limit_bid(100_001_000, UNIT), Err(MarketError::InvalidPrice));
    assert_eq!(market.add_limit_ask(100_001_000, UNIT), Err(MarketError::InvalidPrice));
    assert_eq!(market.best_bid(), None);
    assert_eq!(market.best_ask(), None);
    // 100.01 is fine
    assert_eq!(market.add_limit_bid(100_010_000, UNIT), Ok(1));
}

#[test]
fn zero_price_is_rejected() {
    let mut market = Market::new("BTCUSD");
    assert_eq!(market.add_limit_bid(0, UNIT), Err(MarketError::InvalidPrice));
    assert_eq!(market.add_limit_ask(0, UNIT), Err(MarketError::InvalidPrice));
}

#[test]
fn precision_check_values() {
    assert!(check_precision(100 * UNIT));
    assert!(check_precision(1_010_000));
    assert!(check_precision(10_000));
    assert!(!check_precision(1_000));
    assert!(!check_precision(100_001_000));
    assert!(!check_precision(0));
}

#[test]
fn market_order_against_empty_side() {
    let mut market = Market::new("BTCUSD");
    assert_eq!(market.add_market_bid(7 * UNIT), (false, 7 * UNIT));
    assert_eq!(market.add_market_ask(3 * UNIT), (false, 3 * UNIT));
    assert_eq!(market.best_bid(), None);
    assert_eq!(market.best_ask(), None);
}

#[test]
fn market_order_reports_remainder() {
    let mut market = Market::new("BTCUSD");
    market.add_limit_ask(100 * UNIT, 5 * UNIT).unwrap();
    assert_eq!(market.add_market_bid(8 * UNIT), (false, 3 * UNIT));
    assert_eq!(market.best_ask(), None);
    market.add_limit_bid(90 * UNIT, 5 * UNIT).unwrap();
    assert_eq!(market.add_market_ask(5 * UNIT), (true, 0));
    assert_eq!(market.best_bid(), None);
}

#[test]
fn limit_at_opposite_best_crosses_level_then_rests() {
    let mut market = Market::new("BTCUSD");
    let a1 = market.add_limit_ask(100 * UNIT, 5 * UNIT).unwrap();
    let a2 = market.add_limit_ask(101 * UNIT, 5 * UNIT).unwrap();
    let b = market.add_limit_bid(100 * UNIT, 10 * UNIT).unwrap();
    assert_eq!(b, 3);
    assert!(!market.order_exists(a1));
    assert!(market.order_exists(a2));
    assert!(market.order_exists(b));
    assert_eq!(market.best_bid(), Some(100 * UNIT));
    assert_eq!(market.best_ask(), Some(101 * UNIT));
}

#[test]
fn fully_filled_limit_returns_zero() {
    let mut market = Market::new("BTCUSD");
    let a = market.add_limit_ask(100 * UNIT, 5 * UNIT).unwrap();
    assert_eq!(market.add_limit_bid(100 * UNIT, 5 * UNIT), Ok(0));
    assert!(!market.order_exists(a));
    assert!(!market.cancel_limit_order(a));
    assert_eq!(market.best_bid(), None);
    assert_eq!(market.best_ask(), None);
}

#[test]
fn ids_strictly_increase_and_are_not_reused() {
    let mut market = Market::new("BTCUSD");
    let i1 = market.add_limit_bid(100 * UNIT, UNIT).unwrap();
    let i2 = market.add_limit_bid(99 * UNIT, UNIT).unwrap();
    assert!(market.cancel_limit_order(i2));
    let i3 = market.add_limit_ask(105 * UNIT, UNIT).unwrap();
    assert_eq!((i1, i2, i3), (1, 2, 3));
    assert!(i1 < i2 && i2 < i3);
}

#[test]
fn time_priority_within_a_level() {
    let mut market = Market::new("BTCUSD");
    let first = market.add_limit_ask(100 * UNIT, 2 * UNIT).unwrap();
    let second = market.add_limit_ask(100 * UNIT, 2 * UNIT).unwrap();
    assert_eq!(market.add_market_bid(3 * UNIT), (true, 0));
    assert!(!market.order_exists(first));
    assert!(market.order_exists(second));
    assert_eq!(market.best_ask(), Some(100 * UNIT));
}

#[test]
fn add_then_cancel_restores_best() {
    let mut market = Market::new("BTCUSD");
    market.add_limit_bid(100 * UNIT, UNIT).unwrap();
    market.add_limit_ask(105 * UNIT, UNIT).unwrap();
    let id = market.add_limit_bid(102 * UNIT, UNIT).unwrap();
    assert_eq!(market.best_bid(), Some(102 * UNIT));
    assert!(market.cancel_limit_order(id));
    assert_eq!(market.best_bid(), Some(100 * UNIT));
    assert_eq!(market.best_ask(), Some(105 * UNIT));
    let id = market.add_limit_ask(103 * UNIT, UNIT).unwrap();
    assert!(market.cancel_limit_order(id));
    assert_eq!(market.best_ask(), Some(105 * UNIT));
}

#[test]
fn cancel_unknown_twice() {
    let mut market = Market::new("BTCUSD");
    let id = market.add_limit_bid(100 * UNIT, UNIT).unwrap();
    assert!(!market.cancel_limit_order(42));
    assert!(!market.cancel_limit_order(42));
    assert!(market.order_exists(id));
    assert_eq!(market.best_bid(), Some(100 * UNIT));
}

#[test]
fn book_stays_uncrossed() {
    let mut market = Market::new("BTCUSD");
    market.add_limit_bid(100 * UNIT, 3 * UNIT).unwrap();
    market.add_limit_ask(101 * UNIT, 3 * UNIT).unwrap();
    market.add_limit_bid(102 * UNIT, 5 * UNIT).unwrap();
    let bid = market.best_bid().unwrap();
    assert_eq!(bid, 102 * UNIT);
    assert_eq!(market.best_ask(), None);
    market.add_limit_ask(99 * UNIT, 1 * UNIT).unwrap();
    assert_eq!(market.best_bid(), Some(102 * UNIT));
    assert_eq!(market.best_ask(), None);
    market.add_limit_ask(103 * UNIT, 1 * UNIT).unwrap();
    assert!(market.best_bid().unwrap() < market.best_ask().unwrap());
}

#[test]
fn level_quantities_follow_fills() {
    let mut market = Market::new("BTCUSD");
    market.add_limit_ask(99 * UNIT, 5 * UNIT).unwrap();
    market.add_limit_ask(100 * UNIT, 5 * UNIT).unwrap();
    market.add_limit_ask(101 * UNIT, 5 * UNIT).unwrap();
    market.add_limit_ask(101 * UNIT, 2 * UNIT).unwrap();
    assert_eq!(market.quantity_at(OrderSide::Ask, 101 * UNIT), 7 * UNIT);
    assert_eq!(market.add_market_bid(1499 * UNIT / 100), (true, 0));
    assert_eq!(market.quantity_at(OrderSide::Ask, 99 * UNIT), 0);
    assert_eq!(market.quantity_at(OrderSide::Ask, 100 * UNIT), 0);
    assert_eq!(market.quantity_at(OrderSide::Ask, 101 * UNIT), 2 * UNIT + UNIT / 100);
    assert_eq!(market.quantity_at(OrderSide::Bid, 101 * UNIT), 0);
    assert_eq!(market.orders_issued(), 4);
}

#[test]
fn cancel_reduces_level_quantity() {
    let mut market = Market::new("BTCUSD");
    let a = market.add_limit_bid(50 * UNIT, 3 * UNIT).unwrap();
    let b = market.add_limit_bid(50 * UNIT, 4 * UNIT).unwrap();
    assert_eq!(market.quantity_at(OrderSide::Bid, 50 * UNIT), 7 * UNIT);
    assert!(market.cancel_limit_order(a));
    assert_eq!(market.quantity_at(OrderSide::Bid, 50 * UNIT), 4 * UNIT);
    assert!(market.cancel_limit_order(b));
    assert_eq!(market.quantity_at(OrderSide::Bid, 50 * UNIT), 0);
    assert_eq!(market.best_bid(), None);
}

#[test]
fn cancel_best_bid_falls_back_to_next_level() {
    let mut market = Market::new("BTCUSD");
    let first = market.add_limit_bid(100 * UNIT, 10 * UNIT).unwrap();
    let second = market.add_limit_bid(101 * UNIT, 10 * UNIT).unwrap();
    assert_eq!((first, second), (1, 2));
    assert!(market.cancel_limit_order(2));
    assert_eq!(market.best_bid(), Some(100 * UNIT));
}

#[test]
fn crossing_limit_ask_rests_nothing() {
    let mut market = Market::new("BTCUSD");
    market.add_limit_bid(101 * UNIT, 5 * UNIT).unwrap();
    market.add_limit_bid(102 * UNIT, 5 * UNIT).unwrap();
    let b3 = market.add_limit_bid(103 * UNIT, 5 * UNIT).unwrap();
    let b4 = market.add_limit_bid(104 * UNIT, 5 * UNIT).unwrap();
    assert_eq!(market.add_limit_ask(100 * UNIT, 10 * UNIT), Ok(0));
    assert!(!market.order_exists(b3));
    assert!(!market.order_exists(b4));
    assert_eq!(market.best_bid(), Some(102 * UNIT));
    assert_eq!(market.best_ask(), None);
}
