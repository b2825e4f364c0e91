use trade_match::order::{Order, OrderSide, OrderType};
use trade_match::price_level::PriceLevel;
use trade_match::price_level_key::{is_better, PriceLevelKeyAsk, PriceLevelKeyBid};

#[test]
fn level_aggregate_tracks_queue() {
    let mut level = PriceLevel::new(100);
    level.add_order(Order::new(1, 5));
    level.add_order(Order::new(2, 7));
    level.add_order(Order::new(3, 1));
    assert_eq!(level.quantity(), 13);
    assert_eq!(level.price(), 100);
    assert_eq!(level.peek_next_order(), Some(Order::new(1, 5)));
    assert_eq!(level.peek_last_order(), Some(Order::new(3, 1)));
    level.cancel_order(2);
    assert_eq!(level.quantity(), 6);
    assert_eq!(level.len(), 2);
    level.cancel_order(9);
    assert_eq!(level.quantity(), 6);
    level.remove_next_order();
    assert_eq!(level.quantity(), 1);
    assert_eq!(level.peek_next_order(), Some(Order::new(3, 1)));
    level.remove_next_order();
    level.remove_next_order();
    assert_eq!(level.quantity(), 0);
    assert_eq!(level.peek_next_order(), None);
}

#[test]
fn level_fill_front_first() {
    let mut level = PriceLevel::new(100);
    level.add_order(Order::new(1, 5));
    level.add_order(Order::new(2, 5));
    level.add_order(Order::new(3, 5));
    let (rem, filled) = level.fill(7);
    assert_eq!(rem, 0);
    assert_eq!(filled, vec![1]);
    assert_eq!(level.peek_next_order(), Some(Order::new(2, 3)));
    assert_eq!(level.quantity(), 8);
    let (rem, filled) = level.fill(20);
    assert_eq!(rem, 12);
    assert_eq!(filled, vec![2, 3]);
    assert_eq!(level.quantity(), 0);
}

#[test]
fn order_accessors() {
    let mut o = Order::new(4, 10);
    o.remove_quantity(3);
    assert_eq!(o.id(), 4);
    assert_eq!(o.quantity(), 7);
    assert_eq!(OrderType::Limit, OrderType::Limit);
}

#[test]
fn key_orders() {
    assert!(PriceLevelKeyAsk::new(99).precedes(&PriceLevelKeyAsk::new(100)));
    assert!(!PriceLevelKeyAsk::new(100).precedes(&PriceLevelKeyAsk::new(100)));
    assert!(PriceLevelKeyBid::new(101).precedes(&PriceLevelKeyBid::new(100)));
    assert!(!PriceLevelKeyBid::new(99).precedes(&PriceLevelKeyBid::new(100)));
    assert_eq!(PriceLevelKeyAsk::new(7).get_price(), 7);
    assert_eq!(PriceLevelKeyBid::new(8).get_price(), 8);
    assert!(is_better(OrderSide::Bid, 5, 4));
    assert!(is_better(OrderSide::Ask, 4, 5));
}
