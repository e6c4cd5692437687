use clob::book::{OrderBook, PriceLevel};
use clob::num::U256;
use clob::order::{MatchResult, Order, OrderStatus, OrderType};

fn u(x: u64) -> U256 {
    U256 { lo: x as u128, hi: 0 }
}

fn order(id: u64, ot: OrderType, price: u64, amount: u64, filled: u64) -> Order {
    Order {
        id,
        trader: vec![0xaa; 20],
        order_type: ot,
        base_token: vec![0x01; 20],
        quote_token: vec![0x02; 20],
        price: u(price),
        amount: u(amount),
        filled_amount: u(filled),
        status: OrderStatus::Open,
        timestamp: 7,
    }
}

fn level_prices(levels: &[PriceLevel]) -> Vec<U256> {
    levels.iter().map(|l| l.price).collect()
}

#[test]
fn add_order_appends_remaining() {
    let mut book = OrderBook::new();
    book.add_order(order(1, OrderType::Buy, 100, 50, 10));
    assert_eq!(book.buy_levels.len(), 1);
    assert_eq!(book.sell_levels.len(), 0);
    assert_eq!(book.buy_levels[0].price, u(100));
    assert_eq!(book.buy_levels[0].entries.len(), 1);
    assert_eq!(book.buy_levels[0].entries[0].remaining_amount, u(40));
    assert_eq!(book.buy_levels[0].entries[0].order.id, 1);
    // A second order at the same price is appended after the first.
    book.add_order(order(2, OrderType::Buy, 100, 8, 0));
    assert_eq!(book.buy_levels.len(), 1);
    assert_eq!(book.buy_levels[0].entries.len(), 2);
    assert_eq!(book.buy_levels[0].entries[0].order.id, 1);
    assert_eq!(book.buy_levels[0].entries[1].order.id, 2);
    assert_eq!(book.buy_levels[0].entries[1].remaining_amount, u(8));
}

#[test]
fn add_order_keeps_price_order() {
    let mut book = OrderBook::new();
    book.add_order(order(1, OrderType::Sell, 105, 5, 0));
    book.add_order(order(2, OrderType::Sell, 95, 5, 0));
    book.add_order(order(3, OrderType::Sell, 100, 5, 0));
    assert_eq!(level_prices(&book.sell_levels), vec![u(95), u(100), u(105)]);
}

#[test]
fn add_fully_filled_order_is_noop() {
    let mut book = OrderBook::new();
    book.add_order(order(1, OrderType::Buy, 100, 50, 50));
    assert_eq!(book.buy_levels.len(), 0);
    assert_eq!(book.sell_levels.len(), 0);
    // Defensively, an over-filled order is also a no-op rather than wrapping.
    book.add_order(order(2, OrderType::Sell, 100, 10, 11));
    assert_eq!(book.sell_levels.len(), 0);
}

#[test]
fn matching_buy_100_50_sell_90_30() {
    let mut book = OrderBook::new();
    book.add_order(order(1, OrderType::Buy, 100, 50, 0));
    book.add_order(order(2, OrderType::Sell, 90, 30, 0));
    let matches = book.match_orders();
    assert_eq!(matches.len(), 1);
    assert_eq!(
        matches[0],
        MatchResult {
            buy_order_id: u(1),
            sell_order_id: u(2),
            match_amount: u(30),
            match_price: u(90),
        }
    );
    // The sell level at 90 is gone; the buy level keeps one entry of 20.
    assert_eq!(book.sell_levels.len(), 0);
    assert_eq!(book.buy_levels.len(), 1);
    assert_eq!(book.buy_levels[0].price, u(100));
    assert_eq!(book.buy_levels[0].entries.len(), 1);
    assert_eq!(book.buy_levels[0].entries[0].remaining_amount, u(20));
}

#[test]
fn no_cross_leaves_book_unchanged() {
    let mut book = OrderBook::new();
    book.add_order(order(1, OrderType::Buy, 90, 10, 0));
    book.add_order(order(2, OrderType::Sell, 100, 10, 0));
    let matches = book.match_orders();
    assert_eq!(matches.len(), 0);
    assert_eq!(book.buy_levels.len(), 1);
    assert_eq!(book.buy_levels[0].entries[0].remaining_amount, u(10));
    assert_eq!(book.sell_levels.len(), 1);
    assert_eq!(book.sell_levels[0].entries[0].remaining_amount, u(10));
    // An empty side never matches either.
    let mut one_sided = OrderBook::new();
    one_sided.add_order(order(3, OrderType::Buy, 100, 10, 0));
    assert_eq!(one_sided.match_orders().len(), 0);
    assert_eq!(one_sided.buy_levels.len(), 1);
}

#[test]
fn time_priority_consumes_older_order_first() {
    let mut book = OrderBook::new();
    book.add_order(order(1, OrderType::Buy, 100, 10, 0));
    book.add_order(order(2, OrderType::Buy, 100, 10, 0));
    book.add_order(order(3, OrderType::Sell, 100, 5, 0));
    let matches = book.match_orders();
    assert_eq!(matches.len(), 1);
    assert_eq!(matches[0].buy_order_id, u(1));
    assert_eq!(matches[0].match_amount, u(5));
    // The older order is still at the head, partially consumed.
    assert_eq!(book.buy_levels[0].entries[0].order.id, 1);
    assert_eq!(book.buy_levels[0].entries[0].remaining_amount, u(5));
    assert_eq!(book.buy_levels[0].entries[1].order.id, 2);
    assert_eq!(book.buy_levels[0].entries[1].remaining_amount, u(10));
}

#[test]
fn exhausted_head_is_removed() {
    let mut book = OrderBook::new();
    book.add_order(order(1, OrderType::Buy, 100, 5, 0));
    book.add_order(order(2, OrderType::Buy, 100, 9, 0));
    book.add_order(order(3, OrderType::Sell, 100, 5, 0));
    let matches = book.match_orders();
    assert_eq!(matches.len(), 1);
    assert_eq!(matches[0].match_amount, u(5));
    // Both heads traded away: the sell level vanished, the buy head was removed.
    assert_eq!(book.sell_levels.len(), 0);
    assert_eq!(book.buy_levels[0].entries.len(), 1);
    assert_eq!(book.buy_levels[0].entries[0].order.id, 2);
}

#[test]
fn one_matching_pass_per_invocation() {
    let mut book = OrderBook::new();
    book.add_order(order(1, OrderType::Buy, 100, 10, 0));
    book.add_order(order(2, OrderType::Buy, 100, 10, 0));
    book.add_order(order(3, OrderType::Sell, 90, 30, 0));
    // The book still crosses after one trade; the pass nevertheless records
    // exactly one match.
    let matches = book.match_orders();
    assert_eq!(matches.len(), 1);
    assert_eq!(matches[0].buy_order_id, u(1));
    assert_eq!(matches[0].match_price, u(90));
    let again = book.match_orders();
    assert_eq!(again.len(), 1);
    assert_eq!(again[0].buy_order_id, u(2));
}

#[test]
fn save_load_round_trips() {
    let mut book = OrderBook::new();
    book.add_order(order(1, OrderType::Buy, 90, 10, 3));
    book.add_order(order(2, OrderType::Buy, 85, 4, 0));
    book.add_order(order(3, OrderType::Sell, 100, 6, 0));
    book.add_order(order(4, OrderType::Sell, 100, 2, 1));
    let bytes = book.save();
    let loaded = OrderBook::load(&bytes);
    assert_eq!(loaded.buy_levels.len(), 2);
    assert_eq!(loaded.sell_levels.len(), 1);
    assert_eq!(level_prices(&loaded.buy_levels), vec![u(85), u(90)]);
    assert_eq!(loaded.sell_levels[0].price, u(100));
    assert_eq!(loaded.sell_levels[0].entries.len(), 2);
    let e = &loaded.buy_levels[1].entries[0];
    assert_eq!(e.order.id, 1);
    assert_eq!(e.order.trader, vec![0xaa; 20]);
    assert_eq!(e.order.base_token, vec![0x01; 20]);
    assert_eq!(e.order.quote_token, vec![0x02; 20]);
    assert_eq!(e.order.order_type, OrderType::Buy);
    assert_eq!(e.order.status, OrderStatus::Open);
    assert_eq!(e.order.amount, u(10));
    assert_eq!(e.order.filled_amount, u(3));
    assert_eq!(e.order.timestamp, 7);
    assert_eq!(e.remaining_amount, u(7));
    let second = &loaded.sell_levels[0].entries[1];
    assert_eq!(second.order.id, 4);
    assert_eq!(second.remaining_amount, u(1));
}

#[test]
fn load_of_garbage_gives_empty_book() {
    let garbage: Vec<u8> = vec![9, 9, 9];
    let book = OrderBook::load(&garbage);
    assert_eq!(book.buy_levels.len(), 0);
    assert_eq!(book.sell_levels.len(), 0);
    let empty: Vec<u8> = Vec::new();
    let book2 = OrderBook::load(&empty);
    assert_eq!(book2.buy_levels.len(), 0);
}

#[test]
fn load_rejects_trailing_bytes() {
    let mut book = OrderBook::new();
    book.add_order(order(1, OrderType::Buy, 90, 10, 0));
    let mut bytes = book.save();
    bytes.push(0);
    let loaded = OrderBook::load(&bytes);
    assert_eq!(loaded.buy_levels.len(), 0);
}

#[test]
fn load_rejects_unsorted_sides() {
    // A snapshot whose buy levels are out of price order decodes but is not
    // well-formed, so loading it degrades to the empty book.
    let mut high = OrderBook::new();
    high.add_order(order(1, OrderType::Buy, 100, 5, 0));
    let mut low = OrderBook::new();
    low.add_order(order(2, OrderType::Buy, 90, 5, 0));
    let twisted = OrderBook {
        buy_levels: vec![
            high.buy_levels[0].clone(),
            low.buy_levels[0].clone(),
        ],
        sell_levels: Vec::new(),
    };
    let bytes = twisted.save();
    let loaded = OrderBook::load(&bytes);
    assert_eq!(loaded.buy_levels.len(), 0);
}

#[test]
fn u256_arithmetic_across_limbs() {
    let two_128 = U256 { lo: 0, hi: 1 };
    let one = U256::from_u64(1);
    assert!(one.lt(&two_128));
    assert!(!two_128.lt(&one));
    let diff = two_128.sub(&one);
    assert_eq!(diff, U256 { lo: u128::MAX, hi: 0 });
    assert_eq!(U256::min(two_128, one), one);
    assert_eq!(one.saturating_sub(&two_128), U256::zero());
    assert_eq!(two_128.saturating_sub(&one), diff);
    assert!(U256::zero().is_zero());
    assert!(!one.is_zero());
    assert!(one.le(&one));
    assert!(one.eq_val(&U256::from_u64(1)));
}
