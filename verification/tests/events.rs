use clob::book::OrderBook;
use clob::num::U256;
use clob::order::{MatchResult, Order, OrderStatus, OrderType};
use clob::process_trigger;
use clob::trigger::{
    encode_matches_output, parse_clob_trigger, parse_order_placed_event, DecodeError,
};

fn u(x: u64) -> U256 {
    U256 { lo: x as u128, hi: 0 }
}

fn expect_parse_error(r: Result<Order, DecodeError>) -> DecodeError {
    match r {
        Err(e) => e,
        Ok(_) => panic!("expected a decode error"),
    }
}

/// A 32-byte big-endian word carrying a 64-bit value.
fn word_u64(x: u64) -> Vec<u8> {
    let mut w = vec![0u8; 24];
    w.extend_from_slice(&x.to_be_bytes());
    w
}

/// A 32-byte word carrying a 20-byte address, left-padded with zeros.
fn word_addr(fill: u8) -> Vec<u8> {
    let mut w = vec![0u8; 12];
    w.extend_from_slice(&[fill; 20]);
    w
}

fn order_placed_topic0() -> Vec<u8> {
    let mut t = vec![0xf8, 0x60, 0x59, 0x9f];
    t.extend_from_slice(&[0u8; 28]);
    t
}

fn trigger_topic0() -> Vec<u8> {
    let mut t = vec![0x7f, 0xc7, 0x26, 0x16];
    t.extend_from_slice(&[0u8; 28]);
    t
}

/// Topics and data of an order-placement event.
fn order_placed_event(
    id: u64,
    side: u8,
    price: u64,
    amount: u64,
    timestamp: u64,
) -> (Vec<Vec<u8>>, Vec<u8>) {
    let topics = vec![order_placed_topic0(), word_u64(id), word_addr(0xaa)];
    let mut data = Vec::new();
    data.extend_from_slice(&word_u64(side as u64));
    data.extend_from_slice(&word_addr(0x01));
    data.extend_from_slice(&word_addr(0x02));
    data.extend_from_slice(&word_u64(price));
    data.extend_from_slice(&word_u64(amount));
    data.extend_from_slice(&word_u64(timestamp));
    (topics, data)
}

#[test]
fn parse_order_placed_all_fields() {
    let (topics, data) = order_placed_event(42, 1, 100, 15, 99);
    let order = parse_order_placed_event(&topics, &data).unwrap();
    assert_eq!(order.id, 42);
    assert_eq!(order.trader, vec![0xaa; 20]);
    assert_eq!(order.order_type, OrderType::Sell);
    assert_eq!(order.base_token, vec![0x01; 20]);
    assert_eq!(order.quote_token, vec![0x02; 20]);
    assert_eq!(order.price, u(100));
    assert_eq!(order.amount, u(15));
    assert_eq!(order.filled_amount, U256::zero());
    assert_eq!(order.status, OrderStatus::Open);
    assert_eq!(order.timestamp, 99);
}

#[test]
fn parse_order_placed_large_price() {
    let (topics, mut data) = order_placed_event(1, 0, 0, 1, 1);
    // Overwrite the price word (bytes 96..128) with all ones: 2^256 - 1.
    for b in data[96..128].iter_mut() {
        *b = 0xff;
    }
    let order = parse_order_placed_event(&topics, &data).unwrap();
    assert_eq!(order.price, U256 { lo: u128::MAX, hi: u128::MAX });
}

#[test]
fn parse_rejects_malformed_shape() {
    let (topics, data) = order_placed_event(1, 0, 10, 5, 1);
    let mut short_topics = topics.clone();
    short_topics.pop();
    assert_eq!(expect_parse_error(parse_order_placed_event(&short_topics, &data)), DecodeError::MalformedEvent);
    let mut short_data = data.clone();
    short_data.pop();
    assert_eq!(expect_parse_error(parse_order_placed_event(&topics, &short_data)), DecodeError::MalformedEvent);
    let mut wrong_sig = topics.clone();
    wrong_sig[0][0] = 0x00;
    assert_eq!(expect_parse_error(parse_order_placed_event(&wrong_sig, &data)), DecodeError::MalformedEvent);
}

#[test]
fn parse_rejects_invalid_side() {
    let (topics, data) = order_placed_event(1, 2, 10, 5, 1);
    assert_eq!(expect_parse_error(parse_order_placed_event(&topics, &data)), DecodeError::InvalidSide);
    // A side word with a dirty high byte is not a valid side either.
    let (topics2, mut data2) = order_placed_event(1, 0, 10, 5, 1);
    data2[0] = 1;
    assert_eq!(expect_parse_error(parse_order_placed_event(&topics2, &data2)), DecodeError::InvalidSide);
}

#[test]
fn parse_rejects_oversized_id_and_timestamp() {
    let (mut topics, data) = order_placed_event(1, 0, 10, 5, 1);
    topics[1][0] = 1;
    assert_eq!(expect_parse_error(parse_order_placed_event(&topics, &data)), DecodeError::OrderIdTooLarge);
    let (topics2, mut data2) = order_placed_event(1, 0, 10, 5, 1);
    data2[160] = 1;
    assert_eq!(expect_parse_error(parse_order_placed_event(&topics2, &data2)), DecodeError::TimestampTooLarge);
}

#[test]
fn parse_clob_trigger_reads_order_id() {
    let topics = vec![trigger_topic0(), word_u64(77)];
    let data: Vec<u8> = Vec::new();
    assert_eq!(parse_clob_trigger(&topics, &data), Ok(u(77)));
    let bad = vec![order_placed_topic0(), word_u64(77)];
    assert_eq!(
        parse_clob_trigger(&bad, &data),
        Err(DecodeError::MalformedEvent)
    );
}

#[test]
fn encode_matches_output_layout() {
    let matches = vec![MatchResult {
        buy_order_id: u(1),
        sell_order_id: u(2),
        match_amount: u(3),
        match_price: u(4),
    }];
    let bytes = encode_matches_output(&matches);
    let mut expected = Vec::new();
    expected.extend_from_slice(&word_u64(1));
    expected.extend_from_slice(&word_u64(2));
    expected.extend_from_slice(&word_u64(3));
    expected.extend_from_slice(&word_u64(4));
    assert_eq!(bytes, expected);
    let none: Vec<MatchResult> = Vec::new();
    assert_eq!(encode_matches_output(&none), Vec::<u8>::new());
}

#[test]
fn end_to_end_sell_then_crossing_buy() {
    let empty_snapshot: Vec<u8> = Vec::new();
    // A sell of 10 at price 100 rests in the book.
    let (t1, d1) = order_placed_event(1, 1, 100, 10, 1);
    let (ms1, snap1) = process_trigger(&t1, &d1, &empty_snapshot).unwrap();
    assert_eq!(ms1.len(), 0);
    // A buy of 15 at price 100 crosses it.
    let (t2, d2) = order_placed_event(2, 0, 100, 15, 2);
    let (ms2, snap2) = process_trigger(&t2, &d2, &snap1).unwrap();
    assert_eq!(ms2.len(), 1);
    assert_eq!(
        ms2[0],
        MatchResult {
            buy_order_id: u(2),
            sell_order_id: u(1),
            match_amount: u(10),
            match_price: u(100),
        }
    );
    // The residual buy of 5 rests at 100; the sell side is empty.
    let book = OrderBook::load(&snap2);
    assert_eq!(book.sell_levels.len(), 0);
    assert_eq!(book.buy_levels.len(), 1);
    assert_eq!(book.buy_levels[0].price, u(100));
    assert_eq!(book.buy_levels[0].entries.len(), 1);
    assert_eq!(book.buy_levels[0].entries[0].order.id, 2);
    assert_eq!(book.buy_levels[0].entries[0].remaining_amount, u(5));
}

#[test]
fn trigger_and_unknown_events_leave_book_as_it_was() {
    let mut book = OrderBook::new();
    let (t0, d0) = order_placed_event(1, 1, 100, 10, 1);
    let (_, snapshot) = process_trigger(&t0, &d0, &Vec::new()).unwrap();
    assert_eq!(book.sell_levels.len(), 0);
    // A trigger event mutates nothing.
    let trig_topics = vec![trigger_topic0(), word_u64(1)];
    let (ms, snap2) = process_trigger(&trig_topics, &Vec::new(), &snapshot).unwrap();
    assert_eq!(ms.len(), 0);
    book = OrderBook::load(&snap2);
    assert_eq!(book.sell_levels.len(), 1);
    assert_eq!(book.sell_levels[0].entries[0].order.id, 1);
    // An unrecognized signature is ignored, and so is an event with no topics.
    let unknown = vec![vec![0x01, 0x02, 0x03, 0x04], word_u64(1)];
    let (ms2, snap3) = process_trigger(&unknown, &Vec::new(), &snap2).unwrap();
    assert_eq!(ms2.len(), 0);
    let (ms3, snap4) = process_trigger(&Vec::new(), &Vec::new(), &snap3).unwrap();
    assert_eq!(ms3.len(), 0);
    book = OrderBook::load(&snap4);
    assert_eq!(book.sell_levels.len(), 1);
    // A malformed order-placement event aborts the cycle instead.
    let (mut bad_topics, bad_data) = order_placed_event(2, 3, 100, 10, 1);
    assert_eq!(
        process_trigger(&bad_topics, &bad_data, &snap4),
        Err(DecodeError::InvalidSide)
    );
    bad_topics.pop();
    assert_eq!(
        process_trigger(&bad_topics, &bad_data, &snap4),
        Err(DecodeError::MalformedEvent)
    );
}
