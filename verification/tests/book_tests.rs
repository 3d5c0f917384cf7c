use exchange::book::{Order, OrderBook};
use exchange::types::OrderSide;

const UNIT: i64 = 100_000_000;

fn order(id: &str, side: OrderSide, price: i64, qty: i64) -> Order {
    Order {
        id: id.to_string(),
        user_id: "u".to_string(),
        price: price * UNIT,
        qty: qty * UNIT,
        side,
    }
}

#[test]
fn non_crossing_order_rests_without_fills() {
    let mut book = OrderBook::new();
    let (executed, fills) = book.match_order(order("s1", OrderSide::Sell, 101, 5));
    assert_eq!(executed, 0);
    assert!(fills.is_empty());
    // a buy below the ask does not trade either
    let (executed, fills) = book.match_order(order("b1", OrderSide::Buy, 100, 5));
    assert_eq!(executed, 0);
    assert!(fills.is_empty());
}

#[test]
fn buy_trades_against_resting_ask_at_ask_price() {
    let mut book = OrderBook::new();
    book.match_order(order("s1", OrderSide::Sell, 100, 5));
    let (executed, fills) = book.match_order(order("b1", OrderSide::Buy, 105, 3));
    assert_eq!(executed, 3 * UNIT);
    assert_eq!(fills.len(), 1);
    assert_eq!(fills[0].price, "100");
    assert_eq!(fills[0].qty, 3 * UNIT);
    assert_eq!(fills[0].trade_id, 0);
    // two units are left on the ask
    let (executed, fills) = book.match_order(order("b2", OrderSide::Buy, 100, 10));
    assert_eq!(executed, 2 * UNIT);
    assert_eq!(fills.len(), 1);
}

#[test]
fn best_price_trades_first() {
    let mut book = OrderBook::new();
    book.match_order(order("s1", OrderSide::Sell, 103, 1));
    book.match_order(order("s2", OrderSide::Sell, 101, 1));
    book.match_order(order("s3", OrderSide::Sell, 102, 1));
    let (executed, fills) = book.match_order(order("b1", OrderSide::Buy, 110, 3));
    assert_eq!(executed, 3 * UNIT);
    let prices: Vec<&str> = fills.iter().map(|f| f.price.as_str()).collect();
    assert_eq!(prices, vec!["101", "102", "103"]);
}

#[test]
fn sells_trade_against_highest_bid_first() {
    let mut book = OrderBook::new();
    book.match_order(order("b1", OrderSide::Buy, 99, 1));
    book.match_order(order("b2", OrderSide::Buy, 100, 1));
    let (executed, fills) = book.match_order(order("s1", OrderSide::Sell, 99, 2));
    assert_eq!(executed, 2 * UNIT);
    let prices: Vec<&str> = fills.iter().map(|f| f.price.as_str()).collect();
    assert_eq!(prices, vec!["100", "99"]);
}

#[test]
fn limit_stops_matching_and_rest_of_order_rests() {
    let mut book = OrderBook::new();
    book.match_order(order("s1", OrderSide::Sell, 100, 1));
    book.match_order(order("s2", OrderSide::Sell, 102, 1));
    let (executed, fills) = book.match_order(order("b1", OrderSide::Buy, 101, 4));
    assert_eq!(executed, UNIT);
    assert_eq!(fills.len(), 1);
    assert_eq!(fills[0].price, "100");
    // three units of b1 now rest as a bid at 101: a sell at 101 takes them
    let (executed, fills) = book.match_order(order("s3", OrderSide::Sell, 101, 5));
    assert_eq!(executed, 3 * UNIT);
    assert_eq!(fills.len(), 1);
    assert_eq!(fills[0].price, "101");
}

#[test]
fn equal_prices_fill_in_arrival_order() {
    let mut book = OrderBook::new();
    book.match_order(order("s1", OrderSide::Sell, 100, 2));
    book.match_order(order("s2", OrderSide::Sell, 100, 3));
    // takes all of s1 and one unit of s2
    let (executed, fills) = book.match_order(order("b1", OrderSide::Buy, 100, 3));
    assert_eq!(executed, 3 * UNIT);
    assert_eq!(fills.len(), 2);
    assert_eq!(fills[0].qty, 2 * UNIT);
    assert_eq!(fills[1].qty, UNIT);
    // two units of s2 remain
    let (executed, _) = book.match_order(order("b2", OrderSide::Buy, 100, 9));
    assert_eq!(executed, 2 * UNIT);
}

#[test]
fn non_positive_quantity_neither_trades_nor_rests() {
    let mut book = OrderBook::new();
    book.match_order(order("s1", OrderSide::Sell, 100, 2));
    let (executed, fills) = book.match_order(order("b1", OrderSide::Buy, 100, 0));
    assert_eq!(executed, 0);
    assert!(fills.is_empty());
    let (executed, fills) = book.match_order(order("b2", OrderSide::Buy, 100, -4));
    assert_eq!(executed, 0);
    assert!(fills.is_empty());
    // neither rested: a sell at 100 finds no bid
    let (executed, _) = book.match_order(order("s2", OrderSide::Sell, 100, 1));
    assert_eq!(executed, 0);
    // and the resting ask is intact
    let (executed, _) = book.match_order(order("b3", OrderSide::Buy, 100, 5));
    assert_eq!(executed, 3 * UNIT);
}

#[test]
fn executed_quantity_is_sum_of_fills_and_rest_is_conserved() {
    let mut book = OrderBook::new();
    book.match_order(order("s1", OrderSide::Sell, 100, 2));
    book.match_order(order("s2", OrderSide::Sell, 101, 2));
    let (executed, fills) = book.match_order(order("b1", OrderSide::Buy, 101, 7));
    let total: i64 = fills.iter().map(|f| f.qty).sum();
    assert_eq!(executed, total);
    assert_eq!(executed, 4 * UNIT);
    // the untraded 3 units rest as a bid at 101
    let (executed, _) = book.match_order(order("s3", OrderSide::Sell, 1, 100));
    assert_eq!(executed, 3 * UNIT);
}

#[test]
fn fill_prices_are_written_as_decimals() {
    let mut book = OrderBook::new();
    book.match_order(Order {
        id: "s1".to_string(),
        user_id: "u".to_string(),
        price: 4_500_050_000_000,
        qty: 500_000,
        side: OrderSide::Sell,
    });
    let (executed, fills) = book.match_order(Order {
        id: "b1".to_string(),
        user_id: "u".to_string(),
        price: 4_500_050_000_000,
        qty: 500_000,
        side: OrderSide::Buy,
    });
    assert_eq!(executed, 500_000);
    assert_eq!(fills[0].price, "45000.5");
}
