use exchange::book::OrderBook;
use exchange::engine::{handle_create_order, handle_message, place_order};
use exchange::types::{
    CancelOrderData, CreateOrderData, GetOpenOrdersData, MessageFromOrderbook, MessageToEngine,
    OrderSide, UpdateOrderData,
};

fn create(price: &str, quantity: &str, side: OrderSide) -> CreateOrderData {
    CreateOrderData {
        market: "BTC-USD".to_string(),
        price: price.to_string(),
        quantity: quantity.to_string(),
        side,
    }
}

#[test]
fn create_order_is_answered_with_order_placed() {
    let mut book = OrderBook::new();
    let reply = handle_create_order(&mut book, &create("45000.50", "0.005", OrderSide::Sell), "alice")
        .expect("random bytes");
    match reply {
        MessageFromOrderbook::OrderPlaced { payload } => {
            let id: Vec<char> = payload.order_id.chars().collect();
            assert_eq!(id.len(), 36);
            for p in [8, 13, 18, 23] {
                assert_eq!(id[p], '-');
            }
            assert_eq!(id[14], '4');
            assert!("89ab".contains(id[19]));
            assert!(id.iter().all(|c| *c == '-' || c.is_ascii_digit() || ('a'..='f').contains(c)));
            assert_eq!(payload.executed_qty, 0);
            assert!(payload.fills.is_empty());
        }
        _ => panic!("expected OrderPlaced"),
    }
    let reply = handle_create_order(&mut book, &create("45001", "0.002", OrderSide::Buy), "bob")
        .expect("random bytes");
    match reply {
        MessageFromOrderbook::OrderPlaced { payload } => {
            assert_eq!(payload.executed_qty, 200_000);
            assert_eq!(payload.fills.len(), 1);
            assert_eq!(payload.fills[0].price, "45000.5");
            assert_eq!(payload.fills[0].qty, 200_000);
        }
        _ => panic!("expected OrderPlaced"),
    }
}

#[test]
fn place_order_reports_the_given_id() {
    let mut book = OrderBook::new();
    let reply = place_order(
        &mut book,
        &create("10", "1", OrderSide::Buy),
        "carol".to_string(),
        "order-1".to_string(),
    );
    match reply {
        MessageFromOrderbook::OrderPlaced { payload } => {
            assert_eq!(payload.order_id, "order-1");
            assert_eq!(payload.executed_qty, 0);
        }
        _ => panic!("expected OrderPlaced"),
    }
}

#[test]
fn unparsable_quantity_counts_as_zero() {
    let mut book = OrderBook::new();
    place_order(&mut book, &create("10", "2", OrderSide::Sell), "a".to_string(), "1".to_string());
    // a quantity that does not parse is zero: nothing trades, nothing rests
    let reply = place_order(&mut book, &create("10", "lots", OrderSide::Buy), "b".to_string(), "2".to_string());
    match reply {
        MessageFromOrderbook::OrderPlaced { payload } => assert_eq!(payload.executed_qty, 0),
        _ => panic!("expected OrderPlaced"),
    }
    // the ask is still whole
    let reply = place_order(&mut book, &create("10", "5", OrderSide::Buy), "c".to_string(), "3".to_string());
    match reply {
        MessageFromOrderbook::OrderPlaced { payload } => assert_eq!(payload.executed_qty, 200_000_000),
        _ => panic!("expected OrderPlaced"),
    }
}

#[test]
fn unparsable_price_counts_as_zero() {
    let mut book = OrderBook::new();
    place_order(&mut book, &create("10", "1", OrderSide::Sell), "a".to_string(), "1".to_string());
    // a buy priced at zero does not reach the ask at 10
    let reply = place_order(&mut book, &create("ten", "1", OrderSide::Buy), "b".to_string(), "2".to_string());
    match reply {
        MessageFromOrderbook::OrderPlaced { payload } => assert_eq!(payload.executed_qty, 0),
        _ => panic!("expected OrderPlaced"),
    }
}

#[test]
fn handle_message_places_create_requests() {
    let mut book = OrderBook::new();
    let msg = MessageToEngine::CreateOrder { data: create("1", "1", OrderSide::Buy) };
    match handle_message(&mut book, &msg, "dave").expect("random bytes") {
        MessageFromOrderbook::OrderPlaced { payload } => assert_eq!(payload.order_id.len(), 36),
        _ => panic!("expected OrderPlaced"),
    }
}

#[test]
fn other_requests_get_an_empty_open_orders_list() {
    let mut book = OrderBook::new();
    let msgs = vec![
        MessageToEngine::GetOpenOrders { data: GetOpenOrdersData { market: "BTC-USD".to_string() } },
        MessageToEngine::CancelOrder {
            data: CancelOrderData { order_id: "x".to_string(), market: "BTC-USD".to_string() },
        },
        MessageToEngine::UpdateOrder { data: UpdateOrderData { order_id: "x".to_string() } },
    ];
    for msg in msgs.iter() {
        match handle_message(&mut book, msg, "erin").expect("always answered") {
            MessageFromOrderbook::OpenOrders { payload } => assert!(payload.is_empty()),
            _ => panic!("expected OpenOrders"),
        }
    }
}

#[test]
fn exponent_prices_are_read() {
    let mut book = OrderBook::new();
    place_order(&mut book, &create("1e2", "1", OrderSide::Buy), "a".to_string(), "1".to_string());
    // the bid rests at 100: a sell at 100 trades with it
    let reply = place_order(&mut book, &create("100", "1", OrderSide::Sell), "b".to_string(), "2".to_string());
    match reply {
        MessageFromOrderbook::OrderPlaced { payload } => {
            assert_eq!(payload.executed_qty, 100_000_000);
            assert_eq!(payload.fills[0].price, "100");
        }
        _ => panic!("expected OrderPlaced"),
    }
}
