use exchange::auth::{login, login_decision, new_user, register, AuthError};
use exchange::replies::Reply;
use exchange::requests::{cancel_order, create_order, get_open_orders, order_history, update_order};
use exchange::types::{CancelOrderData, MessageToEngine, NewOrder, OpenOrdersQuery, OrderSide};

#[test]
fn create_order_forwards_the_body_under_the_user_id() {
    let body = NewOrder {
        market: "BTC-USD".to_string(),
        price: "45000.50".to_string(),
        quantity: "0.005".to_string(),
        side: OrderSide::Buy,
    };
    let req = create_order("user-7".to_string(), body);
    assert_eq!(req.user_id, "user-7");
    match req.message {
        MessageToEngine::CreateOrder { data } => {
            assert_eq!(data.market, "BTC-USD");
            assert_eq!(data.price, "45000.50");
            assert_eq!(data.quantity, "0.005");
            assert_eq!(data.side, OrderSide::Buy);
        }
        _ => panic!("expected CreateOrder"),
    }
}

#[test]
fn get_open_orders_asks_for_the_queried_market() {
    let req = get_open_orders("user-7".to_string(), &OpenOrdersQuery { market: "ETH-USD".to_string() });
    assert_eq!(req.user_id, "user-7");
    match req.message {
        MessageToEngine::GetOpenOrders { data } => assert_eq!(data.market, "ETH-USD"),
        _ => panic!("expected GetOpenOrders"),
    }
}

#[test]
fn update_order_sends_the_id_and_answers_with_text() {
    let (req, reply) = update_order("42".to_string());
    assert_eq!(req.user_id, "42");
    match reply {
        Reply::Text { status, body } => {
            assert_eq!(status, 200);
            assert_eq!(body, "Update order 42");
        }
        other => panic!("expected a text reply, got {:?}", other),
    }
    match req.message {
        MessageToEngine::UpdateOrder { data } => assert_eq!(data.order_id, "42"),
        _ => panic!("expected UpdateOrder"),
    }
}

#[test]
fn cancel_order_uses_the_query_and_answers_with_text() {
    let query = CancelOrderData { order_id: "9".to_string(), market: "BTC-USD".to_string() };
    let (req, reply) = cancel_order("42".to_string(), &query);
    assert_eq!(req.user_id, "42");
    match reply {
        Reply::Text { status, body } => {
            assert_eq!(status, 200);
            assert_eq!(body, "Cancel order 42");
        }
        other => panic!("expected a text reply, got {:?}", other),
    }
    match req.message {
        MessageToEngine::CancelOrder { data } => {
            assert_eq!(data.order_id, "9");
            assert_eq!(data.market, "BTC-USD");
        }
        _ => panic!("expected CancelOrder"),
    }
}

#[test]
fn order_history_asks_for_all_markets() {
    let req = order_history();
    assert_eq!(req.user_id, "history_request");
    match req.message {
        MessageToEngine::GetOpenOrders { data } => assert_eq!(data.market, "ALL"),
        _ => panic!("expected GetOpenOrders"),
    }
}

#[test]
fn registered_password_logs_in_and_another_does_not() {
    let user = match register("a@b.c".to_string(), "alice".to_string(), "hunter2") {
        Ok(u) => u,
        Err(AuthError::HashFailed) => panic!("hashing failed"),
    };
    assert_eq!(user.email, "a@b.c");
    assert_eq!(user.username, "alice");
    assert_eq!(user.password_hash.len(), 60);
    assert!(user.password_hash.starts_with("$2b$12$"));
    assert!(user.password_hash != "hunter2");
    assert!(login("hunter2", &user.password_hash));
    assert!(!login("hunter3", &user.password_hash));
}

#[test]
fn malformed_stored_hash_rejects_login() {
    assert!(!login("hunter2", "not a bcrypt hash"));
    assert!(!login("hunter2", ""));
}

#[test]
fn login_decision_accepts_only_a_positive_verification() {
    assert!(login_decision(Some(true)));
    assert!(!login_decision(Some(false)));
    assert!(!login_decision(None));
}

#[test]
fn new_user_keeps_the_hash_or_reports_the_failure() {
    let user = new_user("a@b.c".to_string(), "alice".to_string(), Some("h".to_string())).unwrap();
    assert_eq!(user.email, "a@b.c");
    assert_eq!(user.username, "alice");
    assert_eq!(user.password_hash, "h");
    assert_eq!(new_user("a@b.c".to_string(), "alice".to_string(), None).unwrap_err(), AuthError::HashFailed);
}
