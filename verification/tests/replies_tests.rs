use exchange::replies::{
    create_order_reply, engine_answer_reply, login_reply, me_reply, register_reply, LoginOutcome,
    RegisterOutcome, Reply,
};
use exchange::types::MessageFromOrderbook;

fn text(r: Reply<impl std::fmt::Debug>) -> (u16, String) {
    match r {
        Reply::Text { status, body } => (status, body),
        other => panic!("expected a text reply, got {:?}", other),
    }
}

#[test]
fn register_replies() {
    let id = uuid::Uuid::from_u128(7);
    match register_reply(RegisterOutcome::Inserted { user_id: id }) {
        Reply::Json { status, body } => {
            assert_eq!(status, 200);
            assert_eq!(body.message, "Registration successful");
            assert_eq!(body.status_code, 200);
            assert_eq!(body.token, None);
            assert_eq!(body.user_id, Some(id));
        }
        other => panic!("expected JSON, got {:?}", other),
    }
    assert_eq!(text(register_reply(RegisterOutcome::AlreadyExists)), (409, "User already exists".to_string()));
    assert_eq!(text(register_reply(RegisterOutcome::NoConnection)), (500, "DB connection error".to_string()));
    assert!(matches!(register_reply(RegisterOutcome::Failed), Reply::Empty { status: 500 }));
}

#[test]
fn login_replies() {
    let id = uuid::Uuid::from_u128(9);
    match login_reply(LoginOutcome::Found { user_id: id, password_accepted: true }, "tok".to_string()) {
        Reply::Json { status, body } => {
            assert_eq!(status, 200);
            assert_eq!(body.message, "Login successful");
            assert_eq!(body.token, Some("tok".to_string()));
            assert_eq!(body.user_id, Some(id));
        }
        other => panic!("expected JSON, got {:?}", other),
    }
    assert_eq!(
        text(login_reply(LoginOutcome::Found { user_id: id, password_accepted: false }, "tok".to_string())),
        (401, "Invalid credentials".to_string())
    );
    assert_eq!(text(login_reply(LoginOutcome::NoSuchUser, String::new())), (401, "Invalid credentials".to_string()));
    assert_eq!(text(login_reply(LoginOutcome::NoConnection, String::new())), (500, "DB connection error".to_string()));
}

#[test]
fn order_route_replies() {
    match create_order_reply(Ok(MessageFromOrderbook::OpenOrders { payload: vec![] })) {
        Reply::Json { status, .. } => assert_eq!(status, 200),
        other => panic!("expected JSON, got {:?}", other),
    }
    assert_eq!(text(create_order_reply(Err("timeout".to_string()))), (500, "Error: timeout".to_string()));
    assert!(matches!(
        engine_answer_reply(Some(MessageFromOrderbook::OpenOrders { payload: vec![] })),
        Reply::Json { status: 200, .. }
    ));
    assert!(matches!(engine_answer_reply(None), Reply::Empty { status: 500 }));
}

#[test]
fn me_replies() {
    match me_reply(Some("a-user".to_string())) {
        Reply::Json { status, body } => {
            assert_eq!(status, 200);
            assert_eq!(body.user_id, "a-user");
        }
        other => panic!("expected JSON, got {:?}", other),
    }
    assert!(matches!(me_reply(None), Reply::Empty { status: 401 }));
}
