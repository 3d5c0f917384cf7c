//! What the HTTP routes answer, given what their database lookups and engine
//! requests gave back.
use vstd::prelude::*;
use vstd::string::*;

use crate::types::MessageFromOrderbook;

verus! {

#[verifier::external_type_specification]
#[verifier::external_body]
pub struct ExUuid(uuid::Uuid);

/// The JSON body of the auth routes' successful replies.
#[derive(Debug)]
pub struct ResponseMessage {
    pub message: String,
    pub status_code: u16,
    pub token: Option<String>,
    pub user_id: Option<uuid::Uuid>,
}

/// An HTTP reply: a status with a JSON body, a text body, or no body.
#[derive(Debug)]
pub enum Reply<T> {
    Json { status: u16, body: T },
    Text { status: u16, body: String },
    Empty { status: u16 },
}

/// What registering a user gave back from the database.
#[derive(Debug)]
pub enum RegisterOutcome {
    /// No database connection could be had.
    NoConnection,
    /// The user row was inserted under this id.
    Inserted { user_id: uuid::Uuid },
    /// The insert broke a uniqueness constraint.
    AlreadyExists,
    /// The insert failed otherwise.
    Failed,
}

/// What looking up a user for a login gave back.
#[derive(Debug)]
pub enum LoginOutcome {
    /// No database connection could be had.
    NoConnection,
    /// No user has this email (or the lookup failed).
    NoSuchUser,
    /// The user was found; whether the password was accepted against the
    /// stored hash.
    Found { user_id: uuid::Uuid, password_accepted: bool },
}

/// The reply of `POST /api/v1/auth/register`: 200 with the new user's id,
/// 409 when the user exists, 500 otherwise.
pub fn register_reply(outcome: RegisterOutcome) -> (r: Reply<ResponseMessage>)
    ensures
        match outcome {
            RegisterOutcome::NoConnection => r matches Reply::Text { status, body } && status == 500
                && body@ == "DB connection error"@,
            RegisterOutcome::Inserted { user_id } => r matches Reply::Json { status, body } && status
                == 200 && body.message@ == "Registration successful"@ && body.status_code == 200
                && body.token is None && body.user_id == Some(user_id),
            RegisterOutcome::AlreadyExists => r matches Reply::Text { status, body } && status == 409
                && body@ == "User already exists"@,
            RegisterOutcome::Failed => r matches Reply::Empty { status } && status == 500,
        },
{
    match outcome {
        RegisterOutcome::NoConnection => Reply::Text {
            status: 500,
            body: String::from_str("DB connection error"),
        },
        RegisterOutcome::Inserted { user_id } => Reply::Json {
            status: 200,
            body: ResponseMessage {
                message: String::from_str("Registration successful"),
                status_code: 200,
                token: None,
                user_id: Some(user_id),
            },
        },
        RegisterOutcome::AlreadyExists => Reply::Text {
            status: 409,
            body: String::from_str("User already exists"),
        },
        RegisterOutcome::Failed => Reply::Empty { status: 500 },
    }
}

/// The reply of `POST /api/v1/auth/login`: 200 with the user's id and the
/// session token `token` when the password was accepted, 401 when the user is
/// unknown or the password wrong, 500 without a database connection.
pub fn login_reply(outcome: LoginOutcome, token: String) -> (r: Reply<ResponseMessage>)
    ensures
        match outcome {
            LoginOutcome::NoConnection => r matches Reply::Text { status, body } && status == 500
                && body@ == "DB connection error"@,
            LoginOutcome::NoSuchUser => r matches Reply::Text { status, body } && status == 401
                && body@ == "Invalid credentials"@,
            LoginOutcome::Found { user_id, password_accepted } => if password_accepted {
                r matches Reply::Json { status, body } && status == 200 && body.message@
                    == "Login successful"@ && body.status_code == 200 && body.token == Some(token)
                    && body.user_id == Some(user_id)
            } else {
                r matches Reply::Text { status, body } && status == 401 && body@
                    == "Invalid credentials"@
            },
        },
{
    match outcome {
        LoginOutcome::NoConnection => Reply::Text {
            status: 500,
            body: String::from_str("DB connection error"),
        },
        LoginOutcome::NoSuchUser => Reply::Text {
            status: 401,
            body: String::from_str("Invalid credentials"),
        },
        LoginOutcome::Found { user_id, password_accepted } => {
            if password_accepted {
                Reply::Json {
                    status: 200,
                    body: ResponseMessage {
                        message: String::from_str("Login successful"),
                        status_code: 200,
                        token: Some(token),
                        user_id: Some(user_id),
                    },
                }
            } else {
                Reply::Text { status: 401, body: String::from_str("Invalid credentials") }
            }
        },
    }
}

/// The JSON body of `GET /api/v1/auth/me`: the id of the signed-in user.
#[derive(Debug)]
pub struct MeResponse {
    pub user_id: String,
}

/// The reply of `GET /api/v1/auth/me`, given the subject of the session's
/// verified token, if the request carried one: 200 with that subject as the
/// user's id, else 401 with no body.
pub fn me_reply(subject: Option<String>) -> (r: Reply<MeResponse>)
    ensures
        match subject {
            Some(sub) => r matches Reply::Json { status, body } && status == 200 && body.user_id
                == sub,
            None => r matches Reply::Empty { status } && status == 401,
        },
{
    match subject {
        Some(sub) => Reply::Json { status: 200, body: MeResponse { user_id: sub } },
        None => Reply::Empty { status: 401 },
    }
}

/// The reply of `POST /api/v1/orders/{userid}`: 200 with the engine's answer,
/// or 500 with `Error: ` and the error's text.
pub fn create_order_reply(answer: Result<MessageFromOrderbook, String>) -> (r: Reply<
    MessageFromOrderbook,
>)
    ensures
        match answer {
            Ok(m) => r == (Reply::Json::<MessageFromOrderbook> { status: 200, body: m }),
            Err(e) => r matches Reply::Text { status, body } && status == 500 && body@ == "Error: "@
                + e@,
        },
{
    match answer {
        Ok(m) => Reply::Json { status: 200, body: m },
        Err(e) => {
            let mut body = String::from_str("Error: ");
            body.append(e.as_str());
            Reply::Text { status: 500, body }
        },
    }
}

/// The reply of the routes that pass the engine's answer on
/// (`GET /api/v1/orders`, `GET /api/v1/orders/history`): 200 with the answer,
/// or 500 with no body when no answer came.
pub fn engine_answer_reply(answer: Option<MessageFromOrderbook>) -> (r: Reply<MessageFromOrderbook>)
    ensures
        match answer {
            Some(m) => r == (Reply::Json::<MessageFromOrderbook> { status: 200, body: m }),
            None => r == (Reply::Empty::<MessageFromOrderbook> { status: 500 }),
        },
{
    match answer {
        Some(m) => Reply::Json { status: 200, body: m },
        None => Reply::Empty { status: 500 },
    }
}

} // verus!
