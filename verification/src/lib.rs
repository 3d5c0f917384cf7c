//! An exchange: a price-time priority order book, the engine that answers
//! the messages it receives, and the request builders of the HTTP layer.
use vstd::prelude::*;

pub mod auth;
pub mod book;
pub mod decimal;
pub mod engine;
pub mod levels;
pub mod replies;
pub mod requests;
pub mod types;

verus! {
} // verus!
