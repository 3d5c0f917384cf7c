//! Messages exchanged between the HTTP layer, the matching engine and the
//! database layer.
//!
//! Prices and quantities that travel as numbers are fixed-point integers: a
//! value `v` stands for `v / 10^8` (see `decimal`). Prices and quantities that
//! travel as text keep their text.
use vstd::prelude::*;

verus! {

/// Side of an order in the book.
#[derive(Debug, Clone, Copy, PartialEq, Eq, Structural)]
pub enum OrderSide {
    Buy,
    Sell,
}

/// The side that an order of side `side` trades against.
pub open spec fn opposite_side(side: OrderSide) -> OrderSide {
    match side {
        OrderSide::Buy => OrderSide::Sell,
        OrderSide::Sell => OrderSide::Buy,
    }
}

impl OrderSide {
    /// The side that an order of this side trades against.
    pub fn opposite(self) -> (r: OrderSide)
        ensures
            r == opposite_side(self),
    {
        match self {
            OrderSide::Buy => OrderSide::Sell,
            OrderSide::Sell => OrderSide::Buy,
        }
    }
}

/// Request to place a limit order.
#[derive(Debug, Clone)]
pub struct CreateOrderData {
    pub market: String,
    pub price: String,
    pub quantity: String,
    pub side: OrderSide,
}

/// Request for the open orders of a market.
#[derive(Debug, Clone)]
pub struct GetOpenOrdersData {
    pub market: String,
}

/// Request to cancel an order.
#[derive(Debug, Clone)]
pub struct CancelOrderData {
    pub order_id: String,
    pub market: String,
}

/// Request to update an order.
#[derive(Debug, Clone)]
pub struct UpdateOrderData {
    pub order_id: String,
}

/// Messages sent from the API into the matching engine.
#[derive(Debug, Clone)]
pub enum MessageToEngine {
    CreateOrder { data: CreateOrderData },
    GetOpenOrders { data: GetOpenOrdersData },
    CancelOrder { data: CancelOrderData },
    UpdateOrder { data: UpdateOrderData },
}

/// Aggregated book depth: `[price, quantity]` pairs as text.
#[derive(Debug, Clone)]
pub struct DepthPayload {
    pub market: String,
    pub bids: Vec<[String; 2]>,
    pub asks: Vec<[String; 2]>,
}

/// One trade produced while matching an incoming order.
/// `qty` is a fixed-point quantity (units of 10^-8).
#[derive(Debug, Clone)]
pub struct Fill {
    pub price: String,
    pub qty: i64,
    pub trade_id: i64,
}

/// Reply to a placed order. `executed_qty` is a fixed-point quantity.
#[derive(Debug, Clone)]
pub struct OrderPlacedPayload {
    pub order_id: String,
    pub executed_qty: i64,
    pub fills: Vec<Fill>,
}

/// Reply to a cancelled order. Quantities are fixed-point.
#[derive(Debug, Clone)]
pub struct OrderCancelledPayload {
    pub order_id: String,
    pub executed_qty: i64,
    pub remaining_qty: i64,
}

/// An open order as reported to clients. `executed_qty` is fixed-point.
#[derive(Debug, Clone)]
pub struct OpenOrder {
    pub order_id: String,
    pub executed_qty: i64,
    pub price: String,
    pub quantity: String,
    pub side: OrderSide,
    pub user_id: String,
}

/// Messages sent from the engine back to the API layer.
#[derive(Debug, Clone)]
pub enum MessageFromOrderbook {
    Depth { payload: DepthPayload },
    OrderPlaced { payload: OrderPlacedPayload },
    OrderCancelled { payload: OrderCancelledPayload },
    OpenOrders { payload: Vec<OpenOrder> },
}

/// Body of an order-creation request at the HTTP layer.
#[derive(Debug, Clone)]
pub struct NewOrder {
    pub market: String,
    pub price: String,
    pub quantity: String,
    pub side: OrderSide,
}

/// Query string of the open-orders request.
#[derive(Debug, Clone)]
pub struct OpenOrdersQuery {
    pub market: String,
}

/// A user row to insert: the password is stored only as a bcrypt hash.
#[derive(Debug, Clone)]
pub struct NewUser {
    pub email: String,
    pub username: String,
    pub password_hash: String,
}

} // verus!
