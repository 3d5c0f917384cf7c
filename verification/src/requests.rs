//! What the HTTP order routes send to the engine, and what they answer when
//! they do not pass the engine's reply on.
use vstd::prelude::*;
use vstd::string::*;

use crate::replies::Reply;
use crate::types::{
    CancelOrderData, CreateOrderData, GetOpenOrdersData, MessageFromOrderbook, MessageToEngine,
    NewOrder, OpenOrdersQuery, UpdateOrderData,
};

verus! {

/// A message for the engine together with the id it is sent under.
#[derive(Debug)]
pub struct EngineRequest {
    pub message: MessageToEngine,
    pub user_id: String,
}

/// `POST /api/v1/orders/{userid}`: the order of the request body, sent under
/// the user id of the path.
pub fn create_order(userid: String, order: NewOrder) -> (r: EngineRequest)
    ensures
        r.user_id == userid,
        r.message matches MessageToEngine::CreateOrder { data } && data.market == order.market
            && data.price == order.price && data.quantity == order.quantity && data.side
            == order.side,
{
    let message = MessageToEngine::CreateOrder {
        data: CreateOrderData {
            market: order.market,
            price: order.price,
            quantity: order.quantity,
            side: order.side,
        },
    };
    EngineRequest { message, user_id: userid }
}

/// `GET /api/v1/orders`: the open orders of the queried market, asked for
/// under the caller's user id.
pub fn get_open_orders(user_id: String, query: &OpenOrdersQuery) -> (r: EngineRequest)
    ensures
        r.user_id == user_id,
        r.message matches MessageToEngine::GetOpenOrders { data } && data.market@ == query.market@,
{
    let message = MessageToEngine::GetOpenOrders {
        data: GetOpenOrdersData { market: query.market.clone() },
    };
    EngineRequest { message, user_id }
}

/// `PUT /api/v1/orders/{order_id}`: the update request, sent under the order
/// id, and what the route answers whatever the engine replies: 200 with the
/// text `Update order <order_id>`.
pub fn update_order(order_id: String) -> (r: (EngineRequest, Reply<MessageFromOrderbook>))
    ensures
        r.0.user_id@ == order_id@,
        r.0.message matches MessageToEngine::UpdateOrder { data } && data.order_id@ == order_id@,
        r.1 matches Reply::Text { status, body } && status == 200 && body@ == "Update order "@
            + order_id@,
{
    let mut reply = String::from_str("Update order ");
    reply.append(order_id.as_str());
    let message = MessageToEngine::UpdateOrder {
        data: UpdateOrderData { order_id: order_id.clone() },
    };
    (EngineRequest { message, user_id: order_id }, Reply::Text { status: 200, body: reply })
}

/// `DELETE /api/v1/orders/{order_id}`: the cancel request for the order and
/// market of the query, sent under the order id of the path, and what the
/// route answers whatever the engine replies: 200 with the text
/// `Cancel order <order_id>`.
pub fn cancel_order(order_id: String, query: &CancelOrderData) -> (r: (EngineRequest, Reply<MessageFromOrderbook>))
    ensures
        r.0.user_id@ == order_id@,
        r.0.message matches MessageToEngine::CancelOrder { data } && data.order_id@
            == query.order_id@ && data.market@ == query.market@,
        r.1 matches Reply::Text { status, body } && status == 200 && body@ == "Cancel order "@
            + order_id@,
{
    let mut reply = String::from_str("Cancel order ");
    reply.append(order_id.as_str());
    let message = MessageToEngine::CancelOrder {
        data: CancelOrderData { order_id: query.order_id.clone(), market: query.market.clone() },
    };
    (EngineRequest { message, user_id: order_id }, Reply::Text { status: 200, body: reply })
}

/// `GET /api/v1/orders/history`: the open orders of every market (`ALL`),
/// asked for under the id `history_request`.
pub fn order_history() -> (r: EngineRequest)
    ensures
        r.user_id@ == "history_request"@,
        r.message matches MessageToEngine::GetOpenOrders { data } && data.market@ == "ALL"@,
{
    let message = MessageToEngine::GetOpenOrders {
        data: GetOpenOrdersData { market: String::from_str("ALL") },
    };
    EngineRequest { message, user_id: String::from_str("history_request") }
}

} // verus!
