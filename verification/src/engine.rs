//! The matching engine's answer to each message it receives.
use vstd::prelude::*;

use crate::book::{
    insertion_index, lemma_nonpositive_quantity_ignored, lemma_quantity_conserved,
    lemma_rest_time_priority, match_outcome, reports, resting_qty, traded_qty, with_qty, BookView,
    Order, OrderBook,
};
use crate::decimal::{decimal_value, parse_decimal};
use crate::types::{opposite_side, CreateOrderData, MessageFromOrderbook, MessageToEngine};

verus! {

/// `v`, or `0` when there is none (a price or quantity that does not parse
/// counts as zero).
pub open spec fn or_zero(v: Option<i64>) -> i64 {
    match v {
        Some(x) => x,
        None => 0,
    }
}

/// The order that a creation request stands for, once given its id and the
/// id of its user.
pub open spec fn requested_order(data: CreateOrderData, user_id: String, order_id: String) -> Order {
    Order {
        id: order_id,
        user_id: user_id,
        price: or_zero(decimal_value(data.price@)),
        qty: or_zero(decimal_value(data.quantity@)),
        side: data.side,
    }
}

/// Placing the order of `data` (with ids `user_id` and `order_id`) turns the
/// book `before` into `after` and is answered with `reply`: the book is the
/// one matching gives, and the reply is `OrderPlaced` with the order id, the
/// executed quantity and one fill per trade.
pub open spec fn places(
    before: BookView,
    data: CreateOrderData,
    user_id: String,
    order_id: String,
    after: BookView,
    reply: MessageFromOrderbook,
) -> bool {
    let out = match_outcome(before, requested_order(data, user_id, order_id));
    &&& after == out.0
    &&& reply matches MessageFromOrderbook::OrderPlaced { payload } && {
        &&& payload.order_id@ == order_id@
        &&& payload.executed_qty == traded_qty(out.1)
        &&& payload.fills@.len() == out.1.len()
        &&& forall|k: int| 0 <= k < out.1.len() ==> reports(#[trigger] payload.fills@[k], out.1[k])
    }
}

/// Placing a request books exactly the quantity its text reads as: with a
/// positive quantity `q`, the executed quantity `e` lies in `0..=q`, the
/// opposite side loses exactly `e` and the request's own side gains exactly
/// `q - e`, and when `e < q` the rest stands on that side as an order with
/// the request's ids, side and price as read from its text, and quantity
/// `q - e`; a quantity that reads as zero or less (or does not read at all)
/// executes nothing and leaves the book as it was.
pub proof fn lemma_placing_books_the_parsed_quantity(
    before: BookView,
    data: CreateOrderData,
    user_id: String,
    order_id: String,
    after: BookView,
    reply: MessageFromOrderbook,
)
    requires
        before.wf(),
        places(before, data, user_id, order_id, after, reply),
    ensures
        reply matches MessageFromOrderbook::OrderPlaced { payload } && {
            let q = or_zero(decimal_value(data.quantity@)) as int;
            let e = payload.executed_qty as int;
            let side = data.side;
            let opp = opposite_side(side);
            &&& q <= 0 ==> after == before && e == 0
            &&& q > 0 ==> {
                &&& 0 <= e <= q
                &&& resting_qty(before.side(opp)) - resting_qty(after.side(opp)) == e
                &&& resting_qty(after.side(side)) - resting_qty(before.side(side)) == q - e
                &&& e < q ==> exists|i: int|
                    0 <= i < after.side(side).len() && #[trigger] after.side(side)[i] == (Order {
                        id: order_id,
                        user_id: user_id,
                        price: or_zero(decimal_value(data.price@)),
                        qty: (q - e) as i64,
                        side: side,
                    })
            }
        },
{
    let o = requested_order(data, user_id, order_id);
    let out = match_outcome(before, o);
    if o.qty <= 0 {
        lemma_nonpositive_quantity_ignored(before, o);
        assert(traded_qty(out.1) == 0);
    } else {
        lemma_quantity_conserved(before, o);
        lemma_rest_time_priority(before, o);
        let left = o.qty - traded_qty(out.1);
        if left > 0 {
            let own0 = before.side(o.side);
            let idx = insertion_index(own0, o.side, o.price);
            assert(out.0.side(o.side)[idx] == with_qty(o, left as i64));
        }
    }
}

/// The lowercase hexadecimal digit of `n` (`0 <= n < 16`).
pub open spec fn hex_digit(n: int) -> char {
    if n < 10 {
        (n + 48) as char
    } else {
        (n + 87) as char
    }
}

/// Byte `i` of a version-4 UUID built from the random bytes `b`: the high
/// nibble of byte 6 is the version `4`, the two high bits of byte 8 are the
/// variant `10`.
pub open spec fn uuid_v4_byte(b: Seq<u8>, i: int) -> int {
    if i == 6 {
        (b[6] as int) % 16 + 64
    } else if i == 8 {
        (b[8] as int) % 64 + 128
    } else {
        b[i] as int
    }
}

/// The position among the 32 hexadecimal digits of the character at position
/// `p` of the hyphenated text (`8-4-4-4-12`).
pub open spec fn uuid_digit_index(p: int) -> int {
    if p < 8 {
        p
    } else if p < 13 {
        p - 1
    } else if p < 18 {
        p - 2
    } else if p < 23 {
        p - 3
    } else {
        p - 4
    }
}

/// The hyphenated lowercase text of the version-4 UUID built from the random
/// bytes `b`.
pub open spec fn uuid_v4_text(b: Seq<u8>) -> Seq<char> {
    Seq::new(
        36,
        |p: int|
            if p == 8 || p == 13 || p == 18 || p == 23 {
                '-'
            } else {
                let j = uuid_digit_index(p);
                let byte = uuid_v4_byte(b, j / 2);
                hex_digit(if j % 2 == 0 { byte / 16 } else { byte % 16 })
            },
    )
}

/// Calls `getrandom::fill` on 16 bytes: `None` when the operating system gave
/// no random bytes. Which bytes come back is chance, so nothing is stated of
/// them.
#[verifier::external_body]
fn random_bytes() -> (r: Option<[u8; 16]>)
{
    let mut bytes = [0u8; 16];
    match getrandom::fill(&mut bytes) {
        Ok(()) => Some(bytes),
        Err(_) => None,
    }
}

/// Calls `uuid::Builder::from_random_bytes(bytes).into_uuid()` and writes the
/// UUID with `to_string()`. The crate's source fixes the text: the bytes with
/// the version and variant bits set, as 32 lowercase hexadecimal digits in
/// groups of 8, 4, 4, 4 and 12 joined by `-`.
#[verifier::external_body]
fn uuid_v4_from_bytes(bytes: [u8; 16]) -> (id: String)
    ensures
        id@ == uuid_v4_text(bytes@),
{
    uuid::Builder::from_random_bytes(bytes).into_uuid().to_string()
}

/// A fresh order id, drawn from 16 random bytes: `None` when no random bytes
/// could be drawn.
fn new_order_id() -> (id: Option<String>)
    ensures
        id matches Some(s) ==> exists|b: Seq<u8>| b.len() == 16 && s@ == uuid_v4_text(b) && uuid_v4_shaped(s@),
{
    match random_bytes() {
        Some(bytes) => {
            let s = uuid_v4_from_bytes(bytes);
            proof {
                lemma_uuid_v4_text_shape(bytes@);
            }
            assert(bytes@.len() == 16 && s@ == uuid_v4_text(bytes@) && uuid_v4_shaped(s@));
            Some(s)
        },
        None => None,
    }
}

/// Whether `t` has the shape of a version-4 UUID in hyphenated form:
/// 36 characters, hyphens at 8, 13, 18 and 23, and the version digit `4`
/// at 14.
pub open spec fn uuid_v4_shaped(t: Seq<char>) -> bool {
    &&& t.len() == 36
    &&& t[8] == '-'
    &&& t[13] == '-'
    &&& t[18] == '-'
    &&& t[23] == '-'
    &&& t[14] == '4'
}

/// Every order id drawn from 16 bytes has the shape of a version-4 UUID.
pub proof fn lemma_uuid_v4_text_shape(b: Seq<u8>)
    requires
        b.len() == 16,
    ensures
        uuid_v4_shaped(uuid_v4_text(b)),
{
    let t = uuid_v4_text(b);
    assert(uuid_digit_index(14) == 12);
    assert(uuid_v4_byte(b, 6) / 16 == 4);
}

/// Places the order of `data` for user `user_id` under the id `order_id`.
pub fn place_order(book: &mut OrderBook, data: &CreateOrderData, user_id: String, order_id: String) -> (r:
    MessageFromOrderbook)
    ensures
        places(old(book)@, *data, user_id, order_id, final(book)@, r),
{
    let price = match parse_decimal(data.price.as_str()) {
        Some(v) => v,
        None => 0,
    };
    let qty = match parse_decimal(data.quantity.as_str()) {
        Some(v) => v,
        None => 0,
    };
    let reply_id = order_id.clone();
    let order = Order { id: order_id, user_id, price, qty, side: data.side };
    let (executed_qty, fills) = book.match_order(order);
    let payload = crate::types::OrderPlacedPayload { order_id: reply_id, executed_qty, fills };
    MessageFromOrderbook::OrderPlaced { payload }
}

/// Answers a creation request: gives the order a fresh id and places it.
/// When no id could be drawn the book is left as it was and there is no
/// answer.
pub fn handle_create_order(book: &mut OrderBook, data: &CreateOrderData, user_id: &str) -> (r:
    Option<MessageFromOrderbook>)
    ensures
        r matches Some(reply) ==> exists|b: Seq<u8>, uid: String, oid: String|
            b.len() == 16 && oid@ == uuid_v4_text(b) && uuid_v4_shaped(oid@) && uid@ == user_id@
                    && places(
                old(book)@,
                *data,
                uid,
                oid,
                final(book)@,
                reply,
            ),
        r is None ==> final(book)@ == old(book)@,
{
    let order_id = match new_order_id() {
        Some(id) => id,
        None => {
            return None;
        },
    };
    let ghost b = choose|b: Seq<u8>| b.len() == 16 && order_id@ == uuid_v4_text(b) && uuid_v4_shaped(order_id@);
    let uid = user_id.to_string();
    let ghost oid = order_id;
    let ghost u = uid;
    let r = place_order(book, data, uid, order_id);
    assert(b.len() == 16 && oid@ == uuid_v4_text(b) && uuid_v4_shaped(oid@) && u@ == user_id@ && places(
        old(book)@,
        *data,
        u,
        oid,
        book@,
        r,
    ));
    Some(r)
}

/// Answers a message from the API: creation requests are placed (no answer,
/// and the book unchanged, when no order id could be drawn); every other
/// request is answered with an empty list of open orders and leaves the book
/// as it was.
pub fn handle_message(book: &mut OrderBook, msg: &MessageToEngine, user_id: &str) -> (r: Option<
    MessageFromOrderbook,
>)
    ensures
        match *msg {
            MessageToEngine::CreateOrder { data } => {
                &&& r matches Some(reply) ==> exists|b: Seq<u8>, uid: String, oid: String|
                    b.len() == 16 && oid@ == uuid_v4_text(b) && uuid_v4_shaped(oid@) && uid@ == user_id@
                    && places(
                        old(book)@,
                        data,
                        uid,
                        oid,
                        final(book)@,
                        reply,
                    )
                &&& r is None ==> final(book)@ == old(book)@
            },
            _ => final(book)@ == old(book)@ && (r matches Some(
                MessageFromOrderbook::OpenOrders { payload },
            ) && payload@.len() == 0),
        },
{
    match msg {
        MessageToEngine::CreateOrder { data } => handle_create_order(book, data, user_id),
        _ => Some(MessageFromOrderbook::OpenOrders { payload: Vec::new() }),
    }
}

} // verus!
