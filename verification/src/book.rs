//! A limit order book with price-time priority matching.
//!
//! Each side of the book is one queue of resting orders in priority order:
//! bids from the highest price down, asks from the lowest price up, and
//! orders of equal price in the order in which they arrived. An incoming
//! order trades against the front of the opposite side for as long as the
//! prices cross; what is left of it then rests at the back of its own price
//! level.
use std::collections::{BTreeMap, VecDeque};
use vstd::prelude::*;

use crate::decimal::{decimal_text, format_decimal};
use crate::levels::{
    best_price, best_qty, lemma_flatten_levels, lemma_flatten_rest, levels_view, levels_wf,
    pop_best, reduce_best, rest_in_levels, side_orders,
};
use crate::types::{opposite_side, Fill, OrderSide};

verus! {

/// An order. `price` and `qty` are fixed-point values (units of 10^-8).
pub struct Order {
    pub id: String,
    pub user_id: String,
    pub price: i64,
    pub qty: i64,
    pub side: OrderSide,
}

/// Whether, on side `side` of the book, price `a` comes no later than price
/// `b`: for bids a higher price is better, for asks a lower one.
pub open spec fn at_least_as_good(side: OrderSide, a: int, b: int) -> bool {
    match side {
        OrderSide::Buy => a >= b,
        OrderSide::Sell => a <= b,
    }
}

/// Whether an incoming order of side `side` with limit price `limit` may trade
/// with a resting order at price `price`.
pub open spec fn crosses(side: OrderSide, limit: int, price: int) -> bool {
    match side {
        OrderSide::Buy => price <= limit,
        OrderSide::Sell => price >= limit,
    }
}

/// One side of the book is well formed: every order has a positive quantity
/// and belongs to that side, and the orders are in priority order.
pub open spec fn side_wf(s: Seq<Order>, side: OrderSide) -> bool {
    &&& forall|i: int| 0 <= i < s.len() ==> (#[trigger] s[i]).qty > 0 && s[i].side == side
    &&& forall|i: int, j: int|
        0 <= i < j < s.len() ==> at_least_as_good(side, #[trigger] s[i].price as int, #[trigger] s[j].price as int)
}

/// Every bid is priced below every ask.
pub open spec fn uncrossed(bids: Seq<Order>, asks: Seq<Order>) -> bool {
    forall|i: int, j: int|
        0 <= i < bids.len() && 0 <= j < asks.len() ==> #[trigger] bids[i].price < #[trigger] asks[j].price
}

/// The contents of a book: both sides in priority order.
pub struct BookView {
    pub bids: Seq<Order>,
    pub asks: Seq<Order>,
}

impl BookView {
    /// The side that holds orders of side `side`.
    pub open spec fn side(self, side: OrderSide) -> Seq<Order> {
        match side {
            OrderSide::Buy => self.bids,
            OrderSide::Sell => self.asks,
        }
    }

    /// Both sides well formed, and the book not crossed.
    pub open spec fn wf(self) -> bool {
        &&& side_wf(self.bids, OrderSide::Buy)
        &&& side_wf(self.asks, OrderSide::Sell)
        &&& uncrossed(self.bids, self.asks)
    }
}

/// `o` with quantity `qty`.
pub open spec fn with_qty(o: Order, qty: i64) -> Order {
    Order { qty: qty, ..o }
}

/// Matching an incoming order of side `side`, limit `limit` and quantity `qty`
/// against the resting orders `book` of the opposite side, front first.
/// Gives the resting orders left, the trades as `(price, quantity)` pairs in
/// the order in which they happen, and the incoming quantity left.
pub open spec fn match_against(book: Seq<Order>, side: OrderSide, limit: i64, qty: i64) -> (
    Seq<Order>,
    Seq<(i64, i64)>,
    i64,
)
    decreases book.len(),
{
    if qty <= 0 || book.len() == 0 || !crosses(side, limit as int, book[0].price as int) {
        (book, Seq::empty(), qty)
    } else if book[0].qty > qty {
        (
            book.update(0, with_qty(book[0], (book[0].qty - qty) as i64)),
            seq![(book[0].price, qty)],
            0,
        )
    } else {
        let rest = match_against(book.drop_first(), side, limit, (qty - book[0].qty) as i64);
        (rest.0, seq![(book[0].price, book[0].qty)] + rest.1, rest.2)
    }
}

/// The position at which an order at `price` joins side `side`: after every
/// order whose price is at least as good.
pub open spec fn insertion_index(s: Seq<Order>, side: OrderSide, price: i64) -> int
    decreases s.len(),
{
    if s.len() > 0 && at_least_as_good(side, s[0].price as int, price as int) {
        1 + insertion_index(s.drop_first(), side, price)
    } else {
        0
    }
}

/// Side `s` with the order `o` resting at its place.
pub open spec fn rest_order(s: Seq<Order>, o: Order) -> Seq<Order> {
    s.insert(insertion_index(s, o.side, o.price), o)
}

/// The book after an incoming order, and the trades it made.
pub open spec fn match_outcome(book: BookView, incoming: Order) -> (BookView, Seq<(i64, i64)>) {
    let side = incoming.side;
    let m = match_against(book.side(opposite_side(side)), side, incoming.price, incoming.qty);
    let own = if m.2 > 0 {
        rest_order(book.side(side), with_qty(incoming, m.2))
    } else {
        book.side(side)
    };
    match side {
        OrderSide::Buy => (BookView { bids: own, asks: m.0 }, m.1),
        OrderSide::Sell => (BookView { bids: m.0, asks: own }, m.1),
    }
}

/// Total quantity of a list of trades.
pub open spec fn traded_qty(trades: Seq<(i64, i64)>) -> int
    decreases trades.len(),
{
    if trades.len() == 0 {
        0
    } else {
        trades[0].1 + traded_qty(trades.drop_first())
    }
}

/// Total quantity resting on one side.
pub open spec fn resting_qty(s: Seq<Order>) -> int
    decreases s.len(),
{
    if s.len() == 0 {
        0
    } else {
        s[0].qty + resting_qty(s.drop_first())
    }
}

/// `fill` reports the trade `trade`.
pub open spec fn reports(fill: Fill, trade: (i64, i64)) -> bool {
    &&& fill.price@ == decimal_text(trade.0 as int)
    &&& fill.qty == trade.1
    &&& fill.trade_id == 0
}

/// The resting orders left by `match_against`: a suffix of the side, whose
/// first order may have lost quantity; matching stops only when the incoming
/// quantity is used up or the front no longer crosses.
#[verifier::spinoff_prover]
#[verifier::rlimit(40)]
proof fn lemma_match_shape(book: Seq<Order>, side: OrderSide, limit: i64, qty: i64)
    requires
        side_wf(book, opposite_side(side)),
    ensures
        ({
            let m = match_against(book, side, limit, qty);
            let k = book.len() - m.0.len();
            &&& side_wf(m.0, opposite_side(side))
            &&& 0 <= k <= book.len()
            &&& forall|i: int|
                0 <= i < m.0.len() ==> {
                    &&& (#[trigger] m.0[i]).price == book[i + k].price
                    &&& m.0[i].side == book[i + k].side
                    &&& m.0[i].id == book[i + k].id
                    &&& m.0[i].user_id == book[i + k].user_id
                    &&& (i > 0 ==> m.0[i] == book[i + k])
                }
            &&& qty <= 0 ==> m.0 == book && m.1.len() == 0 && m.2 == qty
            &&& qty > 0 ==> 0 <= m.2 <= qty
            &&& m.2 > 0 ==> (m.0.len() == 0 || !crosses(side, limit as int, m.0[0].price as int))
        }),
    decreases book.len(),
{
    let m = match_against(book, side, limit, qty);
    if qty <= 0 || book.len() == 0 || !crosses(side, limit as int, book[0].price as int) {
    } else if book[0].qty > qty {
        let r = with_qty(book[0], (book[0].qty - qty) as i64);
        assert(m.0 == book.update(0, r));
    } else {
        let tail = book.drop_first();
        lemma_match_shape(tail, side, limit, (qty - book[0].qty) as i64);
        let r = match_against(tail, side, limit, (qty - book[0].qty) as i64);
        let kt = tail.len() - r.0.len();
        assert(m.0 == r.0);
        assert forall|i: int| 0 <= i < m.0.len() implies {
            &&& (#[trigger] m.0[i]).price == book[i + (book.len() - m.0.len())].price
            &&& m.0[i].side == book[i + (book.len() - m.0.len())].side
            &&& m.0[i].id == book[i + (book.len() - m.0.len())].id
            &&& m.0[i].user_id == book[i + (book.len() - m.0.len())].user_id
            &&& (i > 0 ==> m.0[i] == book[i + (book.len() - m.0.len())])
        } by {
            assert(book[i + (book.len() - m.0.len())] == tail[i + kt]);
        }
    }
}

/// Quantities in `match_against`: the trades add up to the incoming quantity
/// used, which is exactly the quantity the side loses.
#[verifier::spinoff_prover]
#[verifier::rlimit(40)]
proof fn lemma_match_quantities(book: Seq<Order>, side: OrderSide, limit: i64, qty: i64)
    requires
        side_wf(book, opposite_side(side)),
    ensures
        ({
            let m = match_against(book, side, limit, qty);
            &&& qty > 0 ==> traded_qty(m.1) == qty - m.2
            &&& resting_qty(book) - resting_qty(m.0) == traded_qty(m.1)
        }),
    decreases book.len(),
{
    let m = match_against(book, side, limit, qty);
    if qty <= 0 || book.len() == 0 || !crosses(side, limit as int, book[0].price as int) {
        assert(traded_qty(m.1) == 0);
    } else if book[0].qty > qty {
        let r = with_qty(book[0], (book[0].qty - qty) as i64);
        assert(m.0 == book.update(0, r));
        assert(m.0.drop_first() =~= book.drop_first());
        assert(traded_qty(m.1) == qty + traded_qty(m.1.drop_first()));
        assert(m.1.drop_first() =~= Seq::<(i64, i64)>::empty());
        assert(resting_qty(m.0) == m.0[0].qty + resting_qty(m.0.drop_first()));
        assert(resting_qty(book) == book[0].qty + resting_qty(book.drop_first()));
    } else {
        let tail = book.drop_first();
        assert(side_wf(tail, opposite_side(side))) by {
            assert forall|i: int| 0 <= i < tail.len() implies (#[trigger] tail[i]).qty > 0
                && tail[i].side == opposite_side(side) by {
                assert(tail[i] == book[i + 1]);
            }
            assert forall|i: int, j: int| 0 <= i < j < tail.len() implies at_least_as_good(
                opposite_side(side),
                #[trigger] tail[i].price as int,
                #[trigger] tail[j].price as int,
            ) by {
                assert(tail[i] == book[i + 1] && tail[j] == book[j + 1]);
            }
        }
        lemma_match_quantities(tail, side, limit, (qty - book[0].qty) as i64);
        let r = match_against(tail, side, limit, (qty - book[0].qty) as i64);
        assert(m.1.drop_first() =~= r.1);
        assert(traded_qty(m.1) == book[0].qty + traded_qty(r.1));
        assert(resting_qty(book) == book[0].qty + resting_qty(tail));
    }
}

/// The trades of `match_against`: each at a crossing price that was resting,
/// each for a positive quantity, best price first, and none at a price worse
/// than an order left resting.
#[verifier::spinoff_prover]
#[verifier::rlimit(40)]
proof fn lemma_match_trades(book: Seq<Order>, side: OrderSide, limit: i64, qty: i64)
    requires
        side_wf(book, opposite_side(side)),
    ensures
        ({
            let m = match_against(book, side, limit, qty);
            &&& forall|t: int| 0 <= t < m.1.len() ==> crosses(side, limit as int, (#[trigger] m.1[t]).0 as int)
            &&& forall|t: int| 0 <= t < m.1.len() ==> (#[trigger] m.1[t]).1 > 0
            &&& forall|t: int, u: int|
                0 <= t < u < m.1.len() ==> at_least_as_good(
                    opposite_side(side),
                    (#[trigger] m.1[t]).0 as int,
                    (#[trigger] m.1[u]).0 as int,
                )
            &&& forall|t: int, i: int|
                0 <= t < m.1.len() && 0 <= i < m.0.len() ==> at_least_as_good(
                    opposite_side(side),
                    (#[trigger] m.1[t]).0 as int,
                    (#[trigger] m.0[i]).price as int,
                )
            &&& forall|t: int|
                0 <= t < m.1.len() ==> exists|j: int| 0 <= j < book.len() && (#[trigger] m.1[t]).0 == book[j].price
        }),
    decreases book.len(),
{
    let m = match_against(book, side, limit, qty);
    lemma_match_shape(book, side, limit, qty);
    if qty <= 0 || book.len() == 0 || !crosses(side, limit as int, book[0].price as int) {
    } else if book[0].qty > qty {
        let r = with_qty(book[0], (book[0].qty - qty) as i64);
        assert(m.0 == book.update(0, r));
        assert forall|t: int| 0 <= t < m.1.len() implies exists|j: int|
            0 <= j < book.len() && (#[trigger] m.1[t]).0 == book[j].price by {
            assert(m.1[t].0 == book[0].price);
        }
        assert forall|t: int, i: int|
            0 <= t < m.1.len() && 0 <= i < m.0.len() implies at_least_as_good(
            opposite_side(side),
            (#[trigger] m.1[t]).0 as int,
            (#[trigger] m.0[i]).price as int,
        ) by {
            if i > 0 {
                assert(m.0[i] == book[i]);
            }
        }
    } else {
        let tail = book.drop_first();
        assert(side_wf(tail, opposite_side(side))) by {
            assert forall|i: int| 0 <= i < tail.len() implies (#[trigger] tail[i]).qty > 0
                && tail[i].side == opposite_side(side) by {
                assert(tail[i] == book[i + 1]);
            }
            assert forall|i: int, j: int| 0 <= i < j < tail.len() implies at_least_as_good(
                opposite_side(side),
                #[trigger] tail[i].price as int,
                #[trigger] tail[j].price as int,
            ) by {
                assert(tail[i] == book[i + 1] && tail[j] == book[j + 1]);
            }
        }
        lemma_match_trades(tail, side, limit, (qty - book[0].qty) as i64);
        lemma_match_shape(tail, side, limit, (qty - book[0].qty) as i64);
        let r = match_against(tail, side, limit, (qty - book[0].qty) as i64);
        let kt = tail.len() - r.0.len();
        assert(m.0 == r.0);
        assert(m.1 == seq![(book[0].price, book[0].qty)] + r.1);
        assert forall|t: int| 0 <= t < m.1.len() implies crosses(
            side,
            limit as int,
            (#[trigger] m.1[t]).0 as int,
        ) by {
            if t > 0 {
                assert(m.1[t] == r.1[t - 1]);
            }
        }
        assert forall|t: int| 0 <= t < m.1.len() implies (#[trigger] m.1[t]).1 > 0 by {
            if t > 0 {
                assert(m.1[t] == r.1[t - 1]);
            }
        }
        assert forall|t: int| 0 <= t < m.1.len() implies exists|j: int|
            0 <= j < book.len() && (#[trigger] m.1[t]).0 == book[j].price by {
            if t > 0 {
                assert(m.1[t] == r.1[t - 1]);
                let j = choose|j: int| 0 <= j < tail.len() && r.1[t - 1].0 == tail[j].price;
                assert(book[j + 1] == tail[j]);
            } else {
                assert(m.1[t].0 == book[0].price);
            }
        }
        assert forall|t: int, u: int| 0 <= t < u < m.1.len() implies at_least_as_good(
            opposite_side(side),
            (#[trigger] m.1[t]).0 as int,
            (#[trigger] m.1[u]).0 as int,
        ) by {
            assert(m.1[u] == r.1[u - 1]);
            let j = choose|j: int| 0 <= j < tail.len() && r.1[u - 1].0 == tail[j].price;
            assert(book[j + 1] == tail[j]);
            if t > 0 {
                assert(m.1[t] == r.1[t - 1]);
            } else {
                assert(book[0].price == m.1[t].0);
            }
        }
        assert forall|t: int, i: int|
            0 <= t < m.1.len() && 0 <= i < m.0.len() implies at_least_as_good(
            opposite_side(side),
            (#[trigger] m.1[t]).0 as int,
            (#[trigger] m.0[i]).price as int,
        ) by {
            if t > 0 {
                assert(m.1[t] == r.1[t - 1]);
            } else {
                assert(m.0[i].price == tail[i + kt].price);
                assert(tail[i + kt] == book[i + kt + 1]);
            }
        }
    }
}

/// How `match_against` consumes the side: the k-th trade takes from the k-th
/// resting order, at that order's price, which crosses the limit; every trade
/// but the last takes its order whole; what is left is the rest of the side,
/// its front reduced by what the last trade did not take of it.
proof fn lemma_match_consumes(book: Seq<Order>, side: OrderSide, limit: i64, qty: i64)
    requires
        side_wf(book, opposite_side(side)),
    ensures
        ({
            let m = match_against(book, side, limit, qty);
            let n = m.1.len() as int;
            &&& n <= book.len()
            &&& forall|i: int|
                0 <= i < n ==> {
                    &&& (#[trigger] m.1[i]).0 == book[i].price
                    &&& crosses(side, limit as int, book[i].price as int)
                    &&& 0 < m.1[i].1 <= book[i].qty
                    &&& (i + 1 < n ==> m.1[i].1 == book[i].qty)
                }
            &&& n == 0 ==> m.0 == book
            &&& n > 0 && m.1[n - 1].1 == book[n - 1].qty ==> m.0 == book.subrange(n, book.len() as int)
            &&& n > 0 && m.1[n - 1].1 < book[n - 1].qty ==> m.0 == book.subrange(
                n - 1,
                book.len() as int,
            ).update(0, with_qty(book[n - 1], (book[n - 1].qty - m.1[n - 1].1) as i64))
        }),
    decreases book.len(),
{
    let m = match_against(book, side, limit, qty);
    if qty <= 0 || book.len() == 0 || !crosses(side, limit as int, book[0].price as int) {
    } else if book[0].qty > qty {
        assert(book.subrange(0, book.len() as int) =~= book);
    } else {
        let tail = book.drop_first();
        assert(side_wf(tail, opposite_side(side))) by {
            assert forall|i: int| 0 <= i < tail.len() implies (#[trigger] tail[i]).qty > 0
                && tail[i].side == opposite_side(side) by {
                assert(tail[i] == book[i + 1]);
            }
            assert forall|i: int, j: int| 0 <= i < j < tail.len() implies at_least_as_good(
                opposite_side(side),
                #[trigger] tail[i].price as int,
                #[trigger] tail[j].price as int,
            ) by {
                assert(tail[i] == book[i + 1] && tail[j] == book[j + 1]);
            }
        }
        lemma_match_consumes(tail, side, limit, (qty - book[0].qty) as i64);
        let r = match_against(tail, side, limit, (qty - book[0].qty) as i64);
        let nr: int = r.1.len() as int;
        assert(m.0 == r.0);
        assert(m.1 == seq![(book[0].price, book[0].qty)] + r.1);
        assert forall|i: int| 0 <= i < m.1.len() implies {
            &&& (#[trigger] m.1[i]).0 == book[i].price
            &&& crosses(side, limit as int, book[i].price as int)
            &&& 0 < m.1[i].1 <= book[i].qty
            &&& (i + 1 < m.1.len() ==> m.1[i].1 == book[i].qty)
        } by {
            if i > 0 {
                assert(m.1[i] == r.1[i - 1]);
                assert(book[i] == tail[i - 1]);
            }
        }
        if nr == 0 {
            assert(book.subrange(1, book.len() as int) =~= tail);
        } else {
            assert(m.1[nr] == r.1[nr - 1]);
            assert(book[nr] == tail[nr - 1]);
            assert(tail.subrange(nr, tail.len() as int) =~= book.subrange(nr + 1, book.len() as int));
            assert(tail.subrange(nr - 1, tail.len() as int) =~= book.subrange(nr, book.len() as int));
        }
    }
}

/// Facts about the place at which an order rests.
proof fn lemma_rest_order(s: Seq<Order>, o: Order)
    requires
        side_wf(s, o.side),
        o.qty > 0,
    ensures
        side_wf(rest_order(s, o), o.side),
        0 <= insertion_index(s, o.side, o.price) <= s.len(),
        forall|j: int|
            0 <= j < insertion_index(s, o.side, o.price) ==> at_least_as_good(
                o.side,
                (#[trigger] s[j]).price as int,
                o.price as int,
            ),
        forall|j: int|
            insertion_index(s, o.side, o.price) <= j < s.len() ==> !at_least_as_good(
                o.side,
                (#[trigger] s[j]).price as int,
                o.price as int,
            ),
        resting_qty(rest_order(s, o)) == resting_qty(s) + o.qty,
    decreases s.len(),
{
    let side = o.side;
    let k = insertion_index(s, side, o.price);
    if s.len() > 0 && at_least_as_good(side, s[0].price as int, o.price as int) {
        let t = s.drop_first();
        assert(side_wf(t, side)) by {
            assert forall|i: int, j: int| 0 <= i < j < t.len() implies at_least_as_good(
                side,
                #[trigger] t[i].price as int,
                #[trigger] t[j].price as int,
            ) by {
                assert(t[i] == s[i + 1] && t[j] == s[j + 1]);
            }
        }
        lemma_rest_order(t, o);
        let kt = insertion_index(t, side, o.price);
        assert(rest_order(s, o) =~= seq![s[0]] + rest_order(t, o));
        assert(t =~= s.subrange(1, s.len() as int));
        assert forall|j: int| 0 <= j < k implies at_least_as_good(
            side,
            (#[trigger] s[j]).price as int,
            o.price as int,
        ) by {
            if j > 0 {
                assert(s[j] == t[j - 1]);
            }
        }
        assert forall|j: int| k <= j < s.len() implies !at_least_as_good(
            side,
            (#[trigger] s[j]).price as int,
            o.price as int,
        ) by {
            assert(s[j] == t[j - 1]);
        }
        let r = rest_order(s, o);
        assert(r.drop_first() =~= rest_order(t, o));
        assert(resting_qty(r) == r[0].qty + resting_qty(r.drop_first()));
        assert(resting_qty(s) == s[0].qty + resting_qty(t));
        assert forall|i: int, j: int| 0 <= i < j < r.len() implies at_least_as_good(
            side,
            #[trigger] r[i].price as int,
            #[trigger] r[j].price as int,
        ) by {
            if i > 0 {
                assert(r[i] == rest_order(t, o)[i - 1]);
                assert(r[j] == rest_order(t, o)[j - 1]);
            } else {
                assert(r[0] == s[0]);
                let rt = rest_order(t, o);
                assert(r[j] == rt[j - 1]);
                if j - 1 == kt {
                    assert(rt[j - 1] == o);
                } else if j - 1 < kt {
                    assert(rt[j - 1] == t[j - 1]);
                } else {
                    assert(rt[j - 1] == t[j - 2]);
                }
            }
        }
        assert forall|i: int| 0 <= i < r.len() implies (#[trigger] r[i]).qty > 0 && r[i].side == side by {
            if i > 0 {
                assert(r[i] == rest_order(t, o)[i - 1]);
            }
        }
    } else {
        assert(k == 0);
        let r = rest_order(s, o);
        assert(r =~= seq![o] + s);
        assert(r.drop_first() =~= s);
        assert(resting_qty(r) == r[0].qty + resting_qty(r.drop_first()));
        assert forall|j: int| 0 <= j < s.len() implies !at_least_as_good(
            side,
            (#[trigger] s[j]).price as int,
            o.price as int,
        ) by {
            if j > 0 {
                assert(at_least_as_good(side, s[0].price as int, s[j].price as int));
            }
        }
        assert forall|i: int, j: int| 0 <= i < j < r.len() implies at_least_as_good(
            side,
            #[trigger] r[i].price as int,
            #[trigger] r[j].price as int,
        ) by {
            assert(r[j] == s[j - 1]);
            if i > 0 {
                assert(r[i] == s[i - 1]);
            }
        }
        assert forall|i: int| 0 <= i < r.len() implies (#[trigger] r[i]).qty > 0 && r[i].side == side by {
            if i > 0 {
                assert(r[i] == s[i - 1]);
            }
        }
    }
}

proof fn lemma_traded_qty_push(trades: Seq<(i64, i64)>, t: (i64, i64))
    ensures
        traded_qty(trades.push(t)) == traded_qty(trades) + t.1,
    decreases trades.len(),
{
    let p = trades.push(t);
    if trades.len() > 0 {
        lemma_traded_qty_push(trades.drop_first(), t);
        assert(p.drop_first() =~= trades.drop_first().push(t));
        assert(p[0] == trades[0]);
    } else {
        assert(p.drop_first() =~= Seq::<(i64, i64)>::empty());
        assert(traded_qty(p.drop_first()) == 0);
    }
    assert(traded_qty(p) == p[0].1 + traded_qty(p.drop_first()));
}

/// Whether an incoming order of side `side` and limit `limit` may trade at `price`.
fn crosses_exec(side: OrderSide, limit: i64, price: i64) -> (r: bool)
    ensures
        r == crosses(side, limit as int, price as int),
{
    match side {
        OrderSide::Buy => price <= limit,
        OrderSide::Sell => price >= limit,
    }
}

/// Trades an incoming order of side `side`, limit `limit` and quantity `qty`
/// against the resting levels `opp` of the opposite side. Returns the executed
/// quantity, the fills and the quantity left.
fn take_liquidity(opp: &mut BTreeMap<i64, VecDeque<Order>>, side: OrderSide, limit: i64, qty: i64) -> (r: (
    i64,
    Vec<Fill>,
    i64,
))
    requires
        levels_wf(levels_view(*old(opp)), opposite_side(side)),
    ensures
        levels_wf(levels_view(*final(opp)), opposite_side(side)),
        ({
            let m = match_against(side_orders(*old(opp), opposite_side(side)), side, limit, qty);
            &&& side_orders(*final(opp), opposite_side(side)) == m.0
            &&& r.2 == m.2
            &&& r.0 == traded_qty(m.1)
            &&& r.1@.len() == m.1.len()
            &&& forall|k: int| 0 <= k < m.1.len() ==> reports(#[trigger] r.1@[k], m.1[k])
        }),
{
    let os = side.opposite();
    let ghost opp0 = side_orders(*opp, os);
    let mut remaining = qty;
    let mut executed: i64 = 0;
    let mut fills: Vec<Fill> = Vec::new();
    let ghost mut trades: Seq<(i64, i64)> = Seq::empty();
    proof {
        lemma_flatten_levels(levels_view(*opp), os);
        lemma_match_shape(opp0, side, limit, qty);
    }
    loop
        invariant
            os == opposite_side(side),
            levels_wf(levels_view(*opp), os),
            ({
                let m0 = match_against(opp0, side, limit, qty);
                let m = match_against(side_orders(*opp, os), side, limit, remaining);
                &&& m0.0 == m.0
                &&& m0.1 == trades + m.1
                &&& m0.2 == m.2
            }),
            qty > 0 ==> 0 <= remaining && executed + remaining == qty,
            qty <= 0 ==> remaining == qty && trades.len() == 0,
            executed == traded_qty(trades),
            fills@.len() == trades.len(),
            forall|k: int| 0 <= k < trades.len() ==> reports(#[trigger] fills@[k], trades[k]),
        ensures
            levels_wf(levels_view(*opp), os),
            ({
                let m0 = match_against(opp0, side, limit, qty);
                &&& m0.0 == side_orders(*opp, os)
                &&& m0.1 == trades
                &&& m0.2 == remaining
            }),
            executed == traded_qty(trades),
            fills@.len() == trades.len(),
            forall|k: int| 0 <= k < trades.len() ==> reports(#[trigger] fills@[k], trades[k]),
        decreases side_orders(*opp, os).len(),
    {
        let ghost before = side_orders(*opp, os);
        proof {
            lemma_flatten_levels(levels_view(*opp), os);
            lemma_match_shape(before, side, limit, remaining);
        }
        if remaining <= 0 {
            assert(trades + Seq::<(i64, i64)>::empty() =~= trades);
            break ;
        }
        let price = match best_price(opp, os) {
            Some(p) => p,
            None => {
                assert(trades + Seq::<(i64, i64)>::empty() =~= trades);
                break ;
            },
        };
        if !crosses_exec(side, limit, price) {
            assert(trades + Seq::<(i64, i64)>::empty() =~= trades);
            break ;
        }
        let front_qty = best_qty(opp, os, price);
        if front_qty > remaining {
            let trade = remaining;
            reduce_best(opp, os, price, trade);
            remaining = 0;
            executed = executed + trade;
            fills.push(Fill { price: format_decimal(price), qty: trade, trade_id: 0 });
            proof {
                lemma_traded_qty_push(trades, (price, trade));
                trades = trades.push((price, trade));
                let m = match_against(before, side, limit, trade);
                assert(m.1 =~= seq![(price, trade)]);
                assert(trades + Seq::<(i64, i64)>::empty() =~= trades);
            }
            break ;
        } else {
            let front = pop_best(opp, os, price);
            let trade = front.qty;
            remaining = remaining - trade;
            executed = executed + trade;
            fills.push(Fill { price: format_decimal(price), qty: trade, trade_id: 0 });
            proof {
                let m = match_against(before, side, limit, (remaining + trade) as i64);
                let mr = match_against(side_orders(*opp, os), side, limit, remaining);
                assert(side_orders(*opp, os) == before.drop_first());
                assert(m.1 == seq![(price, trade)] + mr.1);
                lemma_traded_qty_push(trades, (price, trade));
                assert(trades + m.1 =~= trades.push((price, trade)) + mr.1);
                trades = trades.push((price, trade));
            }
        }
    }
    (executed, fills, remaining)
}

/// The own side after matching: the old one, or the old one with the rested
/// order inserted at its place.
proof fn lemma_own_side_members(own0: Seq<Order>, o: Order, rested: bool, own: Seq<Order>)
    requires
        side_wf(own0, o.side),
        rested ==> o.qty > 0,
        own == (if rested {
            rest_order(own0, o)
        } else {
            own0
        }),
    ensures
        side_wf(own, o.side),
        forall|i: int|
            0 <= i < own.len() ==> (rested && #[trigger] own[i] == o) || (exists|j: int|
                0 <= j < own0.len() && own[i].price == own0[j].price),
{
    if rested {
        lemma_rest_order(own0, o);
        let idx = insertion_index(own0, o.side, o.price);
        assert forall|i: int| 0 <= i < own.len() implies (rested && #[trigger] own[i] == o) || (exists|
            j: int,
        | 0 <= j < own0.len() && own[i].price == own0[j].price) by {
            if i < idx {
                assert(own[i] == own0[i]);
            } else if i > idx {
                assert(own[i] == own0[i - 1]);
            }
        }
    } else {
        assert forall|i: int| 0 <= i < own.len() implies (rested && #[trigger] own[i] == o) || (exists|
            j: int,
        | 0 <= j < own0.len() && own[i].price == own0[j].price) by {
            assert(own[i].price == own0[i].price);
        }
    }
}

/// After a buy order, the bids stay below the asks.
proof fn lemma_uncrossed_after_buy(book: BookView, incoming: Order)
    requires
        book.wf(),
        incoming.side == OrderSide::Buy,
    ensures
        uncrossed(match_outcome(book, incoming).0.bids, match_outcome(book, incoming).0.asks),
{
    let m = match_against(book.asks, OrderSide::Buy, incoming.price, incoming.qty);
    lemma_match_shape(book.asks, OrderSide::Buy, incoming.price, incoming.qty);
    let o = with_qty(incoming, m.2);
    let own = match_outcome(book, incoming).0.bids;
    lemma_own_side_members(book.bids, o, m.2 > 0, own);
    let k = book.asks.len() - m.0.len();
    assert(match_outcome(book, incoming).0.asks == m.0);
    assert forall|i: int, j: int| 0 <= i < own.len() && 0 <= j < m.0.len() implies #[trigger] own[i].price
        < #[trigger] m.0[j].price by {
        assert(m.0[j].price == book.asks[j + k].price);
        if m.2 > 0 && own[i] == o {
            assert(m.0[0].price <= m.0[j].price);
        } else {
            let jj = choose|jj: int| 0 <= jj < book.bids.len() && own[i].price == book.bids[jj].price;
            assert(book.bids[jj].price < book.asks[j + k].price);
        }
    }
}

/// After a sell order, the bids stay below the asks.
proof fn lemma_uncrossed_after_sell(book: BookView, incoming: Order)
    requires
        book.wf(),
        incoming.side == OrderSide::Sell,
    ensures
        uncrossed(match_outcome(book, incoming).0.bids, match_outcome(book, incoming).0.asks),
{
    let m = match_against(book.bids, OrderSide::Sell, incoming.price, incoming.qty);
    lemma_match_shape(book.bids, OrderSide::Sell, incoming.price, incoming.qty);
    let o = with_qty(incoming, m.2);
    let own = match_outcome(book, incoming).0.asks;
    lemma_own_side_members(book.asks, o, m.2 > 0, own);
    let k = book.bids.len() - m.0.len();
    assert(match_outcome(book, incoming).0.bids == m.0);
    assert forall|i: int, j: int| 0 <= i < m.0.len() && 0 <= j < own.len() implies #[trigger] m.0[i].price
        < #[trigger] own[j].price by {
        assert(m.0[i].price == book.bids[i + k].price);
        if m.2 > 0 && own[j] == o {
            assert(m.0[0].price >= m.0[i].price);
        } else {
            let jj = choose|jj: int| 0 <= jj < book.asks.len() && own[j].price == book.asks[jj].price;
            assert(book.bids[i + k].price < book.asks[jj].price);
        }
    }
}

/// Matching keeps a book well formed: both sides stay in priority order with
/// positive quantities, and the book never ends up crossed (every bid stays
/// below every ask).
pub proof fn lemma_match_preserves_wf(book: BookView, incoming: Order)
    requires
        book.wf(),
    ensures
        match_outcome(book, incoming).0.wf(),
{
    let side = incoming.side;
    let m = match_against(book.side(opposite_side(side)), side, incoming.price, incoming.qty);
    lemma_match_shape(book.side(opposite_side(side)), side, incoming.price, incoming.qty);
    let o = with_qty(incoming, m.2);
    let after = match_outcome(book, incoming).0;
    if m.2 > 0 {
        lemma_own_side_members(book.side(side), o, true, after.side(side));
    } else {
        assert(after.side(side) == book.side(side));
    }
    match side {
        OrderSide::Buy => lemma_uncrossed_after_buy(book, incoming),
        OrderSide::Sell => lemma_uncrossed_after_sell(book, incoming),
    }
}

/// An order with no positive quantity neither trades nor rests: the book is
/// left as it was.
pub proof fn lemma_nonpositive_quantity_ignored(book: BookView, incoming: Order)
    requires
        book.wf(),
        incoming.qty <= 0,
    ensures
        match_outcome(book, incoming).0 == book,
        match_outcome(book, incoming).1.len() == 0,
{
    let side = incoming.side;
    lemma_match_shape(book.side(opposite_side(side)), side, incoming.price, incoming.qty);
}

/// Quantity is conserved: the incoming quantity is split between what traded
/// and what rests, the opposite side loses exactly the traded quantity, and
/// the own side gains exactly the untraded rest.
pub proof fn lemma_quantity_conserved(book: BookView, incoming: Order)
    requires
        book.wf(),
        incoming.qty > 0,
    ensures
        ({
            let out = match_outcome(book, incoming);
            let side = incoming.side;
            let opp = opposite_side(side);
            &&& 0 <= traded_qty(out.1) <= incoming.qty
            &&& resting_qty(book.side(opp)) - resting_qty(out.0.side(opp)) == traded_qty(out.1)
            &&& resting_qty(out.0.side(side)) - resting_qty(book.side(side)) == incoming.qty
                - traded_qty(out.1)
        }),
{
    let side = incoming.side;
    let opp = opposite_side(side);
    let m = match_against(book.side(opp), side, incoming.price, incoming.qty);
    lemma_match_shape(book.side(opp), side, incoming.price, incoming.qty);
    lemma_match_quantities(book.side(opp), side, incoming.price, incoming.qty);
    if m.2 > 0 {
        lemma_rest_order(book.side(side), with_qty(incoming, m.2));
    }
}

/// Every trade is at a price that crosses the incoming limit, at the price of
/// an order that was resting, for a positive quantity; trades happen best
/// price first, and no order left on the opposite side has a better price
/// than any trade made.
pub proof fn lemma_trades_respect_limit_and_price_priority(book: BookView, incoming: Order)
    requires
        book.wf(),
    ensures
        ({
            let out = match_outcome(book, incoming);
            let side = incoming.side;
            let opp = opposite_side(side);
            &&& forall|t: int|
                0 <= t < out.1.len() ==> crosses(side, incoming.price as int, (#[trigger] out.1[t]).0 as int)
            &&& forall|t: int| 0 <= t < out.1.len() ==> (#[trigger] out.1[t]).1 > 0
            &&& forall|t: int|
                0 <= t < out.1.len() ==> exists|j: int|
                    0 <= j < book.side(opp).len() && (#[trigger] out.1[t]).0 == book.side(opp)[j].price
            &&& forall|t: int, u: int|
                0 <= t < u < out.1.len() ==> at_least_as_good(
                    opp,
                    (#[trigger] out.1[t]).0 as int,
                    (#[trigger] out.1[u]).0 as int,
                )
            &&& forall|t: int, i: int|
                0 <= t < out.1.len() && 0 <= i < out.0.side(opp).len() ==> at_least_as_good(
                    opp,
                    (#[trigger] out.1[t]).0 as int,
                    (#[trigger] out.0.side(opp)[i]).price as int,
                )
        }),
{
    let side = incoming.side;
    lemma_match_trades(book.side(opposite_side(side)), side, incoming.price, incoming.qty);
}

/// Trades take the opposite side from its front, one resting order after
/// another: the k-th trade is with the k-th resting order in priority order,
/// at that order's own price, which crosses the incoming limit; each trade but
/// the last takes its resting order whole, and the last takes at most all of
/// it. What the opposite side keeps is exactly the orders that were not
/// traded with, the one traded last reduced by the quantity taken from it
/// when some of it is left; no other resting order is touched. Matching stops
/// only when the incoming quantity is used up or the best resting price no
/// longer crosses the limit.
pub proof fn lemma_trades_take_the_front(book: BookView, incoming: Order)
    requires
        book.wf(),
    ensures
        ({
            let out = match_outcome(book, incoming);
            let side = incoming.side;
            let s = book.side(opposite_side(side));
            let after = out.0.side(opposite_side(side));
            let t = out.1;
            let n = t.len() as int;
            &&& n <= s.len()
            &&& forall|i: int|
                0 <= i < n ==> {
                    &&& (#[trigger] t[i]).0 == s[i].price
                    &&& crosses(side, incoming.price as int, s[i].price as int)
                    &&& 0 < t[i].1 <= s[i].qty
                    &&& (i + 1 < n ==> t[i].1 == s[i].qty)
                }
            &&& n == 0 ==> after == s
            &&& n > 0 && t[n - 1].1 == s[n - 1].qty ==> after == s.subrange(n, s.len() as int)
            &&& n > 0 && t[n - 1].1 < s[n - 1].qty ==> after == s.subrange(n - 1, s.len() as int).update(
                0,
                with_qty(s[n - 1], (s[n - 1].qty - t[n - 1].1) as i64),
            )
            &&& incoming.qty > 0 && traded_qty(t) < incoming.qty ==> (after.len() == 0 || !crosses(
                side,
                incoming.price as int,
                after[0].price as int,
            ))
        }),
{
    let side = incoming.side;
    let opp = opposite_side(side);
    let m = match_against(book.side(opp), side, incoming.price, incoming.qty);
    lemma_match_consumes(book.side(opp), side, incoming.price, incoming.qty);
    lemma_match_shape(book.side(opp), side, incoming.price, incoming.qty);
    lemma_match_quantities(book.side(opp), side, incoming.price, incoming.qty);
    assert(match_outcome(book, incoming).0.side(opp) == m.0);
}

/// Time priority: when part of the incoming order is left, it rests with its
/// untraded quantity behind every order of its side priced at least as well,
/// and ahead of every order priced worse; the other orders of its side keep
/// their relative order.
pub proof fn lemma_rest_time_priority(book: BookView, incoming: Order)
    requires
        book.wf(),
    ensures
        ({
            let out = match_outcome(book, incoming);
            let side = incoming.side;
            let own0 = book.side(side);
            let left = incoming.qty - traded_qty(out.1);
            let idx = insertion_index(own0, side, incoming.price);
            incoming.qty > 0 && left > 0 ==> {
                &&& 0 <= idx <= own0.len()
                &&& out.0.side(side) == own0.insert(idx, with_qty(incoming, left as i64))
                &&& forall|j: int|
                    0 <= j < idx ==> at_least_as_good(
                        side,
                        (#[trigger] own0[j]).price as int,
                        incoming.price as int,
                    )
                &&& forall|j: int|
                    idx <= j < own0.len() ==> !at_least_as_good(
                        side,
                        (#[trigger] own0[j]).price as int,
                        incoming.price as int,
                    )
            }
        }),
{
    let side = incoming.side;
    let opp = opposite_side(side);
    let m = match_against(book.side(opp), side, incoming.price, incoming.qty);
    lemma_match_shape(book.side(opp), side, incoming.price, incoming.qty);
    lemma_match_quantities(book.side(opp), side, incoming.price, incoming.qty);
    if incoming.qty > 0 && m.2 > 0 {
        lemma_rest_order(book.side(side), with_qty(incoming, m.2));
    }
}

/// An order book: bids and asks, each held as price levels.
pub struct OrderBook {
    bids: BTreeMap<i64, VecDeque<Order>>,
    asks: BTreeMap<i64, VecDeque<Order>>,
}

impl View for OrderBook {
    type V = BookView;

    closed spec fn view(&self) -> BookView {
        BookView {
            bids: side_orders(self.bids, OrderSide::Buy),
            asks: side_orders(self.asks, OrderSide::Sell),
        }
    }
}

impl OrderBook {
    #[verifier::type_invariant]
    closed spec fn inv(self) -> bool {
        &&& levels_wf(levels_view(self.bids), OrderSide::Buy)
        &&& levels_wf(levels_view(self.asks), OrderSide::Sell)
        &&& self@.wf()
    }

    /// An empty book.
    pub fn new() -> (book: OrderBook)
        ensures
            book@.bids.len() == 0,
            book@.asks.len() == 0,
    {
        let bids: BTreeMap<i64, VecDeque<Order>> = BTreeMap::new();
        let asks: BTreeMap<i64, VecDeque<Order>> = BTreeMap::new();
        proof {
            assert(levels_view(bids).dom() =~= Set::<i64>::empty());
            assert(levels_view(asks).dom() =~= Set::<i64>::empty());
            assert(side_orders(bids, OrderSide::Buy) =~= Seq::<Order>::empty());
            assert(side_orders(asks, OrderSide::Sell) =~= Seq::<Order>::empty());
            let v = BookView { bids: Seq::<Order>::empty(), asks: Seq::<Order>::empty() };
            assert(v.wf());
        }
        OrderBook { bids, asks }
    }

    /// Matches `incoming` against the opposite side in price-time priority:
    /// as long as some quantity is left and the best resting price crosses
    /// the incoming limit, it trades with the oldest order at that price.
    /// Whatever is left rests at the back of its price level on its own side.
    /// Returns the executed quantity and one fill per trade.
    pub fn match_order(&mut self, incoming: Order) -> (r: (i64, Vec<Fill>))
        ensures
            old(self)@.wf(),
            final(self)@.wf(),
            ({
                let out = match_outcome(old(self)@, incoming);
                &&& final(self)@ == out.0
                &&& r.0 == traded_qty(out.1)
                &&& r.1@.len() == out.1.len()
                &&& forall|k: int| 0 <= k < out.1.len() ==> reports(#[trigger] r.1@[k], out.1[k])
            }),
    {
        proof {
            use_type_invariant(&*self);
            lemma_match_preserves_wf(self@, incoming);
        }
        let ghost before = self@;
        let mut taken = OrderBook::new();
        std::mem::swap(self, &mut taken);
        proof {
            use_type_invariant(&taken);
        }
        let OrderBook { mut bids, mut asks } = taken;
        let side = incoming.side;
        let (executed, fills, remaining) = match side {
            OrderSide::Buy => take_liquidity(&mut asks, side, incoming.price, incoming.qty),
            OrderSide::Sell => take_liquidity(&mut bids, side, incoming.price, incoming.qty),
        };
        let ghost bids_mid = levels_view(bids);
        let ghost asks_mid = levels_view(asks);
        if remaining > 0 {
            let o = Order { qty: remaining, ..incoming };
            let ghost og = o;
            match side {
                OrderSide::Buy => rest_in_levels(&mut bids, o),
                OrderSide::Sell => rest_in_levels(&mut asks, o),
            }
            proof {
                match side {
                    OrderSide::Buy => lemma_flatten_rest(bids_mid, side, og),
                    OrderSide::Sell => lemma_flatten_rest(asks_mid, side, og),
                }
            }
        }
        proof {
            let out = match_outcome(before, incoming);
            assert(out.0.bids == side_orders(bids, OrderSide::Buy));
            assert(out.0.asks == side_orders(asks, OrderSide::Sell));
            assert(levels_wf(levels_view(bids), OrderSide::Buy));
            assert(levels_wf(levels_view(asks), OrderSide::Sell));
            assert(out.0.wf());
            let nv = BookView {
                bids: side_orders(bids, OrderSide::Buy),
                asks: side_orders(asks, OrderSide::Sell),
            };
            assert(nv == out.0);
            assert(nv.wf());
        }
        *self = OrderBook { bids, asks };
        (executed, fills)
    }
}

} // verus!
