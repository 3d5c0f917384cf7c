//! One side of the book held as price levels: a map from price to the queue
//! of orders resting at that price, oldest first. Read in priority order
//! (best price first), the levels give the side's queue of `book`.
use std::collections::{BTreeMap, VecDeque};
use vstd::prelude::*;

use crate::book::{at_least_as_good, insertion_index, side_wf, with_qty, Order};
use crate::types::OrderSide;

verus! {

/// Whether `k` is the best price of the set `dom` on side `side`.
pub open spec fn is_best_key(dom: Set<i64>, side: OrderSide, k: i64) -> bool {
    &&& dom.contains(k)
    &&& forall|k2: i64| dom.contains(k2) ==> at_least_as_good(side, k as int, k2 as int)
}

/// The best price of `dom` on side `side`.
pub open spec fn best_key(dom: Set<i64>, side: OrderSide) -> i64 {
    choose|k: i64| is_best_key(dom, side, k)
}

/// A finite non-empty set of prices has exactly one best price.
pub proof fn lemma_best_key(dom: Set<i64>, side: OrderSide)
    requires
        dom.finite(),
        dom.len() > 0,
    ensures
        is_best_key(dom, side, best_key(dom, side)),
        forall|k: i64| is_best_key(dom, side, k) ==> k == best_key(dom, side),
    decreases dom.len(),
{
    let x = dom.choose();
    let rest = dom.remove(x);
    if rest.len() == 0 {
        assert(rest.len() == 0);
        assert forall|k2: i64| dom.contains(k2) implies at_least_as_good(side, x as int, k2 as int) by {
            if k2 != x {
                assert(rest.contains(k2));
            }
        }
        assert(is_best_key(dom, side, x));
    } else {
        lemma_best_key(rest, side);
        let b = best_key(rest, side);
        if at_least_as_good(side, b as int, x as int) {
            assert(is_best_key(dom, side, b)) by {
                assert forall|k2: i64| dom.contains(k2) implies at_least_as_good(side, b as int, k2 as int) by {
                    if k2 != x {
                        assert(rest.contains(k2));
                    }
                }
            }
        } else {
            assert(is_best_key(dom, side, x)) by {
                assert forall|k2: i64| dom.contains(k2) implies at_least_as_good(side, x as int, k2 as int) by {
                    if k2 != x {
                        assert(rest.contains(k2));
                        assert(at_least_as_good(side, b as int, k2 as int));
                    }
                }
            }
        }
    }
}

/// The orders of the levels `m`, best price first, each level oldest first.
pub open spec fn flatten_levels(m: Map<i64, Seq<Order>>, side: OrderSide) -> Seq<Order>
    decreases m.dom().len(),
    when m.dom().finite()
{
    if m.dom().len() == 0 {
        Seq::empty()
    } else {
        let b = best_key(m.dom(), side);
        proof {
            lemma_best_key(m.dom(), side);
        }
        m[b] + flatten_levels(m.remove(b), side)
    }
}

/// The levels of side `side` are well formed: finitely many, none empty, and
/// every order of a level has the level's price, a positive quantity and the
/// side's side.
pub open spec fn levels_wf(m: Map<i64, Seq<Order>>, side: OrderSide) -> bool {
    &&& m.dom().finite()
    &&& forall|k: i64|
        #![trigger m[k]]
        m.dom().contains(k) ==> {
            &&& m[k].len() > 0
            &&& forall|i: int|
                0 <= i < m[k].len() ==> {
                    &&& (#[trigger] m[k][i]).price == k
                    &&& m[k][i].qty > 0
                    &&& m[k][i].side == side
                }
        }
}

/// The levels of a map of queues.
pub open spec fn levels_view(m: BTreeMap<i64, VecDeque<Order>>) -> Map<i64, Seq<Order>> {
    m@.map_values(|q: VecDeque<Order>| q@)
}

pub proof fn lemma_levels_remove_wf(m: Map<i64, Seq<Order>>, side: OrderSide, k: i64)
    requires
        levels_wf(m, side),
    ensures
        levels_wf(m.remove(k), side),
{
    let r = m.remove(k);
    assert forall|k2: i64| #![trigger r[k2]] r.dom().contains(k2) implies {
        &&& r[k2].len() > 0
        &&& forall|i: int|
            0 <= i < r[k2].len() ==> {
                &&& (#[trigger] r[k2][i]).price == k2
                &&& r[k2][i].qty > 0
                &&& r[k2][i].side == side
            }
    } by {
        assert(r[k2] == m[k2]);
    }
}

/// The flattened levels are a well-formed side, and every order in them has
/// the price of one of the levels.
pub proof fn lemma_flatten_levels(m: Map<i64, Seq<Order>>, side: OrderSide)
    requires
        levels_wf(m, side),
    ensures
        side_wf(flatten_levels(m, side), side),
        forall|i: int|
            0 <= i < flatten_levels(m, side).len() ==> m.dom().contains(
                (#[trigger] flatten_levels(m, side)[i]).price,
            ),
    decreases m.dom().len(),
{
    let f = flatten_levels(m, side);
    if m.dom().len() > 0 {
        lemma_best_key(m.dom(), side);
        let b = best_key(m.dom(), side);
        let r = m.remove(b);
        lemma_levels_remove_wf(m, side, b);
        lemma_flatten_levels(r, side);
        let fr = flatten_levels(r, side);
        let q = m[b];
        assert(f == q + fr);
        assert forall|i: int| 0 <= i < f.len() implies m.dom().contains((#[trigger] f[i]).price) && f[i].qty > 0
            && f[i].side == side by {
            if i < q.len() {
                assert(f[i] == q[i]);
            } else {
                assert(f[i] == fr[i - q.len()]);
            }
        }
        assert forall|i: int, j: int| 0 <= i < j < f.len() implies at_least_as_good(
            side,
            #[trigger] f[i].price as int,
            #[trigger] f[j].price as int,
        ) by {
            if j < q.len() {
                assert(f[i] == q[i] && f[j] == q[j]);
            } else if i < q.len() {
                assert(f[i] == q[i] && f[j] == fr[j - q.len()]);
                assert(r.dom().contains(fr[j - q.len()].price));
            } else {
                assert(f[i] == fr[i - q.len()] && f[j] == fr[j - q.len()]);
            }
        }
        assert forall|i: int| 0 <= i < f.len() implies (#[trigger] f[i]).qty > 0 && f[i].side == side by {
            if i < q.len() {
                assert(f[i] == q[i]);
            } else {
                assert(f[i] == fr[i - q.len()]);
            }
        }
    }
}

/// Replacing the best level by another non-empty queue, or removing it, puts
/// the new queue (or nothing) in front of the other levels.
pub proof fn lemma_flatten_replace_best(
    m: Map<i64, Seq<Order>>,
    side: OrderSide,
    q2: Seq<Order>,
)
    requires
        m.dom().finite(),
        m.dom().len() > 0,
    ensures
        ({
            let b = best_key(m.dom(), side);
            let m2 = if q2.len() > 0 {
                m.insert(b, q2)
            } else {
                m.remove(b)
            };
            &&& flatten_levels(m, side) == m[b] + flatten_levels(m.remove(b), side)
            &&& flatten_levels(m2, side) == q2 + flatten_levels(m.remove(b), side)
        }),
{
    lemma_best_key(m.dom(), side);
    let b = best_key(m.dom(), side);
    if q2.len() > 0 {
        let m2 = m.insert(b, q2);
        assert(m2.dom() =~= m.dom());
        assert(m2.remove(b) =~= m.remove(b));
        assert(m2[b] == q2);
    } else {
        assert(Seq::<Order>::empty() + flatten_levels(m.remove(b), side) =~= flatten_levels(
            m.remove(b),
            side,
        ));
    }
}

proof fn lemma_insertion_index_concat(a: Seq<Order>, c: Seq<Order>, side: OrderSide, price: i64)
    requires
        forall|i: int| 0 <= i < a.len() ==> at_least_as_good(side, (#[trigger] a[i]).price as int, price as int),
    ensures
        insertion_index(a + c, side, price) == a.len() + insertion_index(c, side, price),
    decreases a.len(),
{
    if a.len() > 0 {
        let t = a.drop_first();
        assert((a + c).drop_first() =~= t + c);
        assert((a + c)[0] == a[0]);
        assert forall|i: int| 0 <= i < t.len() implies at_least_as_good(
            side,
            (#[trigger] t[i]).price as int,
            price as int,
        ) by {
            assert(t[i] == a[i + 1]);
        }
        lemma_insertion_index_concat(t, c, side, price);
    } else {
        assert(a + c =~= c);
    }
}

/// The level queue that `o` joins, and the levels after it joined.
pub open spec fn levels_with(m: Map<i64, Seq<Order>>, o: Order) -> Map<i64, Seq<Order>> {
    let q = if m.dom().contains(o.price) {
        m[o.price]
    } else {
        Seq::<Order>::empty()
    };
    m.insert(o.price, q.push(o))
}

/// Resting an order at its price level puts it where `rest_order` puts it in
/// the flattened side: behind every order at an equal or better price.
pub proof fn lemma_flatten_rest(m: Map<i64, Seq<Order>>, side: OrderSide, o: Order)
    requires
        levels_wf(m, side),
    ensures
        ({
            let f = flatten_levels(m, side);
            flatten_levels(levels_with(m, o), side) == f.insert(insertion_index(f, side, o.price), o)
        }),
    decreases m.dom().len(), 1int,
{
    if m.dom().len() == 0 {
        lemma_rest_into_empty(m, side, o);
    } else {
        lemma_best_key(m.dom(), side);
        let b = best_key(m.dom(), side);
        if o.price == b {
            lemma_rest_at_best(m, side, o);
        } else if at_least_as_good(side, o.price as int, b as int) {
            lemma_rest_new_best(m, side, o);
        } else {
            lemma_rest_behind_best(m, side, o);
        }
    }
}

#[verifier::spinoff_prover]
proof fn lemma_rest_into_empty(m: Map<i64, Seq<Order>>, side: OrderSide, o: Order)
    requires
        m.dom().finite(),
        m.dom().len() == 0,
    ensures
        ({
            let f = flatten_levels(m, side);
            flatten_levels(levels_with(m, o), side) == f.insert(insertion_index(f, side, o.price), o)
        }),
{
    let p = o.price;
    let m2 = levels_with(m, o);
    assert(m.dom() =~= Set::<i64>::empty());
    assert(m2.dom() =~= set![p]);
    lemma_best_key(m2.dom(), side);
    assert(m2.remove(p).dom() =~= Set::<i64>::empty());
    assert(flatten_levels(m2, side) == m2[p] + flatten_levels(m2.remove(p), side));
    assert(m2[p] =~= seq![o]);
    assert(flatten_levels(m2, side) =~= seq![o]);
    let f = flatten_levels(m, side);
    assert(f =~= Seq::<Order>::empty());
    assert(f.insert(0, o) =~= seq![o]);
}

#[verifier::spinoff_prover]
#[verifier::rlimit(40)]
proof fn lemma_rest_at_best(m: Map<i64, Seq<Order>>, side: OrderSide, o: Order)
    requires
        levels_wf(m, side),
        m.dom().len() > 0,
        o.price == best_key(m.dom(), side),
    ensures
        ({
            let f = flatten_levels(m, side);
            flatten_levels(levels_with(m, o), side) == f.insert(insertion_index(f, side, o.price), o)
        }),
{
    let p = o.price;
    lemma_best_key(m.dom(), side);
    let b = best_key(m.dom(), side);
    let r = m.remove(b);
    let fr = flatten_levels(r, side);
    let f = flatten_levels(m, side);
    lemma_levels_remove_wf(m, side, b);
    lemma_flatten_levels(r, side);
    assert(f == m[b] + fr);
    let m2 = levels_with(m, o);
    assert(m2.dom() =~= m.dom());
    lemma_best_key(m2.dom(), side);
    assert(m2.remove(b) =~= r);
    assert forall|i: int| 0 <= i < m[b].len() implies at_least_as_good(
        side,
        (#[trigger] m[b][i]).price as int,
        p as int,
    ) by {}
    lemma_insertion_index_concat(m[b], fr, side, p);
    if fr.len() > 0 {
        assert(r.dom().contains(fr[0].price));
        assert(fr[0].price != b);
    }
    assert(insertion_index(fr, side, p) == 0);
    assert(flatten_levels(m2, side) == m2[b] + flatten_levels(m2.remove(b), side));
    assert(m2[b] == m[b].push(o));
    assert(f.insert(m[b].len() as int, o) =~= m[b].push(o) + fr);
}

#[verifier::spinoff_prover]
#[verifier::rlimit(40)]
proof fn lemma_rest_new_best(m: Map<i64, Seq<Order>>, side: OrderSide, o: Order)
    requires
        levels_wf(m, side),
        m.dom().len() > 0,
        o.price != best_key(m.dom(), side),
        at_least_as_good(side, o.price as int, best_key(m.dom(), side) as int),
    ensures
        ({
            let f = flatten_levels(m, side);
            flatten_levels(levels_with(m, o), side) == f.insert(insertion_index(f, side, o.price), o)
        }),
{
    let p = o.price;
    lemma_best_key(m.dom(), side);
    let b = best_key(m.dom(), side);
    let f = flatten_levels(m, side);
    assert(f == m[b] + flatten_levels(m.remove(b), side));
    let m2 = levels_with(m, o);
    assert(!m.dom().contains(p)) by {
        if m.dom().contains(p) {
            assert(at_least_as_good(side, b as int, p as int));
        }
    }
    assert(m2.dom().finite());
    assert(is_best_key(m2.dom(), side, p));
    lemma_best_key(m2.dom(), side);
    assert(m2.remove(p) =~= m);
    assert(m2[p] =~= seq![o]);
    assert(flatten_levels(m2, side) == m2[p] + flatten_levels(m2.remove(p), side));
    assert(f[0] == m[b][0]);
    assert(m[b][0].price == b);
    assert(insertion_index(f, side, p) == 0);
    assert(f.insert(0, o) =~= seq![o] + f);
}

#[verifier::spinoff_prover]
#[verifier::rlimit(40)]
proof fn lemma_rest_behind_best(m: Map<i64, Seq<Order>>, side: OrderSide, o: Order)
    requires
        levels_wf(m, side),
        m.dom().len() > 0,
        o.price != best_key(m.dom(), side),
        !at_least_as_good(side, o.price as int, best_key(m.dom(), side) as int),
    ensures
        ({
            let f = flatten_levels(m, side);
            flatten_levels(levels_with(m, o), side) == f.insert(insertion_index(f, side, o.price), o)
        }),
    decreases m.dom().len(), 0int,
{
    let p = o.price;
    lemma_best_key(m.dom(), side);
    let b = best_key(m.dom(), side);
    let r = m.remove(b);
    let fr = flatten_levels(r, side);
    let f = flatten_levels(m, side);
    lemma_levels_remove_wf(m, side, b);
    assert(f == m[b] + fr);
    let m2 = levels_with(m, o);
    assert(m2.dom().finite());
    assert(is_best_key(m2.dom(), side, b));
    lemma_best_key(m2.dom(), side);
    let r2 = m2.remove(b);
    assert(r2 =~= levels_with(r, o));
    lemma_flatten_rest(r, side, o);
    assert(m2[b] == m[b]);
    assert(flatten_levels(m2, side) == m2[b] + flatten_levels(r2, side));
    assert forall|i: int| 0 <= i < m[b].len() implies at_least_as_good(
        side,
        (#[trigger] m[b][i]).price as int,
        p as int,
    ) by {}
    lemma_insertion_index_concat(m[b], fr, side, p);
    let ir = insertion_index(fr, side, p);
    lemma_insertion_index_bounds(fr, side, p);
    assert(f.insert(m[b].len() + ir, o) =~= m[b] + fr.insert(ir, o));
}

proof fn lemma_insertion_index_bounds(s: Seq<Order>, side: OrderSide, price: i64)
    ensures
        0 <= insertion_index(s, side, price) <= s.len(),
    decreases s.len(),
{
    if s.len() > 0 {
        lemma_insertion_index_bounds(s.drop_first(), side, price);
    }
}

/// Calls `BTreeMap::first_key_value` and keeps the key: the least price of
/// the levels, as std documents it ("the key in this pair is the minimum key
/// in the map"), or `None` when the map is empty.
#[verifier::external_body]
fn lowest_price(levels: &BTreeMap<i64, VecDeque<Order>>) -> (r: Option<i64>)
    ensures
        r is None ==> levels@.dom().len() == 0,
        r matches Some(k) ==> levels@.dom().contains(k) && forall|k2: i64|
            levels@.dom().contains(k2) ==> k <= k2,
{
    match levels.first_key_value() {
        Some((k, _)) => Some(*k),
        None => None,
    }
}

/// Calls `BTreeMap::last_key_value` and keeps the key: the greatest price of
/// the levels, as std documents it ("the key in this pair is the maximum key
/// in the map"), or `None` when the map is empty.
#[verifier::external_body]
fn highest_price(levels: &BTreeMap<i64, VecDeque<Order>>) -> (r: Option<i64>)
    ensures
        r is None ==> levels@.dom().len() == 0,
        r matches Some(k) ==> levels@.dom().contains(k) && forall|k2: i64|
            levels@.dom().contains(k2) ==> k >= k2,
{
    match levels.last_key_value() {
        Some((k, _)) => Some(*k),
        None => None,
    }
}

/// The orders of side `side` held in `levels`, in priority order.
pub open spec fn side_orders(levels: BTreeMap<i64, VecDeque<Order>>, side: OrderSide) -> Seq<Order> {
    flatten_levels(levels_view(levels), side)
}

/// The best price of the levels of side `side`: the price of the first order
/// in priority order, or `None` when the side is empty.
pub fn best_price(levels: &BTreeMap<i64, VecDeque<Order>>, side: OrderSide) -> (r: Option<i64>)
    requires
        levels_wf(levels_view(*levels), side),
    ensures
        r matches Some(p) ==> side_orders(*levels, side).len() > 0 && side_orders(*levels, side)[0].price
            == p && p == best_key(levels_view(*levels).dom(), side),
        r is None ==> side_orders(*levels, side).len() == 0,
{
    let ghost lv = levels_view(*levels);
    assert(lv.dom() =~= levels@.dom());
    let r = match side {
        OrderSide::Buy => highest_price(levels),
        OrderSide::Sell => lowest_price(levels),
    };
    proof {
        if r is Some {
            let p = r->0;
            assert(is_best_key(lv.dom(), side, p));
            lemma_best_key(lv.dom(), side);
            lemma_flatten_replace_best(lv, side, lv[p]);
            assert(lv[p].len() > 0);
            assert(lv[p][0].price == p);
        } else {
            assert(lv.dom().len() == 0);
        }
    }
    r
}

/// The quantity of the first order (in priority order) of the levels of side
/// `side`, whose best price is `price`.
pub fn best_qty(levels: &BTreeMap<i64, VecDeque<Order>>, side: OrderSide, price: i64) -> (q: i64)
    requires
        levels_wf(levels_view(*levels), side),
        side_orders(*levels, side).len() > 0,
        price == best_key(levels_view(*levels).dom(), side),
    ensures
        q == side_orders(*levels, side)[0].qty,
{
    let ghost lv = levels_view(*levels);
    proof {
        assert(lv.dom().len() > 0) by {
            if lv.dom().len() == 0 {
                assert(flatten_levels(lv, side).len() == 0);
            }
        }
        lemma_best_key(lv.dom(), side);
        assert(lv.dom() =~= levels@.dom());
        lemma_flatten_replace_best(lv, side, lv[price]);
    }
    let level = levels.get(&price).unwrap();
    assert(level@ == lv[price]);
    level[0].qty
}

/// Removes the first order (in priority order) of the levels of side `side`,
/// whose best price is `price`, and returns it.
pub fn pop_best(levels: &mut BTreeMap<i64, VecDeque<Order>>, side: OrderSide, price: i64) -> (o: Order)
    requires
        levels_wf(levels_view(*old(levels)), side),
        side_orders(*old(levels), side).len() > 0,
        price == best_key(levels_view(*old(levels)).dom(), side),
    ensures
        levels_wf(levels_view(*final(levels)), side),
        side_orders(*final(levels), side) == side_orders(*old(levels), side).drop_first(),
        o == side_orders(*old(levels), side)[0],
{
    let ghost lv = levels_view(*levels);
    proof {
        assert(lv.dom().len() > 0) by {
            if lv.dom().len() == 0 {
                assert(flatten_levels(lv, side).len() == 0);
            }
        }
        lemma_best_key(lv.dom(), side);
        assert(lv.dom() =~= levels@.dom());
    }
    let mut q = levels.remove(&price).unwrap();
    let ghost q0 = q@;
    assert(q0 == lv[price]);
    let o = q.pop_front().unwrap();
    let ghost mid = levels_view(*levels);
    assert(mid =~= lv.remove(price));
    if q.len() > 0 {
        levels.insert(price, q);
    }
    proof {
        lemma_flatten_replace_best(lv, side, q@);
        lemma_levels_remove_wf(lv, side, price);
        let nv = levels_view(*levels);
        if q@.len() > 0 {
            assert(nv =~= lv.insert(price, q@));
            assert forall|k: i64| #![trigger nv[k]] nv.dom().contains(k) implies {
                &&& nv[k].len() > 0
                &&& forall|i: int|
                    0 <= i < nv[k].len() ==> {
                        &&& (#[trigger] nv[k][i]).price == k
                        &&& nv[k][i].qty > 0
                        &&& nv[k][i].side == side
                    }
            } by {
                if k == price {
                    assert forall|i: int| 0 <= i < nv[k].len() implies {
                        &&& (#[trigger] nv[k][i]).price == k
                        &&& nv[k][i].qty > 0
                        &&& nv[k][i].side == side
                    } by {
                        assert(nv[k][i] == q0[i + 1]);
                    }
                } else {
                    assert(nv[k] == lv[k]);
                }
            }
        } else {
            assert(nv =~= lv.remove(price));
        }
        assert(q@ =~= q0.drop_first());
        assert(flatten_levels(lv, side).drop_first() =~= q0.drop_first() + flatten_levels(lv.remove(price), side));
    }
    o
}

/// Takes `traded` off the quantity of the first order (in priority order) of
/// the levels of side `side`, whose best price is `price`; the order keeps
/// its place.
pub fn reduce_best(levels: &mut BTreeMap<i64, VecDeque<Order>>, side: OrderSide, price: i64, traded: i64)
    requires
        levels_wf(levels_view(*old(levels)), side),
        side_orders(*old(levels), side).len() > 0,
        price == best_key(levels_view(*old(levels)).dom(), side),
        0 < traded < side_orders(*old(levels), side)[0].qty,
    ensures
        levels_wf(levels_view(*final(levels)), side),
        side_orders(*final(levels), side) == side_orders(*old(levels), side).update(
            0,
            with_qty(side_orders(*old(levels), side)[0], (side_orders(*old(levels), side)[0].qty - traded) as i64),
        ),
{
    let ghost lv = levels_view(*levels);
    proof {
        assert(lv.dom().len() > 0) by {
            if lv.dom().len() == 0 {
                assert(flatten_levels(lv, side).len() == 0);
            }
        }
        lemma_best_key(lv.dom(), side);
        assert(lv.dom() =~= levels@.dom());
        lemma_flatten_replace_best(lv, side, lv[price]);
    }
    let mut q = levels.remove(&price).unwrap();
    let ghost q0 = q@;
    assert(q0 == lv[price]);
    let mut front = q.pop_front().unwrap();
    front.qty = front.qty - traded;
    q.push_front(front);
    levels.insert(price, q);
    proof {
        lemma_flatten_replace_best(lv, side, q@);
        let nv = levels_view(*levels);
        assert(q@ =~= q0.update(0, with_qty(q0[0], (q0[0].qty - traded) as i64)));
        assert(nv =~= lv.insert(price, q@));
        assert forall|k: i64| #![trigger nv[k]] nv.dom().contains(k) implies {
            &&& nv[k].len() > 0
            &&& forall|i: int|
                0 <= i < nv[k].len() ==> {
                    &&& (#[trigger] nv[k][i]).price == k
                    &&& nv[k][i].qty > 0
                    &&& nv[k][i].side == side
                }
        } by {
            if k == price {
                assert forall|i: int| 0 <= i < nv[k].len() implies {
                    &&& (#[trigger] nv[k][i]).price == k
                    &&& nv[k][i].qty > 0
                    &&& nv[k][i].side == side
                } by {
                    if i > 0 {
                        assert(nv[k][i] == q0[i]);
                    }
                }
            } else {
                assert(nv[k] == lv[k]);
            }
        }
        let f = flatten_levels(lv, side);
        assert(f[0] == q0[0]);
        assert(f.update(0, with_qty(f[0], (f[0].qty - traded) as i64)) =~= q@ + flatten_levels(
            lv.remove(price),
            side,
        ));
    }
}

/// Puts `o` at the back of the level of its price.
pub fn rest_in_levels(levels: &mut BTreeMap<i64, VecDeque<Order>>, o: Order)
    requires
        levels_wf(levels_view(*old(levels)), o.side),
        o.qty > 0,
    ensures
        levels_wf(levels_view(*final(levels)), o.side),
        levels_view(*final(levels)) == levels_with(levels_view(*old(levels)), o),
{
    let ghost lv = levels_view(*levels);
    let ghost side = o.side;
    let price = o.price;
    let mut q = match levels.remove(&price) {
        Some(q) => q,
        None => VecDeque::new(),
    };
    let ghost q0 = q@;
    assert(lv.dom() =~= old(levels)@.dom());
    assert(q0 == (if lv.dom().contains(price) {
        lv[price]
    } else {
        Seq::<Order>::empty()
    }));
    let ghost og = o;
    q.push_back(o);
    levels.insert(price, q);
    proof {
        let nv = levels_view(*levels);
        assert(nv =~= levels_with(lv, og));
        assert forall|k: i64| #![trigger nv[k]] nv.dom().contains(k) implies {
            &&& nv[k].len() > 0
            &&& forall|i: int|
                0 <= i < nv[k].len() ==> {
                    &&& (#[trigger] nv[k][i]).price == k
                    &&& nv[k][i].qty > 0
                    &&& nv[k][i].side == side
                }
        } by {
            if k == price {
                assert forall|i: int| 0 <= i < nv[k].len() implies {
                    &&& (#[trigger] nv[k][i]).price == k
                    &&& nv[k][i].qty > 0
                    &&& nv[k][i].side == side
                } by {
                    if i < q0.len() {
                        assert(nv[k][i] == q0[i]);
                    }
                }
            } else {
                assert(nv[k] == lv[k]);
            }
        }
    }
}

} // verus!
