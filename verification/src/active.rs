//! Every trader's active orders are exactly its orders resting on the books, with
//! the amounts still open: matching, resting and cancelling change both alike.
use vstd::prelude::*;

use crate::exchange::{reduce_active, trade_settled, trades_settled, Taker};
use crate::orderbook::{LevelView, Order, OrderBook, OrderID};
use crate::config::TraderId;
use crate::accounts::AccountView;

verus! {

/// The orders of a side, level by level, each level oldest first.
pub open spec fn side_orders(side: Seq<LevelView>) -> Seq<Order>
    decreases side.len(),
{
    if side.len() == 0 {
        Seq::empty()
    } else {
        side_orders(side.drop_last()) + side.last().1
    }
}

/// The orders of a book: its bids, then its asks.
pub open spec fn book_orders(b: OrderBook) -> Seq<Order> {
    side_orders(b.bids()) + side_orders(b.asks())
}

/// The orders of all books, book by book.
pub open spec fn all_orders(books: Seq<OrderBook>) -> Seq<Order>
    decreases books.len(),
{
    if books.len() == 0 {
        Seq::empty()
    } else {
        all_orders(books.drop_last()) + book_orders(books.last())
    }
}

/// No two orders share an id.
pub open spec fn ids_distinct(s: Seq<Order>) -> bool {
    forall|i: int, j: int| 0 <= i < s.len() && 0 <= j < s.len() && i != j ==> (#[trigger] s[i]).order_id != (#[trigger] s[j]).order_id
}

/// Some order of `s` has id `id`.
pub open spec fn has_order_id(s: Seq<Order>, id: OrderID) -> bool {
    exists|k: int| 0 <= k < s.len() && (#[trigger] s[k]).order_id == id
}

/// The orders of `s` by id.
pub open spec fn orders_map(s: Seq<Order>) -> Map<OrderID, Order>
    decreases s.len(),
{
    if s.len() == 0 {
        Map::empty()
    } else {
        orders_map(s.drop_last()).insert(s.last().order_id, s.last())
    }
}

/// The orders of `m` that belong to trader `u`.
pub open spec fn owned(m: Map<OrderID, Order>, u: TraderId) -> Map<OrderID, Order> {
    Map::new(|id: OrderID| m.contains_key(id) && m[id].trader_id == u, |id: OrderID| m[id])
}

/// The sides of a book concatenate.
pub proof fn lemma_side_orders_concat(a: Seq<LevelView>, b: Seq<LevelView>)
    ensures
        side_orders(a + b) == side_orders(a) + side_orders(b),
    decreases b.len(),
{
    if b.len() == 0 {
        assert(a + b =~= a);
        assert(side_orders(a) + side_orders(b) =~= side_orders(a));
    } else {
        lemma_side_orders_concat(a, b.drop_last());
        assert((a + b).drop_last() =~= a + b.drop_last());
        assert((a + b).last() == b.last());
        assert(side_orders(a) + side_orders(b.drop_last()) + b.last().1 =~= side_orders(a) + (side_orders(b.drop_last()) + b.last().1));
    }
}

/// A side's orders around level `i`: those of the levels before it, its queue, and
/// those of the levels after it.
pub proof fn lemma_side_orders_split(side: Seq<LevelView>, i: int)
    requires
        0 <= i < side.len(),
    ensures
        side_orders(side) == side_orders(side.take(i)) + side[i].1 + side_orders(side.skip(i + 1)),
{
    let a = side.take(i);
    let b = side.skip(i + 1);
    assert(side =~= a + seq![side[i]] + b);
    lemma_side_orders_concat(a + seq![side[i]], b);
    lemma_side_orders_concat(a, seq![side[i]]);
    let one = seq![side[i]];
    assert(one.drop_last() =~= Seq::<LevelView>::empty());
    assert(one.last() == side[i]);
    assert(side_orders(one.drop_last()) == Seq::<Order>::empty());
    assert(side_orders(one) =~= side[i].1);
}

/// The books' orders concatenate.
pub proof fn lemma_all_orders_concat(a: Seq<OrderBook>, b: Seq<OrderBook>)
    ensures
        all_orders(a + b) == all_orders(a) + all_orders(b),
    decreases b.len(),
{
    if b.len() == 0 {
        assert(a + b =~= a);
        assert(all_orders(a) + all_orders(b) =~= all_orders(a));
    } else {
        lemma_all_orders_concat(a, b.drop_last());
        assert((a + b).drop_last() =~= a + b.drop_last());
        assert((a + b).last() == b.last());
        assert(all_orders(a) + all_orders(b.drop_last()) + book_orders(b.last()) =~= all_orders(a) + (all_orders(b.drop_last()) + book_orders(b.last())));
    }
}

/// All books' orders around book `s`.
pub proof fn lemma_all_orders_split(books: Seq<OrderBook>, s: int)
    requires
        0 <= s < books.len(),
    ensures
        all_orders(books) == all_orders(books.take(s)) + book_orders(books[s]) + all_orders(books.skip(s + 1)),
{
    let a = books.take(s);
    let b = books.skip(s + 1);
    assert(books =~= a + seq![books[s]] + b);
    lemma_all_orders_concat(a + seq![books[s]], b);
    lemma_all_orders_concat(a, seq![books[s]]);
    let one = seq![books[s]];
    assert(one.drop_last() =~= Seq::<OrderBook>::empty());
    assert(one.last() == books[s]);
    assert(all_orders(one.drop_last()) == Seq::<Order>::empty());
    assert(all_orders(one) =~= book_orders(books[s]));
}

/// The map of a concatenation: the second part's entries over the first's.
pub proof fn lemma_orders_map_concat(a: Seq<Order>, b: Seq<Order>)
    ensures
        orders_map(a + b) == orders_map(a).union_prefer_right(orders_map(b)),
    decreases b.len(),
{
    if b.len() == 0 {
        assert(a + b =~= a);
        assert(orders_map(a).union_prefer_right(orders_map(b)) =~= orders_map(a));
    } else {
        lemma_orders_map_concat(a, b.drop_last());
        assert((a + b).drop_last() =~= a + b.drop_last());
        assert((a + b).last() == b.last());
        assert(orders_map(a + b) =~= orders_map(a).union_prefer_right(orders_map(b)));
    }
}

/// The map of `s` holds exactly the ids of `s`, each mapped to an order with that id.
pub proof fn lemma_orders_map_dom(s: Seq<Order>)
    ensures
        forall|id: OrderID| #[trigger] orders_map(s).contains_key(id) <==> has_order_id(s, id),
        forall|id: OrderID| #[trigger] orders_map(s).contains_key(id) ==> orders_map(s)[id].order_id == id,
    decreases s.len(),
{
    if s.len() > 0 {
        let init = s.drop_last();
        lemma_orders_map_dom(init);
        assert forall|id: OrderID| #[trigger] orders_map(s).contains_key(id) <==> has_order_id(s, id) by {
            if has_order_id(s, id) {
                let k = choose|k: int| 0 <= k < s.len() && (#[trigger] s[k]).order_id == id;
                if k < init.len() {
                    assert(init[k] == s[k]);
                }
            }
            if has_order_id(init, id) {
                let k = choose|k: int| 0 <= k < init.len() && (#[trigger] init[k]).order_id == id;
                assert(s[k] == init[k]);
            }
            if id == s.last().order_id {
                assert(s[s.len() - 1] == s.last());
            }
        }
    }
}

/// With distinct ids, the map gives every order of `s` under its id.
pub proof fn lemma_orders_map_value(s: Seq<Order>, k: int)
    requires
        ids_distinct(s),
        0 <= k < s.len(),
    ensures
        orders_map(s).contains_key(s[k].order_id),
        orders_map(s)[s[k].order_id] == s[k],
    decreases s.len(),
{
    let init = s.drop_last();
    if k == s.len() - 1 {
    } else {
        assert(ids_distinct(init)) by {
            assert forall|i: int, j: int| 0 <= i < init.len() && 0 <= j < init.len() && i != j implies (#[trigger] init[i]).order_id != (#[trigger] init[j]).order_id by {
                assert(init[i] == s[i] && init[j] == s[j]);
            }
        }
        lemma_orders_map_value(init, k);
        assert(init[k] == s[k]);
        assert(s[k].order_id != s[s.len() - 1].order_id);
    }
}


/// Every id of `s2` is an id of `s1`.
pub open spec fn ids_within(s2: Seq<Order>, s1: Seq<Order>) -> bool {
    forall|k: int| 0 <= k < s2.len() ==> has_order_id(s1, #[trigger] s2[k].order_id)
}

/// Replacing the middle part of a sequence of orders by one with distinct ids, all
/// taken from the old middle part, keeps the ids distinct and adds none.
pub proof fn lemma_distinct_middle(a: Seq<Order>, q: Seq<Order>, q2: Seq<Order>, b: Seq<Order>)
    requires
        ids_distinct(a + q + b),
        ids_distinct(q2),
        ids_within(q2, q),
    ensures
        ids_distinct(a + q2 + b),
        ids_within(a + q2 + b, a + q + b),
{
    let s1 = a + q + b;
    let s2 = a + q2 + b;
    let na = a.len() as int;
    let nq = q.len() as int;
    let nq2 = q2.len() as int;
    // Each position of the new sequence has the id of some position of the old one,
    // and different positions of the new one come from different old ones.
    let src = |k: int| if k < na {
        k
    } else if k < na + nq2 {
        na + choose|j: int| 0 <= j < q.len() && (#[trigger] q[j]).order_id == q2[k - na].order_id
    } else {
        k - nq2 + nq
    };
    assert forall|k: int| 0 <= k < s2.len() implies 0 <= #[trigger] src(k) < s1.len() && s1[src(k)].order_id == s2[k].order_id by {
        if k < na {
            assert(s2[k] == a[k] && s1[k] == a[k]);
        } else if k < na + nq2 {
            assert(s2[k] == q2[k - na]);
            assert(has_order_id(q, q2[k - na].order_id));
            let j = choose|j: int| 0 <= j < q.len() && (#[trigger] q[j]).order_id == q2[k - na].order_id;
            assert(s1[na + j] == q[j]);
        } else {
            assert(s2[k] == b[k - na - nq2]);
            assert(s1[k - nq2 + nq] == b[k - na - nq2]);
        }
    }
    assert forall|i: int, j: int| 0 <= i < s2.len() && 0 <= j < s2.len() && i != j implies (#[trigger] s2[i]).order_id != (#[trigger] s2[j]).order_id by {
        assert(0 <= src(i) < s1.len() && s1[src(i)].order_id == s2[i].order_id);
        assert(0 <= src(j) < s1.len() && s1[src(j)].order_id == s2[j].order_id);
        if na <= i < na + nq2 && na <= j < na + nq2 {
            assert(s2[i] == q2[i - na] && s2[j] == q2[j - na]);
        } else {
            assert(src(i) != src(j));
        }
    }
    assert forall|k: int| 0 <= k < s2.len() implies has_order_id(s1, #[trigger] s2[k].order_id) by {
        assert(0 <= src(k) < s1.len() && s1[src(k)].order_id == s2[k].order_id);
    }
}

/// A sequence's ids are distinct when those of a longer one around it are.
pub proof fn lemma_distinct_part(a: Seq<Order>, q: Seq<Order>, b: Seq<Order>)
    requires
        ids_distinct(a + q + b),
    ensures
        ids_distinct(q),
        forall|k: int| 0 <= k < q.len() ==> !has_order_id(a, #[trigger] q[k].order_id) && !has_order_id(b, q[k].order_id),
{
    let s = a + q + b;
    let na = a.len() as int;
    let nq = q.len() as int;
    assert forall|i: int, j: int| 0 <= i < q.len() && 0 <= j < q.len() && i != j implies (#[trigger] q[i]).order_id != (#[trigger] q[j]).order_id by {
        assert(s[na + i] == q[i] && s[na + j] == q[j]);
    }
    assert forall|k: int| 0 <= k < q.len() implies !has_order_id(a, #[trigger] q[k].order_id) && !has_order_id(b, q[k].order_id) by {
        assert(s[na + k] == q[k]);
        if has_order_id(a, q[k].order_id) {
            let j = choose|j: int| 0 <= j < a.len() && (#[trigger] a[j]).order_id == q[k].order_id;
            assert(s[j] == a[j]);
        }
        if has_order_id(b, q[k].order_id) {
            let j = choose|j: int| 0 <= j < b.len() && (#[trigger] b[j]).order_id == q[k].order_id;
            assert(s[na + nq + j] == b[j]);
        }
    }
}

/// Taking `t` shares off the front of a queue with distinct ids changes its map as
/// it changes the front order's active entry.
pub proof fn lemma_reduce_queue_map(q: Seq<Order>, t: u64)
    requires
        ids_distinct(q),
        q.len() > 0,
        0 < t <= q[0].amount,
    ensures
        orders_map(crate::orderbook::reduce_queue(q, t)) == reduce_active(orders_map(q), q[0].order_id, t),
        ids_distinct(crate::orderbook::reduce_queue(q, t)),
        ids_within(crate::orderbook::reduce_queue(q, t), q),
{
    let id = q[0].order_id;
    let rest = q.drop_first();
    let one = seq![q[0]];
    assert(q =~= one + rest);
    lemma_orders_map_concat(one, rest);
    assert(one.drop_last() =~= Seq::<Order>::empty());
    assert(one.last() == q[0]);
    assert(orders_map(one.drop_last()) == Map::<OrderID, Order>::empty());
    assert(orders_map(one) =~= Map::<OrderID, Order>::empty().insert(id, q[0]));
    lemma_distinct_part(Seq::<Order>::empty(), one, rest);
    assert(Seq::<Order>::empty() + one + rest =~= q);
    assert(ids_distinct(rest)) by {
        assert forall|i: int, j: int| 0 <= i < rest.len() && 0 <= j < rest.len() && i != j implies (#[trigger] rest[i]).order_id != (#[trigger] rest[j]).order_id by {
            assert(rest[i] == q[i + 1] && rest[j] == q[j + 1]);
        }
    }
    lemma_orders_map_dom(rest);
    assert(!has_order_id(rest, id)) by {
        if has_order_id(rest, id) {
            let j = choose|j: int| 0 <= j < rest.len() && (#[trigger] rest[j]).order_id == id;
            assert(rest[j] == q[j + 1]);
        }
    }
    lemma_orders_map_value(q, 0);
    let r = crate::orderbook::reduce_queue(q, t);
    if t < q[0].amount {
        let x = Order { amount: (q[0].amount - t) as u64, ..q[0] };
        let onex = seq![x];
        assert(r =~= onex + rest);
        lemma_orders_map_concat(onex, rest);
        assert(onex.drop_last() =~= Seq::<Order>::empty());
        assert(onex.last() == x);
        assert(orders_map(onex.drop_last()) == Map::<OrderID, Order>::empty());
        assert(orders_map(onex) =~= Map::<OrderID, Order>::empty().insert(id, x));
        assert(orders_map(r) =~= orders_map(q).insert(id, x));
        assert forall|i: int, j: int| 0 <= i < r.len() && 0 <= j < r.len() && i != j implies (#[trigger] r[i]).order_id != (#[trigger] r[j]).order_id by {
            assert(q[i].order_id == r[i].order_id && q[j].order_id == r[j].order_id);
        }
        assert forall|k: int| 0 <= k < r.len() implies has_order_id(q, #[trigger] r[k].order_id) by {
            assert(q[k].order_id == r[k].order_id);
        }
    } else {
        assert(r == rest);
        assert(orders_map(r) =~= orders_map(q).remove(id));
        assert forall|k: int| 0 <= k < r.len() implies has_order_id(q, #[trigger] r[k].order_id) by {
            assert(q[k + 1] == r[k]);
        }
    }
}


/// Reducing the front order of a queue in the middle of a sequence of orders with
/// distinct ids changes the sequence's map as it changes that order's entry.
pub proof fn lemma_middle_reduce(a: Seq<Order>, q: Seq<Order>, b: Seq<Order>, t: u64)
    requires
        ids_distinct(a + q + b),
        q.len() > 0,
        0 < t <= q[0].amount,
    ensures
        orders_map(a + crate::orderbook::reduce_queue(q, t) + b) == reduce_active(orders_map(a + q + b), q[0].order_id, t),
        ids_distinct(a + crate::orderbook::reduce_queue(q, t) + b),
        ids_within(a + crate::orderbook::reduce_queue(q, t) + b, a + q + b),
{
    let id = q[0].order_id;
    let rq = crate::orderbook::reduce_queue(q, t);
    lemma_distinct_part(a, q, b);
    lemma_reduce_queue_map(q, t);
    lemma_distinct_middle(a, q, rq, b);
    lemma_orders_map_concat(a + q, b);
    lemma_orders_map_concat(a, q);
    lemma_orders_map_concat(a + rq, b);
    lemma_orders_map_concat(a, rq);
    lemma_orders_map_dom(a);
    lemma_orders_map_dom(b);
    lemma_orders_map_dom(q);
    lemma_orders_map_value(q, 0);
    assert(!orders_map(a).contains_key(id));
    assert(!orders_map(b).contains_key(id));
    let ma = orders_map(a);
    let mq = orders_map(q);
    let mb = orders_map(b);
    assert(orders_map(a + q + b) == ma.union_prefer_right(mq).union_prefer_right(mb));
    assert(orders_map(a + rq + b) == ma.union_prefer_right(orders_map(rq)).union_prefer_right(mb));
    assert(ma.union_prefer_right(mq).union_prefer_right(mb)[id] == q[0]);
    if t >= q[0].amount {
        assert(orders_map(rq) == mq.remove(id));
        assert(ma.union_prefer_right(mq.remove(id)).union_prefer_right(mb) =~= ma.union_prefer_right(mq).union_prefer_right(mb).remove(id));
    } else {
        let x = Order { amount: (q[0].amount - t) as u64, ..q[0] };
        assert(orders_map(rq) == mq.insert(id, x));
        assert(ma.union_prefer_right(mq.insert(id, x)).union_prefer_right(mb) =~= ma.union_prefer_right(mq).union_prefer_right(mb).insert(id, x));
    }
}

/// The orders of a side after its level `i`'s front order was reduced: those before
/// it, the reduced queue, and those after it.
pub proof fn lemma_consume_front_orders(side: Seq<LevelView>, i: int, t: u64)
    requires
        0 <= i < side.len(),
        side[i].1.len() > 0,
    ensures
        side_orders(crate::orderbook::consume_front(side, i, t)) == side_orders(side.take(i))
            + crate::orderbook::reduce_queue(side[i].1, t) + side_orders(side.skip(i + 1)),
        side_orders(side) == side_orders(side.take(i)) + side[i].1 + side_orders(side.skip(i + 1)),
{
    lemma_side_orders_split(side, i);
    let rq = crate::orderbook::reduce_queue(side[i].1, t);
    let c = crate::orderbook::consume_front(side, i, t);
    if rq.len() > 0 {
        lemma_side_orders_split(c, i);
        assert(c.take(i) =~= side.take(i));
        assert(c.skip(i + 1) =~= side.skip(i + 1));
    } else {
        assert(c =~= side.take(i) + side.skip(i + 1));
        lemma_side_orders_concat(side.take(i), side.skip(i + 1));
        assert(rq =~= Seq::<Order>::empty());
        assert(side_orders(side.take(i)) + rq + side_orders(side.skip(i + 1)) =~= side_orders(side.take(i)) + side_orders(side.skip(i + 1)));
    }
}

/// Reducing the front order of level `i` of a side, inside any sequence of orders
/// with distinct ids, changes the map as it changes that order's entry.
pub proof fn lemma_consume_map(a: Seq<Order>, side: Seq<LevelView>, b: Seq<Order>, i: int, t: u64)
    requires
        ids_distinct(a + side_orders(side) + b),
        0 <= i < side.len(),
        side[i].1.len() > 0,
        0 < t <= side[i].1[0].amount,
    ensures
        orders_map(a + side_orders(crate::orderbook::consume_front(side, i, t)) + b)
            == reduce_active(orders_map(a + side_orders(side) + b), side[i].1[0].order_id, t),
        ids_distinct(a + side_orders(crate::orderbook::consume_front(side, i, t)) + b),
        ids_within(a + side_orders(crate::orderbook::consume_front(side, i, t)) + b, a + side_orders(side) + b),
{
    lemma_consume_front_orders(side, i, t);
    let pre = side_orders(side.take(i));
    let post = side_orders(side.skip(i + 1));
    let q = side[i].1;
    let rq = crate::orderbook::reduce_queue(q, t);
    assert(a + side_orders(side) + b =~= (a + pre) + q + (post + b));
    assert(a + side_orders(crate::orderbook::consume_front(side, i, t)) + b =~= (a + pre) + rq + (post + b));
    lemma_middle_reduce(a + pre, q, post + b, t);
}


/// A map after each trade's resting order is reduced by the traded amount, in order.
pub open spec fn reduce_trades(m: Map<OrderID, Order>, trs: Seq<crate::orderbook::Trade>) -> Map<OrderID, Order>
    decreases trs.len(),
{
    if trs.len() == 0 {
        m
    } else {
        reduce_trades(reduce_active(m, trs[0].resting.order_id, trs[0].amount), trs.drop_first())
    }
}

/// Reducing by a list of trades is reducing by all but the last, then by the last.
pub proof fn lemma_reduce_trades_last(m: Map<OrderID, Order>, trs: Seq<crate::orderbook::Trade>)
    requires
        trs.len() > 0,
    ensures
        reduce_trades(m, trs) == reduce_active(reduce_trades(m, trs.drop_last()), trs.last().resting.order_id, trs.last().amount),
    decreases trs.len(),
{
    let m1 = reduce_active(m, trs[0].resting.order_id, trs[0].amount);
    assert(reduce_trades(m, trs) == reduce_trades(m1, trs.drop_first()));
    if trs.len() == 1 {
        assert(trs.drop_first() =~= Seq::<crate::orderbook::Trade>::empty());
        assert(trs.drop_last() =~= Seq::<crate::orderbook::Trade>::empty());
        assert(reduce_trades(m1, Seq::<crate::orderbook::Trade>::empty()) == m1);
        assert(reduce_trades(m, Seq::<crate::orderbook::Trade>::empty()) == m);
        assert(trs.last() == trs[0]);
    } else {
        lemma_reduce_trades_last(m1, trs.drop_first());
        assert(trs.drop_first().drop_last() =~= trs.drop_last().drop_first());
        assert(trs.drop_first().last() == trs.last());
        assert(trs.drop_last()[0] == trs[0]);
        assert(reduce_trades(m, trs.drop_last()) == reduce_trades(m1, trs.drop_last().drop_first()));
    }
}

/// Reducing entries only removes ids or keeps them.
pub proof fn lemma_reduce_trades_dom(m: Map<OrderID, Order>, trs: Seq<crate::orderbook::Trade>)
    ensures
        forall|id: OrderID| #[trigger] reduce_trades(m, trs).contains_key(id) ==> m.contains_key(id),
        forall|id: OrderID| #[trigger] reduce_trades(m, trs).contains_key(id) ==> reduce_trades(m, trs)[id].trader_id == m[id].trader_id,
    decreases trs.len(),
{
    if trs.len() > 0 {
        let m1 = reduce_active(m, trs[0].resting.order_id, trs[0].amount);
        lemma_reduce_trades_dom(m1, trs.drop_first());
    }
}

/// Reducing an entry of a map and then keeping trader `u`'s entries is keeping
/// them and then reducing.
pub proof fn lemma_owned_reduce(m: Map<OrderID, Order>, id: OrderID, t: u64, u: TraderId)
    ensures
        owned(reduce_active(m, id, t), u) == reduce_active(owned(m, u), id, t),
{
    assert(owned(reduce_active(m, id, t), u) =~= reduce_active(owned(m, u), id, t));
}

/// Every id is within its own sequence, and being within is transitive.
pub proof fn lemma_within_refl_trans(s1: Seq<Order>, s2: Seq<Order>, s3: Seq<Order>)
    ensures
        ids_within(s1, s1),
        ids_within(s1, s2) && ids_within(s2, s3) ==> ids_within(s1, s3),
{
    assert forall|k: int| 0 <= k < s1.len() implies has_order_id(s1, #[trigger] s1[k].order_id) by {}
    if ids_within(s1, s2) && ids_within(s2, s3) {
        assert forall|k: int| 0 <= k < s1.len() implies has_order_id(s3, #[trigger] s1[k].order_id) by {
            assert(has_order_id(s2, s1[k].order_id));
            let j = choose|j: int| 0 <= j < s2.len() && (#[trigger] s2[j]).order_id == s1[k].order_id;
            assert(has_order_id(s3, s2[j].order_id));
        }
    }
}

/// Matching an incoming buy against the asks, inside any sequence of orders with
/// distinct ids, reduces the map by the trades, in order; each trade's resting order
/// is, when it trades, in the map under its id and owned by its trader.
#[verifier::spinoff_prover]
pub proof fn lemma_match_asks_map(
    a: Seq<Order>,
    asks: Seq<LevelView>,
    b: Seq<Order>,
    limit: u64,
    remaining: u64,
    sym: crate::config::TickerSymbol,
)
    requires
        crate::orderbook::side_wf(asks, crate::orderbook::OrderType::Sell, sym),
        ids_distinct(a + side_orders(asks) + b),
    ensures
        ({
            let m = crate::orderbook::match_asks(asks, limit, remaining);
            let m0 = orders_map(a + side_orders(asks) + b);
            &&& orders_map(a + side_orders(m.0) + b) == reduce_trades(m0, m.1)
            &&& ids_distinct(a + side_orders(m.0) + b)
            &&& ids_within(a + side_orders(m.0) + b, a + side_orders(asks) + b)
            &&& forall|k: int| 0 <= k < m.1.len() ==> {
                let mk = reduce_trades(m0, m.1.take(k));
                &&& mk.contains_key((#[trigger] m.1[k]).resting.order_id)
                &&& mk[m.1[k].resting.order_id].trader_id == m.1[k].resting.trader_id
            }
        }),
    decreases remaining,
{
    let m = crate::orderbook::match_asks(asks, limit, remaining);
    let full = a + side_orders(asks) + b;
    let m0 = orders_map(full);
    lemma_within_refl_trans(full, full, full);
    if remaining == 0 || asks.len() == 0 || asks[0].0 > limit || asks[0].1.len() == 0 || asks[0].1[0].amount == 0 {
    } else {
        let o = asks[0].1[0];
        let t = crate::orderbook::min_amount(remaining, o.amount);
        let nxt = crate::orderbook::consume_front(asks, 0, t);
        lemma_consume_map(a, asks, b, 0, t);
        crate::orderbook::lemma_consume_front(asks, 0, t, crate::orderbook::OrderType::Sell, sym);
        lemma_match_asks_map(a, nxt, b, limit, (remaining - t) as u64, sym);
        let rest = crate::orderbook::match_asks(nxt, limit, (remaining - t) as u64);
        let tr = crate::orderbook::Trade { resting: o, amount: t };
        assert(m.1 == seq![tr] + rest.1);
        assert(m.1[0] == tr);
        assert(m.1.drop_first() =~= rest.1);
        let mid = a + side_orders(nxt) + b;
        lemma_within_refl_trans(a + side_orders(m.0) + b, mid, full);
        // The first trade's resting order is the front ask, in the map as it is.
        lemma_side_orders_split(asks, 0);
        assert(asks.take(0) =~= Seq::<LevelView>::empty());
        assert(full[a.len() as int] == o);
        lemma_orders_map_value(full, a.len() as int);
        assert forall|k: int| 0 <= k < m.1.len() implies {
            let mk = reduce_trades(m0, m.1.take(k));
            &&& mk.contains_key((#[trigger] m.1[k]).resting.order_id)
            &&& mk[m.1[k].resting.order_id].trader_id == m.1[k].resting.trader_id
        } by {
            if k == 0 {
                assert(m.1.take(0) =~= Seq::<crate::orderbook::Trade>::empty());
            } else {
                assert(m.1[k] == rest.1[k - 1]);
                assert(m.1.take(k)[0] == tr);
                assert(m.1.take(k).drop_first() =~= rest.1.take(k - 1));
            }
        }
    }
}

/// Matching an incoming sell against the bids, inside any sequence of orders with
/// distinct ids, reduces the map by the trades, in order; each trade's resting order
/// is, when it trades, in the map under its id and owned by its trader.
#[verifier::spinoff_prover]
pub proof fn lemma_match_bids_map(
    a: Seq<Order>,
    bids: Seq<LevelView>,
    b: Seq<Order>,
    limit: u64,
    remaining: u64,
    sym: crate::config::TickerSymbol,
)
    requires
        crate::orderbook::side_wf(bids, crate::orderbook::OrderType::Buy, sym),
        ids_distinct(a + side_orders(bids) + b),
    ensures
        ({
            let m = crate::orderbook::match_bids(bids, limit, remaining);
            let m0 = orders_map(a + side_orders(bids) + b);
            &&& orders_map(a + side_orders(m.0) + b) == reduce_trades(m0, m.1)
            &&& ids_distinct(a + side_orders(m.0) + b)
            &&& ids_within(a + side_orders(m.0) + b, a + side_orders(bids) + b)
            &&& forall|k: int| 0 <= k < m.1.len() ==> {
                let mk = reduce_trades(m0, m.1.take(k));
                &&& mk.contains_key((#[trigger] m.1[k]).resting.order_id)
                &&& mk[m.1[k].resting.order_id].trader_id == m.1[k].resting.trader_id
            }
        }),
    decreases remaining,
{
    let m = crate::orderbook::match_bids(bids, limit, remaining);
    let full = a + side_orders(bids) + b;
    let m0 = orders_map(full);
    lemma_within_refl_trans(full, full, full);
    if remaining == 0 || bids.len() == 0 || bids.last().0 < limit || bids.last().1.len() == 0 || bids.last().1[0].amount == 0 {
    } else {
        let last = bids.len() - 1;
        let o = bids.last().1[0];
        let t = crate::orderbook::min_amount(remaining, o.amount);
        let nxt = crate::orderbook::consume_front(bids, last, t);
        lemma_consume_map(a, bids, b, last, t);
        crate::orderbook::lemma_consume_front(bids, last, t, crate::orderbook::OrderType::Buy, sym);
        lemma_match_bids_map(a, nxt, b, limit, (remaining - t) as u64, sym);
        let rest = crate::orderbook::match_bids(nxt, limit, (remaining - t) as u64);
        let tr = crate::orderbook::Trade { resting: o, amount: t };
        assert(m.1 == seq![tr] + rest.1);
        assert(m.1[0] == tr);
        assert(m.1.drop_first() =~= rest.1);
        let mid = a + side_orders(nxt) + b;
        lemma_within_refl_trans(a + side_orders(m.0) + b, mid, full);
        // The first trade's resting order is the front of the best bid level.
        lemma_side_orders_split(bids, last);
        let pre = side_orders(bids.take(last));
        assert(full[(a.len() + pre.len()) as int] == o);
        lemma_orders_map_value(full, (a.len() + pre.len()) as int);
        assert forall|k: int| 0 <= k < m.1.len() implies {
            let mk = reduce_trades(m0, m.1.take(k));
            &&& mk.contains_key((#[trigger] m.1[k]).resting.order_id)
            &&& mk[m.1[k].resting.order_id].trader_id == m.1[k].resting.trader_id
        } by {
            if k == 0 {
                assert(m.1.take(0) =~= Seq::<crate::orderbook::Trade>::empty());
            } else {
                assert(m.1[k] == rest.1[k - 1]);
                assert(m.1.take(k)[0] == tr);
                assert(m.1.take(k).drop_first() =~= rest.1.take(k - 1));
            }
        }
    }
}


/// One order between two parts of a sequence: the ids are distinct exactly when
/// those of the two parts are and the order's id is in neither, and then the map
/// is that of the two parts with the order added.
pub proof fn lemma_insert_middle(x: Seq<Order>, o: Order, y: Seq<Order>)
    ensures
        ids_distinct(x + seq![o] + y) <==> (ids_distinct(x + y) && !has_order_id(x + y, o.order_id)),
        !has_order_id(x + y, o.order_id) ==> orders_map(x + seq![o] + y) == orders_map(x + y).insert(o.order_id, o),
{
    let big = x + seq![o] + y;
    let small = x + y;
    let nx = x.len() as int;
    // Position `k` of the short sequence is position `up(k)` of the long one.
    let up = |k: int| if k < nx { k } else { k + 1 };
    assert forall|k: int| 0 <= k < small.len() implies 0 <= #[trigger] up(k) < big.len() && big[up(k)] == small[k] && up(k) != nx by {
        if k < nx {
            assert(big[k] == x[k] && small[k] == x[k]);
        } else {
            assert(big[k + 1] == y[k - nx] && small[k] == y[k - nx]);
        }
    }
    assert(big[nx] == o);
    if ids_distinct(big) {
        assert forall|i: int, j: int| 0 <= i < small.len() && 0 <= j < small.len() && i != j implies (#[trigger] small[i]).order_id != (#[trigger] small[j]).order_id by {
            assert(big[up(i)] == small[i] && big[up(j)] == small[j]);
        }
        if has_order_id(small, o.order_id) {
            let k = choose|k: int| 0 <= k < small.len() && (#[trigger] small[k]).order_id == o.order_id;
            assert(big[up(k)] == small[k]);
        }
    }
    if ids_distinct(small) && !has_order_id(small, o.order_id) {
        // Position `k` of the long sequence, other than the new order's, is a position
        // of the short one.
        let down = |k: int| if k < nx { k } else { k - 1 };
        assert forall|k: int| 0 <= k < big.len() && k != nx implies 0 <= #[trigger] down(k) < small.len() && small[down(k)] == big[k] by {
            if k < nx {
                assert(big[k] == x[k] && small[k] == x[k]);
            } else {
                assert(big[k] == y[k - nx - 1] && small[k - 1] == y[k - nx - 1]);
            }
        }
        assert forall|i: int, j: int| 0 <= i < big.len() && 0 <= j < big.len() && i != j implies (#[trigger] big[i]).order_id != (#[trigger] big[j]).order_id by {
            if i != nx && j != nx {
                assert(small[down(i)] == big[i] && small[down(j)] == big[j]);
            } else if i == nx {
                assert(small[down(j)] == big[j]);
            } else {
                assert(small[down(i)] == big[i]);
            }
        }
    }
    if !has_order_id(small, o.order_id) {
        let one = seq![o];
        lemma_orders_map_concat(x + one, y);
        lemma_orders_map_concat(x, one);
        lemma_orders_map_concat(x, y);
        assert(one.drop_last() =~= Seq::<Order>::empty());
        assert(one.last() == o);
        assert(orders_map(one.drop_last()) == Map::<OrderID, Order>::empty());
        assert(orders_map(one) =~= Map::<OrderID, Order>::empty().insert(o.order_id, o));
        lemma_orders_map_dom(y);
        assert(!orders_map(y).contains_key(o.order_id)) by {
            if has_order_id(y, o.order_id) {
                let k = choose|k: int| 0 <= k < y.len() && (#[trigger] y[k]).order_id == o.order_id;
                assert(small[nx + k] == y[k]);
            }
        }
        assert(orders_map(big) =~= orders_map(small).insert(o.order_id, o));
    }
}

/// Resting an order on a side with increasing prices puts it between two parts of
/// the side's orders: those at its price or better before it, the rest after it.
pub proof fn lemma_rest_orders(side: Seq<LevelView>, o: Order) -> (pq: (Seq<Order>, Seq<Order>))
    requires
        forall|i: int, j: int| 0 <= i < j < side.len() ==> side[i].0 < side[j].0,
    ensures
        side_orders(side) == pq.0 + pq.1,
        side_orders(crate::orderbook::rest_order(side, o)) == pq.0 + seq![o] + pq.1,
{
    crate::orderbook::lemma_level_index(side, o.price);
    let k = crate::orderbook::insert_position(side, o.price);
    if k < side.len() && side[k].0 == o.price {
        lemma_rest_append_orders(side, o, k)
    } else {
        lemma_rest_new_level_orders(side, o, k)
    }
}

/// `lemma_rest_orders` when the order joins level `k`.
#[verifier::spinoff_prover]
proof fn lemma_rest_append_orders(side: Seq<LevelView>, o: Order, k: int) -> (pq: (Seq<Order>, Seq<Order>))
    requires
        0 <= k < side.len(),
        side[k].0 == o.price,
        crate::orderbook::insert_position(side, o.price) == k,
    ensures
        side_orders(side) == pq.0 + pq.1,
        side_orders(crate::orderbook::rest_order(side, o)) == pq.0 + seq![o] + pq.1,
{
    let r = side.update(k, (o.price, side[k].1.push(o)));
    assert(crate::orderbook::rest_order(side, o) == r);
    let pre = side_orders(side.take(k));
    let post = side_orders(side.skip(k + 1));
    lemma_side_orders_split(side, k);
    lemma_side_orders_split(r, k);
    assert(r.take(k) =~= side.take(k));
    assert(r.skip(k + 1) =~= side.skip(k + 1));
    assert(side[k].1.push(o) =~= side[k].1 + seq![o]);
    assert(side_orders(side) =~= (pre + side[k].1) + post);
    assert(side_orders(r) =~= (pre + side[k].1) + seq![o] + post);
    (pre + side[k].1, post)
}

/// `lemma_rest_orders` when the order opens a new level at `k`.
#[verifier::spinoff_prover]
proof fn lemma_rest_new_level_orders(side: Seq<LevelView>, o: Order, k: int) -> (pq: (Seq<Order>, Seq<Order>))
    requires
        0 <= k <= side.len(),
        crate::orderbook::insert_position(side, o.price) == k,
        !(k < side.len() && side[k].0 == o.price),
    ensures
        side_orders(side) == pq.0 + pq.1,
        side_orders(crate::orderbook::rest_order(side, o)) == pq.0 + seq![o] + pq.1,
{
    let lv: LevelView = (o.price, seq![o]);
    let r = side.insert(k, lv);
    assert(crate::orderbook::rest_order(side, o) == r);
    side.insert_ensures(k, lv);
    let pre = side_orders(side.take(k));
    let post = side_orders(side.skip(k));
    assert(side =~= side.take(k) + side.skip(k));
    lemma_side_orders_concat(side.take(k), side.skip(k));
    lemma_side_orders_split(r, k);
    assert(r.take(k) =~= side.take(k));
    assert(r.skip(k + 1) =~= side.skip(k));
    (pre, post)
}

/// Cancelling an order on a side takes it out from between two parts of the
/// side's orders, and leaves the two parts.
pub proof fn lemma_cancel_orders(side: Seq<LevelView>, price: crate::orderbook::Price, id: OrderID) -> (pq: (Seq<Order>, Seq<Order>))
    requires
        crate::orderbook::cancel_from_side(side, price, id) is Some,
    ensures
        side_orders(side) == pq.0 + seq![crate::orderbook::cancel_from_side(side, price, id).unwrap().1] + pq.1,
        side_orders(crate::orderbook::cancel_from_side(side, price, id).unwrap().0) == pq.0 + pq.1,
{
    crate::config::lemma_first_where_some(side.len() as int, crate::orderbook::priced_at(side, price));
    let k = crate::orderbook::level_index(side, price)->0;
    let q = side[k].1;
    crate::config::lemma_first_where_some(q.len() as int, crate::orderbook::has_id(q, id));
    let j = crate::orderbook::order_position(q, id)->0;
    let q2 = q.remove(j);
    let pre = side_orders(side.take(k));
    let post = side_orders(side.skip(k + 1));
    lemma_side_orders_split(side, k);
    assert(q =~= q.take(j) + seq![q[j]] + q.skip(j + 1));
    assert(q2 =~= q.take(j) + q.skip(j + 1));
    let ns = crate::orderbook::cancel_from_side(side, price, id).unwrap().0;
    if q2.len() > 0 {
        assert(ns == side.update(k, (side[k].0, q2)));
        lemma_side_orders_split(ns, k);
        assert(ns.take(k) =~= side.take(k));
        assert(ns.skip(k + 1) =~= side.skip(k + 1));
    } else {
        assert(ns == side.remove(k));
        assert(ns =~= side.take(k) + side.skip(k + 1));
        lemma_side_orders_concat(side.take(k), side.skip(k + 1));
        assert(q.take(j) =~= Seq::<Order>::empty());
        assert(q.skip(j + 1) =~= Seq::<Order>::empty());
    }
    assert(side_orders(side) =~= (pre + q.take(j)) + seq![q[j]] + (q.skip(j + 1) + post));
    assert(side_orders(ns) =~= (pre + q.take(j)) + (q.skip(j + 1) + post));
    (pre + q.take(j), q.skip(j + 1) + post)
}

/// Reducing an entry that is not there changes nothing.
pub proof fn lemma_reduce_absent(m: Map<OrderID, Order>, id: OrderID, t: u64)
    requires
        !m.contains_key(id),
    ensures
        reduce_active(m, id, t) == m,
{
}

/// Reducing another trader's entry leaves trader `u`'s entries as they were.
pub proof fn lemma_owned_reduce_other(m: Map<OrderID, Order>, id: OrderID, t: u64, u: TraderId)
    requires
        m.contains_key(id) ==> m[id].trader_id != u,
    ensures
        owned(reduce_active(m, id, t), u) == owned(m, u),
{
    assert(owned(reduce_active(m, id, t), u) =~= owned(m, u));
}

/// Trader `u`'s entries of a map with no entry `id` have no entry `id`.
pub proof fn lemma_owned_absent(m: Map<OrderID, Order>, id: OrderID, u: TraderId)
    requires
        !m.contains_key(id),
    ensures
        !owned(m, u).contains_key(id),
{
}

/// Settling one trade changes each account's active orders as the trade changes
/// the resting order's entry: the taker's own order is in no account yet.
#[verifier::spinoff_prover]
pub proof fn lemma_trade_settled_active(accts: Seq<AccountView>, m: Map<OrderID, Order>, tr: crate::orderbook::Trade, tk: Taker, enforcer: TraderId)
    requires
        accts.len() <= 65536,
        forall|u: int| 0 <= u < accts.len() ==> (#[trigger] accts[u]).active_orders == owned(m, TraderId(u as u16)),
        !m.contains_key(tk.order_id),
        (tk.trader.0 as int) < accts.len(),
        (tr.resting.trader_id.0 as int) < accts.len(),
        m.contains_key(tr.resting.order_id),
        m[tr.resting.order_id].trader_id == tr.resting.trader_id,
    ensures
        trade_settled(accts, tr, tk, enforcer).len() == accts.len(),
        forall|u: int| 0 <= u < accts.len() ==> (#[trigger] trade_settled(accts, tr, tk, enforcer)[u]).active_orders
            == owned(reduce_active(m, tr.resting.order_id, tr.amount), TraderId(u as u16)),
{
    let f = crate::exchange::trade_fill(tr, tk);
    let buy_id = crate::exchange::buy_order_id(tr, tk);
    let sell_id = crate::exchange::sell_order_id(tr, tk);
    let b = f.buy_trader_id.0 as int;
    let x = f.sell_trader_id.0 as int;
    let rid = tr.resting.order_id;
    let m2 = reduce_active(m, rid, tr.amount);
    let a1 = accts.update(b, crate::exchange::buyer_after(accts[b], f, buy_id, f.buy_trader_id == enforcer));
    let a2 = a1.update(x, crate::exchange::seller_after(a1[x], f, sell_id, f.sell_trader_id == enforcer));
    assert(crate::exchange::fill_applied(accts, f, buy_id, sell_id, enforcer) == a2);
    let r = trade_settled(accts, tr, tk, enforcer);
    assert(r.len() == a2.len());
    assert forall|u: int| 0 <= u < accts.len() implies (#[trigger] r[u]).active_orders == a2[u].active_orders by {}
    // The resting order's owner gets the reduced entry; every account's entry for
    // the taker's own order stays absent.
    lemma_owned_reduce(m, rid, tr.amount, tr.resting.trader_id);
    assert forall|u: int| 0 <= u < accts.len() implies !(#[trigger] accts[u]).active_orders.contains_key(tk.order_id) by {
        lemma_owned_absent(m, tk.order_id, TraderId(u as u16));
    }
    if tk.side == crate::orderbook::OrderType::Buy {
        assert(buy_id == tk.order_id && sell_id == rid);
        assert(x == tr.resting.trader_id.0 as int);
        assert(TraderId(x as u16) == tr.resting.trader_id);
        lemma_reduce_absent(accts[b].active_orders, tk.order_id, tr.amount);
        assert(a1[b].active_orders == accts[b].active_orders);
        assert forall|u: int| 0 <= u < accts.len() implies (#[trigger] a2[u]).active_orders == owned(m2, TraderId(u as u16)) by {
            assert(a1[u].active_orders == accts[u].active_orders);
            if u != x {
                lemma_owned_reduce_other(m, rid, tr.amount, TraderId(u as u16));
            }
        }
    } else {
        assert(buy_id == rid && sell_id == tk.order_id);
        assert(b == tr.resting.trader_id.0 as int);
        assert(TraderId(b as u16) == tr.resting.trader_id);
        assert forall|u: int| 0 <= u < accts.len() implies (#[trigger] a1[u]).active_orders == owned(m2, TraderId(u as u16)) by {
            if u != b {
                lemma_owned_reduce_other(m, rid, tr.amount, TraderId(u as u16));
            }
        }
        assert(!m2.contains_key(tk.order_id));
        lemma_owned_absent(m2, tk.order_id, TraderId(x as u16));
        lemma_reduce_absent(a1[x].active_orders, tk.order_id, tr.amount);
    }
}

/// Settling a list of trades changes each account's active orders as the trades,
/// in order, change the resting orders' entries.
pub proof fn lemma_trades_settled_active(accts: Seq<AccountView>, m0: Map<OrderID, Order>, trs: Seq<crate::orderbook::Trade>, tk: Taker, enforcer: TraderId)
    requires
        accts.len() <= 65536,
        forall|u: int| 0 <= u < accts.len() ==> (#[trigger] accts[u]).active_orders == owned(m0, TraderId(u as u16)),
        !m0.contains_key(tk.order_id),
        (tk.trader.0 as int) < accts.len(),
        forall|id: OrderID| #[trigger] m0.contains_key(id) ==> (m0[id].trader_id.0 as int) < accts.len(),
        forall|k: int| 0 <= k < trs.len() ==> {
            let mk = reduce_trades(m0, trs.take(k));
            &&& mk.contains_key((#[trigger] trs[k]).resting.order_id)
            &&& mk[trs[k].resting.order_id].trader_id == trs[k].resting.trader_id
        },
    ensures
        trades_settled(accts, trs, tk, enforcer).len() == accts.len(),
        forall|u: int| 0 <= u < accts.len() ==> (#[trigger] trades_settled(accts, trs, tk, enforcer)[u]).active_orders
            == owned(reduce_trades(m0, trs), TraderId(u as u16)),
    decreases trs.len(),
{
    if trs.len() == 0 {
        assert(reduce_trades(m0, trs) == m0);
    } else {
        let init = trs.drop_last();
        let k = init.len() as int;
        assert forall|j: int| 0 <= j < init.len() implies {
            let mj = reduce_trades(m0, init.take(j));
            &&& mj.contains_key((#[trigger] init[j]).resting.order_id)
            &&& mj[init[j].resting.order_id].trader_id == init[j].resting.trader_id
        } by {
            assert(init.take(j) =~= trs.take(j));
            assert(init[j] == trs[j]);
        }
        lemma_trades_settled_active(accts, m0, init, tk, enforcer);
        let prev = trades_settled(accts, init, tk, enforcer);
        let mprev = reduce_trades(m0, init);
        let tr = trs.last();
        assert(trs.take(k) =~= init);
        assert(trs[k] == tr);
        assert(mprev.contains_key(tr.resting.order_id));
        lemma_reduce_trades_dom(m0, init);
        assert(m0.contains_key(tr.resting.order_id));
        assert(!mprev.contains_key(tk.order_id));
        lemma_trade_settled_active(prev, mprev, tr, tk, enforcer);
        lemma_reduce_trades_last(m0, trs);
    }
}

/// The trades of a match, each against an order that is, when it trades, in the map
/// under its id and owned by its trader, the map being reduced by the trades before.
pub open spec fn trades_found(m0: Map<OrderID, Order>, trs: Seq<crate::orderbook::Trade>) -> bool {
    forall|k: int| 0 <= k < trs.len() ==> {
        let mk = reduce_trades(m0, trs.take(k));
        &&& mk.contains_key((#[trigger] trs[k]).resting.order_id)
        &&& mk[trs[k].resting.order_id].trader_id == trs[k].resting.trader_id
    }
}

/// The map of the resting orders after an order is placed in book `b0` (which
/// becomes `b1`), with orders `x` before the book and `y` after it: the matched
/// orders are reduced by the trades, in order, and the new order, when some of it
/// rests, is added under its fresh id.
pub open spec fn placed_map(m0: Map<OrderID, Order>, b0: OrderBook, req: crate::messages::OrderRequest, oid: OrderID) -> Map<OrderID, Order> {
    let m = b0.match_order(req);
    let mid = reduce_trades(m0, m.1);
    if m.2 > 0 {
        mid.insert(oid, crate::orderbook::resting_order(req, oid, m.2))
    } else {
        mid
    }
}

/// Adding an order with a fresh id at some place of a sequence whose map lacks
/// that id keeps the ids distinct and adds the order to the map.
proof fn lemma_add_fresh(x: Seq<Order>, o: Order, y: Seq<Order>)
    requires
        ids_distinct(x + y),
        !orders_map(x + y).contains_key(o.order_id),
    ensures
        ids_distinct(x + seq![o] + y),
        orders_map(x + seq![o] + y) == orders_map(x + y).insert(o.order_id, o),
{
    lemma_orders_map_dom(x + y);
    lemma_insert_middle(x, o, y);
}

/// Placing a buy order in a book, between orders `x` and `y`.
#[verifier::spinoff_prover]
proof fn lemma_place_buy_orders(x: Seq<Order>, b0: OrderBook, b1: OrderBook, y: Seq<Order>, req: crate::messages::OrderRequest, oid: OrderID)
    requires
        b0.wf(),
        req.order_type == crate::orderbook::OrderType::Buy,
        ids_distinct(x + book_orders(b0) + y),
        !orders_map(x + book_orders(b0) + y).contains_key(oid),
        b1.asks() == b0.match_order(req).0,
        b1.bids() == if b0.match_order(req).2 > 0 {
            crate::orderbook::rest_order(b0.bids(), crate::orderbook::resting_order(req, oid, b0.match_order(req).2))
        } else {
            b0.bids()
        },
    ensures
        ids_distinct(x + book_orders(b1) + y),
        orders_map(x + book_orders(b1) + y) == placed_map(orders_map(x + book_orders(b0) + y), b0, req, oid),
        trades_found(orders_map(x + book_orders(b0) + y), b0.match_order(req).1),
{
    let m = b0.match_order(req);
    let sb = side_orders(b0.bids());
    let sa = side_orders(b0.asks());
    let sm = side_orders(m.0);
    let full0 = x + book_orders(b0) + y;
    let m0 = orders_map(full0);
    assert(full0 =~= (x + sb) + sa + y);
    lemma_match_asks_map(x + sb, b0.asks(), y, req.price, req.amount, b0.symbol);
    let mid = (x + sb) + sm + y;
    assert(orders_map(mid) == reduce_trades(m0, m.1));
    lemma_reduce_trades_dom(m0, m.1);
    if m.2 > 0 {
        let r = crate::orderbook::resting_order(req, oid, m.2);
        let pq = lemma_rest_orders(b0.bids(), r);
        assert(mid =~= (x + pq.0) + (pq.1 + sm + y));
        assert(x + book_orders(b1) + y =~= (x + pq.0) + seq![r] + (pq.1 + sm + y));
        lemma_add_fresh(x + pq.0, r, pq.1 + sm + y);
    } else {
        assert(x + book_orders(b1) + y =~= mid);
    }
}

/// Placing a sell order in a book, between orders `x` and `y`.
#[verifier::spinoff_prover]
#[verifier::rlimit(40)]
proof fn lemma_place_sell_orders(x: Seq<Order>, b0: OrderBook, b1: OrderBook, y: Seq<Order>, req: crate::messages::OrderRequest, oid: OrderID)
    requires
        b0.wf(),
        req.order_type == crate::orderbook::OrderType::Sell,
        ids_distinct(x + book_orders(b0) + y),
        !orders_map(x + book_orders(b0) + y).contains_key(oid),
        b1.bids() == b0.match_order(req).0,
        b1.asks() == if b0.match_order(req).2 > 0 {
            crate::orderbook::rest_order(b0.asks(), crate::orderbook::resting_order(req, oid, b0.match_order(req).2))
        } else {
            b0.asks()
        },
    ensures
        ids_distinct(x + book_orders(b1) + y),
        orders_map(x + book_orders(b1) + y) == placed_map(orders_map(x + book_orders(b0) + y), b0, req, oid),
        trades_found(orders_map(x + book_orders(b0) + y), b0.match_order(req).1),
{
    let m = b0.match_order(req);
    let sb = side_orders(b0.bids());
    let sa = side_orders(b0.asks());
    let sm = side_orders(m.0);
    let full0 = x + book_orders(b0) + y;
    let m0 = orders_map(full0);
    assert(full0 =~= x + sb + (sa + y));
    lemma_match_bids_map(x, b0.bids(), sa + y, req.price, req.amount, b0.symbol);
    let mid = x + sm + (sa + y);
    assert(orders_map(mid) == reduce_trades(m0, m.1));
    lemma_reduce_trades_dom(m0, m.1);
    if m.2 > 0 {
        let r = crate::orderbook::resting_order(req, oid, m.2);
        let pq = lemma_rest_orders(b0.asks(), r);
        assert(mid =~= (x + sm + pq.0) + (pq.1 + y));
        assert(x + book_orders(b1) + y =~= (x + sm + pq.0) + seq![r] + (pq.1 + y));
        lemma_add_fresh(x + sm + pq.0, r, pq.1 + y);
    } else {
        assert(x + book_orders(b1) + y =~= mid);
    }
}

/// Every trader's active orders are exactly its orders resting on the books, with
/// the shares still open; no two resting orders share an id, and every resting
/// order has an id below `counter` (the id the next order gets) and belongs to one
/// of the traders.
pub open spec fn active_consistent(books: Seq<OrderBook>, accts: Seq<AccountView>, counter: int) -> bool {
    let all = all_orders(books);
    let m = orders_map(all);
    &&& ids_distinct(all)
    &&& forall|id: OrderID| #[trigger] m.contains_key(id) ==> (id as int) < counter && (m[id].trader_id.0 as int) < accts.len()
    &&& forall|u: int| 0 <= u < accts.len() ==> (#[trigger] accts[u]).active_orders == owned(m, TraderId(u as u16))
}

/// The orders of all books around book `s`, before and after it is replaced.
pub proof fn lemma_books_update(books: Seq<OrderBook>, s: int, b1: OrderBook)
    requires
        0 <= s < books.len(),
    ensures
        all_orders(books) == all_orders(books.take(s)) + book_orders(books[s]) + all_orders(books.skip(s + 1)),
        all_orders(books.update(s, b1)) == all_orders(books.take(s)) + book_orders(b1) + all_orders(books.skip(s + 1)),
{
    let nb = books.update(s, b1);
    lemma_all_orders_split(books, s);
    lemma_all_orders_split(nb, s);
    assert(nb.take(s) =~= books.take(s));
    assert(nb.skip(s + 1) =~= books.skip(s + 1));
}

/// Adding an order under a fresh id adds it to its trader's entries only.
pub proof fn lemma_owned_insert(m: Map<OrderID, Order>, o: Order, u: TraderId)
    requires
        !m.contains_key(o.order_id),
    ensures
        owned(m.insert(o.order_id, o), u) == if o.trader_id == u {
            owned(m, u).insert(o.order_id, o)
        } else {
            owned(m, u)
        },
{
    if o.trader_id == u {
        assert(owned(m.insert(o.order_id, o), u) =~= owned(m, u).insert(o.order_id, o));
    } else {
        assert(owned(m.insert(o.order_id, o), u) =~= owned(m, u));
    }
}

/// Placing an order keeps every trader's active orders equal to its resting
/// orders: the orders it traded against shrink or leave both the book and their
/// owners' active orders, and what is left of it rests and joins its trader's
/// active orders under the id it was given, which no resting order has.
#[verifier::spinoff_prover]
#[verifier::rlimit(40)]
pub proof fn law_order_keeps_active(
    cfg: &crate::config::ExchangeConfig,
    d0: &crate::exchange::GlobalOrderBookState,
    a0: &crate::exchange::GlobalAccountState,
    d1: &crate::exchange::GlobalOrderBookState,
    a1: &crate::exchange::GlobalAccountState,
    c0: usize,
    c1: usize,
    req: crate::messages::OrderRequest,
    time: u64,
    resp: crate::messages::OrderPlaceResponse,
    notices: Seq<crate::messages::Notification>,
)
    requires
        crate::exchange::exchange_wf(cfg, d0, a0),
        (req.symbol.0 as int) < cfg.num_tickers(),
        (req.trader_id.0 as int) < cfg.num_traders(),
        active_consistent(d0.books@, crate::exchange::accounts_view(a0.accounts@), c0 as int),
        crate::exchange::order_outcome(cfg, d0, a0, d1, a1, c0, c1, req, time, resp, notices),
    ensures
        active_consistent(d1.books@, crate::exchange::accounts_view(a1.accounts@), c1 as int),
{
    if crate::exchange::order_error(cfg, d0, a0, req) is None {
        let n = cfg.num_traders();
        let enforcer = cfg.price_enforcer_id;
        let s = req.symbol.0 as int;
        let books0 = d0.books@;
        let books1 = d1.books@;
        let b0 = books0[s];
        let b1 = books1[s];
        let m = b0.match_order(req);
        assert(books1 =~= books0.update(s, b1));
        lemma_books_update(books0, s, b1);
        let x = all_orders(books0.take(s));
        let y = all_orders(books0.skip(s + 1));
        let m0 = orders_map(all_orders(books0));
        assert(crate::exchange::book_ok(b0, s, n));
        assert(!m0.contains_key(c0));
        if req.order_type == crate::orderbook::OrderType::Buy {
            lemma_place_buy_orders(x, b0, b1, y, req, c0);
        } else {
            lemma_place_sell_orders(x, b0, b1, y, req, c0);
        }
        let m1 = orders_map(all_orders(books1));
        let mid = reduce_trades(m0, m.1);
        assert(m1 == placed_map(m0, b0, req, c0));
        lemma_reduce_trades_dom(m0, m.1);
        let av0 = crate::exchange::accounts_view(a0.accounts@);
        let ar = crate::exchange::reserved_accounts(av0, req, enforcer);
        assert(ar.len() == av0.len());
        assert forall|u: int| 0 <= u < ar.len() implies (#[trigger] ar[u]).active_orders == owned(m0, TraderId(u as u16)) by {
            assert(ar[u].active_orders == av0[u].active_orders);
        }
        let tk = Taker { trader: req.trader_id, order_id: c0, side: req.order_type, limit: req.price, symbol: req.symbol, time };
        lemma_trades_settled_active(ar, m0, m.1, tk, enforcer);
        let settled = trades_settled(ar, m.1, tk, enforcer);
        let av1 = crate::exchange::accounts_view(a1.accounts@);
        if m.2 > 0 {
            let r = crate::orderbook::resting_order(req, c0, m.2);
            assert(av1 == crate::exchange::with_active(settled, req.trader_id, r));
            assert forall|u: int| 0 <= u < av1.len() implies (#[trigger] av1[u]).active_orders == owned(m1, TraderId(u as u16)) by {
                lemma_owned_insert(mid, r, TraderId(u as u16));
            }
        }
    }
}

/// Cancelling order `id` at `price` on side `ty` of book `b0` (which becomes `b1`),
/// with orders `x` before the book and `y` after it, takes exactly the cancelled
/// order out of the map.
#[verifier::spinoff_prover]
proof fn lemma_cancel_book_orders(
    x: Seq<Order>,
    b0: OrderBook,
    b1: OrderBook,
    y: Seq<Order>,
    ty: crate::orderbook::OrderType,
    price: crate::orderbook::Price,
    id: OrderID,
)
    requires
        ids_distinct(x + book_orders(b0) + y),
        crate::orderbook::cancel_from_side(b0.own_side(ty), price, id) is Some,
        b1.own_side(ty) == crate::orderbook::cancel_from_side(b0.own_side(ty), price, id).unwrap().0,
        b1.other_side(ty) == b0.other_side(ty),
    ensures
        ({
            let o = crate::orderbook::cancel_from_side(b0.own_side(ty), price, id).unwrap().1;
            let m0 = orders_map(x + book_orders(b0) + y);
            &&& ids_distinct(x + book_orders(b1) + y)
            &&& m0.contains_key(o.order_id)
            &&& m0[o.order_id] == o
            &&& orders_map(x + book_orders(b1) + y) == m0.remove(o.order_id)
        }),
{
    let o = crate::orderbook::cancel_from_side(b0.own_side(ty), price, id).unwrap().1;
    let pq = lemma_cancel_orders(b0.own_side(ty), price, id);
    let sb = side_orders(b0.bids());
    let sa = side_orders(b0.asks());
    let big = x + book_orders(b0) + y;
    let small = x + book_orders(b1) + y;
    let (xx, yy) = if ty == crate::orderbook::OrderType::Buy {
        (x + pq.0, pq.1 + sa + y)
    } else {
        (x + sb + pq.0, pq.1 + y)
    };
    assert(big =~= xx + seq![o] + yy);
    assert(small =~= xx + yy);
    lemma_insert_middle(xx, o, yy);
    lemma_orders_map_dom(small);
    assert(orders_map(big) == orders_map(small).insert(o.order_id, o));
    assert(orders_map(small) =~= orders_map(big).remove(o.order_id));
}

/// Removing an order takes it from its trader's entries only.
pub proof fn lemma_owned_remove(m: Map<OrderID, Order>, id: OrderID, u: TraderId)
    requires
        m.contains_key(id),
    ensures
        owned(m.remove(id), u) == if m[id].trader_id == u {
            owned(m, u).remove(id)
        } else {
            owned(m, u)
        },
{
    if m[id].trader_id == u {
        assert(owned(m.remove(id), u) =~= owned(m, u).remove(id));
    } else {
        assert(owned(m.remove(id), u) =~= owned(m, u));
    }
}

/// Cancelling keeps every trader's active orders equal to its resting orders: the
/// cancelled order leaves both the book and its owner's active orders; a refused
/// cancel changes neither.
#[verifier::spinoff_prover]
pub proof fn law_cancel_keeps_active(
    cfg: &crate::config::ExchangeConfig,
    d0: &crate::exchange::GlobalOrderBookState,
    a0: &crate::exchange::GlobalAccountState,
    d1: &crate::exchange::GlobalOrderBookState,
    a1: &crate::exchange::GlobalAccountState,
    counter: usize,
    req: crate::messages::CancelRequest,
    resp: crate::messages::OrderCancelResponse,
    notices: Seq<crate::messages::Notification>,
)
    requires
        crate::exchange::exchange_wf(cfg, d0, a0),
        (req.symbol.0 as int) < cfg.num_tickers(),
        active_consistent(d0.books@, crate::exchange::accounts_view(a0.accounts@), counter as int),
        crate::exchange::cancel_outcome(cfg, d0, a0, d1, a1, req, resp, notices),
    ensures
        active_consistent(d1.books@, crate::exchange::accounts_view(a1.accounts@), counter as int),
{
    let s = req.symbol.0 as int;
    let books0 = d0.books@;
    let books1 = d1.books@;
    let b0 = books0[s];
    let b1 = books1[s];
    lemma_books_update(books0, s, b1);
    let x = all_orders(books0.take(s));
    let y = all_orders(books0.skip(s + 1));
    let m0 = orders_map(all_orders(books0));
    let av0 = crate::exchange::accounts_view(a0.accounts@);
    let av1 = crate::exchange::accounts_view(a1.accounts@);
    match crate::orderbook::cancel_from_side(b0.own_side(req.side), req.price, req.order_id) {
        None => {
            assert(book_orders(b1) == book_orders(b0));
            assert(all_orders(books1) == all_orders(books0));
            assert(av1 == av0);
        },
        Some((ns, o)) => {
            lemma_cancel_book_orders(x, b0, b1, y, req.side, req.price, req.order_id);
            let m1 = orders_map(all_orders(books1));
            assert(m1 == m0.remove(o.order_id));
            assert(av1 == crate::exchange::cancel_applied(av0, o));
            assert(m0[o.order_id].trader_id == o.trader_id);
            assert forall|u: int| 0 <= u < av1.len() implies (#[trigger] av1[u]).active_orders == owned(m1, TraderId(u as u16)) by {
                lemma_owned_remove(m0, o.order_id, TraderId(u as u16));
                assert(av0[u].active_orders == owned(m0, TraderId(u as u16)));
            }
        },
    }
}

/// Books with no orders on either side hold no orders.
pub proof fn lemma_empty_books(books: Seq<OrderBook>)
    requires
        forall|s: int| 0 <= s < books.len() ==> (#[trigger] books[s]).bids() == Seq::<LevelView>::empty() && books[s].asks() == Seq::<LevelView>::empty(),
    ensures
        all_orders(books) == Seq::<Order>::empty(),
    decreases books.len(),
{
    if books.len() > 0 {
        let init = books.drop_last();
        assert forall|s: int| 0 <= s < init.len() implies (#[trigger] init[s]).bids() == Seq::<LevelView>::empty() && init[s].asks() == Seq::<LevelView>::empty() by {
            assert(init[s] == books[s]);
        }
        lemma_empty_books(init);
        let b = books.last();
        assert(books[books.len() - 1] == b);
        assert(side_orders(b.bids()) == Seq::<Order>::empty());
        assert(side_orders(b.asks()) == Seq::<Order>::empty());
        assert(book_orders(b) =~= Seq::<Order>::empty());
        assert(all_orders(books) =~= Seq::<Order>::empty());
    }
}

/// With empty books and no active orders anywhere, every trader's active orders
/// are its resting orders, whatever the counter.
pub proof fn lemma_fresh_consistent(books: Seq<OrderBook>, accts: Seq<AccountView>, counter: int)
    requires
        forall|s: int| 0 <= s < books.len() ==> (#[trigger] books[s]).bids() == Seq::<LevelView>::empty() && books[s].asks() == Seq::<LevelView>::empty(),
        forall|u: int| 0 <= u < accts.len() ==> (#[trigger] accts[u]).active_orders == Map::<OrderID, Order>::empty(),
    ensures
        active_consistent(books, accts, counter),
{
    lemma_empty_books(books);
    let m = orders_map(all_orders(books));
    assert(m == Map::<OrderID, Order>::empty());
    assert forall|u: int| 0 <= u < accts.len() implies (#[trigger] accts[u]).active_orders == owned(m, TraderId(u as u16)) by {
        assert(owned(m, TraderId(u as u16)) =~= Map::<OrderID, Order>::empty());
    }
}

/// A match that makes no trade leaves the opposite side as it was and all of the
/// order to rest.
pub proof fn lemma_no_trades(b: OrderBook, req: crate::messages::OrderRequest)
    requires
        b.match_order(req).1.len() == 0,
    ensures
        b.match_order(req).0 == b.other_side(req.order_type),
        b.match_order(req).2 == req.amount,
{
}

/// When every resting order's id is below `c`, no order with id `c` rests on
/// either side of any book.
pub proof fn lemma_fresh_id_absent(books: Seq<OrderBook>, s: int, c: OrderID)
    requires
        0 <= s < books.len(),
        forall|id: OrderID| #[trigger] orders_map(all_orders(books)).contains_key(id) ==> id < c,
    ensures
        crate::orderbook::id_absent(books[s].bids(), c),
        crate::orderbook::id_absent(books[s].asks(), c),
{
    let all = all_orders(books);
    let b = books[s];
    let x = all_orders(books.take(s));
    let y = all_orders(books.skip(s + 1));
    let sb = side_orders(b.bids());
    let sa = side_orders(b.asks());
    lemma_all_orders_split(books, s);
    lemma_orders_map_dom(all);
    assert forall|i: int, j: int| 0 <= i < b.bids().len() && 0 <= j < b.bids()[i].1.len() implies (#[trigger] b.bids()[i].1[j]).order_id != c by {
        lemma_side_orders_split(b.bids(), i);
        let pre = x + side_orders(b.bids().take(i));
        let q = b.bids()[i].1;
        assert(all =~= pre + q + (side_orders(b.bids().skip(i + 1)) + sa + y));
        let k = pre.len() + j;
        assert(all[k] == q[j]);
        assert(has_order_id(all, all[k].order_id));
        assert(orders_map(all).contains_key(all[k].order_id));
    }
    assert forall|i: int, j: int| 0 <= i < b.asks().len() && 0 <= j < b.asks()[i].1.len() implies (#[trigger] b.asks()[i].1[j]).order_id != c by {
        lemma_side_orders_split(b.asks(), i);
        let pre = x + sb + side_orders(b.asks().take(i));
        let q = b.asks()[i].1;
        assert(all =~= pre + q + (side_orders(b.asks().skip(i + 1)) + y));
        let k = pre.len() + j;
        assert(all[k] == q[j]);
        assert(has_order_id(all, all[k].order_id));
        assert(orders_map(all).contains_key(all[k].order_id));
    }
}

/// Placing an order that trades nothing and then cancelling it, by the id it was
/// given, at its price and side, gives the trader back the order as placed and
/// leaves every book and every account as it was before. (The price enforcer sets
/// nothing aside when it places an order, so a cancel gives it cash or shares it
/// never set aside: the law is about every other trader.)
#[verifier::spinoff_prover]
#[verifier::rlimit(40)]
pub proof fn law_place_then_cancel(
    cfg: &crate::config::ExchangeConfig,
    d0: &crate::exchange::GlobalOrderBookState,
    a0: &crate::exchange::GlobalAccountState,
    d1: &crate::exchange::GlobalOrderBookState,
    a1: &crate::exchange::GlobalAccountState,
    d2: &crate::exchange::GlobalOrderBookState,
    a2: &crate::exchange::GlobalAccountState,
    c0: usize,
    c1: usize,
    req: crate::messages::OrderRequest,
    time: u64,
    resp1: crate::messages::OrderPlaceResponse,
    notices1: Seq<crate::messages::Notification>,
    creq: crate::messages::CancelRequest,
    resp2: crate::messages::OrderCancelResponse,
    notices2: Seq<crate::messages::Notification>,
)
    requires
        crate::exchange::exchange_wf(cfg, d0, a0),
        (req.symbol.0 as int) < cfg.num_tickers(),
        (req.trader_id.0 as int) < cfg.num_traders(),
        req.trader_id != cfg.price_enforcer_id,
        active_consistent(d0.books@, crate::exchange::accounts_view(a0.accounts@), c0 as int),
        crate::exchange::order_outcome(cfg, d0, a0, d1, a1, c0, c1, req, time, resp1, notices1),
        crate::exchange::order_error(cfg, d0, a0, req) is None,
        d0.books@[req.symbol.0 as int].match_order(req).1.len() == 0,
        creq.order_id == c0,
        creq.price == req.price,
        creq.symbol == req.symbol,
        creq.side == req.order_type,
        crate::exchange::cancel_outcome(cfg, d1, a1, d2, a2, creq, resp2, notices2),
    ensures
        resp2 == crate::messages::OrderCancelResponse::CancelConfirmMessage(crate::messages::CancelConfirmMessage {
            order_info: crate::orderbook::resting_order(req, c0, req.amount),
        }),
        d2.books@.len() == d0.books@.len(),
        forall|s: int| 0 <= s < d0.books@.len() ==> {
            &&& (#[trigger] d2.books@[s]).symbol == d0.books@[s].symbol
            &&& d2.books@[s].bids() == d0.books@[s].bids()
            &&& d2.books@[s].asks() == d0.books@[s].asks()
            &&& d2.books@[s].price_history@ == d0.books@[s].price_history@
        },
        crate::exchange::accounts_view(a2.accounts@) == crate::exchange::accounts_view(a0.accounts@),
{
    let s = req.symbol.0 as int;
    let n = cfg.num_traders();
    let nt = cfg.num_tickers();
    let enforcer = cfg.price_enforcer_id;
    let books0 = d0.books@;
    let b0 = books0[s];
    let b1 = d1.books@[s];
    let b2 = d2.books@[s];
    let ty = req.order_type;
    let m = b0.match_order(req);
    lemma_no_trades(b0, req);
    let o = crate::orderbook::resting_order(req, c0, req.amount);
    assert(crate::exchange::book_ok(b0, s, n));
    lemma_fresh_id_absent(books0, s, c0);
    assert(crate::orderbook::id_absent(b0.own_side(ty), c0));
    crate::orderbook::law_rest_then_cancel(b0.own_side(ty), o);
    assert(b1.own_side(ty) == crate::orderbook::rest_order(b0.own_side(ty), o));
    assert(crate::orderbook::cancel_from_side(b1.own_side(ty), req.price, c0) == Some((b0.own_side(ty), o)));
    assert(b2.own_side(ty) == b0.own_side(ty));
    assert(b2.other_side(ty) == b0.other_side(ty));
    assert(crate::orderbook::history_entries(m.1, time) =~= Seq::<(u64, u64, u64)>::empty());
    assert(b1.price_history@ =~= b0.price_history@);
    assert forall|s2: int| 0 <= s2 < books0.len() implies {
        &&& (#[trigger] d2.books@[s2]).symbol == books0[s2].symbol
        &&& d2.books@[s2].bids() == books0[s2].bids()
        &&& d2.books@[s2].asks() == books0[s2].asks()
        &&& d2.books@[s2].price_history@ == books0[s2].price_history@
    } by {
        if s2 != s {
            assert(d2.books@[s2] == d1.books@[s2]);
        }
    }
    // The accounts: the order's cash or shares were set aside and are free again.
    let av0 = crate::exchange::accounts_view(a0.accounts@);
    let t = req.trader_id.0 as int;
    let ar = crate::exchange::reserved_accounts(av0, req, enforcer);
    let tk = Taker { trader: req.trader_id, order_id: c0, side: req.order_type, limit: req.price, symbol: req.symbol, time };
    assert(trades_settled(ar, m.1, tk, enforcer) == ar);
    assert(crate::exchange::accounts_view(a1.accounts@) == crate::exchange::with_active(ar, req.trader_id, o));
    assert(crate::exchange::account_ok(av0[t], t, nt));
    assert(!av0[t].active_orders.contains_key(c0)) by {
        assert(av0[t].active_orders == owned(orders_map(all_orders(books0)), TraderId(t as u16)));
    }
    crate::exchange::law_place_then_cancel_account(av0, req, c0, enforcer);
}

} // verus!
