//! One symbol's limit order book: price levels kept in price order, each a
//! first-in first-out queue of resting orders, matched with price-time priority.
use vstd::prelude::*;
use std::collections::VecDeque;

use crate::config::{first_where, lemma_first_where_found, lemma_first_where_none, lemma_first_where_some, TickerSymbol, TraderId};
use crate::messages::{CancelIDNotFoundError, CancelRequest, OrderRequest};
use crate::sums::{
    lemma_sum_bound, lemma_sum_drop_first, lemma_sum_push, lemma_sum_single, lemma_sum_update, sum_of,
};

verus! {

broadcast use vstd::std_specs::vecdeque::group_vec_dequeue_axioms;

pub type OrderID = usize;

/// A price in cents.
pub type Price = u64;

/// Largest number of shares in one order.
pub const MAX_ORDER_AMOUNT: u64 = 10_000;

/// Largest limit price, in cents.
pub const MAX_PRICE: u64 = 1_000_000;

/// Largest number of orders resting at one price on one side.
pub const MAX_LEVEL_ORDERS: usize = 1024;

#[derive(Debug, Clone, Copy, PartialEq, Eq, Structural)]
pub enum OrderType {
    Buy,
    Sell,
}

#[derive(Debug, Clone, Copy, PartialEq, Eq, Structural)]
pub struct Order {
    pub order_id: OrderID,
    pub trader_id: TraderId,
    pub symbol: TickerSymbol,
    pub amount: u64,
    pub price: Price,
    pub order_type: OrderType,
}

/// One trade between an incoming order and a resting one.
#[derive(Debug, Clone, Copy, PartialEq, Eq, Structural)]
pub struct Fill {
    pub sell_trader_id: TraderId,
    pub buy_trader_id: TraderId,
    pub amount: u64,
    pub price: Price,
    pub symbol: TickerSymbol,
    pub trade_time: u8,
    pub resting_side: OrderType,
}

/// A resting order as it was when an incoming order traded `amount` shares with it.
#[derive(Debug, Clone, Copy, PartialEq, Eq, Structural)]
pub struct Trade {
    pub resting: Order,
    pub amount: u64,
}

/// A price level as a price and its queue of orders, oldest first.
pub type LevelView = (Price, Seq<Order>);

/// An order's amount.
pub open spec fn amount_of(o: Order) -> int {
    o.amount as int
}

/// Sum of the amounts of a queue of orders.
pub open spec fn total_amount(orders: Seq<Order>) -> int {
    sum_of(orders, |o: Order| amount_of(o))
}

/// The queue of a price level is well formed for this side, symbol and price.
pub open spec fn queue_wf(orders: Seq<Order>, side: OrderType, symbol: TickerSymbol, price: Price) -> bool {
    &&& 0 < orders.len() <= MAX_LEVEL_ORDERS
    &&& forall|j: int|
        0 <= j < orders.len() ==> {
            let o = #[trigger] orders[j];
            &&& o.price == price
            &&& o.order_type == side
            &&& o.symbol == symbol
            &&& 0 < o.amount <= MAX_ORDER_AMOUNT
        }
}

/// One side of a book: levels in strictly increasing price order, none empty.
pub open spec fn side_wf(levels: Seq<LevelView>, side: OrderType, symbol: TickerSymbol) -> bool {
    &&& forall|i: int, j: int| 0 <= i < j < levels.len() ==> levels[i].0 < levels[j].0
    &&& forall|i: int|
        0 <= i < levels.len() ==> {
            &&& 1 <= (#[trigger] levels[i]).0 <= MAX_PRICE
            &&& queue_wf(levels[i].1, side, symbol, levels[i].0)
        }
}

/// A queue after `t` shares were taken off its front order.
pub open spec fn reduce_queue(q: Seq<Order>, t: u64) -> Seq<Order> {
    if t < q[0].amount {
        q.update(0, Order { amount: (q[0].amount - t) as u64, ..q[0] })
    } else {
        q.drop_first()
    }
}

/// A side after `t` shares were taken off the front order of its level `i`; the
/// level leaves the side when its queue is used up.
pub open spec fn consume_front(side: Seq<LevelView>, i: int, t: u64) -> Seq<LevelView> {
    let q = reduce_queue(side[i].1, t);
    if q.len() > 0 {
        side.update(i, (side[i].0, q))
    } else {
        side.remove(i)
    }
}

/// The orders resting at one price on one side, oldest first.
pub struct Level {
    pub price: Price,
    pub orders: VecDeque<Order>,
    pub total_amount: u64,
}

impl View for Level {
    type V = LevelView;

    open spec fn view(&self) -> LevelView {
        (self.price, self.orders@)
    }
}

impl Level {
    /// The cached total equals the sum of the queued amounts.
    pub open spec fn inv(&self) -> bool {
        self.total_amount == total_amount(self.orders@)
    }

    /// A full level holds at most its order limit times the largest order.
    pub proof fn lemma_total_bound(orders: Seq<Order>)
        requires
            orders.len() <= MAX_LEVEL_ORDERS,
            forall|j: int| 0 <= j < orders.len() ==> (#[trigger] orders[j]).amount <= MAX_ORDER_AMOUNT,
        ensures
            0 <= total_amount(orders) <= MAX_LEVEL_ORDERS * MAX_ORDER_AMOUNT,
    {
        let f = |o: Order| amount_of(o);
        assert forall|i: int| 0 <= i < orders.len() implies 0 <= #[trigger] f(orders[i]) <= MAX_ORDER_AMOUNT by {}
        lemma_sum_bound(orders, f, MAX_ORDER_AMOUNT as int);
        assert(orders.len() * (MAX_ORDER_AMOUNT as int) <= (MAX_LEVEL_ORDERS as int) * (MAX_ORDER_AMOUNT as int)) by (nonlinear_arith)
            requires orders.len() <= MAX_LEVEL_ORDERS;
    }

    /// A level holding just `order`.
    fn new(order: Order) -> (r: Level)
        requires
            order.amount <= MAX_ORDER_AMOUNT,
        ensures
            r@ == (order.price, seq![order]),
            r.inv(),
    {
        let mut orders: VecDeque<Order> = VecDeque::new();
        orders.push_back(order);
        proof {
            lemma_sum_single(order, |o: Order| amount_of(o));
            assert(orders@ =~= seq![order]);
        }
        Level { price: order.price, orders, total_amount: order.amount }
    }

    /// The price of this level.
    fn price(&self) -> (r: Price)
        ensures
            r == self@.0,
    {
        self.price
    }

    /// The order at the front of the queue.
    fn front(&self) -> (r: Order)
        requires
            self@.1.len() > 0,
        ensures
            r == self@.1[0],
    {
        self.orders[0]
    }

    /// The order at position `i` of the queue.
    fn get(&self, i: usize) -> (r: Order)
        requires
            i < self@.1.len(),
        ensures
            r == self@.1[i as int],
    {
        self.orders[i]
    }

    /// Takes `t` shares off the front order, which leaves the queue when it is used up.
    /// Returns whether the level is now empty.
    fn reduce_front(&mut self, t: u64) -> (r: bool)
        requires
            old(self).inv(),
            old(self)@.1.len() > 0,
            0 < t <= old(self)@.1[0].amount,
        ensures
            final(self).inv(),
            final(self)@ == (old(self)@.0, reduce_queue(old(self)@.1, t)),
            r == (final(self)@.1.len() == 0),
    {
        let ghost q = self.orders@;
        let ghost f = |o: Order| amount_of(o);
        proof {
            lemma_sum_drop_first(q, f);
            Self::lemma_sum_ge_front(q);
        }
        let front = self.orders.pop_front().unwrap();
        if t < front.amount {
            let rest = Order { amount: front.amount - t, ..front };
            self.orders.push_front(rest);
            proof {
                assert(self.orders@ =~= q.update(0, rest));
                lemma_sum_update(q, 0, rest, f);
            }
        } else {
            assert(self.orders@ =~= q.drop_first());
        }
        self.total_amount = self.total_amount - t;
        self.orders.len() == 0
    }

    proof fn lemma_sum_ge_front(q: Seq<Order>)
        requires
            q.len() > 0,
        ensures
            total_amount(q) >= q[0].amount,
    {
        let f = |o: Order| amount_of(o);
        lemma_sum_drop_first(q, f);
        crate::sums::lemma_sum_ge_zero(q.drop_first(), f);
    }

    /// Takes the order at position `i` out of the queue.
    fn remove(&mut self, i: usize) -> (r: Order)
        requires
            old(self).inv(),
            i < old(self)@.1.len(),
        ensures
            final(self).inv(),
            r == old(self)@.1[i as int],
            final(self)@ == (old(self)@.0, old(self)@.1.remove(i as int)),
    {
        let ghost q = self.orders@;
        let ghost f = |o: Order| amount_of(o);
        proof {
            crate::sums::lemma_sum_remove(q, i as int, f);
            crate::sums::lemma_sum_ge_zero(q.remove(i as int), f);
        }
        let o = self.orders.remove(i).unwrap();
        self.total_amount = self.total_amount - o.amount;
        o
    }

    /// Number of queued orders.
    fn len(&self) -> (r: usize)
        ensures
            r == self@.1.len(),
    {
        self.orders.len()
    }

    /// Total shares queued at this level.
    fn total(&self) -> (r: u64)
        requires
            self.inv(),
        ensures
            r == total_amount(self@.1),
    {
        self.total_amount
    }

    /// Queues `order` behind the orders already at this level.
    fn append(&mut self, order: Order)
        requires
            old(self).inv(),
            old(self)@.1.len() < MAX_LEVEL_ORDERS,
            order.amount <= MAX_ORDER_AMOUNT,
            forall|j: int| 0 <= j < old(self)@.1.len() ==> (#[trigger] old(self)@.1[j]).amount <= MAX_ORDER_AMOUNT,
        ensures
            final(self).inv(),
            final(self)@ == (old(self)@.0, old(self)@.1.push(order)),
    {
        proof {
            Self::lemma_total_bound(self.orders@.push(order));
            lemma_sum_push(self.orders@, order, |o: Order| amount_of(o));
        }
        self.total_amount = self.total_amount + order.amount;
        self.orders.push_back(order);
    }
}

/// The views of a sequence of levels.
pub open spec fn levels_view(v: Seq<Level>) -> Seq<LevelView> {
    v.map_values(|l: Level| l@)
}

/// Every level's cached total is right.
pub open spec fn levels_inv(v: Seq<Level>) -> bool {
    forall|i: int| 0 <= i < v.len() ==> (#[trigger] v[i]).inv()
}

/// Takes `t` shares off the front order of level `i`, dropping the level if it empties.
fn consume_at(side: &mut Vec<Level>, i: usize, t: u64)
    requires
        levels_inv(old(side)@),
        i < old(side)@.len(),
        old(side)@[i as int]@.1.len() > 0,
        0 < t <= old(side)@[i as int]@.1[0].amount,
    ensures
        levels_inv(final(side)@),
        levels_view(final(side)@) == consume_front(levels_view(old(side)@), i as int, t),
{
    let ghost old_side = side@;
    let empty = side[i].reduce_front(t);
    if empty {
        side.remove(i);
        assert(levels_view(side@) =~= levels_view(old_side).remove(i as int));
    } else {
        assert(levels_view(side@) =~= levels_view(old_side).update(
            i as int,
            (old_side[i as int]@.0, reduce_queue(old_side[i as int]@.1, t)),
        ));
    }
}

/// The predicate "level `k` is priced at `p` or above".
pub open spec fn at_or_above(side: Seq<LevelView>, p: Price) -> spec_fn(int) -> bool {
    |k: int| side[k].0 >= p
}

/// The predicate "level `k` is priced at `p`".
pub open spec fn priced_at(side: Seq<LevelView>, p: Price) -> spec_fn(int) -> bool {
    |k: int| side[k].0 == p
}

/// Where a level priced at `p` is, or would go, in a side.
pub open spec fn insert_position(side: Seq<LevelView>, p: Price) -> int {
    match first_where(side.len() as int, at_or_above(side, p)) {
        Some(k) => k,
        None => side.len() as int,
    }
}

/// The index of the level priced at `p`, if the side has one.
pub open spec fn level_index(side: Seq<LevelView>, p: Price) -> Option<int> {
    first_where(side.len() as int, priced_at(side, p))
}

/// Number of orders resting at price `p` on a side.
pub open spec fn level_count(side: Seq<LevelView>, p: Price) -> nat {
    match level_index(side, p) {
        Some(k) => side[k].1.len(),
        None => 0,
    }
}

/// A side after `o` was queued behind the orders at its price, in a new level if
/// there were none.
pub open spec fn rest_order(side: Seq<LevelView>, o: Order) -> Seq<LevelView> {
    let k = insert_position(side, o.price);
    if k < side.len() && side[k].0 == o.price {
        side.update(k, (o.price, side[k].1.push(o)))
    } else {
        side.insert(k, (o.price, seq![o]))
    }
}

/// Index of the first level priced at `p` or above.
fn find_insert_position(side: &Vec<Level>, p: Price) -> (r: usize)
    ensures
        r as int == insert_position(levels_view(side@), p),
        r <= side@.len(),
{
    let ghost v = levels_view(side@);
    let mut k: usize = 0;
    while k < side.len() && side[k].price() < p
        invariant
            k <= side@.len(),
            v == levels_view(side@),
            forall|j: int| 0 <= j < k ==> !#[trigger] at_or_above(v, p)(j),
        decreases side.len() - k,
    {
        k = k + 1;
    }
    proof {
        if k < side.len() {
            lemma_first_where_found(v.len() as int, at_or_above(v, p), k as int);
        } else {
            lemma_first_where_none(v.len() as int, at_or_above(v, p));
        }
    }
    k
}

/// In a side with increasing prices, the level priced at `p` is at the insertion
/// position when there is one.
pub(crate) proof fn lemma_level_index(side: Seq<LevelView>, p: Price)
    requires
        forall|i: int, j: int| 0 <= i < j < side.len() ==> side[i].0 < side[j].0,
    ensures
        ({
            let k = insert_position(side, p);
            &&& 0 <= k <= side.len()
            &&& forall|j: int| 0 <= j < k ==> side[j].0 < p
            &&& forall|j: int| k <= j < side.len() ==> side[j].0 >= p
            &&& level_index(side, p) == if k < side.len() && side[k].0 == p {
                Some(k)
            } else {
                None::<int>
            }
        }),
{
    let n = side.len() as int;
    let k = insert_position(side, p);
    if first_where(n, at_or_above(side, p)) is Some {
        lemma_first_where_some(n, at_or_above(side, p));
        assert(forall|j: int| 0 <= j < k ==> !#[trigger] at_or_above(side, p)(j));
        assert forall|j: int| 0 <= j < k implies side[j].0 < p by {
            assert(!at_or_above(side, p)(j));
        }
        assert forall|j: int| k <= j < n implies side[j].0 >= p by {
            assert(at_or_above(side, p)(k));
        }
    } else {
        assert(forall|j: int| 0 <= j < n ==> !#[trigger] at_or_above(side, p)(j));
        assert forall|j: int| 0 <= j < k implies side[j].0 < p by {
            assert(!at_or_above(side, p)(j));
        }
    }
    if k < n && side[k].0 == p {
        assert forall|j: int| 0 <= j < k implies !#[trigger] priced_at(side, p)(j) by {
            assert(!at_or_above(side, p)(j));
        }
        lemma_first_where_found(n, priced_at(side, p), k);
    } else {
        assert forall|j: int| 0 <= j < n implies !#[trigger] priced_at(side, p)(j) by {
            if j < k {
                assert(!at_or_above(side, p)(j));
            } else if j > k {
                assert(side[k].0 < side[j].0);
                assert(side[k].0 >= p);
            }
        }
        lemma_first_where_none(n, priced_at(side, p));
    }
}

/// Queues `o` at its price level, making a new level when there is none.
#[verifier::rlimit(40)]
#[verifier::spinoff_prover]
fn insert_order(side: &mut Vec<Level>, o: Order)
    requires
        levels_inv(old(side)@),
        side_wf(levels_view(old(side)@), o.order_type, o.symbol),
        level_count(levels_view(old(side)@), o.price) < MAX_LEVEL_ORDERS,
        0 < o.amount <= MAX_ORDER_AMOUNT,
    ensures
        levels_inv(final(side)@),
        levels_view(final(side)@) == rest_order(levels_view(old(side)@), o),
{
    let ghost v = levels_view(side@);
    proof {
        lemma_level_index(v, o.price);
    }
    let k = find_insert_position(side, o.price);
    if k < side.len() && side[k].price() == o.price {
        assert(v[k as int].1.len() < MAX_LEVEL_ORDERS);
        assert(queue_wf(v[k as int].1, o.order_type, o.symbol, v[k as int].0));
        assert(side@[k as int].inv());
        side[k].append(o);
        assert(levels_view(side@) =~= v.update(k as int, (o.price, v[k as int].1.push(o))));
    } else {
        let level = Level::new(o);
        side.insert(k, level);
        assert(levels_view(side@) =~= v.insert(k as int, (o.price, seq![o])));
    }
}

/// Every price in side `a` is also a price in side `b`.
pub open spec fn prices_within(a: Seq<LevelView>, b: Seq<LevelView>) -> bool {
    forall|k: int| 0 <= k < a.len() ==> #[trigger] price_in(a[k].0, b)
}

/// Some level of side `b` is priced at `p`.
pub open spec fn price_in(p: Price, b: Seq<LevelView>) -> bool {
    exists|j: int| 0 <= j < b.len() && p == #[trigger] b[j].0
}

/// Every bid is priced below every ask.
pub open spec fn uncrossed(bids: Seq<LevelView>, asks: Seq<LevelView>) -> bool {
    forall|i: int, j: int| 0 <= i < bids.len() && 0 <= j < asks.len() ==> #[trigger] bids[i].0 < #[trigger] asks[j].0
}

/// Taking shares off a front order keeps a side well formed and adds no price.
pub(crate) proof fn lemma_consume_front(side: Seq<LevelView>, i: int, t: u64, ty: OrderType, sym: TickerSymbol)
    requires
        side_wf(side, ty, sym),
        0 <= i < side.len(),
        0 < t <= side[i].1[0].amount,
    ensures
        side_wf(consume_front(side, i, t), ty, sym),
        prices_within(consume_front(side, i, t), side),
        consume_front(side, i, t).len() <= side.len(),
{
    let q = side[i].1;
    let rq = reduce_queue(q, t);
    let r = consume_front(side, i, t);
    assert(queue_wf(q, ty, sym, side[i].0));
    if rq.len() > 0 {
        assert(queue_wf(rq, ty, sym, side[i].0)) by {
            assert forall|j: int| 0 <= j < rq.len() implies {
                let o = #[trigger] rq[j];
                &&& o.price == side[i].0
                &&& o.order_type == ty
                &&& o.symbol == sym
                &&& 0 < o.amount <= MAX_ORDER_AMOUNT
            } by {
                if t < q[0].amount {
                    assert(q[j] == q[j]);
                } else {
                    assert(rq[j] == q[j + 1]);
                }
            }
        }
        assert forall|k: int| 0 <= k < r.len() implies #[trigger] price_in(r[k].0, side) by {
            assert(r[k].0 == side[k].0);
        }
    } else {
        assert forall|k: int| 0 <= k < r.len() implies #[trigger] price_in(r[k].0, side) by {
            if k < i {
                assert(r[k].0 == side[k].0);
            } else {
                assert(r[k].0 == side[k + 1].0);
            }
        }
        assert forall|a: int, b: int| 0 <= a < b < r.len() implies r[a].0 < r[b].0 by {
            let a2 = if a < i { a } else { a + 1 };
            let b2 = if b < i { b } else { b + 1 };
            assert(r[a] == side[a2]);
            assert(r[b] == side[b2]);
        }
        assert forall|k: int| 0 <= k < r.len() implies {
            &&& 1 <= (#[trigger] r[k]).0 <= MAX_PRICE
            &&& queue_wf(r[k].1, ty, sym, r[k].0)
        } by {
            let k2 = if k < i { k } else { k + 1 };
            assert(r[k] == side[k2]);
        }
    }
}

/// Resting an order keeps a side well formed and adds only the order's price.
#[verifier::spinoff_prover]
pub(crate) proof fn lemma_rest_order(side: Seq<LevelView>, o: Order)
    requires
        side_wf(side, o.order_type, o.symbol),
        level_count(side, o.price) < MAX_LEVEL_ORDERS,
        1 <= o.price <= MAX_PRICE,
        0 < o.amount <= MAX_ORDER_AMOUNT,
    ensures
        side_wf(rest_order(side, o), o.order_type, o.symbol),
        forall|k: int|
            0 <= k < rest_order(side, o).len() ==> (#[trigger] rest_order(side, o)[k]).0 == o.price
                || price_in(rest_order(side, o)[k].0, side),
{
    lemma_level_index(side, o.price);
    let k = insert_position(side, o.price);
    let r = rest_order(side, o);
    let ty = o.order_type;
    let sym = o.symbol;
    if k < side.len() && side[k].0 == o.price {
        let q = side[k].1.push(o);
        assert(queue_wf(side[k].1, ty, sym, side[k].0));
        assert(queue_wf(q, ty, sym, side[k].0)) by {
            assert forall|j: int| 0 <= j < q.len() implies {
                let x = #[trigger] q[j];
                &&& x.price == side[k].0
                &&& x.order_type == ty
                &&& x.symbol == sym
                &&& 0 < x.amount <= MAX_ORDER_AMOUNT
            } by {
                if j < side[k].1.len() {
                    assert(q[j] == side[k].1[j]);
                }
            }
        }
        assert forall|a: int| 0 <= a < r.len() implies (#[trigger] r[a]).0 == o.price || price_in(r[a].0, side) by {
            assert(r[a].0 == side[a].0);
        }
    } else {
        assert forall|a: int, b: int| 0 <= a < b < r.len() implies r[a].0 < r[b].0 by {
            if a < k {
                assert(r[a] == side[a]);
            } else if a == k {
            } else {
                assert(r[a] == side[a - 1]);
            }
            if b < k {
                assert(r[b] == side[b]);
            } else if b == k {
            } else {
                assert(r[b] == side[b - 1]);
            }
            if a < k && b > k {
                assert(side[a].0 < o.price);
                assert(side[b - 1].0 >= o.price);
            }
            if a == k && b > k {
                assert(side[b - 1].0 >= o.price);
                if side[b - 1].0 == o.price {
                    if b - 1 > k {
                        assert(side[k].0 < side[b - 1].0);
                    }
                }
            }
        }
        assert forall|a: int| 0 <= a < r.len() implies {
            &&& 1 <= (#[trigger] r[a]).0 <= MAX_PRICE
            &&& queue_wf(r[a].1, ty, sym, r[a].0)
        } by {
            if a < k {
                assert(r[a] == side[a]);
            } else if a > k {
                assert(r[a] == side[a - 1]);
            } else {
                assert(r[a] == (o.price, seq![o]));
            }
        }
        assert forall|a: int| 0 <= a < r.len() implies (#[trigger] r[a]).0 == o.price || price_in(r[a].0, side) by {
            if a < k {
                assert(r[a].0 == side[a].0);
            } else if a > k {
                assert(r[a].0 == side[a - 1].0);
            }
        }
    }
}

/// The smaller of two amounts.
pub open spec fn min_amount(a: u64, b: u64) -> u64 {
    if a < b {
        a
    } else {
        b
    }
}

/// An incoming buy for `remaining` shares at limit `limit` against the asks (lowest
/// first): it trades with the front order of the lowest ask while that ask is at or
/// below the limit. Gives the asks afterwards, the trades in order, and the shares
/// left over.
pub open spec fn match_asks(asks: Seq<LevelView>, limit: Price, remaining: u64) -> (
    Seq<LevelView>,
    Seq<Trade>,
    u64,
)
    decreases remaining,
{
    if remaining == 0 || asks.len() == 0 || asks[0].0 > limit || asks[0].1.len() == 0
        || asks[0].1[0].amount == 0 {
        (asks, Seq::empty(), remaining)
    } else {
        let o = asks[0].1[0];
        let t = min_amount(remaining, o.amount);
        let rest = match_asks(consume_front(asks, 0, t), limit, (remaining - t) as u64);
        (rest.0, seq![Trade { resting: o, amount: t }] + rest.1, rest.2)
    }
}

/// An incoming sell for `remaining` shares at limit `limit` against the bids (highest
/// last): it trades with the front order of the highest bid while that bid is at or
/// above the limit.
pub open spec fn match_bids(bids: Seq<LevelView>, limit: Price, remaining: u64) -> (
    Seq<LevelView>,
    Seq<Trade>,
    u64,
)
    decreases remaining,
{
    if remaining == 0 || bids.len() == 0 || bids.last().0 < limit || bids.last().1.len() == 0
        || bids.last().1[0].amount == 0 {
        (bids, Seq::empty(), remaining)
    } else {
        let o = bids.last().1[0];
        let t = min_amount(remaining, o.amount);
        let rest = match_bids(
            consume_front(bids, bids.len() - 1, t),
            limit,
            (remaining - t) as u64,
        );
        (rest.0, seq![Trade { resting: o, amount: t }] + rest.1, rest.2)
    }
}

/// The price-history entries that a list of trades adds, all stamped `time`.
pub open spec fn history_entries(trades: Seq<Trade>, time: u64) -> Seq<(u64, u64, u64)> {
    trades.map_values(|tr: Trade| (time, tr.resting.price, tr.amount))
}

/// The order that an accepted request rests as, with `amount` shares left.
pub open spec fn resting_order(req: OrderRequest, order_id: OrderID, amount: u64) -> Order {
    Order {
        order_id,
        trader_id: req.trader_id,
        symbol: req.symbol,
        amount,
        price: req.price,
        order_type: req.order_type,
    }
}

/// The predicate "the order at position `j` has id `id`".
pub open spec fn has_id(q: Seq<Order>, id: OrderID) -> spec_fn(int) -> bool {
    |j: int| q[j].order_id == id
}

/// Position of the first order with id `id` in a queue.
pub open spec fn order_position(q: Seq<Order>, id: OrderID) -> Option<int> {
    first_where(q.len() as int, has_id(q, id))
}

/// Cancelling order `id` at `price` on a side: the side without the order (and
/// without its level if that empties) and the cancelled order, or `None` when no
/// order with that id rests at that price.
pub open spec fn cancel_from_side(side: Seq<LevelView>, price: Price, id: OrderID) -> Option<
    (Seq<LevelView>, Order),
> {
    match level_index(side, price) {
        None => None,
        Some(k) => match order_position(side[k].1, id) {
            None => None,
            Some(j) => {
                let q = side[k].1.remove(j);
                Some(
                    (
                        if q.len() > 0 {
                            side.update(k, (side[k].0, q))
                        } else {
                            side.remove(k)
                        },
                        side[k].1[j],
                    ),
                )
            },
        },
    }
}

/// No order with id `id` rests on the side.
pub open spec fn id_absent(side: Seq<LevelView>, id: OrderID) -> bool {
    forall|i: int, j: int| 0 <= i < side.len() && 0 <= j < side[i].1.len() ==> (#[trigger] side[i].1[j]).order_id != id
}

/// Cancelling an order right after it was rested, at its price, gives back the side
/// as it was before, and the order.
pub proof fn law_rest_then_cancel(side: Seq<LevelView>, o: Order)
    requires
        forall|i: int, j: int| 0 <= i < j < side.len() ==> side[i].0 < side[j].0,
        forall|i: int| 0 <= i < side.len() ==> (#[trigger] side[i]).1.len() > 0,
        id_absent(side, o.order_id),
    ensures
        cancel_from_side(rest_order(side, o), o.price, o.order_id) == Some((side, o)),
{
    lemma_level_index(side, o.price);
    let k = insert_position(side, o.price);
    if k < side.len() && side[k].0 == o.price {
        lemma_cancel_after_append(side, o, k);
    } else {
        assert(rest_order(side, o) == side.insert(k, (o.price, seq![o])));
        lemma_cancel_new_level(side, o, k);
    }
}

/// The rest-then-cancel law when the order joined an existing level.
#[verifier::spinoff_prover]
proof fn lemma_cancel_after_append(side: Seq<LevelView>, o: Order, k: int)
    requires
        0 <= k < side.len(),
        side[k].0 == o.price,
        k == insert_position(side, o.price),
        forall|j: int| 0 <= j < k ==> side[j].0 < o.price,
        side[k].1.len() > 0,
        forall|j: int| 0 <= j < side[k].1.len() ==> (#[trigger] side[k].1[j]).order_id != o.order_id,
    ensures
        cancel_from_side(rest_order(side, o), o.price, o.order_id) == Some((side, o)),
{
    let p = o.price;
    let id = o.order_id;
    let q = side[k].1;
    let q2 = q.push(o);
    let r = side.update(k, (p, q2));
    assert(rest_order(side, o) == r);
    assert forall|j: int| 0 <= j < k implies !#[trigger] priced_at(r, p)(j) by {
        assert(r[j] == side[j]);
    }
    lemma_first_where_found(r.len() as int, priced_at(r, p), k);
    assert(level_index(r, p) == Some(k));
    assert forall|j: int| 0 <= j < q.len() implies !#[trigger] has_id(q2, id)(j) by {
        assert(q2[j] == q[j]);
    }
    lemma_first_where_found(q2.len() as int, has_id(q2, id), q.len() as int);
    assert(order_position(r[k].1, id) == Some(q.len() as int));
    assert(q2.remove(q.len() as int) =~= q);
    assert(r.update(k, (r[k].0, q)) =~= side);
}

/// The rest-then-cancel law when the order opened a new level.
#[verifier::spinoff_prover]
proof fn lemma_cancel_new_level(side: Seq<LevelView>, o: Order, k: int)
    requires
        0 <= k <= side.len(),
        forall|j: int| 0 <= j < k ==> side[j].0 < o.price,
    ensures
        cancel_from_side(side.insert(k, (o.price, seq![o])), o.price, o.order_id) == Some((side, o)),
{
    let p = o.price;
    let lv: LevelView = (p, seq![o]);
    let r = side.insert(k, lv);
    side.insert_ensures(k, lv);
    assert forall|j: int| 0 <= j < k implies !#[trigger] priced_at(r, p)(j) by {
        assert(r[j] == side[j]);
    }
    assert(priced_at(r, p)(k));
    lemma_first_where_found(r.len() as int, priced_at(r, p), k);
    lemma_cancel_lone_order(r, p, k, o);
    assert(r.remove(k) =~= side);
}

/// Cancelling the only order of a level takes the level off the side.
#[verifier::spinoff_prover]
proof fn lemma_cancel_lone_order(r: Seq<LevelView>, p: Price, k: int, o: Order)
    requires
        0 <= k < r.len(),
        level_index(r, p) == Some(k),
        r[k].1 == seq![o],
    ensures
        cancel_from_side(r, p, o.order_id) == Some((r.remove(k), o)),
{
    let q = r[k].1;
    assert(q.len() == 1 && q[0] == o);
    assert(has_id(q, o.order_id)(0));
    lemma_first_where_found(1, has_id(q, o.order_id), 0);
    assert(q.remove(0) =~= Seq::<Order>::empty());
}

/// The order a cancel takes off a well-formed side is one of the side's valid
/// orders: of its type and symbol, at the requested price, with the requested id.
pub(crate) proof fn lemma_cancelled_order(side: Seq<LevelView>, price: Price, id: OrderID, ty: OrderType, sym: TickerSymbol)
    requires
        side_wf(side, ty, sym),
        cancel_from_side(side, price, id) is Some,
    ensures
        ({
            let o = cancel_from_side(side, price, id).unwrap().1;
            &&& o.order_type == ty
            &&& o.symbol == sym
            &&& o.price == price
            &&& o.order_id == id
            &&& 0 < o.amount <= MAX_ORDER_AMOUNT
            &&& 1 <= o.price <= MAX_PRICE
        }),
{
    lemma_first_where_some(side.len() as int, priced_at(side, price));
    let k = level_index(side, price)->0;
    let lq = side[k].1;
    lemma_first_where_some(lq.len() as int, has_id(lq, id));
    let j = order_position(lq, id)->0;
    assert(queue_wf(lq, ty, sym, side[k].0));
    assert(lq[j].price == side[k].0);
}

/// The limit order book of one symbol.
pub struct OrderBook {
    pub symbol: TickerSymbol,
    /// Bid levels, lowest price first.
    pub buy_side: Vec<Level>,
    /// Ask levels, lowest price first.
    pub sell_side: Vec<Level>,
    /// `(time, price, amount)` of every trade, oldest first.
    pub price_history: Vec<(u64, u64, u64)>,
}

impl OrderBook {
    /// The bid levels, lowest price first.
    pub open spec fn bids(&self) -> Seq<LevelView> {
        levels_view(self.buy_side@)
    }

    /// The ask levels, lowest price first.
    pub open spec fn asks(&self) -> Seq<LevelView> {
        levels_view(self.sell_side@)
    }

    /// Every level's cached total is right.
    pub open spec fn levels_ok(&self) -> bool {
        levels_inv(self.buy_side@) && levels_inv(self.sell_side@)
    }

    /// The book is well formed: both sides sorted and made of non-empty levels of
    /// valid orders of this symbol, and no bid at or above any ask.
    pub open spec fn wf(&self) -> bool {
        &&& self.levels_ok()
        &&& side_wf(self.bids(), OrderType::Buy, self.sym())
        &&& side_wf(self.asks(), OrderType::Sell, self.sym())
        &&& uncrossed(self.bids(), self.asks())
    }

    /// The symbol this book trades.
    pub open spec fn sym(&self) -> TickerSymbol {
        self.symbol
    }

    /// An incoming buy request: trade against the asks, then rest what is left.
    #[verifier::spinoff_prover]
    fn handle_incoming_buy(&mut self, req: &OrderRequest, order_id: OrderID, time: u64) -> (r: (
        Order,
        Vec<Trade>,
        u64,
    ))
        requires
            old(self).wf(),
            req.symbol == old(self).symbol,
            req.order_type == OrderType::Buy,
            0 < req.amount <= MAX_ORDER_AMOUNT,
            1 <= req.price <= MAX_PRICE,
            level_count(old(self).bids(), req.price) < MAX_LEVEL_ORDERS,
        ensures
            final(self).wf(),
            final(self).symbol == old(self).symbol,
            ({
                let m = match_asks(old(self).asks(), req.price, req.amount);
                &&& final(self).asks() == m.0
                &&& r.1@ == m.1
                &&& r.2 == m.2
                &&& final(self).bids() == if m.2 > 0 {
                    rest_order(old(self).bids(), resting_order(*req, order_id, m.2))
                } else {
                    old(self).bids()
                }
                &&& final(self).price_history@ == old(self).price_history@ + history_entries(
                    m.1,
                    time,
                )
            }),
            r.0 == resting_order(*req, order_id, req.amount),
    {
        let ghost orig = self.asks();
        let ghost m = match_asks(orig, req.price, req.amount);
        let ghost hist = self.price_history@;
        let mut remaining = req.amount;
        let mut trades: Vec<Trade> = Vec::new();
        while remaining > 0 && self.sell_side.len() > 0 && self.sell_side[0].price() <= req.price
            invariant
                levels_inv(self.sell_side@),
                side_wf(self.asks(), OrderType::Sell, self.symbol),
                prices_within(self.asks(), orig),
                self.symbol == old(self).symbol,
                self.bids() == old(self).bids(),
                levels_inv(self.buy_side@),
                m == ({
                    let c = match_asks(self.asks(), req.price, remaining);
                    (c.0, trades@ + c.1, c.2)
                }),
                self.price_history@ == hist + history_entries(trades@, time),
                remaining <= req.amount,
            decreases remaining,
        {
            let ghost cur = self.asks();
            assert(queue_wf(cur[0].1, OrderType::Sell, self.symbol, cur[0].0));
            let o = self.sell_side[0].front();
            let t = if remaining < o.amount {
                remaining
            } else {
                o.amount
            };
            proof {
                lemma_consume_front(cur, 0, t, OrderType::Sell, self.symbol);
                let nxt = consume_front(cur, 0, t);
                assert forall|k: int| 0 <= k < nxt.len() implies #[trigger] price_in(nxt[k].0, orig) by {
                    assert(price_in(nxt[k].0, cur));
                    assert(price_in(nxt[k].0, cur));
                    let j1 = choose|j1: int| 0 <= j1 < cur.len() && nxt[k].0 == #[trigger] cur[j1].0;
                    assert(price_in(cur[j1].0, orig));
                    let j2 = choose|j2: int| 0 <= j2 < orig.len() && cur[j1].0 == #[trigger] orig[j2].0;
                }
            }
            consume_at(&mut self.sell_side, 0, t);
            let tr = Trade { resting: o, amount: t };
            trades.push(tr);
            self.price_history.push((time, o.price, t));
            remaining = remaining - t;
            proof {
                assert(history_entries(trades@, time) =~= history_entries(trades@.drop_last(), time).push((time, o.price, t)));
                let c = match_asks(self.asks(), req.price, remaining);
                assert(trades@.drop_last() + (seq![tr] + c.1) =~= trades@ + c.1);
            }
        }
        let ghost fin = self.asks();
        assert(match_asks(fin, req.price, remaining) == (fin, Seq::<Trade>::empty(), remaining));
        assert(trades@ + Seq::<Trade>::empty() =~= trades@);
        if remaining > 0 {
            let rest = Order {
                order_id,
                trader_id: req.trader_id,
                symbol: req.symbol,
                amount: remaining,
                price: req.price,
                order_type: OrderType::Buy,
            };
            proof {
                lemma_rest_order(self.bids(), rest);
            }
            insert_order(&mut self.buy_side, rest);
            proof {
                let nb = self.bids();
                assert forall|i: int, j: int| 0 <= i < nb.len() && 0 <= j < fin.len() implies #[trigger] nb[i].0 < #[trigger] fin[j].0 by {
                    assert(fin[0].0 > req.price);
                    if j > 0 {
                        assert(fin[0].0 < fin[j].0);
                    }
                    if nb[i].0 != req.price {
                        assert(price_in(nb[i].0, old(self).bids()));
                        let a = choose|a: int| 0 <= a < old(self).bids().len() && nb[i].0 == #[trigger] old(self).bids()[a].0;
                        assert(price_in(fin[j].0, orig));
                        let b = choose|b: int| 0 <= b < orig.len() && fin[j].0 == #[trigger] orig[b].0;
                        assert(old(self).bids()[a].0 < orig[b].0);
                    }
                }
            }
        } else {
            proof {
                let nb = self.bids();
                assert forall|i: int, j: int| 0 <= i < nb.len() && 0 <= j < fin.len() implies #[trigger] nb[i].0 < #[trigger] fin[j].0 by {
                    assert(price_in(fin[j].0, orig));
                    let b = choose|b: int| 0 <= b < orig.len() && fin[j].0 == #[trigger] orig[b].0;
                    assert(old(self).bids()[i].0 < orig[b].0);
                }
            }
        }
        let placed = Order {
            order_id,
            trader_id: req.trader_id,
            symbol: req.symbol,
            amount: req.amount,
            price: req.price,
            order_type: OrderType::Buy,
        };
        (placed, trades, remaining)
    }

    /// An incoming sell request: trade against the bids, then rest what is left.
    #[verifier::rlimit(60)]
    #[verifier::spinoff_prover]
    fn handle_incoming_sell(&mut self, req: &OrderRequest, order_id: OrderID, time: u64) -> (r: (
        Order,
        Vec<Trade>,
        u64,
    ))
        requires
            old(self).wf(),
            req.symbol == old(self).symbol,
            req.order_type == OrderType::Sell,
            0 < req.amount <= MAX_ORDER_AMOUNT,
            1 <= req.price <= MAX_PRICE,
            level_count(old(self).asks(), req.price) < MAX_LEVEL_ORDERS,
        ensures
            final(self).wf(),
            final(self).symbol == old(self).symbol,
            ({
                let m = match_bids(old(self).bids(), req.price, req.amount);
                &&& final(self).bids() == m.0
                &&& r.1@ == m.1
                &&& r.2 == m.2
                &&& final(self).asks() == if m.2 > 0 {
                    rest_order(old(self).asks(), resting_order(*req, order_id, m.2))
                } else {
                    old(self).asks()
                }
                &&& final(self).price_history@ == old(self).price_history@ + history_entries(
                    m.1,
                    time,
                )
            }),
            r.0 == resting_order(*req, order_id, req.amount),
    {
        let ghost orig = self.bids();
        let ghost m = match_bids(orig, req.price, req.amount);
        let ghost hist = self.price_history@;
        let mut remaining = req.amount;
        let mut trades: Vec<Trade> = Vec::new();
        while remaining > 0 && self.buy_side.len() > 0
            && self.buy_side[self.buy_side.len() - 1].price() >= req.price
            invariant
                levels_inv(self.buy_side@),
                side_wf(self.bids(), OrderType::Buy, self.symbol),
                prices_within(self.bids(), orig),
                self.symbol == old(self).symbol,
                self.asks() == old(self).asks(),
                levels_inv(self.sell_side@),
                m == ({
                    let c = match_bids(self.bids(), req.price, remaining);
                    (c.0, trades@ + c.1, c.2)
                }),
                self.price_history@ == hist + history_entries(trades@, time),
                remaining <= req.amount,
            decreases remaining,
        {
            let ghost cur = self.bids();
            let last = self.buy_side.len() - 1;
            assert(queue_wf(cur[last as int].1, OrderType::Buy, self.symbol, cur[last as int].0));
            let o = self.buy_side[last].front();
            let t = if remaining < o.amount {
                remaining
            } else {
                o.amount
            };
            proof {
                lemma_consume_front(cur, last as int, t, OrderType::Buy, self.symbol);
                let nxt = consume_front(cur, last as int, t);
                assert forall|k: int| 0 <= k < nxt.len() implies #[trigger] price_in(nxt[k].0, orig) by {
                    assert(price_in(nxt[k].0, cur));
                    assert(price_in(nxt[k].0, cur));
                    let j1 = choose|j1: int| 0 <= j1 < cur.len() && nxt[k].0 == #[trigger] cur[j1].0;
                    assert(price_in(cur[j1].0, orig));
                    let j2 = choose|j2: int| 0 <= j2 < orig.len() && cur[j1].0 == #[trigger] orig[j2].0;
                }
            }
            consume_at(&mut self.buy_side, last, t);
            let tr = Trade { resting: o, amount: t };
            trades.push(tr);
            self.price_history.push((time, o.price, t));
            remaining = remaining - t;
            proof {
                assert(history_entries(trades@, time) =~= history_entries(trades@.drop_last(), time).push((time, o.price, t)));
                let c = match_bids(self.bids(), req.price, remaining);
                assert(trades@.drop_last() + (seq![tr] + c.1) =~= trades@ + c.1);
            }
        }
        let ghost fin = self.bids();
        assert(match_bids(fin, req.price, remaining) == (fin, Seq::<Trade>::empty(), remaining));
        assert(trades@ + Seq::<Trade>::empty() =~= trades@);
        if remaining > 0 {
            let rest = Order {
                order_id,
                trader_id: req.trader_id,
                symbol: req.symbol,
                amount: remaining,
                price: req.price,
                order_type: OrderType::Sell,
            };
            proof {
                lemma_rest_order(self.asks(), rest);
            }
            insert_order(&mut self.sell_side, rest);
            proof {
                let na = self.asks();
                assert forall|i: int, j: int| 0 <= i < fin.len() && 0 <= j < na.len() implies #[trigger] fin[i].0 < #[trigger] na[j].0 by {
                    assert(fin[fin.len() - 1].0 < req.price);
                    if i < fin.len() - 1 {
                        assert(fin[i].0 < fin[fin.len() - 1].0);
                    }
                    if na[j].0 != req.price {
                        assert(price_in(na[j].0, old(self).asks()));
                        let a = choose|a: int| 0 <= a < old(self).asks().len() && na[j].0 == #[trigger] old(self).asks()[a].0;
                        assert(price_in(fin[i].0, orig));
                        let b = choose|b: int| 0 <= b < orig.len() && fin[i].0 == #[trigger] orig[b].0;
                        assert(orig[b].0 < old(self).asks()[a].0);
                    }
                }
            }
        } else {
            proof {
                let na = self.asks();
                assert forall|i: int, j: int| 0 <= i < fin.len() && 0 <= j < na.len() implies #[trigger] fin[i].0 < #[trigger] na[j].0 by {
                    assert(price_in(fin[i].0, orig));
                    let b = choose|b: int| 0 <= b < orig.len() && fin[i].0 == #[trigger] orig[b].0;
                    assert(orig[b].0 < old(self).asks()[j].0);
                }
            }
        }
        let placed = Order {
            order_id,
            trader_id: req.trader_id,
            symbol: req.symbol,
            amount: req.amount,
            price: req.price,
            order_type: OrderType::Sell,
        };
        (placed, trades, remaining)
    }

    /// An incoming order request: trade it against the opposite side with
    /// price-time priority, then rest what is left on its own side. Returns the order
    /// as placed (with its full amount), the trades in the order they happened, and
    /// the shares left resting.
    pub fn handle_incoming_order_request(&mut self, new_order_request: &OrderRequest, order_id: OrderID, time: u64) -> (r: (Order, Vec<Trade>, u64))
        requires
            old(self).wf(),
            new_order_request.symbol == old(self).symbol,
            0 < new_order_request.amount <= MAX_ORDER_AMOUNT,
            1 <= new_order_request.price <= MAX_PRICE,
            level_count(old(self).own_side(new_order_request.order_type), new_order_request.price) < MAX_LEVEL_ORDERS,
        ensures
            final(self).wf(),
            final(self).symbol == old(self).symbol,
            r.0 == resting_order(*new_order_request, order_id, new_order_request.amount),
            ({
                let req = *new_order_request;
                let m = old(self).match_order(req);
                &&& final(self).other_side(req.order_type) == m.0
                &&& r.1@ == m.1
                &&& r.2 == m.2
                &&& final(self).own_side(req.order_type) == if m.2 > 0 {
                    rest_order(old(self).own_side(req.order_type), resting_order(req, order_id, m.2))
                } else {
                    old(self).own_side(req.order_type)
                }
                &&& final(self).price_history@ == old(self).price_history@ + history_entries(m.1, time)
            }),
    {
        match new_order_request.order_type {
            OrderType::Buy => self.handle_incoming_buy(new_order_request, order_id, time),
            OrderType::Sell => self.handle_incoming_sell(new_order_request, order_id, time),
        }
    }

    /// The side an order of type `ty` rests on.
    pub open spec fn own_side(&self, ty: OrderType) -> Seq<LevelView> {
        if ty == OrderType::Buy {
            self.bids()
        } else {
            self.asks()
        }
    }

    /// The side an order of type `ty` trades against.
    pub open spec fn other_side(&self, ty: OrderType) -> Seq<LevelView> {
        if ty == OrderType::Buy {
            self.asks()
        } else {
            self.bids()
        }
    }

    /// Matching a request against this book: the opposite side afterwards, the
    /// trades, and the shares left to rest.
    pub open spec fn match_order(&self, req: OrderRequest) -> (Seq<LevelView>, Seq<Trade>, u64) {
        if req.order_type == OrderType::Buy {
            match_asks(self.asks(), req.price, req.amount)
        } else {
            match_bids(self.bids(), req.price, req.amount)
        }
    }

    /// Number of orders resting at `price` on `side`.
    pub fn level_len(&self, side: OrderType, price: Price) -> (r: usize)
        requires
            self.wf(),
        ensures
            r == level_count(self.own_side(side), price),
    {
        let levels = match side {
            OrderType::Buy => &self.buy_side,
            OrderType::Sell => &self.sell_side,
        };
        match find_level(levels, price) {
            Some(k) => levels[k].len(),
            None => 0,
        }
    }

    /// `(price, total volume)` of every bid level, lowest price first.
    pub fn buy_volumes(&self) -> (r: Vec<(Price, u64)>)
        requires
            self.levels_ok(),
        ensures
            r@ == side_volumes(self.bids()),
    {
        volumes(&self.buy_side)
    }

    /// `(price, total volume)` of every ask level, lowest price first.
    pub fn sell_volumes(&self) -> (r: Vec<(Price, u64)>)
        requires
            self.levels_ok(),
        ensures
            r@ == side_volumes(self.asks()),
    {
        volumes(&self.sell_side)
    }

    /// Removes the resting order named by a cancel request, if it rests at the
    /// requested price and side, and returns it as it was (with its remaining amount).
    pub fn handle_incoming_cancel_request(&mut self, cancel_request: &CancelRequest) -> (r: Result<
        Order,
        CancelIDNotFoundError,
    >)
        requires
            old(self).wf(),
        ensures
            final(self).wf(),
            final(self).symbol == old(self).symbol,
            final(self).price_history@ == old(self).price_history@,
            ({
                let side = if cancel_request.side == OrderType::Buy {
                    old(self).bids()
                } else {
                    old(self).asks()
                };
                match cancel_from_side(side, cancel_request.price, cancel_request.order_id) {
                    None => {
                        &&& r == Err::<Order, CancelIDNotFoundError>(CancelIDNotFoundError)
                        &&& final(self).bids() == old(self).bids()
                        &&& final(self).asks() == old(self).asks()
                    },
                    Some((new_side, o)) => {
                        &&& r == Ok::<Order, CancelIDNotFoundError>(o)
                        &&& if cancel_request.side == OrderType::Buy {
                            final(self).bids() == new_side && final(self).asks() == old(self).asks()
                        } else {
                            final(self).asks() == new_side && final(self).bids() == old(self).bids()
                        }
                    },
                }
            }),
    {
        if cancel_request.side == OrderType::Buy {
            let ghost other = self.asks();
            let r = cancel_in_side(&mut self.buy_side, cancel_request.price, cancel_request.order_id, OrderType::Buy, self.symbol);
            proof {
                let nb = self.bids();
                let ob = old(self).bids();
                assert forall|i: int, j: int| 0 <= i < nb.len() && 0 <= j < other.len() implies #[trigger] nb[i].0 < #[trigger] other[j].0 by {
                    assert(price_in(nb[i].0, ob));
                    let a = choose|a: int| 0 <= a < ob.len() && nb[i].0 == #[trigger] ob[a].0;
                    assert(ob[a].0 < other[j].0);
                }
            }
            r
        } else {
            let ghost other = self.bids();
            let r = cancel_in_side(&mut self.sell_side, cancel_request.price, cancel_request.order_id, OrderType::Sell, self.symbol);
            proof {
                let na = self.asks();
                let oa = old(self).asks();
                assert forall|i: int, j: int| 0 <= i < other.len() && 0 <= j < na.len() implies #[trigger] other[i].0 < #[trigger] na[j].0 by {
                    assert(price_in(na[j].0, oa));
                    let a = choose|a: int| 0 <= a < oa.len() && na[j].0 == #[trigger] oa[a].0;
                    assert(other[i].0 < oa[a].0);
                }
            }
            r
        }
    }
}

/// Index of the level priced at `p`, if any.
fn find_level(side: &Vec<Level>, p: Price) -> (r: Option<usize>)
    requires
        forall|i: int, j: int| 0 <= i < j < side@.len() ==> levels_view(side@)[i].0 < levels_view(side@)[j].0,
    ensures
        match r {
            Some(k) => level_index(levels_view(side@), p) == Some(k as int) && k < side@.len()
                && side@[k as int]@.0 == p,
            None => level_index(levels_view(side@), p) is None,
        },
{
    proof {
        lemma_level_index(levels_view(side@), p);
    }
    let k = find_insert_position(side, p);
    if k < side.len() && side[k].price() == p {
        Some(k)
    } else {
        None
    }
}

/// Position of the first order with id `id` in a level.
fn find_order(level: &Level, id: OrderID) -> (r: Option<usize>)
    ensures
        match r {
            Some(j) => order_position(level@.1, id) == Some(j as int) && j < level@.1.len()
                && level@.1[j as int].order_id == id,
            None => order_position(level@.1, id) is None,
        },
{
    let ghost q = level@.1;
    let n = level.len();
    let mut j: usize = 0;
    while j < n
        invariant
            j <= n,
            n == q.len(),
            q == level@.1,
            forall|i: int| 0 <= i < j ==> !#[trigger] has_id(q, id)(i),
        decreases n - j,
    {
        if level.get(j).order_id == id {
            proof {
                lemma_first_where_found(q.len() as int, has_id(q, id), j as int);
            }
            return Some(j);
        }
        j = j + 1;
    }
    proof {
        lemma_first_where_none(q.len() as int, has_id(q, id));
    }
    None
}

/// Cancels order `id` at price `p` on one side.
#[verifier::rlimit(40)]
#[verifier::spinoff_prover]
fn cancel_in_side(side: &mut Vec<Level>, p: Price, id: OrderID, ty: OrderType, sym: TickerSymbol) -> (r: Result<Order, CancelIDNotFoundError>)
    requires
        levels_inv(old(side)@),
        side_wf(levels_view(old(side)@), ty, sym),
    ensures
        levels_inv(final(side)@),
        side_wf(levels_view(final(side)@), ty, sym),
        prices_within(levels_view(final(side)@), levels_view(old(side)@)),
        match cancel_from_side(levels_view(old(side)@), p, id) {
            None => r == Err::<Order, CancelIDNotFoundError>(CancelIDNotFoundError) && final(side)@ == old(side)@,
            Some((new_side, o)) => r == Ok::<Order, CancelIDNotFoundError>(o) && levels_view(final(side)@) == new_side,
        },
{
    let ghost v = levels_view(side@);
    assert forall|k: int| 0 <= k < v.len() implies #[trigger] price_in(v[k].0, v) by {
        assert(v[k].0 == v[k].0);
    }
    let k = match find_level(side, p) {
        Some(k) => k,
        None => return Err(CancelIDNotFoundError),
    };
    let j = match find_order(&side[k], id) {
        Some(j) => j,
        None => return Err(CancelIDNotFoundError),
    };
    assert(queue_wf(v[k as int].1, ty, sym, v[k as int].0));
    let o = side[k].remove(j);
    let ghost q = v[k as int].1.remove(j as int);
    if side[k].len() == 0 {
        side.remove(k);
        proof {
            let r = levels_view(side@);
            assert(r =~= v.remove(k as int));
            assert forall|a: int| 0 <= a < r.len() implies #[trigger] price_in(r[a].0, v) by {
                if a < k {
                    assert(r[a].0 == v[a].0);
                } else {
                    assert(r[a].0 == v[a + 1].0);
                }
            }
            assert forall|a: int, b: int| 0 <= a < b < r.len() implies r[a].0 < r[b].0 by {
                let a2 = if a < k { a } else { a + 1 };
                let b2 = if b < k { b } else { b + 1 };
                assert(r[a] == v[a2]);
                assert(r[b] == v[b2]);
            }
            assert forall|a: int| 0 <= a < r.len() implies {
                &&& 1 <= (#[trigger] r[a]).0 <= MAX_PRICE
                &&& queue_wf(r[a].1, ty, sym, r[a].0)
            } by {
                let a2 = if a < k { a } else { a + 1 };
                assert(r[a] == v[a2]);
            }
        }
    } else {
        proof {
            let r = levels_view(side@);
            assert(r =~= v.update(k as int, (v[k as int].0, q)));
            assert forall|a: int| 0 <= a < r.len() implies #[trigger] price_in(r[a].0, v) by {
                assert(r[a].0 == v[a].0);
            }
            assert(queue_wf(q, ty, sym, v[k as int].0)) by {
                assert forall|x: int| 0 <= x < q.len() implies {
                    let o = #[trigger] q[x];
                    &&& o.price == v[k as int].0
                    &&& o.order_type == ty
                    &&& o.symbol == sym
                    &&& 0 < o.amount <= MAX_ORDER_AMOUNT
                } by {
                    if x < j {
                        assert(q[x] == v[k as int].1[x]);
                    } else {
                        assert(q[x] == v[k as int].1[x + 1]);
                    }
                }
            }
        }
    }
    Ok(o)
}

/// `(price, total volume)` of each level of a side.
pub open spec fn side_volumes(side: Seq<LevelView>) -> Seq<(Price, u64)> {
    side.map_values(|lv: LevelView| (lv.0, total_amount(lv.1) as u64))
}

/// `(price, total volume)` of each level of a side, lowest price first.
fn volumes(side: &Vec<Level>) -> (r: Vec<(Price, u64)>)
    requires
        levels_inv(side@),
    ensures
        r@ == side_volumes(levels_view(side@)),
{
    let mut r: Vec<(Price, u64)> = Vec::new();
    let mut i: usize = 0;
    while i < side.len()
        invariant
            i <= side@.len(),
            levels_inv(side@),
            r@ == side_volumes(levels_view(side@)).take(i as int),
        decreases side.len() - i,
    {
        assert(side@[i as int].inv());
        r.push((side[i].price(), side[i].total()));
        i = i + 1;
        assert(r@ =~= side_volumes(levels_view(side@)).take(i as int));
    }
    assert(side_volumes(levels_view(side@)).take(i as int) =~= side_volumes(levels_view(side@)));
    r
}

/// Some pair of `v` is priced at `p`.
pub open spec fn has_price(v: Seq<(Price, u64)>, p: Price) -> bool {
    exists|i: int| 0 <= i < v.len() && (#[trigger] v[i]).0 == p
}

/// The volume that `v` lists at price `p`, or zero when it lists none.
pub open spec fn volume_at(v: Seq<(Price, u64)>, p: Price) -> u64 {
    if has_price(v, p) {
        v[choose|i: int| 0 <= i < v.len() && (#[trigger] v[i]).0 == p].1
    } else {
        0
    }
}

/// Some row of `rows` is priced at `p`.
pub open spec fn lists_price(rows: Seq<(Price, u64, u64)>, p: Price) -> bool {
    exists|i: int| 0 <= i < rows.len() && (#[trigger] rows[i]).0 == p
}

/// The pairs are in strictly increasing price order.
pub open spec fn prices_increasing(v: Seq<(Price, u64)>) -> bool {
    forall|i: int, j: int| 0 <= i < j < v.len() ==> (#[trigger] v[i]).0 < (#[trigger] v[j]).0
}

/// In a list in increasing price order, the volume at the price of entry `i` is
/// that entry's.
proof fn lemma_volume_at(v: Seq<(Price, u64)>, i: int)
    requires
        prices_increasing(v),
        0 <= i < v.len(),
    ensures
        volume_at(v, v[i].0) == v[i].1,
{
    assert(has_price(v, v[i].0));
    let k = choose|k: int| 0 <= k < v.len() && (#[trigger] v[k]).0 == v[i].0;
    if k < i {
        assert(v[k].0 < v[i].0);
    } else if k > i {
        assert(v[i].0 < v[k].0);
    }
}

/// Merges the `(price, volume)` lists of the asks and the bids into one list of
/// `(price, ask volume, bid volume)`, one entry per price found on either side, in
/// increasing price order.
#[verifier::spinoff_prover]
pub fn merge_volumes(sells: &Vec<(Price, u64)>, buys: &Vec<(Price, u64)>) -> (r: Vec<(Price, u64, u64)>)
    requires
        prices_increasing(sells@),
        prices_increasing(buys@),
    ensures
        forall|i: int, j: int| 0 <= i < j < r@.len() ==> (#[trigger] r@[i]).0 < (#[trigger] r@[j]).0,
        forall|i: int| 0 <= i < r@.len() ==> {
            let e = #[trigger] r@[i];
            &&& has_price(sells@, e.0) || has_price(buys@, e.0)
            &&& e.1 == volume_at(sells@, e.0)
            &&& e.2 == volume_at(buys@, e.0)
        },
        forall|k: int| 0 <= k < sells@.len() ==> lists_price(r@, #[trigger] sells@[k].0),
        forall|k: int| 0 <= k < buys@.len() ==> lists_price(r@, #[trigger] buys@[k].0),
{
    let ghost sv = sells@;
    let ghost bv = buys@;
    let mut r: Vec<(Price, u64, u64)> = Vec::new();
    let mut a: usize = 0;
    let mut b: usize = 0;
    while a < sells.len() || b < buys.len()
        invariant
            a <= sv.len(),
            b <= bv.len(),
            sv == sells@,
            bv == buys@,
            prices_increasing(sv),
            prices_increasing(bv),
            forall|i: int, j: int| 0 <= i < j < r@.len() ==> (#[trigger] r@[i]).0 < (#[trigger] r@[j]).0,
            forall|i: int| 0 <= i < r@.len() ==> {
                let e = #[trigger] r@[i];
                &&& has_price(sv, e.0) || has_price(bv, e.0)
                &&& e.1 == volume_at(sv, e.0)
                &&& e.2 == volume_at(bv, e.0)
            },
            forall|i: int| 0 <= i < r@.len() && a < sv.len() ==> (#[trigger] r@[i]).0 < sv[a as int].0,
            forall|i: int| 0 <= i < r@.len() && b < bv.len() ==> (#[trigger] r@[i]).0 < bv[b as int].0,
            forall|k: int| 0 <= k < a ==> exists|i: int| 0 <= i < r@.len() && (#[trigger] r@[i]).0 == (#[trigger] sv[k]).0,
            forall|k: int| 0 <= k < b ==> exists|i: int| 0 <= i < r@.len() && (#[trigger] r@[i]).0 == (#[trigger] bv[k]).0,
        decreases sv.len() + bv.len() - a - b,
    {
        let ghost r0 = r@;
        let take_sell = a < sells.len() && (b >= buys.len() || sells[a].0 <= buys[b].0);
        let take_buy = b < buys.len() && (a >= sells.len() || buys[b].0 <= sells[a].0);
        let p = if take_sell { sells[a].0 } else { buys[b].0 };
        let sell_vol = if take_sell { sells[a].1 } else { 0 };
        let buy_vol = if take_buy { buys[b].1 } else { 0 };
        proof {
            // Every earlier price on either side is already listed, below `p`.
            assert forall|k: int| 0 <= k < sv.len() && sv[k].0 == p implies take_sell && k == a by {
                if k < a {
                    let i = choose|i: int| 0 <= i < r0.len() && (#[trigger] r0[i]).0 == sv[k].0;
                    if take_sell {
                        assert(r0[i].0 < sv[a as int].0);
                    } else {
                        assert(r0[i].0 < bv[b as int].0);
                    }
                } else if k > a {
                    assert(sv[a as int].0 < sv[k].0);
                    if !take_sell {
                        assert(bv[b as int].0 < sv[a as int].0);
                    }
                } else if !take_sell {
                    assert(bv[b as int].0 < sv[a as int].0);
                }
            }
            assert forall|k: int| 0 <= k < bv.len() && bv[k].0 == p implies take_buy && k == b by {
                if k < b {
                    let i = choose|i: int| 0 <= i < r0.len() && (#[trigger] r0[i]).0 == bv[k].0;
                    if take_buy {
                        assert(r0[i].0 < bv[b as int].0);
                    } else if take_sell {
                        assert(r0[i].0 < sv[a as int].0);
                    }
                } else if k > b {
                    assert(bv[b as int].0 < bv[k].0);
                    if !take_buy {
                        assert(sv[a as int].0 < bv[b as int].0);
                    }
                } else if !take_buy {
                    assert(sv[a as int].0 < bv[b as int].0);
                }
            }
            if take_sell {
                lemma_volume_at(sv, a as int);
            } else {
                assert(!has_price(sv, p));
            }
            if take_buy {
                lemma_volume_at(bv, b as int);
            } else {
                assert(!has_price(bv, p));
            }
        }
        r.push((p, sell_vol, buy_vol));
        if take_sell {
            a = a + 1;
        }
        if take_buy {
            b = b + 1;
        }
        proof {
            let n = r@.len() - 1;
            assert(r@[n].0 == p);
            assert forall|k: int| 0 <= k < a implies exists|i: int| 0 <= i < r@.len() && (#[trigger] r@[i]).0 == (#[trigger] sv[k]).0 by {
                if take_sell && k == a - 1 {
                    assert(r@[n].0 == sv[k].0);
                } else {
                    let i = choose|i: int| 0 <= i < r0.len() && (#[trigger] r0[i]).0 == sv[k].0;
                    assert(r@[i] == r0[i]);
                }
            }
            assert forall|k: int| 0 <= k < b implies exists|i: int| 0 <= i < r@.len() && (#[trigger] r@[i]).0 == (#[trigger] bv[k]).0 by {
                if take_buy && k == b - 1 {
                    assert(r@[n].0 == bv[k].0);
                } else {
                    let i = choose|i: int| 0 <= i < r0.len() && (#[trigger] r0[i]).0 == bv[k].0;
                    assert(r@[i] == r0[i]);
                }
            }
            if a < sv.len() {
                if take_sell {
                    assert(sv[a - 1].0 < sv[a as int].0);
                }
            }
            if b < bv.len() {
                if take_buy {
                    assert(bv[b - 1].0 < bv[b as int].0);
                }
            }
        }
    }
    proof {
        assert forall|k: int| 0 <= k < sells@.len() implies lists_price(r@, #[trigger] sells@[k].0) by {
            assert(k < a);
            assert(sells@[k] == sv[k]);
        }
        assert forall|k: int| 0 <= k < buys@.len() implies lists_price(r@, #[trigger] buys@[k].0) by {
            assert(k < b);
            assert(buys@[k] == bv[k]);
        }
    }
    r
}

impl OrderBook {
    /// One `(price, ask volume, bid volume)` entry for every price at which either
    /// side has orders, in increasing price order.
    pub fn book_state_rows(&self) -> (r: Vec<(Price, u64, u64)>)
        requires
            self.wf(),
        ensures
            forall|i: int, j: int| 0 <= i < j < r@.len() ==> (#[trigger] r@[i]).0 < (#[trigger] r@[j]).0,
            forall|i: int| 0 <= i < r@.len() ==> {
                let e = #[trigger] r@[i];
                &&& has_price(side_volumes(self.asks()), e.0) || has_price(side_volumes(self.bids()), e.0)
                &&& e.1 == volume_at(side_volumes(self.asks()), e.0)
                &&& e.2 == volume_at(side_volumes(self.bids()), e.0)
            },
            forall|k: int| 0 <= k < self.asks().len() ==> lists_price(r@, #[trigger] self.asks()[k].0),
            forall|k: int| 0 <= k < self.bids().len() ==> lists_price(r@, #[trigger] self.bids()[k].0),
    {
        let sells = self.sell_volumes();
        let buys = self.buy_volumes();
        let r = merge_volumes(&sells, &buys);
        proof {
            assert forall|k: int| 0 <= k < self.asks().len() implies lists_price(r@, #[trigger] self.asks()[k].0) by {
                assert(sells@[k].0 == self.asks()[k].0);
            }
            assert forall|k: int| 0 <= k < self.bids().len() implies lists_price(r@, #[trigger] self.bids()[k].0) by {
                assert(buys@[k].0 == self.bids()[k].0);
            }
        }
        r
    }
}

/// An empty book for `symbol`.
pub fn quickstart_order_book(symbol: TickerSymbol) -> (r: OrderBook)
    ensures
        r.wf(),
        r.symbol == symbol,
        r.bids() == Seq::<LevelView>::empty(),
        r.asks() == Seq::<LevelView>::empty(),
        r.price_history@ == Seq::<(u64, u64, u64)>::empty(),
{
    let r = OrderBook {
        symbol,
        buy_side: Vec::new(),
        sell_side: Vec::new(),
        price_history: Vec::new(),
    };
    assert(r.bids() =~= Seq::<LevelView>::empty());
    assert(r.asks() =~= Seq::<LevelView>::empty());
    r
}

} // verus!
