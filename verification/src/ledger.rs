//! Weighted sums over the resting orders of a book side, and how matching,
//! resting and cancelling change them. They measure what each trader has reserved.
use vstd::prelude::*;

use crate::config::TickerSymbol;
use crate::orderbook::{
    cancel_from_side, insert_position, lemma_level_index, level_index, order_position, rest_order,
    consume_front, lemma_consume_front, match_asks, match_bids, min_amount, queue_wf, reduce_queue,
    side_wf, LevelView, Order, OrderType, Trade, MAX_ORDER_AMOUNT, MAX_PRICE,
};
use crate::config::lemma_first_where_some;
use crate::sums::{
    lemma_sum_drop_first, lemma_sum_insert, lemma_sum_push, lemma_sum_remove, lemma_sum_single,
    lemma_sum_update, sum_of,
};

verus! {

/// A per-order weight that does not depend on the order's amount.
pub open spec fn ignores_amount(w: spec_fn(Order) -> int) -> bool {
    forall|o: Order, a: u64| #[trigger] w(Order { amount: a, ..o }) == w(o)
}

/// An order's weight times its amount.
pub open spec fn weighted(w: spec_fn(Order) -> int) -> spec_fn(Order) -> int {
    |o: Order| w(o) * o.amount
}

/// The weighted sum over one level's queue.
pub open spec fn level_sum(w: spec_fn(Order) -> int) -> spec_fn(LevelView) -> int {
    |lv: LevelView| sum_of(lv.1, weighted(w))
}

/// The weighted sum over every order of a side.
pub open spec fn side_sum(side: Seq<LevelView>, w: spec_fn(Order) -> int) -> int {
    sum_of(side, level_sum(w))
}

/// The weighted sum over a list of trades, each counted for its traded amount.
pub open spec fn trades_sum(trades: Seq<Trade>, w: spec_fn(Order) -> int) -> int {
    sum_of(trades, trade_weight(w))
}

/// A trade's resting-order weight times its traded amount.
pub open spec fn trade_weight(w: spec_fn(Order) -> int) -> spec_fn(Trade) -> int {
    |tr: Trade| w(tr.resting) * tr.amount
}

/// A trade's traded amount.
pub open spec fn trade_amount() -> spec_fn(Trade) -> int {
    |tr: Trade| tr.amount as int
}

/// Total shares traded in a list of trades.
pub open spec fn traded_amount(trades: Seq<Trade>) -> int {
    sum_of(trades, trade_amount())
}

/// Appending a trade adds its weighted amount.
pub proof fn lemma_trades_push(trs: Seq<Trade>, tr: Trade, w: spec_fn(Order) -> int)
    ensures
        trades_sum(trs.push(tr), w) == trades_sum(trs, w) + w(tr.resting) * tr.amount,
        traded_amount(trs.push(tr)) == traded_amount(trs) + tr.amount,
{
    lemma_sum_push(trs, tr, trade_weight(w));
    lemma_sum_push(trs, tr, trade_amount());
}

/// Every order of a side satisfies `q`.
pub open spec fn side_all(side: Seq<LevelView>, q: spec_fn(Order) -> bool) -> bool {
    forall|i: int, j: int| 0 <= i < side.len() && 0 <= j < side[i].1.len() ==> #[trigger] q(side[i].1[j])
}

/// A predicate on orders that does not depend on the order's amount.
pub open spec fn q_ignores_amount(q: spec_fn(Order) -> bool) -> bool {
    forall|o: Order, a: u64| #[trigger] q(Order { amount: a, ..o }) == q(o)
}

/// Taking `t` shares off the front order of level `i` lowers the weighted sum by
/// the front order's weight times `t`.
pub proof fn lemma_side_sum_consume(side: Seq<LevelView>, i: int, t: u64, w: spec_fn(Order) -> int)
    requires
        ignores_amount(w),
        0 <= i < side.len(),
        side[i].1.len() > 0,
        0 < t <= side[i].1[0].amount,
    ensures
        side_sum(consume_front(side, i, t), w) == side_sum(side, w) - w(side[i].1[0]) * t,
{
    let q = side[i].1;
    let o = q[0];
    let f = weighted(w);
    let rq = reduce_queue(q, t);
    if t < o.amount {
        let o2 = Order { amount: (o.amount - t) as u64, ..o };
        lemma_sum_update(q, 0, o2, f);
        assert(w(o2) == w(o));
        assert(f(o) - f(o2) == w(o) * t) by {
            assert(w(o) * o.amount - w(o) * (o.amount - t) == w(o) * t) by (nonlinear_arith);
        }
    } else {
        lemma_sum_drop_first(q, f);
    }
    let ls = level_sum(w);
    assert(ls(side[i]) == sum_of(q, f));
    if rq.len() > 0 {
        lemma_sum_update(side, i, (side[i].0, rq), ls);
        assert(ls((side[i].0, rq)) == sum_of(rq, f));
    } else {
        lemma_sum_remove(side, i, ls);
        assert(rq =~= Seq::<Order>::empty());
        assert(sum_of(rq, f) == 0);
    }
}

/// Taking shares off a front order keeps every order satisfying `q`.
pub proof fn lemma_side_all_consume(side: Seq<LevelView>, i: int, t: u64, q: spec_fn(Order) -> bool)
    requires
        q_ignores_amount(q),
        side_all(side, q),
        0 <= i < side.len(),
        side[i].1.len() > 0,
        0 < t <= side[i].1[0].amount,
    ensures
        side_all(consume_front(side, i, t), q),
{
    let r = consume_front(side, i, t);
    let rq = reduce_queue(side[i].1, t);
    let o = side[i].1[0];
    assert forall|a: int, b: int| 0 <= a < r.len() && 0 <= b < r[a].1.len() implies #[trigger] q(r[a].1[b]) by {
        if rq.len() > 0 {
            if a == i {
                if t < o.amount {
                    if b == 0 {
                        assert(q(Order { amount: (o.amount - t) as u64, ..o }) == q(o));
                        assert(q(side[i].1[0]));
                    } else {
                        assert(q(side[i].1[b]));
                    }
                } else {
                    assert(r[a].1[b] == side[i].1[b + 1]);
                    assert(q(side[i].1[b + 1]));
                }
            } else {
                assert(q(side[a].1[b]));
            }
        } else {
            if a < i {
                assert(q(side[a].1[b]));
            } else {
                assert(r[a] == side[a + 1]);
                assert(q(side[a + 1].1[b]));
            }
        }
    }
}

/// What matching an incoming buy does to weighted sums over the asks, and what the
/// trades are: each is with an ask priced at or below the limit, of a positive
/// amount no larger than the resting order's, and the traded amounts add up to what
/// was filled.
#[verifier::spinoff_prover]
pub proof fn lemma_match_asks(
    asks: Seq<LevelView>,
    limit: u64,
    remaining: u64,
    sym: TickerSymbol,
    w: spec_fn(Order) -> int,
    q: spec_fn(Order) -> bool,
)
    requires
        side_wf(asks, OrderType::Sell, sym),
        ignores_amount(w),
        q_ignores_amount(q),
        side_all(asks, q),
    ensures
        ({
            let m = match_asks(asks, limit, remaining);
            &&& side_sum(m.0, w) == side_sum(asks, w) - trades_sum(m.1, w)
            &&& m.2 + traded_amount(m.1) == remaining
            &&& m.2 <= remaining
            &&& side_wf(m.0, OrderType::Sell, sym)
            &&& side_all(m.0, q)
            &&& forall|k: int|
                0 <= k < m.1.len() ==> {
                    let tr = #[trigger] m.1[k];
                    &&& 0 < tr.amount <= tr.resting.amount
                    &&& 1 <= tr.resting.price <= limit
                    &&& tr.resting.order_type == OrderType::Sell
                    &&& tr.resting.symbol == sym
                    &&& tr.resting.amount <= MAX_ORDER_AMOUNT
                    &&& q(tr.resting)
                }
        }),
    decreases remaining,
{
    let m = match_asks(asks, limit, remaining);
    if remaining == 0 || asks.len() == 0 || asks[0].0 > limit || asks[0].1.len() == 0
        || asks[0].1[0].amount == 0 {
        assert(sum_of(Seq::<Trade>::empty(), trade_weight(w)) == 0);
        assert(sum_of(Seq::<Trade>::empty(), trade_amount()) == 0);
    } else {
        let o = asks[0].1[0];
        let t = min_amount(remaining, o.amount);
        let nxt = consume_front(asks, 0, t);
        assert(queue_wf(asks[0].1, OrderType::Sell, sym, asks[0].0));
        lemma_side_sum_consume(asks, 0, t, w);
        lemma_consume_front(asks, 0, t, OrderType::Sell, sym);
        lemma_side_all_consume(asks, 0, t, q);
        lemma_match_asks(nxt, limit, (remaining - t) as u64, sym, w, q);
        let rest = match_asks(nxt, limit, (remaining - t) as u64);
        let tr = Trade { resting: o, amount: t };
        assert(m.1 == seq![tr] + rest.1);
        let g = trade_weight(w);
        let h = trade_amount();
        crate::sums::lemma_sum_concat(seq![tr], rest.1, g);
        crate::sums::lemma_sum_concat(seq![tr], rest.1, h);
        crate::sums::lemma_sum_single(tr, g);
        crate::sums::lemma_sum_single(tr, h);
        assert(q(asks[0].1[0]));
        assert forall|k: int| 0 <= k < m.1.len() implies {
            let tr = #[trigger] m.1[k];
            &&& 0 < tr.amount <= tr.resting.amount
            &&& 1 <= tr.resting.price <= limit
            &&& tr.resting.order_type == OrderType::Sell
            &&& tr.resting.symbol == sym
            &&& tr.resting.amount <= MAX_ORDER_AMOUNT
            &&& q(tr.resting)
        } by {
            if k > 0 {
                assert(m.1[k] == rest.1[k - 1]);
            }
        }
    }
}

/// What matching an incoming sell does to weighted sums over the bids, and what the
/// trades are: each is with a bid priced at or above the limit.
#[verifier::spinoff_prover]
pub proof fn lemma_match_bids(
    bids: Seq<LevelView>,
    limit: u64,
    remaining: u64,
    sym: TickerSymbol,
    w: spec_fn(Order) -> int,
    q: spec_fn(Order) -> bool,
)
    requires
        side_wf(bids, OrderType::Buy, sym),
        ignores_amount(w),
        q_ignores_amount(q),
        side_all(bids, q),
    ensures
        ({
            let m = match_bids(bids, limit, remaining);
            &&& side_sum(m.0, w) == side_sum(bids, w) - trades_sum(m.1, w)
            &&& m.2 + traded_amount(m.1) == remaining
            &&& m.2 <= remaining
            &&& side_wf(m.0, OrderType::Buy, sym)
            &&& side_all(m.0, q)
            &&& forall|k: int|
                0 <= k < m.1.len() ==> {
                    let tr = #[trigger] m.1[k];
                    &&& 0 < tr.amount <= tr.resting.amount
                    &&& limit <= tr.resting.price <= MAX_PRICE
                    &&& tr.resting.order_type == OrderType::Buy
                    &&& tr.resting.symbol == sym
                    &&& tr.resting.amount <= MAX_ORDER_AMOUNT
                    &&& q(tr.resting)
                }
        }),
    decreases remaining,
{
    let m = match_bids(bids, limit, remaining);
    if remaining == 0 || bids.len() == 0 || bids.last().0 < limit || bids.last().1.len() == 0
        || bids.last().1[0].amount == 0 {
        assert(sum_of(Seq::<Trade>::empty(), trade_weight(w)) == 0);
        assert(sum_of(Seq::<Trade>::empty(), trade_amount()) == 0);
    } else {
        let last = bids.len() - 1;
        let o = bids.last().1[0];
        let t = min_amount(remaining, o.amount);
        let nxt = consume_front(bids, last, t);
        assert(queue_wf(bids[last].1, OrderType::Buy, sym, bids[last].0));
        lemma_side_sum_consume(bids, last, t, w);
        lemma_consume_front(bids, last, t, OrderType::Buy, sym);
        lemma_side_all_consume(bids, last, t, q);
        lemma_match_bids(nxt, limit, (remaining - t) as u64, sym, w, q);
        let rest = match_bids(nxt, limit, (remaining - t) as u64);
        let tr = Trade { resting: o, amount: t };
        assert(m.1 == seq![tr] + rest.1);
        let g = trade_weight(w);
        let h = trade_amount();
        crate::sums::lemma_sum_concat(seq![tr], rest.1, g);
        crate::sums::lemma_sum_concat(seq![tr], rest.1, h);
        crate::sums::lemma_sum_single(tr, g);
        crate::sums::lemma_sum_single(tr, h);
        assert(q(bids[last].1[0]));
        assert forall|k: int| 0 <= k < m.1.len() implies {
            let tr = #[trigger] m.1[k];
            &&& 0 < tr.amount <= tr.resting.amount
            &&& limit <= tr.resting.price <= MAX_PRICE
            &&& tr.resting.order_type == OrderType::Buy
            &&& tr.resting.symbol == sym
            &&& tr.resting.amount <= MAX_ORDER_AMOUNT
            &&& q(tr.resting)
        } by {
            if k > 0 {
                assert(m.1[k] == rest.1[k - 1]);
            }
        }
    }
}

/// Resting an order adds its weighted amount to the side's sum, and keeps every
/// order satisfying `q` when the new one does.
#[verifier::spinoff_prover]
pub proof fn lemma_side_rest(side: Seq<LevelView>, o: Order, w: spec_fn(Order) -> int, q: spec_fn(Order) -> bool)
    requires
        forall|i: int, j: int| 0 <= i < j < side.len() ==> side[i].0 < side[j].0,
        side_all(side, q),
        q(o),
    ensures
        side_sum(rest_order(side, o), w) == side_sum(side, w) + w(o) * o.amount,
        side_all(rest_order(side, o), q),
{
    lemma_level_index(side, o.price);
    let k = insert_position(side, o.price);
    let f = weighted(w);
    let ls = level_sum(w);
    let r = rest_order(side, o);
    if k < side.len() && side[k].0 == o.price {
        let nq = side[k].1.push(o);
        lemma_sum_push(side[k].1, o, f);
        lemma_sum_update(side, k, (o.price, nq), ls);
        assert(ls((o.price, nq)) == sum_of(nq, f));
        assert forall|a: int, b: int| 0 <= a < r.len() && 0 <= b < r[a].1.len() implies #[trigger] q(r[a].1[b]) by {
            if a == k && b < side[k].1.len() {
                assert(r[a].1[b] == side[k].1[b]);
            } else if a != k {
                assert(r[a] == side[a]);
            }
        }
    } else {
        lemma_sum_single(o, f);
        lemma_sum_insert(side, k, (o.price, seq![o]), ls);
        assert(ls((o.price, seq![o])) == sum_of(seq![o], f));
        assert forall|a: int, b: int| 0 <= a < r.len() && 0 <= b < r[a].1.len() implies #[trigger] q(r[a].1[b]) by {
            if a < k {
                assert(r[a] == side[a]);
            } else if a > k {
                assert(r[a] == side[a - 1]);
            }
        }
    }
}

/// Cancelling an order takes its weighted amount off the side's sum and keeps every
/// order satisfying `q`.
#[verifier::spinoff_prover]
pub proof fn lemma_side_cancel(side: Seq<LevelView>, p: u64, id: usize, w: spec_fn(Order) -> int, q: spec_fn(Order) -> bool)
    requires
        side_all(side, q),
        cancel_from_side(side, p, id) is Some,
    ensures
        ({
            let (ns, o) = cancel_from_side(side, p, id)->0;
            &&& side_sum(ns, w) == side_sum(side, w) - w(o) * o.amount
            &&& side_all(ns, q)
            &&& q(o)
        }),
{
    let k = level_index(side, p)->0;
    lemma_first_where_some(side.len() as int, crate::orderbook::priced_at(side, p));
    let lq = side[k].1;
    let j = order_position(lq, id)->0;
    lemma_first_where_some(lq.len() as int, crate::orderbook::has_id(lq, id));
    let nq = lq.remove(j);
    let f = weighted(w);
    let ls = level_sum(w);
    lemma_sum_remove(lq, j, f);
    let (ns, o) = cancel_from_side(side, p, id)->0;
    assert(q(lq[j]));
    if nq.len() > 0 {
        lemma_sum_update(side, k, (side[k].0, nq), ls);
        assert(ls((side[k].0, nq)) == sum_of(nq, f));
        assert forall|a: int, b: int| 0 <= a < ns.len() && 0 <= b < ns[a].1.len() implies #[trigger] q(ns[a].1[b]) by {
            if a == k {
                if b < j {
                    assert(ns[a].1[b] == lq[b]);
                } else {
                    assert(ns[a].1[b] == lq[b + 1]);
                }
            } else {
                assert(ns[a] == side[a]);
            }
        }
    } else {
        lemma_sum_remove(side, k, ls);
        assert(nq =~= Seq::<Order>::empty());
        assert(sum_of(nq, f) == 0);
        assert forall|a: int, b: int| 0 <= a < ns.len() && 0 <= b < ns[a].1.len() implies #[trigger] q(ns[a].1[b]) by {
            if a < k {
                assert(ns[a] == side[a]);
            } else {
                assert(ns[a] == side[a + 1]);
            }
        }
    }
}

} // verus!
