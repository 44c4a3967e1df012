//! What the public market-data messages tell a client: applied to the volumes of
//! a book (a resting order adds its amount at its side and price, a trade or a
//! cancel takes it off), they give the book's volumes after the request.
use vstd::prelude::*;

use crate::config::{ExchangeConfig, TickerSymbol};
use crate::exchange::{
    book_ok, cancel_outcome, exchange_wf, order_error, order_outcome, trade_notices,
    trades_notices, GlobalAccountState, GlobalOrderBookState, Taker,
};
use crate::ledger::{
    ignores_amount, level_sum, weighted, lemma_match_asks, lemma_match_bids, lemma_side_cancel, lemma_side_rest,
    lemma_trades_push, q_ignores_amount, side_all, side_sum, trades_sum,
};
use crate::messages::{Notification, OutgoingMessage};
use crate::orderbook::{
    amount_of, cancel_from_side, has_price, lemma_cancelled_order, queue_wf, resting_order,
    side_volumes, side_wf, total_amount, volume_at, Level, LevelView, Order, OrderBook, OrderType,
    Price, Trade,
};
use crate::sums::{lemma_sum_concat, lemma_sum_push, sum_of};

verus! {

/// Counts an order's shares when it is priced at `p`.
pub open spec fn at_price_w(p: Price) -> spec_fn(Order) -> int {
    |o: Order| if o.price == p { 1int } else { 0int }
}

/// Any order at all.
pub open spec fn any_order() -> spec_fn(Order) -> bool {
    |o: Order| true
}

/// The volume a side has resting at price `p`.
pub open spec fn volume_at_price(side: Seq<LevelView>, p: Price) -> int {
    side_sum(side, at_price_w(p))
}

/// The volume book `b` has resting at price `p` on side `ty`.
pub open spec fn book_volume(b: OrderBook, ty: OrderType, p: Price) -> int {
    volume_at_price(b.own_side(ty), p)
}

/// How a message changes the volume of symbol `sym` at price `p` on side `ty`, as
/// a client applies it: a new resting order adds its amount, a trade takes its
/// amount off the resting side, a cancel takes its amount off.
pub open spec fn event_delta(n: Notification, sym: TickerSymbol, ty: OrderType, p: Price) -> int {
    match n {
        Notification::Broadcast(OutgoingMessage::NewRestingOrderMessage(m)) => if m.symbol == sym && m.side == ty && m.price == p {
            m.amount as int
        } else {
            0
        },
        Notification::Broadcast(OutgoingMessage::TradeOccurredMessage(m)) => if m.symbol == sym && m.resting_side == ty && m.price == p {
            -(m.amount as int)
        } else {
            0
        },
        Notification::Broadcast(OutgoingMessage::CancelOccurredMessage(m)) => if m.symbol == sym && m.side == ty && m.price == p {
            -(m.amount as int)
        } else {
            0
        },
        _ => 0,
    }
}

/// `event_delta` as a weight on messages.
pub open spec fn event_w(sym: TickerSymbol, ty: OrderType, p: Price) -> spec_fn(Notification) -> int {
    |n: Notification| event_delta(n, sym, ty, p)
}

/// The total change a list of messages makes to the volume of `sym` at `p` on `ty`.
pub open spec fn events_delta(ns: Seq<Notification>, sym: TickerSymbol, ty: OrderType, p: Price) -> int {
    sum_of(ns, event_w(sym, ty, p))
}

/// The messages of a list of trades take the traded amounts off the resting side.
proof fn lemma_trade_events(trs: Seq<Trade>, tk: Taker, rs: OrderType, sym: TickerSymbol, ty: OrderType, p: Price)
    requires
        forall|k: int| 0 <= k < trs.len() ==> (#[trigger] trs[k]).resting.order_type == rs,
    ensures
        events_delta(trades_notices(trs, tk), sym, ty, p) == if sym == tk.symbol && ty == rs {
            -trades_sum(trs, at_price_w(p))
        } else {
            0
        },
    decreases trs.len(),
{
    let f = event_w(sym, ty, p);
    if trs.len() == 0 {
        assert(trades_notices(trs, tk) =~= Seq::<Notification>::empty());
        assert(trades_sum(trs, at_price_w(p)) == 0);
    } else {
        let init = trs.drop_last();
        let tr = trs.last();
        assert forall|k: int| 0 <= k < init.len() implies (#[trigger] init[k]).resting.order_type == rs by {
            assert(init[k] == trs[k]);
        }
        lemma_trade_events(init, tk, rs, sym, ty, p);
        let tn = trade_notices(tr, tk);
        lemma_sum_concat(trades_notices(init, tk), tn, f);
        lemma_sum_push(seq![tn[0], tn[1]], tn[2], f);
        lemma_sum_push(seq![tn[0]], tn[1], f);
        crate::sums::lemma_sum_single(tn[0], f);
        assert(seq![tn[0], tn[1]].push(tn[2]) =~= tn);
        assert(seq![tn[0]].push(tn[1]) =~= seq![tn[0], tn[1]]);
        assert(init.push(tr) =~= trs);
        lemma_trades_push(init, tr, at_price_w(p));
        assert(tr.resting.order_type == rs);
    }
}

/// Applying the public messages of an order request to every book's volumes gives
/// the books' volumes afterwards.
#[verifier::spinoff_prover]
pub proof fn law_order_feed(
    cfg: &ExchangeConfig,
    d0: &GlobalOrderBookState,
    a0: &GlobalAccountState,
    d1: &GlobalOrderBookState,
    a1: &GlobalAccountState,
    c0: usize,
    c1: usize,
    req: crate::messages::OrderRequest,
    time: u64,
    resp: crate::messages::OrderPlaceResponse,
    notices: Seq<Notification>,
)
    requires
        exchange_wf(cfg, d0, a0),
        (req.symbol.0 as int) < cfg.num_tickers(),
        (req.trader_id.0 as int) < cfg.num_traders(),
        order_outcome(cfg, d0, a0, d1, a1, c0, c1, req, time, resp, notices),
    ensures
        d1.books@.len() == d0.books@.len(),
        forall|s: int, ty: OrderType, p: Price| 0 <= s < d0.books@.len() ==>
            #[trigger] book_volume(d1.books@[s], ty, p) == book_volume(d0.books@[s], ty, p)
                + events_delta(notices, TickerSymbol(s as u16), ty, p),
{
    let n = cfg.num_traders();
    let si = req.symbol.0 as int;
    if order_error(cfg, d0, a0, req) is Some {
        assert forall|s: int, ty: OrderType, p: Price| 0 <= s < d0.books@.len() implies
            #[trigger] book_volume(d1.books@[s], ty, p) == book_volume(d0.books@[s], ty, p)
                + events_delta(notices, TickerSymbol(s as u16), ty, p) by {
            assert(notices =~= Seq::<Notification>::empty());
        }
    } else {
        let b0 = d0.books@[si];
        let b1 = d1.books@[si];
        let m = b0.match_order(req);
        let oid = c0;
        let tk = Taker { trader: req.trader_id, order_id: oid, side: req.order_type, limit: req.price, symbol: req.symbol, time };
        let rs = if req.order_type == OrderType::Buy { OrderType::Sell } else { OrderType::Buy };
        let rest = resting_order(req, oid, m.2);
        let rest_ns = if m.2 > 0 {
            seq![Notification::Broadcast(OutgoingMessage::NewRestingOrderMessage(crate::messages::NewRestingOrderMessage {
                side: req.order_type,
                amount: m.2,
                symbol: req.symbol,
                price: req.price,
            }))]
        } else {
            Seq::<Notification>::empty()
        };
        assert(notices == trades_notices(m.1, tk) + rest_ns);
        assert(book_ok(b0, si, n));
        assert forall|s: int, ty: OrderType, p: Price| 0 <= s < d0.books@.len() implies
            #[trigger] book_volume(d1.books@[s], ty, p) == book_volume(d0.books@[s], ty, p)
                + events_delta(notices, TickerSymbol(s as u16), ty, p) by {
            let sym = TickerSymbol(s as u16);
            let w = at_price_w(p);
            let f = event_w(sym, ty, p);
            assert(ignores_amount(w));
            assert(q_ignores_amount(any_order()));
            if req.order_type == OrderType::Buy {
                lemma_match_asks(b0.asks(), req.price, req.amount, b0.symbol, w, any_order());
            } else {
                lemma_match_bids(b0.bids(), req.price, req.amount, b0.symbol, w, any_order());
            }
            lemma_trade_events(m.1, tk, rs, sym, ty, p);
            lemma_sum_concat(trades_notices(m.1, tk), rest_ns, f);
            if m.2 > 0 {
                crate::sums::lemma_sum_single(rest_ns[0], f);
                assert(rest_ns =~= seq![rest_ns[0]]);
            } else {
                assert(sum_of(rest_ns, f) == 0);
            }
            if s != si {
                assert(sym != req.symbol);
                assert(d1.books@[s] == d0.books@[s]);
            } else {
                assert(sym == req.symbol);
                if ty == req.order_type {
                    assert(b1.own_side(ty) == b1.own_side(req.order_type));
                    if m.2 > 0 {
                        lemma_side_rest(b0.own_side(req.order_type), rest, w, any_order());
                        if p == req.price {
                            assert(w(rest) * rest.amount == m.2);
                        } else {
                            assert(w(rest) * rest.amount == 0);
                        }
                    }
                } else {
                    assert(ty == rs);
                    assert(b1.own_side(ty) == b1.other_side(req.order_type));
                    assert(b0.own_side(ty) == b0.other_side(req.order_type));
                }
            }
        }
    }
}

/// Applying the public message of a cancel request to every book's volumes gives
/// the books' volumes afterwards.
#[verifier::spinoff_prover]
pub proof fn law_cancel_feed(
    cfg: &ExchangeConfig,
    d0: &GlobalOrderBookState,
    a0: &GlobalAccountState,
    d1: &GlobalOrderBookState,
    a1: &GlobalAccountState,
    req: crate::messages::CancelRequest,
    resp: crate::messages::OrderCancelResponse,
    notices: Seq<Notification>,
)
    requires
        exchange_wf(cfg, d0, a0),
        (req.symbol.0 as int) < cfg.num_tickers(),
        cancel_outcome(cfg, d0, a0, d1, a1, req, resp, notices),
    ensures
        d1.books@.len() == d0.books@.len(),
        forall|s: int, ty: OrderType, p: Price| 0 <= s < d0.books@.len() ==>
            #[trigger] book_volume(d1.books@[s], ty, p) == book_volume(d0.books@[s], ty, p)
                + events_delta(notices, TickerSymbol(s as u16), ty, p),
{
    let n = cfg.num_traders();
    let si = req.symbol.0 as int;
    let b0 = d0.books@[si];
    let b1 = d1.books@[si];
    assert(book_ok(b0, si, n));
    let side0 = b0.own_side(req.side);
    assert forall|s: int, ty: OrderType, p: Price| 0 <= s < d0.books@.len() implies
        #[trigger] book_volume(d1.books@[s], ty, p) == book_volume(d0.books@[s], ty, p)
            + events_delta(notices, TickerSymbol(s as u16), ty, p) by {
        let sym = TickerSymbol(s as u16);
        let w = at_price_w(p);
        let f = event_w(sym, ty, p);
        if s != si {
            assert(d1.books@[s] == d0.books@[s]);
        }
        match cancel_from_side(side0, req.price, req.order_id) {
            None => {
                assert(notices =~= Seq::<Notification>::empty());
            },
            Some((ns, o)) => {
                lemma_cancelled_order(side0, req.price, req.order_id, req.side, b0.symbol);
                assert(side_all(side0, any_order()));
                lemma_side_cancel(side0, req.price, req.order_id, w, any_order());
                crate::sums::lemma_sum_single(notices[0], f);
                assert(notices =~= seq![notices[0]]);
                if s == si {
                    assert(sym == req.symbol);
                    if ty == req.side {
                        if p == req.price {
                            assert(w(o) * o.amount == o.amount);
                        } else {
                            assert(w(o) * o.amount == 0);
                        }
                    } else {
                        assert(b1.own_side(ty) == b1.other_side(req.side));
                        assert(b0.own_side(ty) == b0.other_side(req.side));
                    }
                } else {
                    assert(sym != req.symbol);
                }
            },
        }
    }
}


/// On a well-formed side, the volume at price `p` is what the side's
/// `(price, volume)` list (the book snapshot) gives at `p`: the level's total, or
/// zero when no level is there.
pub proof fn law_volume_matches_snapshot(side: Seq<LevelView>, ty: OrderType, sym: TickerSymbol, p: Price)
    requires
        side_wf(side, ty, sym),
    ensures
        volume_at_price(side, p) == volume_at(side_volumes(side), p) as int,
{
    let w = at_price_w(p);
    let ls = level_sum(w);
    let sv = side_volumes(side);
    // Each level counts its whole queue when priced at `p`, nothing otherwise.
    assert forall|i: int| 0 <= i < side.len() implies #[trigger] ls(side[i]) == if side[i].0 == p {
        total_amount(side[i].1)
    } else {
        0
    } by {
        let q = side[i].1;
        assert(queue_wf(q, ty, sym, side[i].0));
        if side[i].0 == p {
            crate::sums::lemma_sum_ext(q, weighted(w), |o: Order| amount_of(o));
        } else {
            assert forall|j: int| 0 <= j < q.len() implies 0 <= #[trigger] weighted(w)(q[j]) <= 0 by {}
            crate::sums::lemma_sum_bound(q, weighted(w), 0);
        }
    }
    if has_price(sv, p) {
        let k = choose|i: int| 0 <= i < sv.len() && (#[trigger] sv[i]).0 == p;
        assert(sv[k].0 == side[k].0);
        assert(queue_wf(side[k].1, ty, sym, side[k].0));
        Level::lemma_total_bound(side[k].1);
        crate::sums::lemma_sum_remove(side, k, ls);
        let rest = side.remove(k);
        assert forall|j: int| 0 <= j < rest.len() implies 0 <= #[trigger] ls(rest[j]) <= 0 by {
            if j < k {
                assert(rest[j] == side[j]);
                assert(side[j].0 < side[k].0);
            } else {
                assert(rest[j] == side[j + 1]);
                assert(side[k].0 < side[j + 1].0);
            }
        }
        crate::sums::lemma_sum_bound(rest, ls, 0);
    } else {
        assert forall|j: int| 0 <= j < side.len() implies 0 <= #[trigger] ls(side[j]) <= 0 by {
            assert(sv[j].0 == side[j].0);
            if side[j].0 == p {
                assert(has_price(sv, p));
            }
        }
        crate::sums::lemma_sum_bound(side, ls, 0);
    }
}

} // verus!
