//! The whole exchange: one book per symbol, one account per trader, and the
//! operations that place and cancel orders while keeping every trader's reserved
//! cash and shares equal to what their resting orders need.
use vstd::prelude::*;
use std::collections::HashMap;

use crate::accounts::{quickstart_trader_account, AccountView, TraderAccount, MAX_ACTIVE_ORDERS};
use crate::config::{ExchangeConfig, TickerSymbol, TraderId};
use crate::messages::{
    CancelConfirmMessage, CancelError, CancelErrorMessage, CancelOccurredMessage, CancelRequest, OrderCancelResponse,
    NewRestingOrderMessage, Notification, OrderConfirmMessage, OrderFillMessage, OrderPlaceError,
    OrderPlaceErrorMessage, OrderPlaceResponse, OrderRequest, OutgoingMessage, TradeOccurredMessage,
};
use crate::ledger::{lemma_match_asks, lemma_match_bids, lemma_side_cancel, lemma_side_rest, lemma_trades_push, side_all, side_sum, trade_amount, trade_weight, trades_sum, traded_amount};
use crate::orderbook::{cancel_from_side, lemma_cancelled_order, history_entries, match_asks, match_bids, quickstart_order_book, level_count, resting_order, rest_order, MAX_LEVEL_ORDERS, MAX_ORDER_AMOUNT, MAX_PRICE, Fill, LevelView, Order, OrderBook, OrderID, OrderType, Trade};
use crate::sums::sum_of;

verus! {

broadcast use vstd::std_specs::hash::group_hash_axioms;

/// Balances never get near the limits of their integer types: every operation moves
/// a balance by far less than the room this leaves.
pub const BALANCE_LIMIT: u64 = 2_305_843_009_213_693_952;

/// One order book per configured symbol, indexed by the symbol.
pub struct GlobalOrderBookState {
    pub books: Vec<OrderBook>,
}

/// One account per configured trader, indexed by the trader id.
pub struct GlobalAccountState {
    pub accounts: Vec<TraderAccount>,
}

/// The views of all accounts.
pub open spec fn accounts_view(v: Seq<TraderAccount>) -> Seq<AccountView> {
    v.map_values(|a: TraderAccount| a@)
}

/// An order's price when it belongs to trader `u`, else nothing.
pub open spec fn value_w(u: TraderId) -> spec_fn(Order) -> int {
    |o: Order| if o.trader_id == u { o.price as int } else { 0 }
}

/// One per share when the order belongs to trader `u`, else nothing.
pub open spec fn shares_w(u: TraderId) -> spec_fn(Order) -> int {
    |o: Order| if o.trader_id == u { 1 } else { 0 }
}

/// An order's price.
pub open spec fn price_w() -> spec_fn(Order) -> int {
    |o: Order| o.price as int
}

/// The order belongs to one of the first `n` traders.
pub open spec fn trader_ok(n: nat) -> spec_fn(Order) -> bool {
    |o: Order| (o.trader_id.0 as int) < n
}

/// Cents reserved by trader `u`'s resting buy orders in one book.
pub open spec fn book_reserved_cents(b: OrderBook, u: TraderId) -> int {
    side_sum(b.bids(), value_w(u))
}

/// Cents reserved by trader `u`'s resting buy orders across all books.
pub open spec fn reserved_cents(books: Seq<OrderBook>, u: TraderId) -> int {
    sum_of(books, book_cents_w(u))
}

/// A book's cents reserved by trader `u`.
pub open spec fn book_cents_w(u: TraderId) -> spec_fn(OrderBook) -> int {
    |b: OrderBook| book_reserved_cents(b, u)
}

/// Shares reserved by trader `u`'s resting sell orders in one book.
pub open spec fn reserved_shares(b: OrderBook, u: TraderId) -> int {
    side_sum(b.asks(), shares_w(u))
}

impl GlobalOrderBookState {
    /// An empty book for every configured symbol.
    pub fn new(cfg: &ExchangeConfig) -> (r: GlobalOrderBookState)
        requires
            cfg.wf(),
        ensures
            r.books@.len() == cfg.num_tickers(),
            forall|s: int| 0 <= s < r.books@.len() ==> {
                let b = #[trigger] r.books@[s];
                &&& b.wf()
                &&& b.symbol == TickerSymbol(s as u16)
                &&& b.bids() == Seq::<LevelView>::empty()
                &&& b.asks() == Seq::<LevelView>::empty()
                &&& b.price_history@ == Seq::<(u64, u64, u64)>::empty()
            },
    {
        let symbols = TickerSymbol::all(cfg);
        let mut books: Vec<OrderBook> = Vec::new();
        let mut i: usize = 0;
        while i < symbols.len()
            invariant
                i <= symbols@.len(),
                symbols@.len() == cfg.num_tickers(),
                cfg.num_tickers() <= 65536,
                forall|j: int| 0 <= j < symbols@.len() ==> (#[trigger] symbols@[j]).0 == j,
                books@.len() == i,
                forall|s: int| 0 <= s < i ==> {
                    let b = #[trigger] books@[s];
                    &&& b.wf()
                    &&& b.symbol == TickerSymbol(s as u16)
                    &&& b.bids() == Seq::<LevelView>::empty()
                    &&& b.asks() == Seq::<LevelView>::empty()
                    &&& b.price_history@ == Seq::<(u64, u64, u64)>::empty()
                },
            decreases symbols.len() - i,
        {
            books.push(quickstart_order_book(symbols[i]));
            i = i + 1;
        }
        GlobalOrderBookState { books }
    }

    /// The book of `symbol`.
    pub fn index_ref(&self, symbol: &TickerSymbol) -> (r: &OrderBook)
        requires
            (symbol.0 as int) < self.books@.len(),
        ensures
            *r == self.books@[symbol.0 as int],
    {
        &self.books[symbol.0 as usize]
    }
}

impl GlobalAccountState {
    /// A fresh account for every configured trader, with the configured starting
    /// balances and passwords.
    pub fn new(cfg: &ExchangeConfig) -> (r: GlobalAccountState)
        requires
            cfg.wf(),
        ensures
            r.accounts@.len() == cfg.num_traders(),
            forall|t: int| 0 <= t < r.accounts@.len() ==> (#[trigger] r.accounts@[t])@ == (AccountView {
                trader_id: TraderId(t as u16),
                cents_balance: cfg.start_cents_balance,
                password: cfg.trader_passwords@[t],
                active_orders: Map::empty(),
                net_cents_balance: cfg.start_cents_balance,
                asset_balances: Seq::new(cfg.num_tickers(), |i: int| cfg.start_asset_balance),
                net_asset_balances: Seq::new(cfg.num_tickers(), |i: int| cfg.start_asset_balance),
            }),
    {
        let ids = TraderId::all(cfg);
        let mut accounts: Vec<TraderAccount> = Vec::new();
        let mut i: usize = 0;
        while i < ids.len()
            invariant
                i <= ids@.len(),
                cfg.wf(),
                ids@.len() == cfg.num_traders(),
                forall|j: int| 0 <= j < ids@.len() ==> (#[trigger] ids@[j]).0 == j,
                accounts@.len() == i,
                forall|t: int| 0 <= t < i ==> (#[trigger] accounts@[t])@ == (AccountView {
                    trader_id: TraderId(t as u16),
                    cents_balance: cfg.start_cents_balance,
                    password: cfg.trader_passwords@[t],
                    active_orders: Map::empty(),
                    net_cents_balance: cfg.start_cents_balance,
                    asset_balances: Seq::new(cfg.num_tickers(), |i: int| cfg.start_asset_balance),
                    net_asset_balances: Seq::new(cfg.num_tickers(), |i: int| cfg.start_asset_balance),
                }),
            decreases ids.len() - i,
        {
            let id = ids[i];
            let pw = cfg.trader_passwords[i];
            accounts.push(quickstart_trader_account(cfg, id, cfg.start_cents_balance, cfg.start_asset_balance, pw));
            i = i + 1;
        }
        GlobalAccountState { accounts }
    }

    /// The account of `account_id`.
    pub fn index_ref(&self, account_id: TraderId) -> (r: &TraderAccount)
        requires
            (account_id.0 as int) < self.accounts@.len(),
        ensures
            *r == self.accounts@[account_id.0 as int],
    {
        &self.accounts[account_id.0 as usize]
    }
}

/// A resting order's entry after `t` of its shares traded: gone when none are left.
pub open spec fn reduce_active(m: Map<OrderID, Order>, id: OrderID, t: u64) -> Map<OrderID, Order> {
    if m.contains_key(id) {
        if t >= m[id].amount {
            m.remove(id)
        } else {
            m.insert(id, Order { amount: (m[id].amount - t) as u64, ..m[id] })
        }
    } else {
        m
    }
}

/// The buyer's account after a fill: shares in, cash out (unless the buyer is the
/// price enforcer), and the buy order's entry reduced.
pub open spec fn buyer_after(a: AccountView, f: Fill, buy_id: OrderID, is_enforcer: bool) -> AccountView {
    let s = f.symbol.0 as int;
    let a1 = if is_enforcer {
        a
    } else {
        AccountView {
            asset_balances: a.asset_balances.update(s, (a.asset_balances[s] + f.amount) as i64),
            net_asset_balances: a.net_asset_balances.update(s, (a.net_asset_balances[s] + f.amount) as i64),
            cents_balance: (a.cents_balance - f.amount * f.price) as u64,
            ..a
        }
    };
    AccountView { active_orders: reduce_active(a1.active_orders, buy_id, f.amount), ..a1 }
}

/// The seller's account after a fill: shares out, cash in (unless the seller is the
/// price enforcer), and the sell order's entry reduced.
pub open spec fn seller_after(a: AccountView, f: Fill, sell_id: OrderID, is_enforcer: bool) -> AccountView {
    let s = f.symbol.0 as int;
    let a1 = if is_enforcer {
        a
    } else {
        AccountView {
            asset_balances: a.asset_balances.update(s, (a.asset_balances[s] - f.amount) as i64),
            cents_balance: (a.cents_balance + f.amount * f.price) as u64,
            net_cents_balance: (a.net_cents_balance + f.amount * f.price) as u64,
            ..a
        }
    };
    AccountView { active_orders: reduce_active(a1.active_orders, sell_id, f.amount), ..a1 }
}

/// All accounts after a fill: the buyer's first, then the seller's.
pub open spec fn fill_applied(accts: Seq<AccountView>, f: Fill, buy_id: OrderID, sell_id: OrderID, enforcer: TraderId) -> Seq<AccountView> {
    let b = f.buy_trader_id.0 as int;
    let x = f.sell_trader_id.0 as int;
    let a1 = accts.update(b, buyer_after(accts[b], f, buy_id, f.buy_trader_id == enforcer));
    a1.update(x, seller_after(a1[x], f, sell_id, f.sell_trader_id == enforcer))
}

/// Takes `t` shares off order `id` in an active-order map, removing it when none
/// are left.
fn reduce_active_order(m: &mut HashMap<OrderID, Order>, id: OrderID, t: u64)
    ensures
        final(m)@ == reduce_active(old(m)@, id, t),
{
    let cur = match m.get(&id) {
        Some(o) => *o,
        None => return,
    };
    if t >= cur.amount {
        m.remove(&id);
    } else {
        m.insert(id, Order { amount: cur.amount - t, ..cur });
    }
}

impl GlobalAccountState {
    /// Settles one fill between the buyer's and the seller's accounts.
    pub fn handle_fill_event(&mut self, enforcer: TraderId, fill: &Fill, buy_order_id: OrderID, sell_order_id: OrderID)
        requires
            ({
                let accts = accounts_view(old(self).accounts@);
                let b = fill.buy_trader_id.0 as int;
                let x = fill.sell_trader_id.0 as int;
                let s = fill.symbol.0 as int;
                let value = fill.amount * fill.price;
                &&& b < accts.len()
                &&& x < accts.len()
                &&& fill.amount <= MAX_ORDER_AMOUNT
                &&& fill.price <= MAX_PRICE
                &&& s < accts[b].asset_balances.len()
                &&& s < accts[b].net_asset_balances.len()
                &&& s < accts[x].asset_balances.len()
                &&& fill.buy_trader_id != enforcer ==> {
                    &&& accts[b].cents_balance >= value
                    &&& accts[b].asset_balances[s] + fill.amount <= i64::MAX
                    &&& accts[b].net_asset_balances[s] + fill.amount <= i64::MAX
                }
                &&& fill.sell_trader_id != enforcer ==> {
                    &&& accts[x].cents_balance + value <= u64::MAX
                    &&& accts[x].net_cents_balance + value <= u64::MAX
                    &&& accts[x].asset_balances[s] - fill.amount >= i64::MIN
                }
            }),
        ensures
            accounts_view(final(self).accounts@) == fill_applied(
                accounts_view(old(self).accounts@),
                *fill,
                buy_order_id,
                sell_order_id,
                enforcer,
            ),
    {
        let ghost accts = accounts_view(self.accounts@);
        let b = fill.buy_trader_id.0 as usize;
        let x = fill.sell_trader_id.0 as usize;
        assert(fill.amount * fill.price <= MAX_ORDER_AMOUNT * MAX_PRICE) by (nonlinear_arith)
            requires
                fill.amount <= MAX_ORDER_AMOUNT,
                fill.price <= MAX_PRICE,
        ;
        let value = fill.amount * fill.price;
        if fill.buy_trader_id != enforcer {
            let acct = &mut self.accounts[b];
            let cur = *acct.asset_balances.index_ref(&fill.symbol);
            acct.asset_balances.set(&fill.symbol, cur + fill.amount as i64);
            let cur_net = *acct.net_asset_balances.index_ref(&fill.symbol);
            acct.net_asset_balances.set(&fill.symbol, cur_net + fill.amount as i64);
            acct.cents_balance = acct.cents_balance - value;
        }
        reduce_active_order(&mut self.accounts[b].active_orders, buy_order_id, fill.amount);
        let ghost mid = accounts_view(self.accounts@);
        assert(mid =~= accts.update(
            b as int,
            buyer_after(accts[b as int], *fill, buy_order_id, fill.buy_trader_id == enforcer),
        ));
        if fill.sell_trader_id != enforcer {
            let acct = &mut self.accounts[x];
            let cur = *acct.asset_balances.index_ref(&fill.symbol);
            acct.asset_balances.set(&fill.symbol, cur - fill.amount as i64);
            acct.cents_balance = acct.cents_balance + value;
            acct.net_cents_balance = acct.net_cents_balance + value;
        }
        reduce_active_order(&mut self.accounts[x].active_orders, sell_order_id, fill.amount);
        assert(accounts_view(self.accounts@) =~= mid.update(
            x as int,
            seller_after(mid[x as int], *fill, sell_order_id, fill.sell_trader_id == enforcer),
        ));
    }
}

/// The incoming order that the trades of one request were made against.
#[derive(Debug, Clone, Copy, PartialEq, Eq, Structural)]
pub struct Taker {
    pub trader: TraderId,
    pub order_id: OrderID,
    pub side: OrderType,
    pub limit: u64,
    pub symbol: TickerSymbol,
    pub time: u64,
}

/// The fill that a trade against the taker settles.
pub open spec fn trade_fill(tr: Trade, tk: Taker) -> Fill {
    Fill {
        sell_trader_id: if tk.side == OrderType::Buy { tr.resting.trader_id } else { tk.trader },
        buy_trader_id: if tk.side == OrderType::Buy { tk.trader } else { tr.resting.trader_id },
        amount: tr.amount,
        price: tr.resting.price,
        symbol: tk.symbol,
        trade_time: 1,
        resting_side: tr.resting.order_type,
    }
}

/// The id of the buy order in a trade against the taker.
pub open spec fn buy_order_id(tr: Trade, tk: Taker) -> OrderID {
    if tk.side == OrderType::Buy { tk.order_id } else { tr.resting.order_id }
}

/// The id of the sell order in a trade against the taker.
pub open spec fn sell_order_id(tr: Trade, tk: Taker) -> OrderID {
    if tk.side == OrderType::Buy { tr.resting.order_id } else { tk.order_id }
}

/// Accounts after one trade is settled: the fill, then for an incoming buy that
/// traded below its limit the cash reserved above the trade price is released.
pub open spec fn trade_settled(accts: Seq<AccountView>, tr: Trade, tk: Taker, enforcer: TraderId) -> Seq<AccountView> {
    let a = fill_applied(accts, trade_fill(tr, tk), buy_order_id(tr, tk), sell_order_id(tr, tk), enforcer);
    if tk.side == OrderType::Buy && tr.resting.price < tk.limit && tk.trader != enforcer {
        let t = tk.trader.0 as int;
        a.update(t, AccountView {
            net_cents_balance: (a[t].net_cents_balance + (tk.limit - tr.resting.price) * tr.amount) as u64,
            ..a[t]
        })
    } else {
        a
    }
}

/// Accounts after a list of trades is settled in order.
pub open spec fn trades_settled(accts: Seq<AccountView>, trades: Seq<Trade>, tk: Taker, enforcer: TraderId) -> Seq<AccountView>
    decreases trades.len(),
{
    if trades.len() == 0 {
        accts
    } else {
        trade_settled(trades_settled(accts, trades.drop_last(), tk, enforcer), trades.last(), tk, enforcer)
    }
}

/// The messages one trade sends: a fill to the buyer, a fill to the seller, and the
/// public trade report.
pub open spec fn trade_notices(tr: Trade, tk: Taker) -> Seq<Notification> {
    let f = trade_fill(tr, tk);
    seq![
        Notification::Direct(f.buy_trader_id, OutgoingMessage::OrderFillMessage(OrderFillMessage {
            order_id: buy_order_id(tr, tk),
            amount_filled: f.amount,
            price: f.price,
        })),
        Notification::Direct(f.sell_trader_id, OutgoingMessage::OrderFillMessage(OrderFillMessage {
            order_id: sell_order_id(tr, tk),
            amount_filled: f.amount,
            price: f.price,
        })),
        Notification::Broadcast(OutgoingMessage::TradeOccurredMessage(TradeOccurredMessage {
            amount: f.amount,
            symbol: f.symbol,
            resting_side: f.resting_side,
            price: f.price,
            time: tk.time,
        })),
    ]
}

/// The messages a list of trades sends, in order.
pub open spec fn trades_notices(trades: Seq<Trade>, tk: Taker) -> Seq<Notification>
    decreases trades.len(),
{
    if trades.len() == 0 {
        Seq::empty()
    } else {
        trades_notices(trades.drop_last(), tk) + trade_notices(trades.last(), tk)
    }
}

/// The messages of a list of trades, three per trade and in the trades' order:
/// the buyer's fill, the seller's fill, then the public trade report. Each fill
/// goes to a trader of the trade and names that trader's own order: the incoming
/// order's trader gets the incoming order's id, the resting order's trader the
/// resting order's id; both carry the traded amount at the resting order's price.
pub proof fn law_fills_name_own_orders(trs: Seq<Trade>, tk: Taker)
    ensures
        trades_notices(trs, tk).len() == 3 * trs.len(),
        forall|k: int| 0 <= k < trs.len() ==> {
            let tr = #[trigger] trs[k];
            let ns = trades_notices(trs, tk);
            let to_taker = Notification::Direct(tk.trader, OutgoingMessage::OrderFillMessage(OrderFillMessage {
                order_id: tk.order_id,
                amount_filled: tr.amount,
                price: tr.resting.price,
            }));
            let to_resting = Notification::Direct(tr.resting.trader_id, OutgoingMessage::OrderFillMessage(OrderFillMessage {
                order_id: tr.resting.order_id,
                amount_filled: tr.amount,
                price: tr.resting.price,
            }));
            &&& ns[3 * k] == if tk.side == OrderType::Buy { to_taker } else { to_resting }
            &&& ns[3 * k + 1] == if tk.side == OrderType::Buy { to_resting } else { to_taker }
            &&& ns[3 * k + 2] == Notification::Broadcast(OutgoingMessage::TradeOccurredMessage(TradeOccurredMessage {
                amount: tr.amount,
                symbol: tk.symbol,
                resting_side: tr.resting.order_type,
                price: tr.resting.price,
                time: tk.time,
            }))
        },
    decreases trs.len(),
{
    if trs.len() > 0 {
        let init = trs.drop_last();
        law_fills_name_own_orders(init, tk);
        let ns = trades_notices(trs, tk);
        let ni = trades_notices(init, tk);
        let last = trade_notices(trs.last(), tk);
        assert(ns == ni + last);
        assert forall|k: int| 0 <= k < trs.len() implies {
            let tr = #[trigger] trs[k];
            let to_taker = Notification::Direct(tk.trader, OutgoingMessage::OrderFillMessage(OrderFillMessage {
                order_id: tk.order_id,
                amount_filled: tr.amount,
                price: tr.resting.price,
            }));
            let to_resting = Notification::Direct(tr.resting.trader_id, OutgoingMessage::OrderFillMessage(OrderFillMessage {
                order_id: tr.resting.order_id,
                amount_filled: tr.amount,
                price: tr.resting.price,
            }));
            &&& ns[3 * k] == if tk.side == OrderType::Buy { to_taker } else { to_resting }
            &&& ns[3 * k + 1] == if tk.side == OrderType::Buy { to_resting } else { to_taker }
            &&& ns[3 * k + 2] == Notification::Broadcast(OutgoingMessage::TradeOccurredMessage(TradeOccurredMessage {
                amount: tr.amount,
                symbol: tk.symbol,
                resting_side: tr.resting.order_type,
                price: tr.resting.price,
                time: tk.time,
            }))
        } by {
            if k < init.len() {
                assert(init[k] == trs[k]);
                assert(ns[3 * k] == ni[3 * k]);
                assert(ns[3 * k + 1] == ni[3 * k + 1]);
                assert(ns[3 * k + 2] == ni[3 * k + 2]);
            } else {
                assert(trs[k] == trs.last());
                assert(ns[3 * k] == last[0]);
                assert(ns[3 * k + 1] == last[1]);
                assert(ns[3 * k + 2] == last[2]);
            }
        }
    }
}

/// One when `b` holds, zero otherwise.
pub open spec fn ind(b: bool) -> int {
    if b { 1 } else { 0 }
}

/// Trader `u`'s balances in `ak`, after trades `trs` against taker `tk`, compared
/// with those in `a0` before, in closed form: cash and shares moved by exactly the
/// traded values and amounts.
pub open spec fn settled_balances(a0: AccountView, ak: AccountView, u: TraderId, trs: Seq<Trade>, tk: Taker) -> bool {
    let s = tk.symbol.0 as int;
    let pv = trades_sum(trs, price_w());
    let q = traded_amount(trs);
    let v = trades_sum(trs, value_w(u));
    let sh = trades_sum(trs, shares_w(u));
    &&& ak.trader_id == a0.trader_id
    &&& ak.password == a0.password
    &&& ak.asset_balances.len() == a0.asset_balances.len()
    &&& ak.net_asset_balances.len() == a0.net_asset_balances.len()
    &&& forall|j: int| 0 <= j < a0.asset_balances.len() && j != s ==> ak.asset_balances[j] == a0.asset_balances[j]
    &&& forall|j: int| 0 <= j < a0.net_asset_balances.len() && j != s ==> ak.net_asset_balances[j] == a0.net_asset_balances[j]
    &&& if tk.side == OrderType::Buy {
        if u == tk.trader {
            &&& ak.cents_balance == a0.cents_balance - pv + v
            &&& ak.net_cents_balance == a0.net_cents_balance + tk.limit * q - pv + v
            &&& ak.asset_balances[s] == a0.asset_balances[s] + q - sh
            &&& ak.net_asset_balances[s] == a0.net_asset_balances[s] + q
        } else {
            &&& ak.cents_balance == a0.cents_balance + v
            &&& ak.net_cents_balance == a0.net_cents_balance + v
            &&& ak.asset_balances[s] == a0.asset_balances[s] - sh
            &&& ak.net_asset_balances[s] == a0.net_asset_balances[s]
        }
    } else {
        if u == tk.trader {
            &&& ak.cents_balance == a0.cents_balance - v + pv
            &&& ak.net_cents_balance == a0.net_cents_balance + pv
            &&& ak.asset_balances[s] == a0.asset_balances[s] + sh - q
            &&& ak.net_asset_balances[s] == a0.net_asset_balances[s] + sh
        } else {
            &&& ak.cents_balance == a0.cents_balance - v
            &&& ak.net_cents_balance == a0.net_cents_balance
            &&& ak.asset_balances[s] == a0.asset_balances[s] + sh
            &&& ak.net_asset_balances[s] == a0.net_asset_balances[s] + sh
        }
    }
}

/// Balances that leave room for any one settlement.
pub open spec fn roomy(a: AccountView, s: int) -> bool {
    &&& a.cents_balance <= u64::MAX / 2
    &&& a.net_cents_balance <= u64::MAX / 2
    &&& 0 <= s < a.asset_balances.len()
    &&& 0 <= s < a.net_asset_balances.len()
    &&& -(i64::MAX / 2) <= a.asset_balances[s] <= i64::MAX / 2
    &&& -(i64::MAX / 2) <= a.net_asset_balances[s] <= i64::MAX / 2
}

/// What settling one trade does to each account's balances.
#[verifier::spinoff_prover]
proof fn lemma_trade_delta(accts: Seq<AccountView>, tr: Trade, tk: Taker, enforcer: TraderId, u: int)
    requires
        0 <= u < accts.len(),
        (tr.resting.trader_id.0 as int) < accts.len(),
        (tk.trader.0 as int) < accts.len(),
        0 < tr.amount <= MAX_ORDER_AMOUNT,
        tr.resting.price <= MAX_PRICE,
        tk.limit <= MAX_PRICE,
        tk.side == OrderType::Buy ==> tr.resting.price <= tk.limit,
        forall|v: int| 0 <= v < accts.len() && TraderId(v as u16) != enforcer ==> roomy(#[trigger] accts[v], tk.symbol.0 as int),
        forall|v: int| 0 <= v < accts.len() ==> (#[trigger] accts[v]).asset_balances.len() > tk.symbol.0,
        forall|v: int| 0 <= v < accts.len() ==> (#[trigger] accts[v]).net_asset_balances.len() > tk.symbol.0,
        ({
            let f = trade_fill(tr, tk);
            f.buy_trader_id != enforcer ==> accts[f.buy_trader_id.0 as int].cents_balance >= f.amount * f.price
        }),
        forall|v: int| 0 <= v < accts.len() ==> (#[trigger] accts[v]).trader_id == TraderId(v as u16),
    ensures
        ({
            let a = accts[u];
            let b = trade_settled(accts, tr, tk, enforcer)[u];
            let f = trade_fill(tr, tk);
            let s = tk.symbol.0 as int;
            let val = tr.resting.price * tr.amount;
            let is_b = ind(u == f.buy_trader_id.0 && f.buy_trader_id != enforcer);
            let is_x = ind(u == f.sell_trader_id.0 && f.sell_trader_id != enforcer);
            let refund = if tk.side == OrderType::Buy && tk.trader != enforcer && u == tk.trader.0 {
                tk.limit * tr.amount - val
            } else {
                0
            };
            &&& trade_settled(accts, tr, tk, enforcer).len() == accts.len()
            &&& b.trader_id == a.trader_id
            &&& b.password == a.password
            &&& b.cents_balance == a.cents_balance - is_b * val + is_x * val
            &&& b.net_cents_balance == a.net_cents_balance + is_x * val + refund
            &&& b.asset_balances.len() == a.asset_balances.len()
            &&& b.net_asset_balances.len() == a.net_asset_balances.len()
            &&& b.asset_balances[s] == a.asset_balances[s] + is_b * tr.amount - is_x * tr.amount
            &&& b.net_asset_balances[s] == a.net_asset_balances[s] + is_b * tr.amount
            &&& forall|j: int| 0 <= j < a.asset_balances.len() && j != s ==> b.asset_balances[j] == a.asset_balances[j]
            &&& forall|j: int| 0 <= j < a.net_asset_balances.len() && j != s ==> b.net_asset_balances[j] == a.net_asset_balances[j]
        }),
{
    let f = trade_fill(tr, tk);
    let bi = f.buy_trader_id.0 as int;
    let xi = f.sell_trader_id.0 as int;
    let s = tk.symbol.0 as int;
    let val = tr.resting.price * tr.amount;
    assert(val <= MAX_ORDER_AMOUNT * MAX_PRICE) by (nonlinear_arith)
        requires
            val == tr.resting.price * tr.amount,
            tr.amount <= MAX_ORDER_AMOUNT,
            tr.resting.price <= MAX_PRICE,
    ;
    assert(f.amount * f.price == val) by (nonlinear_arith)
        requires
            val == tr.resting.price * tr.amount,
            f.amount == tr.amount,
            f.price == tr.resting.price,
    ;
    let a1 = accts.update(bi, buyer_after(accts[bi], f, buy_order_id(tr, tk), f.buy_trader_id == enforcer));
    let a2 = a1.update(xi, seller_after(a1[xi], f, sell_order_id(tr, tk), f.sell_trader_id == enforcer));
    assert(f.buy_trader_id == TraderId(bi as u16));
    assert(f.sell_trader_id == TraderId(xi as u16));
    let a = accts[u];
    let is_b = ind(u == bi && f.buy_trader_id != enforcer);
    let is_x = ind(u == xi && f.sell_trader_id != enforcer);
    assert(a1[u].cents_balance == a.cents_balance - is_b * val);
    assert(a1[u].net_cents_balance == a.net_cents_balance);
    assert(a1[u].asset_balances.len() == a.asset_balances.len());
    assert(a1[u].net_asset_balances.len() == a.net_asset_balances.len());
    assert(a1[u].asset_balances[s] == a.asset_balances[s] + is_b * tr.amount);
    assert(a1[u].net_asset_balances[s] == a.net_asset_balances[s] + is_b * tr.amount);
    assert(forall|j: int| 0 <= j < a.asset_balances.len() && j != s ==> a1[u].asset_balances[j] == a.asset_balances[j]);
    assert(forall|j: int| 0 <= j < a.net_asset_balances.len() && j != s ==> a1[u].net_asset_balances[j] == a.net_asset_balances[j]);
    assert(a1[u].trader_id == a.trader_id && a1[u].password == a.password);
    assert(a2[u].cents_balance == a1[u].cents_balance + is_x * val);
    assert(a2[u].net_cents_balance == a1[u].net_cents_balance + is_x * val);
    assert(a2[u].asset_balances.len() == a.asset_balances.len());
    assert(a2[u].net_asset_balances.len() == a.net_asset_balances.len());
    assert(a2[u].asset_balances[s] == a1[u].asset_balances[s] - is_x * tr.amount);
    assert(a2[u].net_asset_balances[s] == a1[u].net_asset_balances[s]);
    assert(forall|j: int| 0 <= j < a.asset_balances.len() && j != s ==> a2[u].asset_balances[j] == a1[u].asset_balances[j]);
    assert(forall|j: int| 0 <= j < a.net_asset_balances.len() && j != s ==> a2[u].net_asset_balances[j] == a1[u].net_asset_balances[j]);
    assert(a2[u].trader_id == a.trader_id && a2[u].password == a.password);
    if tk.side == OrderType::Buy {
        assert((tk.limit - tr.resting.price) * tr.amount == tk.limit * tr.amount - val) by (nonlinear_arith)
            requires
                val == tr.resting.price * tr.amount,
        ;
        assert((tk.limit - tr.resting.price) * tr.amount <= MAX_PRICE * MAX_ORDER_AMOUNT) by (nonlinear_arith)
            requires
                tk.limit - tr.resting.price <= MAX_PRICE,
                tk.limit - tr.resting.price >= 0,
                tr.amount <= MAX_ORDER_AMOUNT,
        ;
        if tr.resting.price == tk.limit {
            assert(tk.limit * tr.amount - val == 0) by (nonlinear_arith)
                requires
                    tk.limit == tr.resting.price,
                    val == tr.resting.price * tr.amount,
            ;
        }
    }
}

/// Settling one more trade keeps each account's balances in closed form.
#[verifier::spinoff_prover]
#[verifier::rlimit(40)]
proof fn lemma_settle_step(a0: Seq<AccountView>, ak: Seq<AccountView>, trs: Seq<Trade>, tr: Trade, tk: Taker, enforcer: TraderId, u: int)
    requires
        ak.len() <= 65536,
        0 <= u < ak.len(),
        u < a0.len(),
        TraderId(u as u16) != enforcer,
        (tr.resting.trader_id.0 as int) < ak.len(),
        (tk.trader.0 as int) < ak.len(),
        0 < tr.amount <= MAX_ORDER_AMOUNT,
        tr.resting.price <= MAX_PRICE,
        tk.limit <= MAX_PRICE,
        tk.side == OrderType::Buy ==> tr.resting.price <= tk.limit,
        forall|v: int| 0 <= v < ak.len() && TraderId(v as u16) != enforcer ==> roomy(#[trigger] ak[v], tk.symbol.0 as int),
        forall|v: int| 0 <= v < ak.len() ==> (#[trigger] ak[v]).asset_balances.len() > tk.symbol.0,
        forall|v: int| 0 <= v < ak.len() ==> (#[trigger] ak[v]).net_asset_balances.len() > tk.symbol.0,
        ({
            let f = trade_fill(tr, tk);
            f.buy_trader_id != enforcer ==> ak[f.buy_trader_id.0 as int].cents_balance >= f.amount * f.price
        }),
        forall|v: int| 0 <= v < ak.len() ==> (#[trigger] ak[v]).trader_id == TraderId(v as u16),
        settled_balances(a0[u], ak[u], TraderId(u as u16), trs, tk),
    ensures
        settled_balances(a0[u], trade_settled(ak, tr, tk, enforcer)[u], TraderId(u as u16), trs.push(tr), tk),
{
    lemma_trade_delta(ak, tr, tk, enforcer, u);
    let uid = TraderId(u as u16);
    lemma_trades_push(trs, tr, price_w());
    lemma_trades_push(trs, tr, value_w(uid));
    lemma_trades_push(trs, tr, shares_w(uid));
    let q = traded_amount(trs);
    assert(tk.limit * (q + tr.amount) == tk.limit * q + tk.limit * tr.amount) by (nonlinear_arith);
    assert((u == tr.resting.trader_id.0) == (tr.resting.trader_id == uid));
    assert((u == tk.trader.0) == (tk.trader == uid));
}

/// The trades of one request: each against a known trader, of a positive amount
/// no larger than an order may be, at a valid price (for a buy, within its limit).
pub open spec fn trades_ok(trs: Seq<Trade>, tk: Taker, n: nat) -> bool {
    forall|k: int| 0 <= k < trs.len() ==> {
        let tr = #[trigger] trs[k];
        &&& (tr.resting.trader_id.0 as int) < n
        &&& 0 < tr.amount <= MAX_ORDER_AMOUNT
        &&& tr.resting.price <= MAX_PRICE
        &&& tk.side == OrderType::Buy ==> tr.resting.price <= tk.limit
    }
}

/// Sums over at most as many trades as an order has shares stay small.
#[verifier::spinoff_prover]
proof fn lemma_trades_bounds(trs: Seq<Trade>, tk: Taker, n: nat, u: TraderId)
    requires
        trades_ok(trs, tk, n),
        trs.len() <= MAX_ORDER_AMOUNT,
    ensures
        0 <= trades_sum(trs, price_w()) <= 100_000_000_000_000,
        0 <= trades_sum(trs, value_w(u)) <= trades_sum(trs, price_w()),
        0 <= trades_sum(trs, shares_w(u)) <= traded_amount(trs),
        0 <= traded_amount(trs) <= 100_000_000,
    decreases trs.len(),
{
    if trs.len() > 0 {
        let init = trs.drop_last();
        assert forall|k: int| 0 <= k < init.len() implies {
            let tr = #[trigger] init[k];
            &&& (tr.resting.trader_id.0 as int) < n
            &&& 0 < tr.amount <= MAX_ORDER_AMOUNT
            &&& tr.resting.price <= MAX_PRICE
            &&& tk.side == OrderType::Buy ==> tr.resting.price <= tk.limit
        } by {
            assert(init[k] == trs[k]);
        }
        lemma_trades_bounds(init, tk, n, u);
        let tr = trs.last();
        assert(trs[trs.len() - 1] == tr);
        assert(init.push(tr) =~= trs);
        lemma_trades_push(init, tr, price_w());
        lemma_trades_push(init, tr, value_w(u));
        lemma_trades_push(init, tr, shares_w(u));
        assert(tr.resting.price * tr.amount <= 10_000_000_000) by (nonlinear_arith)
            requires
                tr.resting.price <= MAX_PRICE,
                tr.amount <= MAX_ORDER_AMOUNT,
        ;
        assert(0 <= tr.resting.price * tr.amount) by (nonlinear_arith);
        assert(trades_sum(init, price_w()) <= (init.len() as int) * 10_000_000_000) by {
            lemma_trades_price_bound(init, tk, n);
        }
        assert(traded_amount(init) <= (init.len() as int) * 10_000) by {
            lemma_trades_amount_bound(init, tk, n);
        }
        assert((init.len() as int) * 10_000_000_000 + 10_000_000_000 <= 100_000_000_000_000) by (nonlinear_arith)
            requires
                init.len() < MAX_ORDER_AMOUNT,
        ;
        assert((init.len() as int) * 10_000 + 10_000 <= 100_000_000) by (nonlinear_arith)
            requires
                init.len() < MAX_ORDER_AMOUNT,
        ;
    }
}

/// Each trade is worth at most the largest price times the largest amount.
proof fn lemma_trades_price_bound(trs: Seq<Trade>, tk: Taker, n: nat)
    requires
        trades_ok(trs, tk, n),
    ensures
        trades_sum(trs, price_w()) <= (trs.len() as int) * 10_000_000_000,
{
    let f = trade_weight(price_w());
    assert forall|i: int| 0 <= i < trs.len() implies 0 <= #[trigger] f(trs[i]) <= 10_000_000_000 by {
        let tr = trs[i];
        assert(tr.resting.price * tr.amount <= 10_000_000_000) by (nonlinear_arith)
            requires
                tr.resting.price <= MAX_PRICE,
                tr.amount <= MAX_ORDER_AMOUNT,
        ;
        assert(0 <= tr.resting.price * tr.amount) by (nonlinear_arith);
    }
    crate::sums::lemma_sum_bound(trs, f, 10_000_000_000);
}

/// Each trade is of at most the largest amount.
proof fn lemma_trades_amount_bound(trs: Seq<Trade>, tk: Taker, n: nat)
    requires
        trades_ok(trs, tk, n),
    ensures
        traded_amount(trs) <= (trs.len() as int) * 10_000,
{
    let f = trade_amount();
    assert forall|i: int| 0 <= i < trs.len() implies 0 <= #[trigger] f(trs[i]) <= 10_000 by {}
    crate::sums::lemma_sum_bound(trs, f, 10_000);
}

/// Accounts whose balances stay within the limits.
pub open spec fn within_limits(a: AccountView, m: nat) -> bool {
    &&& a.cents_balance <= BALANCE_LIMIT
    &&& a.net_cents_balance <= BALANCE_LIMIT
    &&& a.asset_balances.len() == m
    &&& a.net_asset_balances.len() == m
    &&& forall|j: int| 0 <= j < m ==> -(BALANCE_LIMIT as int) <= #[trigger] a.asset_balances[j] <= BALANCE_LIMIT
    &&& forall|j: int| 0 <= j < m ==> -(BALANCE_LIMIT as int) <= #[trigger] a.net_asset_balances[j] <= BALANCE_LIMIT
}

/// Settles a request's trades one by one, in order, and queues their messages.
#[verifier::spinoff_prover]
fn settle_trades(
    accounts: &mut GlobalAccountState,
    enforcer: TraderId,
    trades: &Vec<Trade>,
    tk: Taker,
    m: Ghost<nat>,
    notices: &mut Vec<Notification>,
)
    requires
        ({
            let a0 = accounts_view(old(accounts).accounts@);
            let n = a0.len();
            &&& n <= 65536
            &&& (tk.trader.0 as int) < n
            &&& tk.limit <= MAX_PRICE
            &&& (tk.symbol.0 as int) < m@
            &&& trades_ok(trades@, tk, n)
            &&& trades@.len() <= traded_amount(trades@) <= MAX_ORDER_AMOUNT
            &&& forall|v: int| 0 <= v < n ==> (#[trigger] a0[v]).trader_id == TraderId(v as u16)
            &&& forall|v: int| 0 <= v < n ==> (#[trigger] a0[v]).asset_balances.len() == m@
            &&& forall|v: int| 0 <= v < n ==> (#[trigger] a0[v]).net_asset_balances.len() == m@
            &&& forall|v: int| 0 <= v < n && TraderId(v as u16) != enforcer ==> within_limits(#[trigger] a0[v], m@)
            &&& tk.side == OrderType::Buy && tk.trader != enforcer ==> a0[tk.trader.0 as int].cents_balance >= tk.limit * traded_amount(trades@)
            &&& tk.side == OrderType::Sell ==> forall|v: int| 0 <= v < n && TraderId(v as u16) != enforcer ==> (#[trigger] a0[v]).cents_balance >= trades_sum(trades@, value_w(TraderId(v as u16)))
        }),
    ensures
        accounts_view(final(accounts).accounts@) == trades_settled(accounts_view(old(accounts).accounts@), trades@, tk, enforcer),
        final(notices)@ == old(notices)@ + trades_notices(trades@, tk),
        ({
            let a0 = accounts_view(old(accounts).accounts@);
            let a1 = accounts_view(final(accounts).accounts@);
            &&& a1.len() == a0.len()
            &&& forall|v: int| 0 <= v < a0.len() && TraderId(v as u16) != enforcer ==> settled_balances(#[trigger] a0[v], a1[v], TraderId(v as u16), trades@, tk)
            &&& forall|v: int| 0 <= v < a0.len() ==> (#[trigger] a1[v]).trader_id == a0[v].trader_id && a1[v].password == a0[v].password
                && a1[v].asset_balances.len() == a0[v].asset_balances.len() && a1[v].net_asset_balances.len() == a0[v].net_asset_balances.len()
            &&& forall|v: int| 0 <= v < a0.len() && TraderId(v as u16) == enforcer ==> {
                &&& (#[trigger] a1[v]).cents_balance == a0[v].cents_balance
                &&& a1[v].net_cents_balance == a0[v].net_cents_balance
                &&& a1[v].asset_balances == a0[v].asset_balances
                &&& a1[v].net_asset_balances == a0[v].net_asset_balances
            }
        }),
{
    let ghost a0 = accounts_view(accounts.accounts@);
    let ghost n = a0.len();
    let ghost old_notices = notices@;
    let ghost sym = tk.symbol.0 as int;
    let mut k: usize = 0;
    assert(trades@.take(0) =~= Seq::<Trade>::empty());
    assert forall|v: int| 0 <= v < n && TraderId(v as u16) != enforcer implies settled_balances(#[trigger] a0[v], a0[v], TraderId(v as u16), trades@.take(0), tk) by {
        assert(trades_sum(Seq::<Trade>::empty(), price_w()) == 0);
        assert(trades_sum(Seq::<Trade>::empty(), value_w(TraderId(v as u16))) == 0);
        assert(trades_sum(Seq::<Trade>::empty(), shares_w(TraderId(v as u16))) == 0);
        assert(traded_amount(Seq::<Trade>::empty()) == 0);
    }
    while k < trades.len()
        invariant
            k <= trades@.len(),
            n == a0.len(),
            n <= 65536,
            (tk.trader.0 as int) < n,
            tk.limit <= MAX_PRICE,
            sym == tk.symbol.0 as int,
            sym < m@,
            trades_ok(trades@, tk, n),
            trades@.len() <= traded_amount(trades@) <= MAX_ORDER_AMOUNT,
            forall|v: int| 0 <= v < n ==> (#[trigger] a0[v]).trader_id == TraderId(v as u16),
            forall|v: int| 0 <= v < n ==> (#[trigger] a0[v]).asset_balances.len() == m@,
            forall|v: int| 0 <= v < n ==> (#[trigger] a0[v]).net_asset_balances.len() == m@,
            forall|v: int| 0 <= v < n && TraderId(v as u16) != enforcer ==> within_limits(#[trigger] a0[v], m@),
            tk.side == OrderType::Buy && tk.trader != enforcer ==> a0[tk.trader.0 as int].cents_balance >= tk.limit * traded_amount(trades@),
            tk.side == OrderType::Sell ==> forall|v: int| 0 <= v < n && TraderId(v as u16) != enforcer ==> (#[trigger] a0[v]).cents_balance >= trades_sum(trades@, value_w(TraderId(v as u16))),
            accounts_view(accounts.accounts@) == trades_settled(a0, trades@.take(k as int), tk, enforcer),
            notices@ == old_notices + trades_notices(trades@.take(k as int), tk),
            accounts_view(accounts.accounts@).len() == n,
            forall|v: int| 0 <= v < n && TraderId(v as u16) != enforcer ==> settled_balances(#[trigger] a0[v], accounts_view(accounts.accounts@)[v], TraderId(v as u16), trades@.take(k as int), tk),
            forall|v: int| 0 <= v < n ==> (#[trigger] accounts_view(accounts.accounts@)[v]).trader_id == a0[v].trader_id
                && accounts_view(accounts.accounts@)[v].password == a0[v].password
                && accounts_view(accounts.accounts@)[v].asset_balances.len() == a0[v].asset_balances.len()
                && accounts_view(accounts.accounts@)[v].net_asset_balances.len() == a0[v].net_asset_balances.len(),
            forall|v: int| 0 <= v < n && TraderId(v as u16) == enforcer ==> {
                &&& (#[trigger] accounts_view(accounts.accounts@)[v]).cents_balance == a0[v].cents_balance
                &&& accounts_view(accounts.accounts@)[v].net_cents_balance == a0[v].net_cents_balance
                &&& accounts_view(accounts.accounts@)[v].asset_balances == a0[v].asset_balances
                &&& accounts_view(accounts.accounts@)[v].net_asset_balances == a0[v].net_asset_balances
            },
            tk.side == OrderType::Buy ==> trades_sum(trades@.take(k as int), price_w()) <= tk.limit * traded_amount(trades@.take(k as int)),
        decreases trades.len() - k,
    {
        let tr = trades[k];
        let ghost ak = accounts_view(accounts.accounts@);
        let ghost tk_k = trades@.take(k as int);
        let ghost tk_k1 = trades@.take(k + 1);
        assert(tk_k1 =~= tk_k.push(tr));
        assert(tk_k1.drop_last() =~= tk_k);
        proof {
            // Prefix sums never exceed the totals.
            crate::sums::lemma_sum_split(trades@, k + 1, trade_amount());
            crate::sums::lemma_sum_ge_zero(trades@.skip(k + 1), trade_amount());
            assert(trades@.take(k + 1) == tk_k1);
            assert forall|v: int| 0 <= v < n implies #[trigger] trades_sum(tk_k1, value_w(TraderId(v as u16)))
                <= trades_sum(trades@, value_w(TraderId(v as u16))) by {
                let w = value_w(TraderId(v as u16));
                crate::sums::lemma_sum_split(trades@, k + 1, trade_weight(w));
                assert forall|x: Trade| #[trigger] trade_weight(w)(x) >= 0 by {
                    let c = w(x.resting);
                    assert(c >= 0);
                    assert(c * x.amount >= 0) by (nonlinear_arith)
                        requires
                            c >= 0,
                    ;
                }
                crate::sums::lemma_sum_ge_zero(trades@.skip(k + 1), trade_weight(w));
            }
            lemma_trades_push(tk_k, tr, price_w());
            if tk.side == OrderType::Buy {
                assert(tr.resting.price * tr.amount <= tk.limit * tr.amount) by (nonlinear_arith)
                    requires
                        tr.resting.price <= tk.limit,
                ;
                assert(tk.limit * (traded_amount(tk_k) + tr.amount) == tk.limit * traded_amount(tk_k) + tk.limit * tr.amount) by (nonlinear_arith);
                assert(tk.limit * traded_amount(tk_k1) <= tk.limit * traded_amount(trades@)) by (nonlinear_arith)
                    requires
                        traded_amount(tk_k1) <= traded_amount(trades@),
                ;
            }
            // The prefix is short, so its sums are small.
            assert forall|x: int| 0 <= x < tk_k.len() implies {
                let t2 = #[trigger] tk_k[x];
                &&& (t2.resting.trader_id.0 as int) < n
                &&& 0 < t2.amount <= MAX_ORDER_AMOUNT
                &&& t2.resting.price <= MAX_PRICE
                &&& tk.side == OrderType::Buy ==> t2.resting.price <= tk.limit
            } by {
                assert(tk_k[x] == trades@[x]);
            }
            assert forall|v: int| 0 <= v < n && TraderId(v as u16) != enforcer implies roomy(#[trigger] ak[v], sym) by {
                lemma_trades_bounds(tk_k, tk, n, TraderId(v as u16));
                assert(a0[v].asset_balances[sym] <= BALANCE_LIMIT);
                assert(a0[v].net_asset_balances[sym] <= BALANCE_LIMIT);
                assert(-(BALANCE_LIMIT as int) <= a0[v].asset_balances[sym]);
                assert(-(BALANCE_LIMIT as int) <= a0[v].net_asset_balances[sym]);
                if tk.side == OrderType::Buy && TraderId(v as u16) == tk.trader {
                    assert(tk.limit * traded_amount(tk_k) <= 1_000_000 * 100_000_000) by (nonlinear_arith)
                        requires
                            tk.limit <= 1_000_000,
                            0 <= traded_amount(tk_k) <= 100_000_000,
                    ;
                }
            }
            assert forall|v: int| 0 <= v < n implies (#[trigger] ak[v]).asset_balances.len() > tk.symbol.0 by {}
            assert forall|v: int| 0 <= v < n implies (#[trigger] ak[v]).net_asset_balances.len() > tk.symbol.0 by {}
            assert forall|v: int| 0 <= v < n implies (#[trigger] ak[v]).trader_id == TraderId(v as u16) by {}
            // The buyer can pay.
            let f = trade_fill(tr, tk);
            assert(f.amount * f.price == tr.resting.price * tr.amount) by (nonlinear_arith)
                requires
                    f.amount == tr.amount,
                    f.price == tr.resting.price,
            ;
            if f.buy_trader_id != enforcer {
                let bi = f.buy_trader_id.0 as int;
                let bid = TraderId(bi as u16);
                assert(bid == f.buy_trader_id);
                lemma_trades_bounds(tk_k, tk, n, bid);
                if tk.side == OrderType::Sell {
                    lemma_trades_push(tk_k, tr, value_w(bid));
                    assert(a0[bi].cents_balance >= trades_sum(trades@, value_w(bid)));
                } else {
                    assert(a0[bi].cents_balance >= tk.limit * traded_amount(trades@));
                }
            }
        }
        let buy_trader_id = if tk.side == OrderType::Buy { tk.trader } else { tr.resting.trader_id };
        let sell_trader_id = if tk.side == OrderType::Buy { tr.resting.trader_id } else { tk.trader };
        let buy_id = if tk.side == OrderType::Buy { tk.order_id } else { tr.resting.order_id };
        let sell_id = if tk.side == OrderType::Buy { tr.resting.order_id } else { tk.order_id };
        let fill = Fill {
            sell_trader_id,
            buy_trader_id,
            amount: tr.amount,
            price: tr.resting.price,
            symbol: tk.symbol,
            trade_time: 1,
            resting_side: tr.resting.order_type,
        };
        proof {
            assert(fill == trade_fill(tr, tk));
            let bi = fill.buy_trader_id.0 as int;
            let xi = fill.sell_trader_id.0 as int;
            assert(bi < ak.len() && xi < ak.len());
            assert(fill.amount * fill.price <= 10_000_000_000) by (nonlinear_arith)
                requires
                    fill.amount <= MAX_ORDER_AMOUNT,
                    fill.price <= MAX_PRICE,
            ;
            if fill.buy_trader_id != enforcer {
                assert(roomy(ak[bi], sym));
                let bid = TraderId(bi as u16);
                lemma_trades_bounds(tk_k, tk, n, bid);
                assert(settled_balances(a0[bi], ak[bi], bid, tk_k, tk));
                if tk.side == OrderType::Sell {
                    assert(tr.resting.trader_id == bid);
                    assert(value_w(bid)(tr.resting) == tr.resting.price);
                    assert(trades_sum(tk_k1, value_w(bid)) == trades_sum(tk_k, value_w(bid)) + tr.resting.price * tr.amount);
                    assert(trades_sum(tk_k1, value_w(bid)) <= trades_sum(trades@, value_w(bid)));
                    assert(ak[bi].cents_balance >= fill.amount * fill.price);
                } else {
                    assert(bid == tk.trader);
                    assert(ak[bi].cents_balance >= fill.amount * fill.price);
                }
            }
            if fill.sell_trader_id != enforcer {
                assert(roomy(ak[xi], sym));
            }
        }
        accounts.handle_fill_event(enforcer, &fill, buy_id, sell_id);
        if tk.side == OrderType::Buy && tr.resting.price < tk.limit && tk.trader != enforcer {
            let ghost mid = accounts_view(accounts.accounts@);
            proof {
                lemma_trade_delta(ak, tr, tk, enforcer, tk.trader.0 as int);
                assert((tk.limit - tr.resting.price) * tr.amount <= 10_000_000_000) by (nonlinear_arith)
                    requires
                        tk.limit - tr.resting.price <= MAX_PRICE,
                        tr.amount <= MAX_ORDER_AMOUNT,
                ;
            }
            let acct = &mut accounts.accounts[tk.trader.0 as usize];
            acct.net_cents_balance = acct.net_cents_balance + (tk.limit - tr.resting.price) * tr.amount;
            proof {
                let t = tk.trader.0 as int;
                assert(accounts_view(accounts.accounts@) =~= mid.update(t, AccountView {
                    net_cents_balance: (mid[t].net_cents_balance + (tk.limit - tr.resting.price) * tr.amount) as u64,
                    ..mid[t]
                }));
            }
        }
        notices.push(Notification::Direct(buy_trader_id, OutgoingMessage::OrderFillMessage(OrderFillMessage {
            order_id: buy_id,
            amount_filled: tr.amount,
            price: tr.resting.price,
        })));
        notices.push(Notification::Direct(sell_trader_id, OutgoingMessage::OrderFillMessage(OrderFillMessage {
            order_id: sell_id,
            amount_filled: tr.amount,
            price: tr.resting.price,
        })));
        notices.push(Notification::Broadcast(OutgoingMessage::TradeOccurredMessage(TradeOccurredMessage {
            amount: tr.amount,
            symbol: tk.symbol,
            resting_side: tr.resting.order_type,
            price: tr.resting.price,
            time: tk.time,
        })));
        proof {
            let ak1 = accounts_view(accounts.accounts@);
            assert(ak1 == trade_settled(ak, tr, tk, enforcer));
            assert(trades_settled(a0, tk_k1, tk, enforcer) == trade_settled(trades_settled(a0, tk_k, tk, enforcer), tr, tk, enforcer));
            assert(trades_notices(tk_k1, tk) == trades_notices(tk_k, tk) + trade_notices(tr, tk));
            assert(notices@ =~= old_notices + trades_notices(tk_k1, tk));
            assert forall|v: int| 0 <= v < n && TraderId(v as u16) != enforcer implies settled_balances(#[trigger] a0[v], ak1[v], TraderId(v as u16), tk_k1, tk) by {
                lemma_settle_step(a0, ak, tk_k, tr, tk, enforcer, v);
            }
            assert forall|v: int| 0 <= v < n implies (#[trigger] ak1[v]).trader_id == a0[v].trader_id
                && ak1[v].password == a0[v].password
                && ak1[v].asset_balances.len() == a0[v].asset_balances.len()
                && ak1[v].net_asset_balances.len() == a0[v].net_asset_balances.len() by {
                lemma_trade_delta(ak, tr, tk, enforcer, v);
            }
            assert forall|v: int| 0 <= v < n && TraderId(v as u16) == enforcer implies {
                &&& (#[trigger] ak1[v]).cents_balance == a0[v].cents_balance
                &&& ak1[v].net_cents_balance == a0[v].net_cents_balance
                &&& ak1[v].asset_balances == a0[v].asset_balances
                &&& ak1[v].net_asset_balances == a0[v].net_asset_balances
            } by {
                lemma_trade_delta(ak, tr, tk, enforcer, v);
                assert(ak1[v].asset_balances =~= ak[v].asset_balances);
                assert(ak1[v].net_asset_balances =~= ak[v].net_asset_balances);
            }
        }
        k = k + 1;
    }
    assert(trades@.take(k as int) =~= trades@);
}

/// A book is well formed, trades its symbol, holds only known traders' orders, and
/// records only trades at valid prices.
pub open spec fn book_ok(b: OrderBook, s: int, n: nat) -> bool {
    &&& b.wf()
    &&& b.symbol == TickerSymbol(s as u16)
    &&& side_all(b.bids(), trader_ok(n))
    &&& side_all(b.asks(), trader_ok(n))
    &&& history_ok(b.price_history@)
}

/// Every recorded trade price is a valid price.
pub open spec fn history_ok(h: Seq<(u64, u64, u64)>) -> bool {
    forall|k: int| 0 <= k < h.len() ==> (#[trigger] h[k]).1 <= MAX_PRICE
}

/// An account belongs to trader `u` and holds a balance for every symbol.
pub open spec fn account_ok(a: AccountView, u: int, m: nat) -> bool {
    &&& a.trader_id == TraderId(u as u16)
    &&& a.asset_balances.len() == m
    &&& a.net_asset_balances.len() == m
}

/// Trader `u`'s cash equals its free cash plus what its resting buys reserve, and
/// its shares of each symbol equal its free shares plus what its resting sells reserve.
pub open spec fn balanced(a: AccountView, books: Seq<OrderBook>, u: TraderId) -> bool {
    &&& a.cents_balance == a.net_cents_balance + reserved_cents(books, u)
    &&& forall|s: int| 0 <= s < books.len() ==> a.asset_balances[s] == a.net_asset_balances[s] + reserved_shares(#[trigger] books[s], u)
}

/// The exchange is consistent: books and accounts line up with the configuration,
/// and every trader but the price enforcer is balanced.
pub open spec fn exchange_wf(cfg: &ExchangeConfig, data: &GlobalOrderBookState, accounts: &GlobalAccountState) -> bool {
    state_wf(cfg, data.books@, accounts_view(accounts.accounts@))
}

/// `exchange_wf` over the books and the account views.
pub open spec fn state_wf(cfg: &ExchangeConfig, books: Seq<OrderBook>, accts: Seq<AccountView>) -> bool {
    let n = cfg.num_traders();
    let m = cfg.num_tickers();
    &&& cfg.wf()
    &&& books.len() == m
    &&& accts.len() == n
    &&& forall|s: int| 0 <= s < m ==> book_ok(#[trigger] books[s], s, n)
    &&& forall|u: int| 0 <= u < n ==> account_ok(#[trigger] accts[u], u, m)
    &&& forall|u: int| 0 <= u < n && TraderId(u as u16) != cfg.price_enforcer_id ==> balanced(#[trigger] accts[u], books, TraderId(u as u16))
}

/// Every trader but the price enforcer has balances within the limits.
pub open spec fn has_headroom(cfg: &ExchangeConfig, accounts: &GlobalAccountState) -> bool {
    let accts = accounts_view(accounts.accounts@);
    forall|u: int| 0 <= u < accts.len() && TraderId(u as u16) != cfg.price_enforcer_id ==> within_limits(#[trigger] accts[u], cfg.num_tickers())
}

/// The weights that measure reservations do not depend on an order's amount.
pub proof fn lemma_weights_ignore_amount(u: TraderId, n: nat)
    ensures
        crate::ledger::ignores_amount(value_w(u)),
        crate::ledger::ignores_amount(shares_w(u)),
        crate::ledger::q_ignores_amount(trader_ok(n)),
{
}

/// A side's weighted sum is not negative when no weight is.
pub proof fn lemma_side_sum_nonneg(side: Seq<LevelView>, w: spec_fn(Order) -> int)
    requires
        forall|o: Order| #[trigger] w(o) >= 0,
    ensures
        side_sum(side, w) >= 0,
{
    let ls = crate::ledger::level_sum(w);
    let f = crate::ledger::weighted(w);
    assert forall|o: Order| #[trigger] f(o) >= 0 by {
        let c = w(o);
        assert(c * o.amount >= 0) by (nonlinear_arith)
            requires
                c >= 0,
        ;
    }
    assert forall|lv: LevelView| #[trigger] ls(lv) >= 0 by {
        crate::sums::lemma_sum_ge_zero(lv.1, f);
    }
    crate::sums::lemma_sum_ge_zero(side, ls);
}

/// Cents reserved across all books are at least those reserved in one.
pub proof fn lemma_reserved_cents_ge(books: Seq<OrderBook>, u: TraderId, s: int)
    requires
        0 <= s < books.len(),
    ensures
        reserved_cents(books, u) >= book_reserved_cents(books[s], u),
        book_reserved_cents(books[s], u) >= 0,
{
    let f = book_cents_w(u);
    assert forall|b: OrderBook| #[trigger] f(b) >= 0 by {
        lemma_side_sum_nonneg(b.bids(), value_w(u));
    }
    crate::sums::lemma_sum_nonneg(books, f, s);
}

/// A list of trades, each of at least one share, has at most as many trades as shares.
pub proof fn lemma_len_le_traded(trs: Seq<Trade>)
    requires
        forall|k: int| 0 <= k < trs.len() ==> (#[trigger] trs[k]).amount >= 1,
    ensures
        trs.len() <= traded_amount(trs),
    decreases trs.len(),
{
    if trs.len() > 0 {
        let init = trs.drop_last();
        assert forall|k: int| 0 <= k < init.len() implies (#[trigger] init[k]).amount >= 1 by {
            assert(init[k] == trs[k]);
        }
        lemma_len_le_traded(init);
        assert(init.push(trs.last()) =~= trs);
        lemma_trades_push(init, trs.last(), price_w());
    }
}

/// An account after the cash or shares that a new order needs are set aside.
pub open spec fn reserve_view(a: AccountView, req: OrderRequest) -> AccountView {
    if req.order_type == OrderType::Buy {
        AccountView { net_cents_balance: (a.net_cents_balance - req.amount * req.price) as u64, ..a }
    } else {
        let s = req.symbol.0 as int;
        AccountView {
            net_asset_balances: a.net_asset_balances.update(s, (a.net_asset_balances[s] - req.amount) as i64),
            ..a
        }
    }
}

/// All accounts after a new order's cash or shares are set aside (the price
/// enforcer sets nothing aside).
pub open spec fn reserved_accounts(accts: Seq<AccountView>, req: OrderRequest, enforcer: TraderId) -> Seq<AccountView> {
    if req.trader_id == enforcer {
        accts
    } else {
        accts.update(req.trader_id.0 as int, reserve_view(accts[req.trader_id.0 as int], req))
    }
}

/// All accounts after order `o` joins trader `t`'s active orders.
pub open spec fn with_active(accts: Seq<AccountView>, t: TraderId, o: Order) -> Seq<AccountView> {
    accts.update(t.0 as int, AccountView {
        active_orders: accts[t.0 as int].active_orders.insert(o.order_id, o),
        ..accts[t.0 as int]
    })
}

/// After an order is placed and settled, every trader but the price enforcer is
/// still balanced.
#[verifier::spinoff_prover]
#[verifier::rlimit(40)]
proof fn lemma_order_balanced(
    a0: AccountView,
    af: AccountView,
    u: TraderId,
    enforcer: TraderId,
    books0: Seq<OrderBook>,
    nb: OrderBook,
    s: int,
    req: OrderRequest,
    trades: Seq<Trade>,
    rem: u64,
    tk: Taker,
)
    requires
        0 <= s < books0.len(),
        u != enforcer,
        balanced(a0, books0, u),
        within_limits(a0, books0.len()),
        u == req.trader_id && req.order_type == OrderType::Buy ==> a0.net_cents_balance >= req.amount * req.price,
        0 < req.amount <= MAX_ORDER_AMOUNT,
        tk.trader == req.trader_id,
        tk.side == req.order_type,
        tk.limit == req.price,
        tk.symbol.0 == s,
        req.symbol == tk.symbol,
        rem + traded_amount(trades) == req.amount,
        settled_balances(
            if u == req.trader_id { reserve_view(a0, req) } else { a0 },
            af,
            u,
            trades,
            tk,
        ),
        req.order_type == OrderType::Buy ==> {
            &&& side_sum(nb.asks(), shares_w(u)) == side_sum(books0[s].asks(), shares_w(u)) - trades_sum(trades, shares_w(u))
            &&& side_sum(nb.bids(), value_w(u)) == side_sum(books0[s].bids(), value_w(u)) + if u == req.trader_id { req.price * rem } else { 0 }
        },
        req.order_type == OrderType::Sell ==> {
            &&& side_sum(nb.bids(), value_w(u)) == side_sum(books0[s].bids(), value_w(u)) - trades_sum(trades, value_w(u))
            &&& side_sum(nb.asks(), shares_w(u)) == side_sum(books0[s].asks(), shares_w(u)) + if u == req.trader_id { rem as int } else { 0 }
        },
    ensures
        balanced(af, books0.update(s, nb), u),
{
    let books1 = books0.update(s, nb);
    crate::sums::lemma_sum_update(books0, s, nb, book_cents_w(u));
    assert(book_cents_w(u)(nb) == side_sum(nb.bids(), value_w(u)));
    assert(book_cents_w(u)(books0[s]) == side_sum(books0[s].bids(), value_w(u)));
    let q = traded_amount(trades);
    assert(req.amount * req.price - req.price * q == req.price * rem) by (nonlinear_arith)
        requires
            rem + q == req.amount,
    ;
    if u == req.trader_id {
        let ar = reserve_view(a0, req);
        if req.order_type == OrderType::Buy {
            assert(ar.net_cents_balance == a0.net_cents_balance - req.amount * req.price);
        } else {
            assert(ar.net_asset_balances[s] == a0.net_asset_balances[s] - req.amount);
            assert(forall|j: int| 0 <= j < a0.net_asset_balances.len() && j != s ==> ar.net_asset_balances[j] == a0.net_asset_balances[j]);
        }
    }
    assert forall|j: int| 0 <= j < books1.len() implies af.asset_balances[j] == af.net_asset_balances[j] + reserved_shares(#[trigger] books1[j], u) by {
        if j != s {
            assert(books1[j] == books0[j]);
            assert(a0.asset_balances[j] == a0.net_asset_balances[j] + reserved_shares(books0[j], u));
        } else {
            assert(a0.asset_balances[s] == a0.net_asset_balances[s] + reserved_shares(books0[s], u));
        }
    }
}

/// After an accepted order is matched, settled and rested, the exchange is still
/// consistent.
#[verifier::spinoff_prover]
#[verifier::rlimit(60)]
proof fn lemma_add_order_wf(
    cfg: &ExchangeConfig,
    books0: Seq<OrderBook>,
    a0: Seq<AccountView>,
    books1: Seq<OrderBook>,
    settled: Seq<AccountView>,
    af: Seq<AccountView>,
    req: OrderRequest,
    trades: Seq<Trade>,
    rem: u64,
    tk: Taker,
)
    requires
        state_wf(cfg, books0, a0),
        forall|u: int| 0 <= u < a0.len() && TraderId(u as u16) != cfg.price_enforcer_id ==> within_limits(#[trigger] a0[u], cfg.num_tickers()),
        (req.symbol.0 as int) < cfg.num_tickers(),
        (req.trader_id.0 as int) < cfg.num_traders(),
        0 < req.amount <= MAX_ORDER_AMOUNT,
        1 <= req.price <= MAX_PRICE,
        req.trader_id != cfg.price_enforcer_id && req.order_type == OrderType::Buy
            ==> a0[req.trader_id.0 as int].net_cents_balance >= req.amount * req.price,
        tk.trader == req.trader_id,
        tk.side == req.order_type,
        tk.limit == req.price,
        tk.symbol == req.symbol,
        ({
            let s = req.symbol.0 as int;
            let b0 = books0[s];
            let b1 = books1[s];
            let m = b0.match_order(req);
            &&& books1 == books0.update(s, b1)
            &&& b1.wf()
            &&& b1.symbol == b0.symbol
            &&& b1.other_side(req.order_type) == m.0
            &&& trades == m.1
            &&& rem == m.2
            &&& b1.own_side(req.order_type) == if rem > 0 {
                rest_order(b0.own_side(req.order_type), resting_order(req, tk.order_id, rem))
            } else {
                b0.own_side(req.order_type)
            }
            &&& b1.price_history@ == b0.price_history@ + history_entries(trades, tk.time)
        }),
        ({
            let ar = reserved_accounts(a0, req, cfg.price_enforcer_id);
            &&& settled.len() == a0.len()
            &&& forall|v: int| 0 <= v < a0.len() && TraderId(v as u16) != cfg.price_enforcer_id ==> settled_balances(#[trigger] ar[v], settled[v], TraderId(v as u16), trades, tk)
            &&& forall|v: int| 0 <= v < a0.len() ==> (#[trigger] settled[v]).trader_id == ar[v].trader_id
                && settled[v].asset_balances.len() == ar[v].asset_balances.len()
                && settled[v].net_asset_balances.len() == ar[v].net_asset_balances.len()
        }),
        af == if rem > 0 {
            with_active(settled, req.trader_id, resting_order(req, tk.order_id, rem))
        } else {
            settled
        },
    ensures
        state_wf(cfg, books1, af),
{
    let n = cfg.num_traders();
    let nt = cfg.num_tickers();
    let enforcer = cfg.price_enforcer_id;
    let s = req.symbol.0 as int;
    let t = req.trader_id.0 as int;
    let b0 = books0[s];
    let b1 = books1[s];
    let rest = resting_order(req, tk.order_id, rem);
    let ar = reserved_accounts(a0, req, enforcer);
    assert(book_ok(b0, s, n));
    lemma_weights_ignore_amount(req.trader_id, n);
    // The book stays well formed and holds only known traders' orders.
    if req.order_type == OrderType::Buy {
        lemma_match_asks(b0.asks(), req.price, req.amount, b0.symbol, shares_w(req.trader_id), trader_ok(n));
        if rem > 0 {
            lemma_side_rest(b0.bids(), rest, value_w(req.trader_id), trader_ok(n));
        }
    } else {
        lemma_match_bids(b0.bids(), req.price, req.amount, b0.symbol, shares_w(req.trader_id), trader_ok(n));
        if rem > 0 {
            lemma_side_rest(b0.asks(), rest, shares_w(req.trader_id), trader_ok(n));
        }
    }
    let h = b1.price_history@;
    assert forall|k: int| 0 <= k < h.len() implies (#[trigger] h[k]).1 <= MAX_PRICE by {
        if k >= b0.price_history@.len() {
            let tr = trades[k - b0.price_history@.len()];
            assert(h[k].1 == tr.resting.price);
        }
    }
    assert(book_ok(b1, s, n));
    assert forall|s2: int| 0 <= s2 < nt implies book_ok(#[trigger] books1[s2], s2, n) by {
        if s2 != s {
            assert(books1[s2] == books0[s2]);
        }
    }
    // Accounts keep their owners and their per-symbol balances.
    assert forall|u: int| 0 <= u < n implies account_ok(#[trigger] af[u], u, nt) by {
        assert(account_ok(a0[u], u, nt));
        assert(ar[u].trader_id == a0[u].trader_id);
        assert(ar[u].asset_balances.len() == a0[u].asset_balances.len());
        assert(ar[u].net_asset_balances.len() == a0[u].net_asset_balances.len());
    }
    // Every trader but the price enforcer stays balanced.
    assert forall|u: int| 0 <= u < n && TraderId(u as u16) != enforcer implies balanced(#[trigger] af[u], books1, TraderId(u as u16)) by {
        let uid = TraderId(u as u16);
        lemma_weights_ignore_amount(uid, n);
        assert(uid == req.trader_id <==> u == t);
        if req.order_type == OrderType::Buy {
            lemma_match_asks(b0.asks(), req.price, req.amount, b0.symbol, shares_w(uid), trader_ok(n));
            if rem > 0 {
                lemma_side_rest(b0.bids(), rest, value_w(uid), trader_ok(n));
                if u == t {
                    assert(value_w(uid)(rest) == req.price);
                } else {
                    assert(value_w(uid)(rest) == 0);
                    assert(value_w(uid)(rest) * rest.amount == 0);
                }
            } else {
                assert(req.price * rem == 0) by (nonlinear_arith)
                    requires
                        rem == 0,
                ;
            }
            assert(b1.asks() == b1.other_side(req.order_type));
            assert(b1.bids() == b1.own_side(req.order_type));
        } else {
            lemma_match_bids(b0.bids(), req.price, req.amount, b0.symbol, value_w(uid), trader_ok(n));
            if rem > 0 {
                lemma_side_rest(b0.asks(), rest, shares_w(uid), trader_ok(n));
                if u == t {
                    assert(shares_w(uid)(rest) == 1);
                } else {
                    assert(shares_w(uid)(rest) == 0);
                }
            }
        }
        assert(ar[u] == if u == t { reserve_view(a0[u], req) } else { a0[u] });
        lemma_order_balanced(a0[u], settled[u], uid, enforcer, books0, b1, s, req, trades, rem, tk);
        assert(balanced(settled[u], books1, uid));
        assert(af[u].cents_balance == settled[u].cents_balance);
        assert(af[u].net_cents_balance == settled[u].net_cents_balance);
        assert(af[u].asset_balances == settled[u].asset_balances);
        assert(af[u].net_asset_balances == settled[u].net_asset_balances);
    }
}

/// The reason an order request is refused, if it is: the checks are made in this
/// order, and the balance checks do not apply to the price enforcer.
pub open spec fn order_error(cfg: &ExchangeConfig, data: &GlobalOrderBookState, accounts: &GlobalAccountState, req: OrderRequest) -> Option<OrderPlaceError> {
    let a = accounts_view(accounts.accounts@)[req.trader_id.0 as int];
    let b = data.books@[req.symbol.0 as int];
    if a.active_orders.len() >= MAX_ACTIVE_ORDERS {
        Some(OrderPlaceError::TooManyActiveOrders)
    } else if req.price == 0 {
        Some(OrderPlaceError::PriceZero)
    } else if req.price > MAX_PRICE {
        Some(OrderPlaceError::PriceTooHigh)
    } else if req.amount == 0 {
        Some(OrderPlaceError::AmountZero)
    } else if req.amount > MAX_ORDER_AMOUNT {
        Some(OrderPlaceError::VolumeTooLarge)
    } else if level_count(b.own_side(req.order_type), req.price) >= MAX_LEVEL_ORDERS {
        Some(OrderPlaceError::LevelFull)
    } else if req.trader_id != cfg.price_enforcer_id && req.order_type == OrderType::Buy
        && a.net_cents_balance < req.amount * req.price {
        Some(OrderPlaceError::InsufficientFunds)
    } else if req.trader_id != cfg.price_enforcer_id && req.order_type == OrderType::Sell
        && a.net_asset_balances[req.symbol.0 as int] < req.amount {
        Some(OrderPlaceError::InsufficientShares)
    } else {
        None
    }
}

/// A sell request from a trader other than the price enforcer that passes the
/// checks on active orders, price, amount and level capacity is accepted exactly
/// when the trader has at least its amount of free shares of the order's own
/// symbol, and otherwise refused for insufficient shares: the trader's cash and its
/// free shares of other symbols play no part.
pub proof fn law_sell_needs_own_shares(cfg: &ExchangeConfig, data: &GlobalOrderBookState, accounts: &GlobalAccountState, req: OrderRequest)
    requires
        req.order_type == OrderType::Sell,
        req.trader_id != cfg.price_enforcer_id,
        accounts_view(accounts.accounts@)[req.trader_id.0 as int].active_orders.len() < MAX_ACTIVE_ORDERS,
        1 <= req.price <= MAX_PRICE,
        1 <= req.amount <= MAX_ORDER_AMOUNT,
        level_count(data.books@[req.symbol.0 as int].asks(), req.price) < MAX_LEVEL_ORDERS,
    ensures
        ({
            let free = accounts_view(accounts.accounts@)[req.trader_id.0 as int].net_asset_balances[req.symbol.0 as int];
            &&& (order_error(cfg, data, accounts, req) is None) <==> free >= req.amount
            &&& free < req.amount ==> order_error(cfg, data, accounts, req) == Some(OrderPlaceError::InsufficientShares)
        }),
{
}

/// A buy request from a trader other than the price enforcer that passes the
/// checks on active orders, price, amount and level capacity is accepted exactly
/// when the trader's free cash covers the amount times the price, and otherwise
/// refused for insufficient funds: its free shares play no part.
pub proof fn law_buy_needs_cash(cfg: &ExchangeConfig, data: &GlobalOrderBookState, accounts: &GlobalAccountState, req: OrderRequest)
    requires
        req.order_type == OrderType::Buy,
        req.trader_id != cfg.price_enforcer_id,
        accounts_view(accounts.accounts@)[req.trader_id.0 as int].active_orders.len() < MAX_ACTIVE_ORDERS,
        1 <= req.price <= MAX_PRICE,
        1 <= req.amount <= MAX_ORDER_AMOUNT,
        level_count(data.books@[req.symbol.0 as int].bids(), req.price) < MAX_LEVEL_ORDERS,
    ensures
        ({
            let free = accounts_view(accounts.accounts@)[req.trader_id.0 as int].net_cents_balance;
            &&& (order_error(cfg, data, accounts, req) is None) <==> free >= req.amount * req.price
            &&& free < req.amount * req.price ==> order_error(cfg, data, accounts, req) == Some(OrderPlaceError::InsufficientFunds)
        }),
{
}

/// Checks an order request against the account and book it concerns.
fn check_order(cfg: &ExchangeConfig, data: &GlobalOrderBookState, accounts: &GlobalAccountState, req: &OrderRequest) -> (r: Option<OrderPlaceError>)
    requires
        exchange_wf(cfg, data, accounts),
        (req.symbol.0 as int) < cfg.num_tickers(),
        (req.trader_id.0 as int) < cfg.num_traders(),
    ensures
        r == order_error(cfg, data, accounts, *req),
{
    let ghost accts = accounts_view(accounts.accounts@);
    let acct = accounts.index_ref(req.trader_id);
    assert(acct@ == accts[req.trader_id.0 as int]);
    if acct.active_orders.len() >= MAX_ACTIVE_ORDERS {
        return Some(OrderPlaceError::TooManyActiveOrders);
    }
    if req.price == 0 {
        return Some(OrderPlaceError::PriceZero);
    }
    if req.price > MAX_PRICE {
        return Some(OrderPlaceError::PriceTooHigh);
    }
    if req.amount == 0 {
        return Some(OrderPlaceError::AmountZero);
    }
    if req.amount > MAX_ORDER_AMOUNT {
        return Some(OrderPlaceError::VolumeTooLarge);
    }
    let book = data.index_ref(&req.symbol);
    assert(book_ok(data.books@[req.symbol.0 as int], req.symbol.0 as int, cfg.num_traders()));
    if book.level_len(req.order_type, req.price) >= MAX_LEVEL_ORDERS {
        return Some(OrderPlaceError::LevelFull);
    }
    if req.trader_id != cfg.price_enforcer_id {
        match req.order_type {
            OrderType::Buy => {
                assert(req.amount * req.price <= MAX_ORDER_AMOUNT * MAX_PRICE) by (nonlinear_arith)
                    requires
                        req.amount <= MAX_ORDER_AMOUNT,
                        req.price <= MAX_PRICE,
                ;
                if acct.net_cents_balance < req.amount * req.price {
                    return Some(OrderPlaceError::InsufficientFunds);
                }
            },
            OrderType::Sell => {
                assert(account_ok(accts[req.trader_id.0 as int], req.trader_id.0 as int, cfg.num_tickers()));
                if *acct.net_asset_balances.index_ref(&req.symbol) < req.amount as i64 {
                    return Some(OrderPlaceError::InsufficientShares);
                }
            },
        }
    }
    None
}

/// Every trader but the price enforcer has no negative free shares.
pub open spec fn free_shares_nonneg(cfg: &ExchangeConfig, accounts: &GlobalAccountState) -> bool {
    let accts = accounts_view(accounts.accounts@);
    forall|u: int, s: int|
        0 <= u < accts.len() && TraderId(u as u16) != cfg.price_enforcer_id && 0 <= s < accts[u].net_asset_balances.len()
            ==> #[trigger] accts[u].net_asset_balances[s] >= 0
}

/// Placing an order and settling its trades leaves no trader but the price enforcer
/// with negative free shares when none had any: a sell sets aside only shares that
/// are free, and trades only add free shares.
#[verifier::spinoff_prover]
proof fn lemma_free_shares_kept(
    enforcer: TraderId,
    a0: Seq<AccountView>,
    settled: Seq<AccountView>,
    af: Seq<AccountView>,
    req: OrderRequest,
    trades: Seq<Trade>,
    tk: Taker,
    n: nat,
)
    requires
        a0.len() == n,
        n <= 65536,
        (req.trader_id.0 as int) < n,
        forall|u: int, s: int| 0 <= u < a0.len() && TraderId(u as u16) != enforcer && 0 <= s < a0[u].net_asset_balances.len()
            ==> #[trigger] a0[u].net_asset_balances[s] >= 0,
        (req.symbol.0 as int) < a0[req.trader_id.0 as int].net_asset_balances.len(),
        req.order_type == OrderType::Sell && req.trader_id != enforcer
            ==> a0[req.trader_id.0 as int].net_asset_balances[req.symbol.0 as int] >= req.amount,
        tk.symbol == req.symbol,
        tk.trader == req.trader_id,
        tk.side == req.order_type,
        trades_ok(trades, tk, n),
        trades.len() <= MAX_ORDER_AMOUNT,
        settled.len() == a0.len(),
        af.len() == a0.len(),
        forall|v: int| 0 <= v < a0.len() && TraderId(v as u16) != enforcer ==> settled_balances(
            #[trigger] reserved_accounts(a0, req, enforcer)[v],
            settled[v],
            TraderId(v as u16),
            trades,
            tk,
        ),
        forall|v: int| 0 <= v < a0.len() ==> (#[trigger] af[v]).net_asset_balances == settled[v].net_asset_balances,
    ensures
        forall|u: int, s: int| 0 <= u < af.len() && TraderId(u as u16) != enforcer && 0 <= s < af[u].net_asset_balances.len()
            ==> #[trigger] af[u].net_asset_balances[s] >= 0,
{
    let ar = reserved_accounts(a0, req, enforcer);
    let sym = req.symbol.0 as int;
    let t = req.trader_id.0 as int;
    assert forall|u: int, s: int| 0 <= u < af.len() && TraderId(u as u16) != enforcer && 0 <= s < af[u].net_asset_balances.len()
        implies #[trigger] af[u].net_asset_balances[s] >= 0 by {
        let uid = TraderId(u as u16);
        assert(settled_balances(ar[u], settled[u], uid, trades, tk));
        lemma_trades_bounds(trades, tk, n, uid);
        assert(uid == req.trader_id <==> u == t);
        assert(ar[u].net_asset_balances.len() == a0[u].net_asset_balances.len());
        if u == t && req.order_type == OrderType::Sell {
            assert(ar[u].net_asset_balances[sym] == a0[u].net_asset_balances[sym] - req.amount);
            assert(forall|j: int| 0 <= j < a0[u].net_asset_balances.len() && j != sym ==> ar[u].net_asset_balances[j] == a0[u].net_asset_balances[j]);
        } else {
            assert(ar[u].net_asset_balances == a0[u].net_asset_balances);
        }
        assert(a0[u].net_asset_balances[s] >= 0);
    }
}

/// An accepted order that trades nothing moves no cash and no shares: only free
/// balances change, by what the order sets aside.
pub proof fn law_resting_keeps_holdings(
    cfg: &ExchangeConfig,
    d0: &GlobalOrderBookState,
    a0: &GlobalAccountState,
    d1: &GlobalOrderBookState,
    a1: &GlobalAccountState,
    c0: usize,
    c1: usize,
    req: OrderRequest,
    time: u64,
    resp: OrderPlaceResponse,
    notices: Seq<Notification>,
)
    requires
        order_outcome(cfg, d0, a0, d1, a1, c0, c1, req, time, resp, notices),
        order_error(cfg, d0, a0, req) is None,
        d0.books@[req.symbol.0 as int].match_order(req).1.len() == 0,
        (req.trader_id.0 as int) < accounts_view(a0.accounts@).len(),
    ensures
        accounts_view(a1.accounts@).len() == accounts_view(a0.accounts@).len(),
        forall|u: int| 0 <= u < accounts_view(a0.accounts@).len() ==> {
            &&& (#[trigger] accounts_view(a1.accounts@)[u]).cents_balance == accounts_view(a0.accounts@)[u].cents_balance
            &&& accounts_view(a1.accounts@)[u].asset_balances == accounts_view(a0.accounts@)[u].asset_balances
        },
{
    let m = d0.books@[req.symbol.0 as int].match_order(req);
    let tk = Taker { trader: req.trader_id, order_id: c0, side: req.order_type, limit: req.price, symbol: req.symbol, time };
    let ar = reserved_accounts(accounts_view(a0.accounts@), req, cfg.price_enforcer_id);
    assert(trades_settled(ar, m.1, tk, cfg.price_enforcer_id) == ar);
}

/// What placing order request `req` at `time` does: from books `d0`, accounts `a0`
/// and order counter `c0` to `d1`, `a1` and `c1`, answering `resp` and sending
/// `notices`.
pub open spec fn order_outcome(
    cfg: &ExchangeConfig,
    d0: &GlobalOrderBookState,
    a0: &GlobalAccountState,
    d1: &GlobalOrderBookState,
    a1: &GlobalAccountState,
    c0: usize,
    c1: usize,
    req: OrderRequest,
    time: u64,
    resp: OrderPlaceResponse,
    notices: Seq<Notification>,
) -> bool {
    match order_error(cfg, d0, a0, req) {
        Some(e) => {
            &&& resp == OrderPlaceResponse::OrderPlaceErrorMessage(OrderPlaceErrorMessage {
                side: req.order_type,
                price: req.price,
                symbol: req.symbol,
                error_details: e,
            })
            &&& notices == Seq::<Notification>::empty()
            &&& d1.books@ == d0.books@
            &&& a1.accounts@ == a0.accounts@
            &&& c1 == c0
        },
        None => {
            let oid = c0;
            let s = req.symbol.0 as int;
            let b0 = d0.books@[s];
            let b1 = d1.books@[s];
            let m = b0.match_order(req);
            let tk = Taker { trader: req.trader_id, order_id: oid, side: req.order_type, limit: req.price, symbol: req.symbol, time };
            let rest = resting_order(req, oid, m.2);
            let settled = trades_settled(
                reserved_accounts(accounts_view(a0.accounts@), req, cfg.price_enforcer_id),
                m.1,
                tk,
                cfg.price_enforcer_id,
            );
            &&& c1 == oid + 1
            &&& resp == OrderPlaceResponse::OrderConfirmMessage(OrderConfirmMessage {
                order_info: resting_order(req, oid, req.amount),
            })
            &&& d1.books@.len() == d0.books@.len()
            &&& forall|s2: int| 0 <= s2 < d0.books@.len() && s2 != s ==> d1.books@[s2] == d0.books@[s2]
            &&& b1.symbol == b0.symbol
            &&& b1.other_side(req.order_type) == m.0
            &&& b1.own_side(req.order_type) == if m.2 > 0 {
                rest_order(b0.own_side(req.order_type), rest)
            } else {
                b0.own_side(req.order_type)
            }
            &&& b1.price_history@ == b0.price_history@ + history_entries(m.1, time)
            &&& accounts_view(a1.accounts@) == if m.2 > 0 {
                with_active(settled, req.trader_id, rest)
            } else {
                settled
            }
            &&& notices == trades_notices(m.1, tk) + if m.2 > 0 {
                seq![Notification::Broadcast(OutgoingMessage::NewRestingOrderMessage(NewRestingOrderMessage {
                    side: req.order_type,
                    amount: m.2,
                    symbol: req.symbol,
                    price: req.price,
                }))]
            } else {
                Seq::<Notification>::empty()
            }
        },
    }
}

/// Places an order: checks it, sets aside the cash or shares it needs, trades it
/// against the book with price-time priority, settles the trades between the
/// accounts, and rests what is left. Returns the answer to the trader and the
/// messages to send (fills to the traders concerned, market data to everyone).
#[verifier::spinoff_prover]
#[verifier::rlimit(60)]
pub fn add_order(
    order_request: OrderRequest,
    data: &mut GlobalOrderBookState,
    accounts_data: &mut GlobalAccountState,
    cfg: &ExchangeConfig,
    order_counter: &mut usize,
    time: u64,
) -> (r: (OrderPlaceResponse, Vec<Notification>))
    requires
        exchange_wf(cfg, old(data), old(accounts_data)),
        has_headroom(cfg, old(accounts_data)),
        *old(order_counter) < usize::MAX,
        (order_request.symbol.0 as int) < cfg.num_tickers(),
        (order_request.trader_id.0 as int) < cfg.num_traders(),
    ensures
        exchange_wf(cfg, final(data), final(accounts_data)),
        order_outcome(cfg, old(data), old(accounts_data), final(data), final(accounts_data), *old(order_counter), *final(order_counter), order_request, time, r.0, r.1@),
        free_shares_nonneg(cfg, old(accounts_data)) ==> free_shares_nonneg(cfg, final(accounts_data)),
{
    let req = order_request;
    match check_order(cfg, data, accounts_data, &req) {
        Some(e) => {
            return (
                OrderPlaceResponse::OrderPlaceErrorMessage(OrderPlaceErrorMessage {
                    side: req.order_type,
                    price: req.price,
                    symbol: req.symbol,
                    error_details: e,
                }),
                Vec::new(),
            );
        },
        None => {},
    }
    let ghost a0 = accounts_view(accounts_data.accounts@);
    let ghost books0 = data.books@;
    let ghost n = cfg.num_traders();
    let ghost nt = cfg.num_tickers();
    let enforcer = cfg.price_enforcer_id;
    let t = req.trader_id.0 as usize;
    let s = req.symbol.0 as usize;
    assert(account_ok(a0[t as int], t as int, nt));
    if req.trader_id != enforcer {
        let acct = &mut accounts_data.accounts[t];
        match req.order_type {
            OrderType::Buy => {
                acct.net_cents_balance = acct.net_cents_balance - req.amount * req.price;
            },
            OrderType::Sell => {
                let cur = *acct.net_asset_balances.index_ref(&req.symbol);
                acct.net_asset_balances.set(&req.symbol, cur - req.amount as i64);
            },
        }
    }
    let ghost ar = accounts_view(accounts_data.accounts@);
    assert(ar =~= reserved_accounts(a0, req, enforcer));
    let order_id = *order_counter;
    *order_counter = order_id + 1;
    assert(book_ok(books0[s as int], s as int, n));
    let (placed, trades, rem) = data.books[s].handle_incoming_order_request(&req, order_id, time);
    let ghost b0 = books0[s as int];
    let ghost b1 = data.books@[s as int];
    let ghost m = b0.match_order(req);
    let tk = Taker { trader: req.trader_id, order_id, side: req.order_type, limit: req.price, symbol: req.symbol, time };
    proof {
        lemma_weights_ignore_amount(req.trader_id, n);
        if req.order_type == OrderType::Buy {
            lemma_match_asks(b0.asks(), req.price, req.amount, b0.symbol, shares_w(req.trader_id), trader_ok(n));
        } else {
            lemma_match_bids(b0.bids(), req.price, req.amount, b0.symbol, shares_w(req.trader_id), trader_ok(n));
        }
        assert(trades_ok(trades@, tk, n));
        lemma_len_le_traded(trades@);
        assert forall|v: int| 0 <= v < n && TraderId(v as u16) != enforcer implies within_limits(#[trigger] ar[v], nt) by {
            assert(within_limits(a0[v], nt));
        }
        assert forall|v: int| 0 <= v < n implies (#[trigger] ar[v]).trader_id == TraderId(v as u16) by {
            assert(account_ok(a0[v], v, nt));
        }
        assert forall|v: int| 0 <= v < n implies (#[trigger] ar[v]).asset_balances.len() == nt && ar[v].net_asset_balances.len() == nt by {
            assert(account_ok(a0[v], v, nt));
        }
        if req.order_type == OrderType::Buy && req.trader_id != enforcer {
            assert(balanced(a0[t as int], books0, req.trader_id));
            lemma_reserved_cents_ge(books0, req.trader_id, s as int);
            assert(req.price * traded_amount(trades@) <= req.amount * req.price) by (nonlinear_arith)
                requires
                    traded_amount(trades@) <= req.amount,
            ;
        }
        if req.order_type == OrderType::Sell {
            assert forall|v: int| 0 <= v < n && TraderId(v as u16) != enforcer implies (#[trigger] ar[v]).cents_balance >= trades_sum(trades@, value_w(TraderId(v as u16))) by {
                let uid = TraderId(v as u16);
                lemma_weights_ignore_amount(uid, n);
                lemma_match_bids(b0.bids(), req.price, req.amount, b0.symbol, value_w(uid), trader_ok(n));
                lemma_side_sum_nonneg(m.0, value_w(uid));
                lemma_reserved_cents_ge(books0, uid, s as int);
                assert(balanced(a0[v], books0, uid));
            }
        }
    }
    let mut notices: Vec<Notification> = Vec::new();
    settle_trades(accounts_data, enforcer, &trades, tk, Ghost(nt), &mut notices);
    let ghost settled = accounts_view(accounts_data.accounts@);
    if rem > 0 {
        let rest = Order {
            order_id,
            trader_id: req.trader_id,
            symbol: req.symbol,
            amount: rem,
            price: req.price,
            order_type: req.order_type,
        };
        accounts_data.accounts[t].active_orders.insert(order_id, rest);
        assert(accounts_view(accounts_data.accounts@) =~= with_active(settled, req.trader_id, rest));
        notices.push(Notification::Broadcast(OutgoingMessage::NewRestingOrderMessage(NewRestingOrderMessage {
            side: req.order_type,
            amount: rem,
            symbol: req.symbol,
            price: req.price,
        })));
    }
    proof {
        assert(data.books@ == books0.update(s as int, b1));
        lemma_add_order_wf(cfg, books0, a0, data.books@, settled, accounts_view(accounts_data.accounts@), req, trades@, rem, tk);
        let rest = resting_order(req, order_id, rem);
        assert(settled =~= trades_settled(ar, m.1, tk, enforcer));
        assert(accounts_view(accounts_data.accounts@) =~= if rem > 0 { with_active(settled, req.trader_id, rest) } else { settled });
        assert(notices@ =~= trades_notices(m.1, tk) + if rem > 0 {
            seq![Notification::Broadcast(OutgoingMessage::NewRestingOrderMessage(NewRestingOrderMessage {
                side: req.order_type,
                amount: rem,
                symbol: req.symbol,
                price: req.price,
            }))]
        } else {
            Seq::<Notification>::empty()
        });
        assert(b1.price_history@ =~= b0.price_history@ + history_entries(m.1, time));
        if free_shares_nonneg(cfg, old(accounts_data)) {
            let af = accounts_view(accounts_data.accounts@);
            assert forall|v: int| 0 <= v < a0.len() implies (#[trigger] af[v]).net_asset_balances == settled[v].net_asset_balances by {}
            lemma_free_shares_kept(enforcer, a0, settled, af, req, trades@, tk, n);
        }
    }
    (OrderPlaceResponse::OrderConfirmMessage(OrderConfirmMessage { order_info: placed }), notices)
}


/// The price enforcer's free cash and free shares are within the limits.
pub open spec fn enforcer_headroom(cfg: &ExchangeConfig, accounts: &GlobalAccountState) -> bool {
    let accts = accounts_view(accounts.accounts@);
    forall|u: int| 0 <= u < accts.len() && TraderId(u as u16) == cfg.price_enforcer_id ==> {
        &&& (#[trigger] accts[u]).net_cents_balance <= BALANCE_LIMIT
        &&& forall|j: int| 0 <= j < accts[u].net_asset_balances.len() ==> #[trigger] accts[u].net_asset_balances[j] <= BALANCE_LIMIT
    }
}

/// An account after its resting order `o` is cancelled: the order leaves its active
/// orders and the cash or shares it reserved are free again.
pub open spec fn release_view(a: AccountView, o: Order) -> AccountView {
    let a1 = AccountView { active_orders: a.active_orders.remove(o.order_id), ..a };
    if o.order_type == OrderType::Buy {
        AccountView { net_cents_balance: (a1.net_cents_balance + o.amount * o.price) as u64, ..a1 }
    } else {
        let s = o.symbol.0 as int;
        AccountView {
            net_asset_balances: a1.net_asset_balances.update(s, (a1.net_asset_balances[s] + o.amount) as i64),
            ..a1
        }
    }
}

/// All accounts after order `o` is cancelled.
pub open spec fn cancel_applied(accts: Seq<AccountView>, o: Order) -> Seq<AccountView> {
    accts.update(o.trader_id.0 as int, release_view(accts[o.trader_id.0 as int], o))
}

/// An order that rests without trading and is then cancelled leaves its trader's
/// account as it was: the cash or shares it set aside are free again and it leaves
/// the active orders. (The price enforcer sets nothing aside, so this is about every
/// other trader.)
pub proof fn law_place_then_cancel_account(accts: Seq<AccountView>, req: OrderRequest, oid: OrderID, enforcer: TraderId)
    requires
        (req.trader_id.0 as int) < accts.len(),
        req.trader_id != enforcer,
        !accts[req.trader_id.0 as int].active_orders.contains_key(oid),
        (req.symbol.0 as int) < accts[req.trader_id.0 as int].net_asset_balances.len(),
        req.order_type == OrderType::Buy ==> accts[req.trader_id.0 as int].net_cents_balance >= req.amount * req.price,
        req.order_type == OrderType::Sell ==> accts[req.trader_id.0 as int].net_asset_balances[req.symbol.0 as int] >= req.amount,
    ensures
        cancel_applied(
            with_active(reserved_accounts(accts, req, enforcer), req.trader_id, resting_order(req, oid, req.amount)),
            resting_order(req, oid, req.amount),
        ) == accts,
{
    let t = req.trader_id.0 as int;
    let o = resting_order(req, oid, req.amount);
    let a = accts[t];
    let placed = with_active(reserved_accounts(accts, req, enforcer), req.trader_id, o);
    let back = cancel_applied(placed, o);
    assert(placed[t].active_orders.remove(oid) =~= a.active_orders);
    assert(req.amount * req.price == o.amount * o.price);
    if req.order_type == OrderType::Sell {
        let s = req.symbol.0 as int;
        assert(back[t].net_asset_balances =~= a.net_asset_balances);
    }
    assert(back[t] == a);
    assert(back =~= accts);
}

/// Replacing a book by one with the same symbol and the same resting orders keeps
/// the exchange consistent.
proof fn lemma_same_book_wf(cfg: &ExchangeConfig, books0: Seq<OrderBook>, a: Seq<AccountView>, s: int, b1: OrderBook)
    requires
        state_wf(cfg, books0, a),
        0 <= s < books0.len(),
        b1.wf(),
        b1.symbol == books0[s].symbol,
        b1.bids() == books0[s].bids(),
        b1.asks() == books0[s].asks(),
        b1.price_history@ == books0[s].price_history@,
    ensures
        state_wf(cfg, books0.update(s, b1), a),
{
    let n = cfg.num_traders();
    let books1 = books0.update(s, b1);
    assert(book_ok(books0[s], s, n));
    assert forall|s2: int| 0 <= s2 < books1.len() implies book_ok(#[trigger] books1[s2], s2, n) by {
        if s2 != s {
            assert(books1[s2] == books0[s2]);
        }
    }
    assert forall|u: int| 0 <= u < n && TraderId(u as u16) != cfg.price_enforcer_id implies balanced(#[trigger] a[u], books1, TraderId(u as u16)) by {
        let uid = TraderId(u as u16);
        assert(balanced(a[u], books0, uid));
        crate::sums::lemma_sum_update(books0, s, b1, book_cents_w(uid));
        assert forall|j: int| 0 <= j < books1.len() implies a[u].asset_balances[j] == a[u].net_asset_balances[j] + reserved_shares(#[trigger] books1[j], uid) by {
            assert(a[u].asset_balances[j] == a[u].net_asset_balances[j] + reserved_shares(books0[j], uid));
        }
    }
}

/// Cancelling trader `o.trader_id`'s order `o` leaves trader `u` balanced.
#[verifier::spinoff_prover]
proof fn lemma_cancel_balanced(
    a: AccountView,
    uid: TraderId,
    books0: Seq<OrderBook>,
    s: int,
    b1: OrderBook,
    ns: Seq<LevelView>,
    o: Order,
)
    requires
        balanced(a, books0, uid),
        0 <= s < books0.len(),
        a.asset_balances.len() == books0.len(),
        a.net_asset_balances.len() == books0.len(),
        o.symbol.0 == s,
        b1.own_side(o.order_type) == ns,
        b1.other_side(o.order_type) == books0[s].other_side(o.order_type),
        side_sum(ns, value_w(uid)) == side_sum(books0[s].own_side(o.order_type), value_w(uid))
            - if uid == o.trader_id { o.price * o.amount } else { 0 },
        side_sum(ns, shares_w(uid)) == side_sum(books0[s].own_side(o.order_type), shares_w(uid))
            - if uid == o.trader_id { o.amount as int } else { 0 },
    ensures
        balanced(if uid == o.trader_id { release_view(a, o) } else { a }, books0.update(s, b1), uid),
{
    let books1 = books0.update(s, b1);
    let b0 = books0[s];
    let af = if uid == o.trader_id { release_view(a, o) } else { a };
    crate::sums::lemma_sum_update(books0, s, b1, book_cents_w(uid));
    assert(book_cents_w(uid)(b1) == side_sum(b1.bids(), value_w(uid)));
    assert(book_cents_w(uid)(b0) == side_sum(b0.bids(), value_w(uid)));
    assert(o.price * o.amount == o.amount * o.price) by (nonlinear_arith);
    lemma_reserved_cents_ge(books0, uid, s);
    lemma_side_sum_nonneg(ns, value_w(uid));
    lemma_side_sum_nonneg(ns, shares_w(uid));
    lemma_side_sum_nonneg(b0.asks(), shares_w(uid));
    if o.order_type == OrderType::Buy {
        assert(b1.bids() == ns);
        assert(b1.asks() == b0.asks());
        assert(af.net_asset_balances == a.net_asset_balances);
    } else {
        assert(b1.asks() == ns);
        assert(b1.bids() == b0.bids());
        assert(af.net_cents_balance == a.net_cents_balance);
    }
    assert(af.cents_balance == af.net_cents_balance + reserved_cents(books1, uid));
    assert forall|j: int| 0 <= j < books1.len() implies af.asset_balances[j] == af.net_asset_balances[j] + reserved_shares(#[trigger] books1[j], uid) by {
        assert(a.asset_balances[j] == a.net_asset_balances[j] + reserved_shares(books0[j], uid));
        if j != s {
            assert(books1[j] == books0[j]);
        }
    }
}

/// After a resting order is cancelled and its reservation released, the exchange
/// is still consistent.
#[verifier::spinoff_prover]
#[verifier::rlimit(60)]
proof fn lemma_cancel_wf(
    cfg: &ExchangeConfig,
    books0: Seq<OrderBook>,
    a0: Seq<AccountView>,
    s: int,
    b1: OrderBook,
    ns: Seq<LevelView>,
    o: Order,
)
    requires
        state_wf(cfg, books0, a0),
        0 <= s < books0.len(),
        o.symbol.0 == s,
        (o.trader_id.0 as int) < a0.len(),
        side_all(ns, trader_ok(cfg.num_traders())),
        forall|u: TraderId| #[trigger] side_sum(ns, value_w(u)) == side_sum(books0[s].own_side(o.order_type), value_w(u))
            - if u == o.trader_id { o.price * o.amount } else { 0 },
        forall|u: TraderId| #[trigger] side_sum(ns, shares_w(u)) == side_sum(books0[s].own_side(o.order_type), shares_w(u))
            - if u == o.trader_id { o.amount as int } else { 0 },
        b1.wf(),
        b1.symbol == books0[s].symbol,
        b1.own_side(o.order_type) == ns,
        b1.other_side(o.order_type) == books0[s].other_side(o.order_type),
        b1.price_history@ == books0[s].price_history@,
    ensures
        state_wf(cfg, books0.update(s, b1), cancel_applied(a0, o)),
{
    let n = cfg.num_traders();
    let nt = cfg.num_tickers();
    let enforcer = cfg.price_enforcer_id;
    let books1 = books0.update(s, b1);
    let b0 = books0[s];
    let af = cancel_applied(a0, o);
    let t = o.trader_id.0 as int;
    assert(book_ok(b0, s, n));
    if o.order_type == OrderType::Buy {
        assert(b1.bids() == ns && b1.asks() == b0.asks());
    } else {
        assert(b1.asks() == ns && b1.bids() == b0.bids());
    }
    assert(book_ok(b1, s, n));
    assert forall|s2: int| 0 <= s2 < nt implies book_ok(#[trigger] books1[s2], s2, n) by {
        if s2 != s {
            assert(books1[s2] == books0[s2]);
        }
    }
    assert forall|u: int| 0 <= u < n implies account_ok(#[trigger] af[u], u, nt) by {
        assert(account_ok(a0[u], u, nt));
    }
    assert forall|u: int| 0 <= u < n && TraderId(u as u16) != enforcer implies balanced(#[trigger] af[u], books1, TraderId(u as u16)) by {
        let uid = TraderId(u as u16);
        assert(account_ok(a0[u], u, nt));
        assert(uid == o.trader_id <==> u == t);
        assert(side_sum(ns, value_w(uid)) == side_sum(b0.own_side(o.order_type), value_w(uid))
            - if uid == o.trader_id { o.price * o.amount } else { 0 });
        assert(side_sum(ns, shares_w(uid)) == side_sum(b0.own_side(o.order_type), shares_w(uid))
            - if uid == o.trader_id { o.amount as int } else { 0 });
        lemma_cancel_balanced(a0[u], uid, books0, s, b1, ns, o);
        assert(af[u] == if uid == o.trader_id { release_view(a0[u], o) } else { a0[u] });
    }
}

/// What cancel request `req` does: from books `d0` and accounts `a0` to `d1` and
/// `a1`, answering `resp` and sending `notices`.
pub open spec fn cancel_outcome(
    cfg: &ExchangeConfig,
    d0: &GlobalOrderBookState,
    a0: &GlobalAccountState,
    d1: &GlobalOrderBookState,
    a1: &GlobalAccountState,
    req: CancelRequest,
    resp: OrderCancelResponse,
    notices: Seq<Notification>,
) -> bool {
    
    let s = req.symbol.0 as int;
    let b0 = d0.books@[s];
    let b1 = d1.books@[s];
    &&& d1.books@ == d0.books@.update(s, b1)
    &&& b1.symbol == b0.symbol
    &&& b1.price_history@ == b0.price_history@
    &&& match cancel_from_side(b0.own_side(req.side), req.price, req.order_id) {
        None => {
            &&& resp == OrderCancelResponse::CancelErrorMessage(CancelErrorMessage {
                order_id: req.order_id,
                side: req.side,
                price: req.price,
                symbol: req.symbol,
                error_details: CancelError::NotFound,
            })
            &&& notices == Seq::<Notification>::empty()
            &&& b1.bids() == b0.bids()
            &&& b1.asks() == b0.asks()
            &&& a1.accounts@ == a0.accounts@
        },
        Some((ns, o)) => {
            &&& resp == OrderCancelResponse::CancelConfirmMessage(CancelConfirmMessage { order_info: o })
            &&& notices == seq![Notification::Broadcast(OutgoingMessage::CancelOccurredMessage(CancelOccurredMessage {
                side: req.side,
                amount: o.amount,
                symbol: req.symbol,
                price: req.price,
            }))]
            &&& b1.own_side(req.side) == ns
            &&& b1.other_side(req.side) == b0.other_side(req.side)
            &&& accounts_view(a1.accounts@) == cancel_applied(accounts_view(a0.accounts@), o)
        },
    }
}

/// Cancels a resting order: takes it off its book, drops it from its owner's
/// active orders, frees the cash or shares it reserved, and announces it. A request
/// naming no order resting at its price and side is refused.
#[verifier::spinoff_prover]
#[verifier::rlimit(40)]
pub fn cancel_order(
    cancel_request: CancelRequest,
    data: &mut GlobalOrderBookState,
    accounts_data: &mut GlobalAccountState,
    cfg: &ExchangeConfig,
) -> (r: (OrderCancelResponse, Vec<Notification>))
    requires
        exchange_wf(cfg, old(data), old(accounts_data)),
        enforcer_headroom(cfg, old(accounts_data)),
        (cancel_request.symbol.0 as int) < cfg.num_tickers(),
    ensures
        exchange_wf(cfg, final(data), final(accounts_data)),
        cancel_outcome(cfg, old(data), old(accounts_data), final(data), final(accounts_data), cancel_request, r.0, r.1@),
        free_shares_nonneg(cfg, old(accounts_data)) ==> free_shares_nonneg(cfg, final(accounts_data)),
{
    let req = cancel_request;
    let s = req.symbol.0 as usize;
    let ghost books0 = data.books@;
    let ghost a0 = accounts_view(accounts_data.accounts@);
    let ghost n = cfg.num_traders();
    let ghost nt = cfg.num_tickers();
    let ghost b0 = books0[s as int];
    let ghost side0 = b0.own_side(req.side);
    proof {
        assert(book_ok(b0, s as int, n));
    }
    match data.books[s].handle_incoming_cancel_request(&req) {
        Err(_) => {
            proof {
                assert(data.books@ =~= books0.update(s as int, data.books@[s as int]));
                lemma_same_book_wf(cfg, books0, a0, s as int, data.books@[s as int]);
            }
            (
                OrderCancelResponse::CancelErrorMessage(CancelErrorMessage {
                    order_id: req.order_id,
                    side: req.side,
                    price: req.price,
                    symbol: req.symbol,
                    error_details: CancelError::NotFound,
                }),
                Vec::new(),
            )
        },
        Ok(o) => {
            let ghost b1 = data.books@[s as int];
            let ghost ns = cancel_from_side(side0, req.price, req.order_id).unwrap().0;
            let ghost owner = o.trader_id;
            proof {
                lemma_cancelled_order(side0, req.price, req.order_id, req.side, b0.symbol);
                lemma_side_cancel(side0, req.price, req.order_id, value_w(owner), trader_ok(n));
                lemma_side_cancel(side0, req.price, req.order_id, shares_w(owner), trader_ok(n));
                assert forall|u: TraderId| #[trigger] side_sum(ns, value_w(u)) == side_sum(side0, value_w(u))
                    - if u == owner { o.price * o.amount } else { 0 } by {
                    lemma_side_cancel(side0, req.price, req.order_id, value_w(u), trader_ok(n));
                }
                assert forall|u: TraderId| #[trigger] side_sum(ns, shares_w(u)) == side_sum(side0, shares_w(u))
                    - if u == owner { o.amount as int } else { 0 } by {
                    lemma_side_cancel(side0, req.price, req.order_id, shares_w(u), trader_ok(n));
                    if u == owner {
                        assert(shares_w(u)(o) == 1);
                    } else {
                        assert(shares_w(u)(o) == 0);
                    }
                }
            }
            let t = o.trader_id.0 as usize;
            proof {
                assert(account_ok(a0[t as int], t as int, nt));
                if owner != cfg.price_enforcer_id {
                    assert(balanced(a0[t as int], books0, owner));
                    lemma_side_sum_nonneg(ns, value_w(owner));
                    lemma_side_sum_nonneg(ns, shares_w(owner));
                    lemma_reserved_cents_ge(books0, owner, s as int);
                    assert(o.amount * o.price <= MAX_ORDER_AMOUNT * MAX_PRICE) by (nonlinear_arith)
                        requires
                            o.amount <= MAX_ORDER_AMOUNT,
                            o.price <= MAX_PRICE,
                    ;
                    assert(o.price * o.amount == o.amount * o.price) by (nonlinear_arith);
                    if req.side == OrderType::Sell {
                        assert(a0[t as int].asset_balances[s as int] == a0[t as int].net_asset_balances[s as int] + reserved_shares(books0[s as int], owner));
                    }
                } else {
                    assert(a0[t as int].net_cents_balance <= BALANCE_LIMIT);
                    assert(a0[t as int].net_asset_balances[s as int] <= BALANCE_LIMIT);
                    assert(o.amount * o.price <= MAX_ORDER_AMOUNT * MAX_PRICE) by (nonlinear_arith)
                        requires
                            o.amount <= MAX_ORDER_AMOUNT,
                            o.price <= MAX_PRICE,
                    ;
                }
            }
            let acct = &mut accounts_data.accounts[t];
            acct.active_orders.remove(&o.order_id);
            match o.order_type {
                OrderType::Buy => {
                    acct.net_cents_balance = acct.net_cents_balance + o.amount * o.price;
                },
                OrderType::Sell => {
                    let cur = *acct.net_asset_balances.index_ref(&o.symbol);
                    acct.net_asset_balances.set(&o.symbol, cur + o.amount as i64);
                },
            }
            proof {
                assert(accounts_view(accounts_data.accounts@) =~= cancel_applied(a0, o));
                assert(data.books@ =~= books0.update(s as int, b1));
                lemma_cancel_wf(cfg, books0, a0, s as int, b1, ns, o);
                if free_shares_nonneg(cfg, old(accounts_data)) {
                    let af = accounts_view(accounts_data.accounts@);
                    assert forall|u: int, j: int| 0 <= u < af.len() && TraderId(u as u16) != cfg.price_enforcer_id
                        && 0 <= j < af[u].net_asset_balances.len() implies #[trigger] af[u].net_asset_balances[j] >= 0 by {
                        assert(a0[u].net_asset_balances[j] >= 0);
                    }
                }
            }
            let mut notices: Vec<Notification> = Vec::new();
            notices.push(Notification::Broadcast(OutgoingMessage::CancelOccurredMessage(CancelOccurredMessage {
                side: req.side,
                amount: o.amount,
                symbol: req.symbol,
                price: req.price,
            })));
            (OrderCancelResponse::CancelConfirmMessage(CancelConfirmMessage { order_info: o }), notices)
        },
    }
}


/// Whether an account's balances are within the limits.
fn account_within_limits(a: &TraderAccount, m: usize) -> (r: bool)
    requires
        m <= 65536,
    ensures
        r == within_limits(a@, m as nat),
{
    if a.cents_balance > BALANCE_LIMIT || a.net_cents_balance > BALANCE_LIMIT {
        return false;
    }
    if a.asset_balances.len() != m || a.net_asset_balances.len() != m {
        return false;
    }
    let lim: i64 = BALANCE_LIMIT as i64;
    let mut j: usize = 0;
    while j < m
        invariant
            j <= m,
            m <= 65536,
            a@.asset_balances.len() == m,
            a@.net_asset_balances.len() == m,
            lim == BALANCE_LIMIT,
            forall|k: int| 0 <= k < j ==> -(BALANCE_LIMIT as int) <= #[trigger] a@.asset_balances[k] <= BALANCE_LIMIT,
            forall|k: int| 0 <= k < j ==> -(BALANCE_LIMIT as int) <= #[trigger] a@.net_asset_balances[k] <= BALANCE_LIMIT,
        decreases m - j,
    {
        let x = *a.asset_balances.get(j);
        let y = *a.net_asset_balances.get(j);
        if x > lim || x < -lim || y > lim || y < -lim {
            return false;
        }
        j = j + 1;
    }
    true
}

/// Whether an account's free cash and free shares are within the limits.
fn free_within_limits(a: &TraderAccount) -> (r: bool)
    ensures
        r == (a@.net_cents_balance <= BALANCE_LIMIT
            && forall|j: int| 0 <= j < a@.net_asset_balances.len() ==> #[trigger] a@.net_asset_balances[j] <= BALANCE_LIMIT),
{
    if a.net_cents_balance > BALANCE_LIMIT {
        return false;
    }
    let m = a.net_asset_balances.len();
    let mut j: usize = 0;
    while j < m
        invariant
            j <= m,
            m == a@.net_asset_balances.len(),
            forall|k: int| 0 <= k < j ==> #[trigger] a@.net_asset_balances[k] <= BALANCE_LIMIT,
        decreases m - j,
    {
        if *a.net_asset_balances.get(j) > BALANCE_LIMIT as i64 {
            return false;
        }
        j = j + 1;
    }
    true
}

/// Whether every trader but the price enforcer has balances within the limits.
pub fn headroom_ok(cfg: &ExchangeConfig, accounts: &GlobalAccountState) -> (r: bool)
    requires
        cfg.wf(),
    ensures
        r == has_headroom(cfg, accounts),
{
    let ghost accts = accounts_view(accounts.accounts@);
    let m = TickerSymbol::count(cfg);
    let mut u: usize = 0;
    while u < accounts.accounts.len()
        invariant
            u <= accts.len(),
            accts == accounts_view(accounts.accounts@),
            m == cfg.num_tickers(),
            m <= 65536,
            forall|v: int| 0 <= v < u && TraderId(v as u16) != cfg.price_enforcer_id ==> within_limits(#[trigger] accts[v], cfg.num_tickers()),
        decreases accts.len() - u,
    {
        let a = &accounts.accounts[u];
        assert(accts[u as int] == a@);
        if TraderId(u as u16) != cfg.price_enforcer_id {
            if !account_within_limits(a, m) {
                return false;
            }
        }
        u = u + 1;
    }
    true
}

/// Whether the price enforcer's free cash and free shares are within the limits.
pub fn enforcer_headroom_ok(cfg: &ExchangeConfig, accounts: &GlobalAccountState) -> (r: bool)
    ensures
        r == enforcer_headroom(cfg, accounts),
{
    let ghost accts = accounts_view(accounts.accounts@);
    let mut u: usize = 0;
    while u < accounts.accounts.len()
        invariant
            u <= accts.len(),
            accts == accounts_view(accounts.accounts@),
            forall|v: int| 0 <= v < u && TraderId(v as u16) == cfg.price_enforcer_id ==> {
                &&& (#[trigger] accts[v]).net_cents_balance <= BALANCE_LIMIT
                &&& forall|j: int| 0 <= j < accts[v].net_asset_balances.len() ==> #[trigger] accts[v].net_asset_balances[j] <= BALANCE_LIMIT
            },
        decreases accts.len() - u,
    {
        let a = &accounts.accounts[u];
        assert(accts[u as int] == a@);
        if TraderId(u as u16) == cfg.price_enforcer_id {
            if !free_within_limits(a) {
                return false;
            }
        }
        u = u + 1;
    }
    true
}

} // verus!
