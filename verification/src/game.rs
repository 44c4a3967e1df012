//! The state of one game: the books, the accounts, whether trading is open, and
//! the next order id; starting and ending the game, and the final standings.
use vstd::prelude::*;

use crate::accounts::AccountView;
use crate::config::{ExchangeConfig, TickerSymbol, TraderId};
use crate::exchange::{
    accounts_view, book_cents_w, book_ok, exchange_wf, free_shares_nonneg, has_headroom,
    history_ok, state_wf, value_w, GlobalAccountState, GlobalOrderBookState,
};
use crate::ledger::{level_sum, side_all, side_sum};
use crate::orderbook::{LevelView, OrderBook, MAX_PRICE};
use crate::sums::sum_of;

verus! {

/// Everything the exchange keeps between requests.
pub struct GlobalState {
    pub config: ExchangeConfig,
    pub global_orderbook_state: GlobalOrderBookState,
    pub global_account_state: GlobalAccountState,
    /// Whether trading is open.
    pub game_started: bool,
    /// The id the next accepted order gets.
    pub order_counter: usize,
}

impl GlobalState {
    /// The books and accounts are consistent with each other and the configuration.
    pub open spec fn wf(&self) -> bool {
        exchange_wf(&self.config, &self.global_orderbook_state, &self.global_account_state)
    }

    /// Every trader's active orders are its orders resting on the books, and the
    /// order counter is above every resting order's id.
    pub open spec fn orders_consistent(&self) -> bool {
        crate::active::active_consistent(
            self.global_orderbook_state.books@,
            accounts_view(self.global_account_state.accounts@),
            self.order_counter as int,
        )
    }

    /// A game that has not started: empty books, fresh accounts, order ids from zero.
    pub fn new(config: ExchangeConfig) -> (r: GlobalState)
        requires
            config.wf(),
        ensures
            r.wf(),
            r.config == config,
            !r.game_started,
            r.order_counter == 0,
            config.start_asset_balance >= 0 ==> free_shares_nonneg(&r.config, &r.global_account_state),
            r.orders_consistent(),
            r.global_orderbook_state.books@.len() == config.num_tickers(),
            forall|s: int| 0 <= s < r.global_orderbook_state.books@.len() ==> {
                let b = #[trigger] r.global_orderbook_state.books@[s];
                &&& b.symbol == TickerSymbol(s as u16)
                &&& b.bids() == Seq::<LevelView>::empty()
                &&& b.asks() == Seq::<LevelView>::empty()
                &&& b.price_history@ == Seq::<(u64, u64, u64)>::empty()
            },
            accounts_view(r.global_account_state.accounts@).len() == config.num_traders(),
            forall|t: int| 0 <= t < config.num_traders() ==> (#[trigger] accounts_view(r.global_account_state.accounts@)[t]) == (AccountView {
                trader_id: TraderId(t as u16),
                cents_balance: config.start_cents_balance,
                password: config.trader_passwords@[t],
                active_orders: Map::empty(),
                net_cents_balance: config.start_cents_balance,
                asset_balances: Seq::new(config.num_tickers(), |i: int| config.start_asset_balance),
                net_asset_balances: Seq::new(config.num_tickers(), |i: int| config.start_asset_balance),
            }),
    {
        let books = GlobalOrderBookState::new(&config);
        let accounts = GlobalAccountState::new(&config);
        proof {
            let bs = books.books@;
            let accts = accounts_view(accounts.accounts@);
            let n = config.num_traders();
            let nt = config.num_tickers();
            assert forall|s: int| 0 <= s < nt implies book_ok(#[trigger] bs[s], s, n) by {
                assert(bs[s].bids() == Seq::<LevelView>::empty());
                assert(bs[s].asks() == Seq::<LevelView>::empty());
            }
            assert forall|u: int| 0 <= u < n && TraderId(u as u16) != config.price_enforcer_id
                implies crate::exchange::balanced(#[trigger] accts[u], bs, TraderId(u as u16)) by {
                let uid = TraderId(u as u16);
                let f = book_cents_w(uid);
                assert forall|i: int| 0 <= i < bs.len() implies 0 <= #[trigger] f(bs[i]) <= 0 by {
                    assert(bs[i].bids() == Seq::<LevelView>::empty());
                    assert(side_sum(bs[i].bids(), value_w(uid)) == 0);
                }
                crate::sums::lemma_sum_bound(bs, f, 0);
                assert forall|s: int| 0 <= s < bs.len() implies accts[u].asset_balances[s]
                    == accts[u].net_asset_balances[s] + crate::exchange::reserved_shares(#[trigger] bs[s], uid) by {
                    assert(bs[s].asks() == Seq::<LevelView>::empty());
                    assert(side_sum(bs[s].asks(), crate::exchange::shares_w(uid)) == 0);
                }
            }
        }
        proof {
            let accts = accounts_view(accounts.accounts@);
            assert forall|u: int| 0 <= u < accts.len() implies (#[trigger] accts[u]).active_orders == Map::<crate::orderbook::OrderID, crate::orderbook::Order>::empty() by {}
            crate::active::lemma_fresh_consistent(books.books@, accts, 0);
        }
        GlobalState {
            config,
            global_orderbook_state: books,
            global_account_state: accounts,
            game_started: false,
            order_counter: 0,
        }
    }
}


/// Why a request to start or end the game was refused.
#[derive(Debug, Clone, Copy, PartialEq, Eq, Structural)]
pub enum GameControlError {
    AlreadyStarted,
    NotStarted,
}

impl GameControlError {
    /// The text sent back.
    pub fn details(&self) -> (r: &'static str)
        ensures
            r@ == self.spec_details(),
    {
        match self {
            GameControlError::AlreadyStarted => "Game has already started.",
            GameControlError::NotStarted => "Game has not started yet.",
        }
    }

    /// The text sent, as characters.
    pub open spec fn spec_details(&self) -> Seq<char> {
        match self {
            GameControlError::AlreadyStarted => "Game has already started."@,
            GameControlError::NotStarted => "Game has not started yet."@,
        }
    }
}

/// The last trade price of every symbol that traded, in symbol order.
pub open spec fn final_prices(books: Seq<OrderBook>) -> Seq<(TickerSymbol, u64)>
    decreases books.len(),
{
    if books.len() == 0 {
        Seq::empty()
    } else {
        let k = books.len() - 1;
        let h = books.last().price_history@;
        final_prices(books.drop_last()) + if h.len() > 0 {
            seq![(TickerSymbol(k as u16), h.last().1)]
        } else {
            Seq::<(TickerSymbol, u64)>::empty()
        }
    }
}

/// At the end of the game a symbol is valued at its most recent trade: every
/// symbol whose book has traded is listed with the price of the last entry of its
/// price history, every listed symbol is such a symbol with that price, and the
/// symbols are listed once each, in increasing order.
pub proof fn law_final_price_is_last_trade(books: Seq<OrderBook>)
    requires
        books.len() <= 65536,
    ensures
        forall|s: int| 0 <= s < books.len() && (#[trigger] books[s]).price_history@.len() > 0
            ==> final_prices(books).contains((TickerSymbol(s as u16), books[s].price_history@.last().1)),
        forall|i: int| 0 <= i < final_prices(books).len() ==> {
            let sp = #[trigger] final_prices(books)[i];
            &&& 0 <= sp.0.0 < books.len()
            &&& books[sp.0.0 as int].price_history@.len() > 0
            &&& sp.1 == books[sp.0.0 as int].price_history@.last().1
        },
        forall|i: int, j: int| 0 <= i < j < final_prices(books).len() ==> (#[trigger] final_prices(books)[i]).0.0 < (#[trigger] final_prices(books)[j]).0.0,
    decreases books.len(),
{
    if books.len() > 0 {
        let init = books.drop_last();
        let k = books.len() - 1;
        law_final_price_is_last_trade(init);
        let fi = final_prices(init);
        let h = books.last().price_history@;
        let extra = if h.len() > 0 {
            seq![(TickerSymbol(k as u16), h.last().1)]
        } else {
            Seq::<(TickerSymbol, u64)>::empty()
        };
        let fp = final_prices(books);
        assert(fp == fi + extra);
        assert(books[k] == books.last());
        assert forall|s: int| 0 <= s < books.len() && (#[trigger] books[s]).price_history@.len() > 0
            implies fp.contains((TickerSymbol(s as u16), books[s].price_history@.last().1)) by {
            if s < k {
                assert(init[s] == books[s]);
                let i = choose|i: int| 0 <= i < fi.len() && fi[i] == (TickerSymbol(s as u16), books[s].price_history@.last().1);
                assert(fp[i] == fi[i]);
            } else {
                assert(fp[fi.len() as int] == extra[0]);
            }
        }
        assert forall|i: int| 0 <= i < fp.len() implies {
            let sp = #[trigger] fp[i];
            &&& 0 <= sp.0.0 < books.len()
            &&& books[sp.0.0 as int].price_history@.len() > 0
            &&& sp.1 == books[sp.0.0 as int].price_history@.last().1
        } by {
            if i < fi.len() {
                assert(fp[i] == fi[i]);
                assert(init[fi[i].0.0 as int] == books[fi[i].0.0 as int]);
            } else {
                assert(fp[i] == extra[0]);
            }
        }
        assert forall|i: int, j: int| 0 <= i < j < fp.len() implies (#[trigger] fp[i]).0.0 < (#[trigger] fp[j]).0.0 by {
            assert(fp[i] == fi[i]) by {
                if i >= fi.len() {
                    assert(extra.len() <= 1);
                }
            }
            if j < fi.len() {
                assert(fp[j] == fi[j]);
            } else {
                assert(fp[j] == extra[0]);
                assert(fi[i].0.0 < init.len());
            }
        }
    }
}

/// What `bal` shares are worth at the end of the game when the last trade was at
/// `price`: the price times 100·bal/(100 + bal), rounded down, so that a large
/// holding is worth less than its market value.
pub open spec fn asset_value(price: int, bal: int) -> int {
    price * (100 * bal) / (100 + bal)
}

/// The end-of-game value of an account's holding of one symbol.
pub open spec fn holding_w(a: AccountView) -> spec_fn((TickerSymbol, u64)) -> int {
    |sp: (TickerSymbol, u64)| asset_value(sp.1 as int, a.asset_balances[sp.0.0 as int] as int)
}

/// An account's final score: its cash plus the value of its holdings of every
/// symbol that traded.
pub open spec fn final_score(a: AccountView, prices: Seq<(TickerSymbol, u64)>) -> int {
    a.cents_balance + sum_of(prices, holding_w(a))
}

/// Every trader but the price enforcer with its final score, in trader order.
pub open spec fn standings(accts: Seq<AccountView>, prices: Seq<(TickerSymbol, u64)>, enforcer: TraderId) -> Seq<(TraderId, u64)>
    decreases accts.len(),
{
    if accts.len() == 0 {
        Seq::empty()
    } else {
        let k = accts.len() - 1;
        standings(accts.drop_last(), prices, enforcer) + if TraderId(k as u16) != enforcer {
            seq![(TraderId(k as u16), final_score(accts.last(), prices) as u64)]
        } else {
            Seq::<(TraderId, u64)>::empty()
        }
    }
}

/// `x` ranks above `y`: a higher score, or the same score and a lower trader id.
pub open spec fn ranked_before(x: (TraderId, u64), y: (TraderId, u64)) -> bool {
    x.1 > y.1 || (x.1 == y.1 && x.0.0 < y.0.0)
}

/// `r` holds the entries of `s`, best first.
pub open spec fn is_ranking(r: Seq<(TraderId, u64)>, s: Seq<(TraderId, u64)>) -> bool {
    &&& r.len() == s.len()
    &&& forall|i: int| 0 <= i < s.len() ==> r.contains(#[trigger] s[i])
    &&& forall|i: int| 0 <= i < r.len() ==> s.contains(#[trigger] r[i])
    &&& forall|i: int, j: int| 0 <= i < j < r.len() ==> ranked_before(#[trigger] r[i], #[trigger] r[j])
}

/// Every trader but the price enforcer holds no negative number of shares.
pub open spec fn holdings_nonnegative(cfg: &ExchangeConfig, accounts: &GlobalAccountState) -> bool {
    let accts = accounts_view(accounts.accounts@);
    forall|u: int, s: int| 0 <= u < accts.len() && TraderId(u as u16) != cfg.price_enforcer_id
        && 0 <= s < accts[u].asset_balances.len() ==> #[trigger] accts[u].asset_balances[s] >= 0
}

/// When no trader but the price enforcer has negative free shares, none holds a
/// negative number of shares either: its holding of a symbol is its free shares
/// plus those its resting sells set aside.
pub proof fn law_holdings_nonnegative(st: &GlobalState)
    requires
        st.wf(),
        free_shares_nonneg(&st.config, &st.global_account_state),
    ensures
        holdings_nonnegative(&st.config, &st.global_account_state),
{
    let accts = accounts_view(st.global_account_state.accounts@);
    let books = st.global_orderbook_state.books@;
    let nt = st.config.num_tickers();
    assert forall|u: int, s: int| 0 <= u < accts.len() && TraderId(u as u16) != st.config.price_enforcer_id
        && 0 <= s < accts[u].asset_balances.len() implies #[trigger] accts[u].asset_balances[s] >= 0 by {
        let uid = TraderId(u as u16);
        assert(crate::exchange::account_ok(accts[u], u, nt));
        assert(crate::exchange::balanced(accts[u], books, uid));
        assert(accts[u].asset_balances[s] == accts[u].net_asset_balances[s] + crate::exchange::reserved_shares(books[s], uid));
        crate::exchange::lemma_side_sum_nonneg(books[s].asks(), crate::exchange::shares_w(uid));
        assert(accts[u].net_asset_balances[s] >= 0);
    }
}

/// Ranks standings given in increasing trader order: best score first, ties in
/// trader order.
#[verifier::spinoff_prover]
pub fn rank_standings(v: &Vec<(TraderId, u64)>) -> (r: Vec<(TraderId, u64)>)
    requires
        forall|i: int, j: int| 0 <= i < j < v@.len() ==> (#[trigger] v@[i]).0.0 < (#[trigger] v@[j]).0.0,
    ensures
        is_ranking(r@, v@),
{
    let mut sorted: Vec<(TraderId, u64)> = Vec::new();
    let mut k: usize = 0;
    while k < v.len()
        invariant
            k <= v@.len(),
            forall|i: int, j: int| 0 <= i < j < v@.len() ==> (#[trigger] v@[i]).0.0 < (#[trigger] v@[j]).0.0,
            sorted@.len() == k,
            forall|i: int| 0 <= i < k ==> sorted@.contains(#[trigger] v@[i]),
            forall|i: int| #![trigger sorted@[i]] 0 <= i < sorted@.len() ==> exists|j: int| #![trigger v@[j]] 0 <= j < k && sorted@[i] == v@[j],
            forall|i: int, j: int| 0 <= i < j < sorted@.len() ==> ranked_before(#[trigger] sorted@[i], #[trigger] sorted@[j]),
        decreases v@.len() - k,
    {
        let x = v[k];
        let mut pos: usize = 0;
        while pos < sorted.len() && sorted[pos].1 >= x.1
            invariant
                pos <= sorted@.len(),
                forall|i: int| 0 <= i < pos ==> (#[trigger] sorted@[i]).1 >= x.1,
            decreases sorted@.len() - pos,
        {
            pos = pos + 1;
        }
        let ghost old_sorted = sorted@;
        proof {
            assert forall|i: int| 0 <= i < old_sorted.len() implies (#[trigger] old_sorted[i]).0.0 < x.0.0 by {
                let j = choose|j: int| 0 <= j < k && old_sorted[i] == #[trigger] v@[j];
                assert(v@[j].0.0 < v@[k as int].0.0);
            }
            old_sorted.insert_ensures(pos as int, x);
        }
        sorted.insert(pos, x);
        proof {
            let ns = sorted@;
            assert forall|i: int, j: int| 0 <= i < j < ns.len() implies ranked_before(#[trigger] ns[i], #[trigger] ns[j]) by {
                if j < pos {
                    assert(ns[i] == old_sorted[i] && ns[j] == old_sorted[j]);
                } else if j == pos {
                    assert(ns[i] == old_sorted[i]);
                    assert(old_sorted[i].1 >= x.1);
                    assert(old_sorted[i].0.0 < x.0.0);
                } else if i < pos {
                    assert(ns[i] == old_sorted[i] && ns[j] == old_sorted[j - 1]);
                } else if i == pos {
                    assert(ns[j] == old_sorted[j - 1]);
                    if pos < old_sorted.len() {
                        assert(old_sorted[pos as int].1 < x.1);
                        if j - 1 > pos {
                            assert(ranked_before(old_sorted[pos as int], old_sorted[j - 1]));
                        }
                    }
                } else {
                    assert(ns[i] == old_sorted[i - 1] && ns[j] == old_sorted[j - 1]);
                }
            }
            assert forall|i: int| 0 <= i < k + 1 implies ns.contains(#[trigger] v@[i]) by {
                if i == k {
                    assert(ns[pos as int] == x);
                } else {
                    assert(old_sorted.contains(v@[i]));
                    let a = choose|a: int| 0 <= a < old_sorted.len() && old_sorted[a] == v@[i];
                    if a < pos {
                        assert(ns[a] == v@[i]);
                    } else {
                        assert(ns[a + 1] == v@[i]);
                    }
                }
            }
            assert forall|i: int| #![trigger ns[i]] 0 <= i < ns.len() implies exists|j: int| #![trigger v@[j]] 0 <= j < k + 1 && ns[i] == v@[j] by {
                if i < pos {
                    assert(ns[i] == old_sorted[i]);
                } else if i == pos {
                    assert(ns[i] == v@[k as int]);
                } else {
                    assert(ns[i] == old_sorted[i - 1]);
                }
            }
        }
        k = k + 1;
    }
    proof {
        assert forall|i: int| 0 <= i < sorted@.len() implies v@.contains(#[trigger] sorted@[i]) by {
            let j = choose|j: int| 0 <= j < k && sorted@[i] == #[trigger] v@[j];
        }
    }
    sorted
}


/// The last trade price of every symbol that traded, in symbol order.
fn collect_final_prices(books: &GlobalOrderBookState) -> (r: Vec<(TickerSymbol, u64)>)
    requires
        books.books@.len() <= 65536,
        forall|s: int| 0 <= s < books.books@.len() ==> history_ok(#[trigger] books.books@[s].price_history@),
    ensures
        r@ == final_prices(books.books@),
        r@.len() <= books.books@.len(),
        forall|i: int| 0 <= i < r@.len() ==> (#[trigger] r@[i]).1 <= MAX_PRICE && (r@[i].0.0 as int) < books.books@.len(),
{
    let ghost bs = books.books@;
    let mut r: Vec<(TickerSymbol, u64)> = Vec::new();
    let mut k: usize = 0;
    assert(bs.take(0) =~= Seq::<OrderBook>::empty());
    while k < books.books.len()
        invariant
            k <= bs.len(),
            bs == books.books@,
            bs.len() <= 65536,
            forall|s: int| 0 <= s < bs.len() ==> history_ok(#[trigger] bs[s].price_history@),
            r@ == final_prices(bs.take(k as int)),
            r@.len() <= k,
            forall|i: int| 0 <= i < r@.len() ==> (#[trigger] r@[i]).1 <= MAX_PRICE && (r@[i].0.0 as int) < k,
        decreases bs.len() - k,
    {
        let h = &books.books[k].price_history;
        assert(bs.take(k + 1).drop_last() =~= bs.take(k as int));
        assert(bs.take(k + 1).last() == bs[k as int]);
        if h.len() > 0 {
            let last = h[h.len() - 1];
            assert(history_ok(bs[k as int].price_history@));
            assert(last == h@[h@.len() - 1]);
            r.push((TickerSymbol(k as u16), last.1));
        } else {
            assert(r@ =~= r@ + Seq::<(TickerSymbol, u64)>::empty());
        }
        k = k + 1;
    }
    assert(bs.take(k as int) =~= bs);
    r
}

/// The end-of-game value of `bal` shares last traded at `price`.
fn holding_value(price: u64, bal: i64) -> (r: u64)
    requires
        price <= MAX_PRICE,
        0 <= bal <= crate::exchange::BALANCE_LIMIT,
    ensures
        r == asset_value(price as int, bal as int),
        r <= 100_000_000,
{
    let p = price as u128;
    let b = bal as u128;
    proof {
        assert(p * (100 * b) <= 1_000_000 * (100 * 2_305_843_009_213_693_952)) by (nonlinear_arith)
            requires
                p <= 1_000_000,
                b <= 2_305_843_009_213_693_952,
        ;
        let x = p * (100 * b);
        let d = 100 + b;
        assert(x <= (100 * p) * d) by (nonlinear_arith)
            requires
                x == p * (100 * b),
                d == 100 + b,
                p >= 0,
                b >= 0,
        ;
        vstd::arithmetic::div_mod::lemma_div_is_ordered(x as int, (100 * p) * d, d as int);
        vstd::arithmetic::div_mod::lemma_div_multiples_vanish(100 * p, d as int);
        assert(d * (100 * p) == (100 * p) * d) by (nonlinear_arith);
        assert(x / d >= 0) by (nonlinear_arith)
            requires
                x >= 0,
                d > 0,
        ;
    }
    ((p * (100 * b)) / (100 + b)) as u64
}

/// An account's final score.
fn score_account(a: &crate::accounts::TraderAccount, prices: &Vec<(TickerSymbol, u64)>) -> (r: u64)
    requires
        a@.cents_balance <= crate::exchange::BALANCE_LIMIT,
        prices@.len() <= 65536,
        forall|i: int| 0 <= i < prices@.len() ==> {
            let sp = #[trigger] prices@[i];
            &&& sp.1 <= MAX_PRICE
            &&& (sp.0.0 as int) < a@.asset_balances.len()
            &&& 0 <= a@.asset_balances[sp.0.0 as int] <= crate::exchange::BALANCE_LIMIT
        },
    ensures
        r == final_score(a@, prices@),
{
    let ghost f = holding_w(a@);
    let mut total: u64 = a.cents_balance;
    let mut k: usize = 0;
    assert(prices@.take(0) =~= Seq::<(TickerSymbol, u64)>::empty());
    while k < prices.len()
        invariant
            k <= prices@.len(),
            prices@.len() <= 65536,
            a@.cents_balance <= crate::exchange::BALANCE_LIMIT,
            f == holding_w(a@),
            forall|i: int| 0 <= i < prices@.len() ==> {
                let sp = #[trigger] prices@[i];
                &&& sp.1 <= MAX_PRICE
                &&& (sp.0.0 as int) < a@.asset_balances.len()
                &&& 0 <= a@.asset_balances[sp.0.0 as int] <= crate::exchange::BALANCE_LIMIT
            },
            total == a@.cents_balance + sum_of(prices@.take(k as int), f),
            total <= a@.cents_balance + k * 100_000_000,
        decreases prices@.len() - k,
    {
        let sp = prices[k];
        let bal = *a.asset_balances.get(sp.0.0 as usize);
        let v = holding_value(sp.1, bal);
        proof {
            assert(prices@.take(k + 1) =~= prices@.take(k as int).push(sp));
            crate::sums::lemma_sum_push(prices@.take(k as int), sp, f);
            assert(f(sp) == v);
        }
        total = total + v;
        k = k + 1;
    }
    assert(prices@.take(k as int) =~= prices@);
    total
}

/// Every trader but the price enforcer with its final score, in trader order.
fn compute_standings(cfg: &ExchangeConfig, accounts: &GlobalAccountState, prices: &Vec<(TickerSymbol, u64)>) -> (r: Vec<(TraderId, u64)>)
    requires
        cfg.wf(),
        accounts_view(accounts.accounts@).len() == cfg.num_traders(),
        prices@.len() <= 65536,
        forall|u: int| 0 <= u < accounts.accounts@.len() && TraderId(u as u16) != cfg.price_enforcer_id ==> {
            let a = #[trigger] accounts_view(accounts.accounts@)[u];
            &&& a.cents_balance <= crate::exchange::BALANCE_LIMIT
            &&& forall|i: int| 0 <= i < prices@.len() ==> {
                let sp = #[trigger] prices@[i];
                &&& sp.1 <= MAX_PRICE
                &&& (sp.0.0 as int) < a.asset_balances.len()
                &&& 0 <= a.asset_balances[sp.0.0 as int] <= crate::exchange::BALANCE_LIMIT
            }
        },
    ensures
        r@ == standings(accounts_view(accounts.accounts@), prices@, cfg.price_enforcer_id),
        forall|i: int, j: int| 0 <= i < j < r@.len() ==> (#[trigger] r@[i]).0.0 < (#[trigger] r@[j]).0.0,
{
    let ghost accts = accounts_view(accounts.accounts@);
    let mut r: Vec<(TraderId, u64)> = Vec::new();
    let mut u: usize = 0;
    assert(accts.take(0) =~= Seq::<AccountView>::empty());
    while u < accounts.accounts.len()
        invariant
            u <= accts.len(),
            accts == accounts_view(accounts.accounts@),
            accts.len() == cfg.num_traders(),
            cfg.wf(),
            prices@.len() <= 65536,
            forall|v: int| 0 <= v < accounts.accounts@.len() && TraderId(v as u16) != cfg.price_enforcer_id ==> {
                let a = #[trigger] accounts_view(accounts.accounts@)[v];
                &&& a.cents_balance <= crate::exchange::BALANCE_LIMIT
                &&& forall|i: int| 0 <= i < prices@.len() ==> {
                    let sp = #[trigger] prices@[i];
                    &&& sp.1 <= MAX_PRICE
                    &&& (sp.0.0 as int) < a.asset_balances.len()
                    &&& 0 <= a.asset_balances[sp.0.0 as int] <= crate::exchange::BALANCE_LIMIT
                }
            },
            r@ == standings(accts.take(u as int), prices@, cfg.price_enforcer_id),
            forall|i: int, j: int| 0 <= i < j < r@.len() ==> (#[trigger] r@[i]).0.0 < (#[trigger] r@[j]).0.0,
            forall|i: int| 0 <= i < r@.len() ==> ((#[trigger] r@[i]).0.0 as int) < u,
        decreases accts.len() - u,
    {
        let id = TraderId(u as u16);
        assert(accts.take(u + 1).drop_last() =~= accts.take(u as int));
        assert(accts.take(u + 1).last() == accts[u as int]);
        if id != cfg.price_enforcer_id {
            let a = &accounts.accounts[u];
            assert(accts[u as int] == a@);
            let score = score_account(a, prices);
            r.push((id, score));
        } else {
            assert(r@ =~= r@ + Seq::<(TraderId, u64)>::empty());
        }
        u = u + 1;
    }
    assert(accts.take(u as int) =~= accts);
    r
}

/// Whether an account holds no negative number of shares of any symbol.
fn holdings_ok(a: &crate::accounts::TraderAccount) -> (r: bool)
    ensures
        r == forall|s: int| 0 <= s < a@.asset_balances.len() ==> #[trigger] a@.asset_balances[s] >= 0,
{
    let m = a.asset_balances.len();
    let mut j: usize = 0;
    while j < m
        invariant
            j <= m,
            m == a@.asset_balances.len(),
            forall|s: int| 0 <= s < j ==> #[trigger] a@.asset_balances[s] >= 0,
        decreases m - j,
    {
        if *a.asset_balances.get(j) < 0 {
            return false;
        }
        j = j + 1;
    }
    true
}

impl GlobalState {
    /// Opens trading. Refused when the game has already started.
    pub fn start_game(&mut self) -> (r: Result<(), GameControlError>)
        ensures
            old(self).game_started ==> r == Err::<(), GameControlError>(GameControlError::AlreadyStarted)
                && *final(self) == *old(self),
            !old(self).game_started ==> r == Ok::<(), GameControlError>(())
                && *final(self) == (GlobalState { game_started: true, ..*old(self) }),
    {
        if self.game_started {
            return Err(GameControlError::AlreadyStarted);
        }
        self.game_started = true;
        Ok(())
    }

    /// Closes trading and ranks every trader but the price enforcer by final score
    /// (cash plus holdings valued at each symbol's last trade price), best first,
    /// ties in trader order. Refused when the game has not started.
    #[verifier::spinoff_prover]
    pub fn end_game(&mut self) -> (r: Result<Vec<(TraderId, u64)>, GameControlError>)
        requires
            old(self).wf(),
            old(self).game_started ==> has_headroom(&old(self).config, &old(self).global_account_state),
            old(self).game_started ==> holdings_nonnegative(&old(self).config, &old(self).global_account_state),
        ensures
            !old(self).game_started ==> r == Err::<Vec<(TraderId, u64)>, GameControlError>(GameControlError::NotStarted)
                && *final(self) == *old(self),
            old(self).game_started ==> *final(self) == (GlobalState { game_started: false, ..*old(self) })
                && match r {
                    Ok(v) => is_ranking(v@, standings(
                        accounts_view(old(self).global_account_state.accounts@),
                        final_prices(old(self).global_orderbook_state.books@),
                        old(self).config.price_enforcer_id,
                    )),
                    Err(_) => false,
                },
    {
        if !self.game_started {
            return Err(GameControlError::NotStarted);
        }
        self.game_started = false;
        let ghost accts = accounts_view(self.global_account_state.accounts@);
        let ghost bs = self.global_orderbook_state.books@;
        proof {
            assert forall|s: int| 0 <= s < bs.len() implies history_ok(#[trigger] bs[s].price_history@) by {
                assert(book_ok(bs[s], s, self.config.num_traders()));
            }
        }
        let prices = collect_final_prices(&self.global_orderbook_state);
        proof {
            let n = self.config.num_traders();
            let nt = self.config.num_tickers();
            assert forall|u: int| 0 <= u < self.global_account_state.accounts@.len() && TraderId(u as u16) != self.config.price_enforcer_id implies {
                let a = #[trigger] accounts_view(self.global_account_state.accounts@)[u];
                &&& a.cents_balance <= crate::exchange::BALANCE_LIMIT
                &&& forall|i: int| 0 <= i < prices@.len() ==> {
                    let sp = #[trigger] prices@[i];
                    &&& sp.1 <= MAX_PRICE
                    &&& (sp.0.0 as int) < a.asset_balances.len()
                    &&& 0 <= a.asset_balances[sp.0.0 as int] <= crate::exchange::BALANCE_LIMIT
                }
            } by {
                let a = accts[u];
                assert(crate::exchange::within_limits(a, nt));
                assert forall|i: int| 0 <= i < prices@.len() implies {
                    let sp = #[trigger] prices@[i];
                    &&& sp.1 <= MAX_PRICE
                    &&& (sp.0.0 as int) < a.asset_balances.len()
                    &&& 0 <= a.asset_balances[sp.0.0 as int] <= crate::exchange::BALANCE_LIMIT
                } by {
                    let sp = prices@[i];
                    assert(a.asset_balances[sp.0.0 as int] >= 0);
                }
            }
        }
        let unranked = compute_standings(&self.config, &self.global_account_state, &prices);
        let ranked = rank_standings(&unranked);
        Ok(ranked)
    }

    /// Whether the game can be ended: every balance is within the limits and no
    /// trader but the price enforcer holds a negative number of shares.
    pub fn end_game_ready(&self) -> (r: bool)
        requires
            self.config.wf(),
        ensures
            r == (has_headroom(&self.config, &self.global_account_state)
                && holdings_nonnegative(&self.config, &self.global_account_state)),
    {
        let ghost accts = accounts_view(self.global_account_state.accounts@);
        if !crate::exchange::headroom_ok(&self.config, &self.global_account_state) {
            return false;
        }
        let mut u: usize = 0;
        while u < self.global_account_state.accounts.len()
            invariant
                u <= accts.len(),
                accts == accounts_view(self.global_account_state.accounts@),
                forall|v: int, s: int| 0 <= v < u && TraderId(v as u16) != self.config.price_enforcer_id
                    && 0 <= s < accts[v].asset_balances.len() ==> #[trigger] accts[v].asset_balances[s] >= 0,
            decreases accts.len() - u,
        {
            let a = &self.global_account_state.accounts[u];
            assert(accts[u as int] == a@);
            if TraderId(u as u16) != self.config.price_enforcer_id && !holdings_ok(a) {
                return false;
            }
            u = u + 1;
        }
        true
    }
}

} // verus!

