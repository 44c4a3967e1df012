//! Trader accounts: cash and share balances, and the orders each trader has resting.
use vstd::prelude::*;
use std::collections::HashMap;

use crate::config::{AssetBalances, ExchangeConfig, Password, TickerSymbol, TraderId};
use crate::orderbook::{Order, OrderID};

verus! {

/// Most orders one trader may have resting at once.
pub const MAX_ACTIVE_ORDERS: usize = 256;

/// What an account holds, as mathematical values.
pub struct AccountView {
    pub trader_id: TraderId,
    pub cents_balance: u64,
    pub password: Password,
    pub active_orders: Map<OrderID, Order>,
    pub net_cents_balance: u64,
    pub asset_balances: Seq<i64>,
    pub net_asset_balances: Seq<i64>,
}

pub struct TraderAccount {
    pub trader_id: TraderId,
    /// Cash held, in cents.
    pub cents_balance: u64,
    pub password: Password,
    /// Resting orders keyed by order id.
    pub active_orders: HashMap<OrderID, Order>,
    /// Cash not reserved by resting buy orders, in cents.
    pub net_cents_balance: u64,
    /// Shares held, per symbol.
    pub asset_balances: AssetBalances,
    /// Shares not reserved by resting sell orders, per symbol.
    pub net_asset_balances: AssetBalances,
}

impl View for TraderAccount {
    type V = AccountView;

    open spec fn view(&self) -> AccountView {
        AccountView {
            trader_id: self.trader_id,
            cents_balance: self.cents_balance,
            password: self.password,
            active_orders: self.active_orders@,
            net_cents_balance: self.net_cents_balance,
            asset_balances: self.asset_balances@,
            net_asset_balances: self.net_asset_balances@,
        }
    }
}

/// A fresh account: `cents_balance` cents and `start_asset_balance` shares of every
/// configured symbol, all of it available, and no resting orders.
pub fn quickstart_trader_account(
    cfg: &ExchangeConfig,
    trader_id: TraderId,
    cents_balance: u64,
    start_asset_balance: i64,
    password: Password,
) -> (r: TraderAccount)
    ensures
        r@ == (AccountView {
            trader_id,
            cents_balance,
            password,
            active_orders: Map::empty(),
            net_cents_balance: cents_balance,
            asset_balances: Seq::new(cfg.num_tickers(), |i: int| start_asset_balance),
            net_asset_balances: Seq::new(cfg.num_tickers(), |i: int| start_asset_balance),
        }),
{
    let n = TickerSymbol::count(cfg);
    let asset_balances = AssetBalances::filled(n, start_asset_balance);
    let net_asset_balances = AssetBalances::filled(n, start_asset_balance);
    let r = TraderAccount {
        trader_id,
        cents_balance,
        password,
        active_orders: HashMap::with_capacity(MAX_ACTIVE_ORDERS),
        net_cents_balance: cents_balance,
        asset_balances,
        net_asset_balances,
    };
    assert(r@.asset_balances =~= Seq::new(cfg.num_tickers(), |i: int| start_asset_balance));
    assert(r@.net_asset_balances =~= Seq::new(cfg.num_tickers(), |i: int| start_asset_balance));
    assert(r@.active_orders =~= Map::<OrderID, Order>::empty());
    r
}

} // verus!
