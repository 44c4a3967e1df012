use matching_engine::config::{AccountEntry, ExchangeConfig, TickerSymbol, TraderId};
use matching_engine::exchange::add_order;
use matching_engine::game::{rank_standings, GameControlError, GlobalState};
use matching_engine::messages::OrderRequest;
use matching_engine::orderbook::OrderType;

const ALICE: TraderId = TraderId(1);
const BOB: TraderId = TraderId(2);
const TT: TickerSymbol = TickerSymbol(0);

fn entry(name: &str, pw: &str) -> AccountEntry {
    AccountEntry { trader_id: name.to_string(), password: pw.to_string() }
}

fn new_state() -> GlobalState {
    let cfg = ExchangeConfig::new(
        vec!["TT".to_string(), "TS".to_string()],
        vec![entry("Price_Enforcer", "penf"), entry("alice", "0001"), entry("bob", "0002")],
        10000,
        100,
    )
    .ok()
    .unwrap();
    GlobalState::new(cfg)
}

fn place(st: &mut GlobalState, trader: TraderId, ty: OrderType, amount: u64, price: u64) {
    let r = OrderRequest { order_type: ty, amount, price, symbol: TT, trader_id: trader, password: ['0', '0', '0', '0'] };
    add_order(r, &mut st.global_orderbook_state, &mut st.global_account_state, &st.config, &mut st.order_counter, 0);
}

#[test]
fn new_game_is_not_started() {
    let st = new_state();
    assert!(!st.game_started);
    assert_eq!(st.order_counter, 0);
    assert_eq!(st.global_orderbook_state.books.len(), 2);
    assert_eq!(st.global_account_state.accounts.len(), 3);
    let a = st.global_account_state.index_ref(BOB);
    assert_eq!(a.trader_id, BOB);
    assert_eq!(a.password, ['0', '0', '0', '2']);
    assert_eq!(a.cents_balance, 10000);
    assert_eq!(*a.asset_balances.index_ref(&TickerSymbol(1)), 100);
}

#[test]
fn start_game_only_once() {
    let mut st = new_state();
    assert_eq!(st.start_game(), Ok(()));
    assert!(st.game_started);
    assert_eq!(st.start_game(), Err(GameControlError::AlreadyStarted));
    assert_eq!(GameControlError::AlreadyStarted.details(), "Game has already started.");
}

#[test]
fn end_game_needs_started_game() {
    let mut st = new_state();
    assert!(st.end_game_ready());
    assert_eq!(st.end_game(), Err(GameControlError::NotStarted));
    assert_eq!(GameControlError::NotStarted.details(), "Game has not started yet.");
}

#[test]
fn end_game_scores_and_ranks() {
    let mut st = new_state();
    st.start_game().unwrap();
    place(&mut st, ALICE, OrderType::Sell, 10, 40);
    place(&mut st, BOB, OrderType::Buy, 10, 50);
    assert!(st.end_game_ready());
    let standings = st.end_game();
    // alice: 10400 + 40 * 9000 / 190; bob: 9600 + 40 * 11000 / 210
    assert_eq!(standings, Ok(vec![(ALICE, 12294), (BOB, 11695)]));
    assert!(!st.game_started);
}

#[test]
fn end_game_without_trades_counts_cash_only() {
    let mut st = new_state();
    st.start_game().unwrap();
    assert_eq!(st.end_game(), Ok(vec![(ALICE, 10000), (BOB, 10000)]));
}

#[test]
fn ranking_is_best_first_ties_in_trader_order() {
    let v = vec![(TraderId(1), 50), (TraderId(2), 70), (TraderId(3), 50), (TraderId(4), 0)];
    assert_eq!(
        rank_standings(&v),
        vec![(TraderId(2), 70), (TraderId(1), 50), (TraderId(3), 50), (TraderId(4), 0)]
    );
    assert_eq!(rank_standings(&vec![]), vec![]);
}
