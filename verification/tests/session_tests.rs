use matching_engine::config::{AccountEntry, ExchangeConfig, TickerSymbol, TraderId};
use matching_engine::game::GlobalState;
use matching_engine::messages::{
    AccountInfoRequest, CancelError, CancelErrorMessage, CancelRequest, IncomingMessage,
    OrderCancelResponse, OrderPlaceError, OrderPlaceErrorMessage, OrderPlaceResponse, OrderRequest,
};
use matching_engine::orderbook::OrderType;
use matching_engine::session::{
    authenticate, client_timed_out, connect_decision, handle_message, AuthError, ConnectDecision,
    RateLimiter, Reply, Session, SessionError,
};

const ENFORCER: TraderId = TraderId(0);
const ALICE: TraderId = TraderId(1);
const BOB: TraderId = TraderId(2);
const TT: TickerSymbol = TickerSymbol(0);

fn entry(name: &str, pw: &str) -> AccountEntry {
    AccountEntry { trader_id: name.to_string(), password: pw.to_string() }
}

fn new_state() -> GlobalState {
    let cfg = ExchangeConfig::new(
        vec!["TT".to_string()],
        vec![entry("Price_Enforcer", "penf"), entry("alice", "0001"), entry("bob", "0002")],
        10000,
        100,
    )
    .ok()
    .unwrap();
    GlobalState::new(cfg)
}

fn order(trader: TraderId, pw: [char; 4], price: u64) -> IncomingMessage {
    IncomingMessage::OrderRequest(OrderRequest { order_type: OrderType::Buy, amount: 1, price, symbol: TT, trader_id: trader, password: pw })
}

#[test]
fn authenticate_accepts_trader_and_password() {
    let st = new_state();
    assert_eq!(authenticate(&st.config, &st.global_account_state, Some("alice|0001")), Ok(ALICE));
    assert_eq!(authenticate(&st.config, &st.global_account_state, Some("Price_Enforcer|penf")), Ok(ENFORCER));
}

#[test]
fn authenticate_refusals() {
    let st = new_state();
    let a = |p: Option<&str>| authenticate(&st.config, &st.global_account_state, p);
    assert_eq!(a(None), Err(AuthError::MissingCredentials));
    assert_eq!(a(Some("alice0001")), Err(AuthError::InvalidFormat));
    assert_eq!(a(Some("alice|00|01")), Err(AuthError::InvalidFormat));
    assert_eq!(a(Some("carol|0001")), Err(AuthError::InvalidTraderId));
    assert_eq!(a(Some("alice|001")), Err(AuthError::PasswordLength(3)));
    assert_eq!(a(Some("alice|")), Err(AuthError::PasswordLength(0)));
    assert_eq!(a(Some("alice|0002")), Err(AuthError::InvalidCredentials));
}

#[test]
fn rate_limiter_sliding_window() {
    let mut l = RateLimiter::new();
    for t in 0..10u64 {
        assert!(l.try_acquire(t));
    }
    assert!(!l.try_acquire(500));
    assert!(!l.try_acquire(999));
    assert!(l.try_acquire(1000));
    assert!(!l.try_acquire(1000));
    assert!(l.try_acquire(1001));
}

#[test]
fn messages_refused_before_game_starts() {
    let mut st = new_state();
    let mut s = Session::new(ALICE);
    let (reply, notices) = handle_message(&mut st, &mut s, IncomingMessage::GameStateRequest, 0, 0);
    assert_eq!(reply, Reply::Error(SessionError::GameNotStarted));
    assert!(notices.is_empty());
    assert_eq!(SessionError::GameNotStarted.details(), "Game has not started yet.");
}

#[test]
fn messages_checked_for_password_and_trader() {
    let mut st = new_state();
    st.start_game().unwrap();
    let mut s = Session::new(ALICE);
    let (reply, _) = handle_message(&mut st, &mut s, order(ALICE, ['0', '0', '0', '2'], 10), 0, 0);
    assert_eq!(reply, Reply::Error(SessionError::InvalidPassword));
    let (reply, _) = handle_message(&mut st, &mut s, order(BOB, ['0', '0', '0', '2'], 10), 0, 0);
    assert_eq!(reply, Reply::Error(SessionError::TraderMismatch));
    assert_eq!(st.order_counter, 0);
    assert_eq!(SessionError::InvalidPassword.details(), "invalid password for provided trader id.");
    assert_eq!(SessionError::TraderMismatch.details(), "TraderId does not match authenticated connection.");
    let info = IncomingMessage::AccountInfoRequest(AccountInfoRequest { trader_id: ALICE, password: ['0', '0', '0', '1'] });
    assert_eq!(handle_message(&mut st, &mut s, info, 0, 0).0, Reply::AccountInfo(ALICE));
    assert_eq!(handle_message(&mut st, &mut s, IncomingMessage::GameStateRequest, 0, 0).0, Reply::GameState);
}

#[test]
fn orders_beyond_rate_limit_are_refused() {
    let mut st = new_state();
    st.start_game().unwrap();
    let mut s = Session::new(ALICE);
    for i in 0..10u64 {
        let (reply, _) = handle_message(&mut st, &mut s, order(ALICE, ['0', '0', '0', '1'], 10 + i), 100, 0);
        assert!(matches!(reply, Reply::Order(OrderPlaceResponse::OrderConfirmMessage(_))));
    }
    let (reply, notices) = handle_message(&mut st, &mut s, order(ALICE, ['0', '0', '0', '1'], 50), 200, 0);
    assert_eq!(
        reply,
        Reply::Order(OrderPlaceResponse::OrderPlaceErrorMessage(OrderPlaceErrorMessage {
            side: OrderType::Buy,
            price: 50,
            symbol: TT,
            error_details: OrderPlaceError::RateLimited,
        }))
    );
    assert!(notices.is_empty());
    assert_eq!(st.order_counter, 10);
    assert_eq!(OrderPlaceError::RateLimited.details(), "Rate limit exceeded");
    let cancel = IncomingMessage::CancelRequest(CancelRequest {
        order_id: 0,
        trader_id: ALICE,
        price: 10,
        symbol: TT,
        side: OrderType::Buy,
        password: ['0', '0', '0', '1'],
    });
    let (reply, _) = handle_message(&mut st, &mut s, cancel, 300, 0);
    assert_eq!(
        reply,
        Reply::Cancel(OrderCancelResponse::CancelErrorMessage(CancelErrorMessage {
            order_id: 0,
            side: OrderType::Buy,
            price: 10,
            symbol: TT,
            error_details: CancelError::RateLimited,
        }))
    );
    let (reply, _) = handle_message(&mut st, &mut s, cancel, 1100, 0);
    assert!(matches!(reply, Reply::Cancel(OrderCancelResponse::CancelConfirmMessage(_))));
}

#[test]
fn price_enforcer_is_not_rate_limited() {
    let mut st = new_state();
    st.start_game().unwrap();
    let mut s = Session::new(ENFORCER);
    for i in 0..20u64 {
        let (reply, _) = handle_message(&mut st, &mut s, order(ENFORCER, ['p', 'e', 'n', 'f'], 10 + i), 0, 0);
        assert!(matches!(reply, Reply::Order(OrderPlaceResponse::OrderConfirmMessage(_))));
    }
}

#[test]
fn timeouts_and_connection_decisions() {
    assert!(!client_timed_out(0, 10_000));
    assert!(client_timed_out(0, 10_001));
    assert!(!client_timed_out(5, 3));
    assert_eq!(connect_decision(false, false), ConnectDecision::Register);
    assert_eq!(connect_decision(false, true), ConnectDecision::Register);
    assert_eq!(connect_decision(true, true), ConnectDecision::KeepExisting);
    assert_eq!(connect_decision(true, false), ConnectDecision::Reject);
}
