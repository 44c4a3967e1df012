use matching_engine::config::{AccountEntry, ExchangeConfig, TickerSymbol, TraderId};
use matching_engine::exchange::{add_order, cancel_order, enforcer_headroom_ok, headroom_ok};
use matching_engine::game::GlobalState;
use matching_engine::messages::{
    CancelConfirmMessage, CancelError, CancelErrorMessage, CancelOccurredMessage, CancelRequest,
    NewRestingOrderMessage, Notification, OrderCancelResponse, OrderConfirmMessage,
    OrderFillMessage, OrderPlaceError, OrderPlaceErrorMessage, OrderPlaceResponse, OrderRequest,
    OutgoingMessage, TradeOccurredMessage,
};
use matching_engine::orderbook::{Order, OrderType};

const ENFORCER: TraderId = TraderId(0);
const ALICE: TraderId = TraderId(1);
const BOB: TraderId = TraderId(2);
const TT: TickerSymbol = TickerSymbol(0);

fn entry(name: &str, pw: &str) -> AccountEntry {
    AccountEntry { trader_id: name.to_string(), password: pw.to_string() }
}

fn new_state(n_extra: usize) -> GlobalState {
    let mut accounts = vec![entry("Price_Enforcer", "penf"), entry("alice", "0001"), entry("bob", "0002")];
    for i in 0..n_extra {
        accounts.push(entry(&format!("t{}", i), "0000"));
    }
    let cfg = ExchangeConfig::new(vec!["TT".to_string(), "TS".to_string()], accounts, 10000, 100)
        .ok()
        .unwrap();
    GlobalState::new(cfg)
}

fn order_req(trader: TraderId, ty: OrderType, amount: u64, price: u64) -> OrderRequest {
    OrderRequest { order_type: ty, amount, price, symbol: TT, trader_id: trader, password: ['0', '0', '0', '1'] }
}

fn place(st: &mut GlobalState, r: OrderRequest, time: u64) -> (OrderPlaceResponse, Vec<Notification>) {
    assert!(headroom_ok(&st.config, &st.global_account_state));
    add_order(
        r,
        &mut st.global_orderbook_state,
        &mut st.global_account_state,
        &st.config,
        &mut st.order_counter,
        time,
    )
}

fn cancel(st: &mut GlobalState, r: CancelRequest) -> (OrderCancelResponse, Vec<Notification>) {
    assert!(enforcer_headroom_ok(&st.config, &st.global_account_state));
    cancel_order(r, &mut st.global_orderbook_state, &mut st.global_account_state, &st.config)
}

fn error_of(r: &OrderRequest, e: OrderPlaceError) -> OrderPlaceResponse {
    OrderPlaceResponse::OrderPlaceErrorMessage(OrderPlaceErrorMessage {
        side: r.order_type,
        price: r.price,
        symbol: r.symbol,
        error_details: e,
    })
}

fn cents(st: &GlobalState, t: TraderId) -> (u64, u64) {
    let a = st.global_account_state.index_ref(t);
    (a.cents_balance, a.net_cents_balance)
}

fn shares(st: &GlobalState, t: TraderId, s: TickerSymbol) -> (i64, i64) {
    let a = st.global_account_state.index_ref(t);
    (*a.asset_balances.index_ref(&s), *a.net_asset_balances.index_ref(&s))
}

#[test]
fn resting_buy_reserves_cash() {
    let mut st = new_state(0);
    let r = order_req(ALICE, OrderType::Buy, 10, 45);
    let (resp, notices) = place(&mut st, r, 5);
    let placed = Order { order_id: 0, trader_id: ALICE, symbol: TT, amount: 10, price: 45, order_type: OrderType::Buy };
    assert_eq!(resp, OrderPlaceResponse::OrderConfirmMessage(OrderConfirmMessage { order_info: placed }));
    assert_eq!(
        notices,
        vec![Notification::Broadcast(OutgoingMessage::NewRestingOrderMessage(NewRestingOrderMessage {
            side: OrderType::Buy,
            amount: 10,
            symbol: TT,
            price: 45,
        }))]
    );
    assert_eq!(cents(&st, ALICE), (10000, 9550));
    assert_eq!(st.order_counter, 1);
    assert_eq!(st.global_account_state.index_ref(ALICE).active_orders.get(&0), Some(&placed));
}

#[test]
fn resting_sell_reserves_shares() {
    let mut st = new_state(0);
    place(&mut st, order_req(BOB, OrderType::Sell, 30, 45), 0);
    assert_eq!(shares(&st, BOB, TT), (100, 70));
    assert_eq!(shares(&st, BOB, TickerSymbol(1)), (100, 100));
    assert_eq!(cents(&st, BOB), (10000, 10000));
}

#[test]
fn trade_settles_and_refunds_price_improvement() {
    let mut st = new_state(0);
    place(&mut st, order_req(ALICE, OrderType::Sell, 10, 40), 1);
    let (resp, notices) = place(&mut st, order_req(BOB, OrderType::Buy, 10, 50), 7);
    let placed = Order { order_id: 1, trader_id: BOB, symbol: TT, amount: 10, price: 50, order_type: OrderType::Buy };
    assert_eq!(resp, OrderPlaceResponse::OrderConfirmMessage(OrderConfirmMessage { order_info: placed }));
    assert_eq!(
        notices,
        vec![
            Notification::Direct(BOB, OutgoingMessage::OrderFillMessage(OrderFillMessage { order_id: 1, amount_filled: 10, price: 40 })),
            Notification::Direct(ALICE, OutgoingMessage::OrderFillMessage(OrderFillMessage { order_id: 0, amount_filled: 10, price: 40 })),
            Notification::Broadcast(OutgoingMessage::TradeOccurredMessage(TradeOccurredMessage {
                amount: 10,
                symbol: TT,
                resting_side: OrderType::Sell,
                price: 40,
                time: 7,
            })),
        ]
    );
    assert_eq!(cents(&st, BOB), (9600, 9600));
    assert_eq!(shares(&st, BOB, TT), (110, 110));
    assert_eq!(cents(&st, ALICE), (10400, 10400));
    assert_eq!(shares(&st, ALICE, TT), (90, 90));
    assert!(st.global_account_state.index_ref(ALICE).active_orders.is_empty());
    assert!(st.global_account_state.index_ref(BOB).active_orders.is_empty());
    assert_eq!(st.global_orderbook_state.index_ref(&TT).price_history, vec![(7, 40, 10)]);
}

#[test]
fn partial_fill_updates_active_order() {
    let mut st = new_state(0);
    place(&mut st, order_req(ALICE, OrderType::Buy, 10, 45), 0);
    place(&mut st, order_req(BOB, OrderType::Sell, 4, 45), 0);
    let active = st.global_account_state.index_ref(ALICE).active_orders.get(&0).copied();
    assert_eq!(active.map(|o| o.amount), Some(6));
    assert_eq!(cents(&st, ALICE), (10000 - 180, 10000 - 450));
    assert_eq!(cents(&st, BOB), (10180, 10180));
    assert_eq!(shares(&st, BOB, TT), (96, 96));
}

#[test]
fn price_enforcer_trades_without_balances() {
    let mut st = new_state(0);
    place(&mut st, order_req(ENFORCER, OrderType::Sell, 500, 20), 0);
    assert_eq!(shares(&st, ENFORCER, TT), (100, 100));
    place(&mut st, order_req(ALICE, OrderType::Buy, 5, 20), 0);
    assert_eq!(shares(&st, ENFORCER, TT), (100, 100));
    assert_eq!(cents(&st, ENFORCER), (10000, 10000));
    assert_eq!(shares(&st, ALICE, TT), (105, 105));
    assert_eq!(cents(&st, ALICE), (9900, 9900));
    let big = order_req(ENFORCER, OrderType::Buy, 10000, 1000);
    let (resp, _) = place(&mut st, big, 0);
    assert!(matches!(resp, OrderPlaceResponse::OrderConfirmMessage(_)));
}

#[test]
fn refuses_zero_price() {
    let mut st = new_state(0);
    let r = order_req(ALICE, OrderType::Buy, 1, 0);
    let (resp, notices) = place(&mut st, r, 0);
    assert_eq!(resp, error_of(&r, OrderPlaceError::PriceZero));
    assert!(notices.is_empty());
    assert_eq!(st.order_counter, 0);
}

#[test]
fn refuses_price_above_maximum() {
    let mut st = new_state(0);
    let r = order_req(ALICE, OrderType::Buy, 1, 1_000_001);
    assert_eq!(place(&mut st, r, 0).0, error_of(&r, OrderPlaceError::PriceTooHigh));
    let ok = order_req(ALICE, OrderType::Sell, 1, 1_000_000);
    assert!(matches!(place(&mut st, ok, 0).0, OrderPlaceResponse::OrderConfirmMessage(_)));
}

#[test]
fn refuses_zero_amount() {
    let mut st = new_state(0);
    let r = order_req(ALICE, OrderType::Sell, 0, 10);
    assert_eq!(place(&mut st, r, 0).0, error_of(&r, OrderPlaceError::AmountZero));
}

#[test]
fn refuses_volume_above_maximum() {
    let mut st = new_state(0);
    let r = order_req(ENFORCER, OrderType::Sell, 10_001, 10);
    assert_eq!(place(&mut st, r, 0).0, error_of(&r, OrderPlaceError::VolumeTooLarge));
}

#[test]
fn refuses_insufficient_funds() {
    let mut st = new_state(0);
    let r = order_req(ALICE, OrderType::Buy, 101, 100);
    assert_eq!(place(&mut st, r, 0).0, error_of(&r, OrderPlaceError::InsufficientFunds));
    let fits = order_req(ALICE, OrderType::Buy, 100, 100);
    assert!(matches!(place(&mut st, fits, 0).0, OrderPlaceResponse::OrderConfirmMessage(_)));
    assert_eq!(cents(&st, ALICE), (10000, 0));
}

#[test]
fn refuses_insufficient_shares() {
    let mut st = new_state(0);
    let r = order_req(BOB, OrderType::Sell, 101, 10);
    assert_eq!(place(&mut st, r, 0).0, error_of(&r, OrderPlaceError::InsufficientShares));
    assert_eq!(shares(&st, BOB, TT), (100, 100));
}

#[test]
fn refuses_too_many_active_orders() {
    let mut st = new_state(0);
    for i in 0..256u64 {
        let r = order_req(ENFORCER, OrderType::Buy, 1, 1 + i);
        assert!(matches!(place(&mut st, r, 0).0, OrderPlaceResponse::OrderConfirmMessage(_)));
    }
    let r = order_req(ENFORCER, OrderType::Buy, 1, 1);
    assert_eq!(place(&mut st, r, 0).0, error_of(&r, OrderPlaceError::TooManyActiveOrders));
}

#[test]
fn refuses_full_price_level() {
    let mut st = new_state(4);
    let mut placed = 0;
    for t in 0..5u16 {
        let trader = if t == 0 { ENFORCER } else { TraderId(2 + t) };
        for _ in 0..256 {
            if placed == 1024 {
                break;
            }
            let r = order_req(trader, OrderType::Buy, 1, 1);
            assert!(matches!(place(&mut st, r, 0).0, OrderPlaceResponse::OrderConfirmMessage(_)));
            placed += 1;
        }
    }
    assert_eq!(st.global_orderbook_state.index_ref(&TT).level_len(OrderType::Buy, 1), 1024);
    let r = order_req(ALICE, OrderType::Buy, 1, 1);
    assert_eq!(place(&mut st, r, 0).0, error_of(&r, OrderPlaceError::LevelFull));
    let other = order_req(ALICE, OrderType::Buy, 1, 2);
    assert!(matches!(place(&mut st, other, 0).0, OrderPlaceResponse::OrderConfirmMessage(_)));
}

#[test]
fn cancel_releases_reserved_cash() {
    let mut st = new_state(0);
    place(&mut st, order_req(ALICE, OrderType::Buy, 10, 45), 0);
    let c = CancelRequest { order_id: 0, trader_id: ALICE, price: 45, symbol: TT, side: OrderType::Buy, password: ['0', '0', '0', '1'] };
    let (resp, notices) = cancel(&mut st, c);
    let o = Order { order_id: 0, trader_id: ALICE, symbol: TT, amount: 10, price: 45, order_type: OrderType::Buy };
    assert_eq!(resp, OrderCancelResponse::CancelConfirmMessage(CancelConfirmMessage { order_info: o }));
    assert_eq!(
        notices,
        vec![Notification::Broadcast(OutgoingMessage::CancelOccurredMessage(CancelOccurredMessage {
            side: OrderType::Buy,
            amount: 10,
            symbol: TT,
            price: 45,
        }))]
    );
    assert_eq!(cents(&st, ALICE), (10000, 10000));
    assert!(st.global_account_state.index_ref(ALICE).active_orders.is_empty());
    assert!(st.global_orderbook_state.index_ref(&TT).buy_volumes().is_empty());
}

#[test]
fn cancel_releases_remaining_shares_only() {
    let mut st = new_state(0);
    place(&mut st, order_req(BOB, OrderType::Sell, 10, 45), 0);
    place(&mut st, order_req(ALICE, OrderType::Buy, 4, 45), 0);
    let c = CancelRequest { order_id: 0, trader_id: BOB, price: 45, symbol: TT, side: OrderType::Sell, password: ['0', '0', '0', '2'] };
    let (resp, _) = cancel(&mut st, c);
    let o = Order { order_id: 0, trader_id: BOB, symbol: TT, amount: 6, price: 45, order_type: OrderType::Sell };
    assert_eq!(resp, OrderCancelResponse::CancelConfirmMessage(CancelConfirmMessage { order_info: o }));
    assert_eq!(shares(&st, BOB, TT), (96, 96));
}

#[test]
fn cancel_of_unknown_order_is_refused() {
    let mut st = new_state(0);
    place(&mut st, order_req(ALICE, OrderType::Buy, 10, 45), 0);
    let c = CancelRequest { order_id: 0, trader_id: ALICE, price: 45, symbol: TT, side: OrderType::Sell, password: ['0', '0', '0', '1'] };
    let (resp, notices) = cancel(&mut st, c);
    assert_eq!(
        resp,
        OrderCancelResponse::CancelErrorMessage(CancelErrorMessage {
            order_id: 0,
            side: OrderType::Sell,
            price: 45,
            symbol: TT,
            error_details: CancelError::NotFound,
        })
    );
    assert!(notices.is_empty());
    assert_eq!(cents(&st, ALICE), (10000, 9550));
}

#[test]
fn place_then_cancel_restores_account() {
    let mut st = new_state(0);
    let before = (cents(&st, BOB), shares(&st, BOB, TT));
    place(&mut st, order_req(BOB, OrderType::Sell, 7, 80), 0);
    let c = CancelRequest { order_id: 0, trader_id: BOB, price: 80, symbol: TT, side: OrderType::Sell, password: ['0', '0', '0', '2'] };
    cancel(&mut st, c);
    assert_eq!((cents(&st, BOB), shares(&st, BOB, TT)), before);
    assert!(st.global_account_state.index_ref(BOB).active_orders.is_empty());
}

#[test]
fn balances_add_up_after_trading() {
    let mut st = new_state(0);
    place(&mut st, order_req(ALICE, OrderType::Buy, 10, 45), 0);
    place(&mut st, order_req(ALICE, OrderType::Buy, 5, 44), 0);
    place(&mut st, order_req(BOB, OrderType::Sell, 12, 44), 0);
    place(&mut st, order_req(BOB, OrderType::Sell, 8, 60), 0);
    let book = st.global_orderbook_state.index_ref(&TT);
    let reserved_cash: u64 = book.buy_volumes().iter().map(|(p, v)| p * v).sum();
    let (c, net) = cents(&st, ALICE);
    assert_eq!(c, net + reserved_cash);
    let reserved_shares: u64 = book.sell_volumes().iter().map(|(_, v)| *v).sum();
    let (s, net_s) = shares(&st, BOB, TT);
    assert_eq!(s, net_s + reserved_shares as i64);
}

#[test]
fn feed_messages_reproduce_volumes() {
    let mut st = new_state(0);
    let mut local: std::collections::BTreeMap<(bool, u64), i64> = std::collections::BTreeMap::new();
    let apply = |ns: &Vec<Notification>, local: &mut std::collections::BTreeMap<(bool, u64), i64>| {
        for n in ns {
            match n {
                Notification::Broadcast(OutgoingMessage::NewRestingOrderMessage(m)) => {
                    *local.entry((m.side == OrderType::Buy, m.price)).or_insert(0) += m.amount as i64;
                }
                Notification::Broadcast(OutgoingMessage::TradeOccurredMessage(m)) => {
                    *local.entry((m.resting_side == OrderType::Buy, m.price)).or_insert(0) -= m.amount as i64;
                }
                Notification::Broadcast(OutgoingMessage::CancelOccurredMessage(m)) => {
                    *local.entry((m.side == OrderType::Buy, m.price)).or_insert(0) -= m.amount as i64;
                }
                _ => {}
            }
        }
        local.retain(|_, v| *v != 0);
    };
    let steps = vec![
        order_req(ALICE, OrderType::Buy, 10, 45),
        order_req(ALICE, OrderType::Buy, 5, 44),
        order_req(BOB, OrderType::Sell, 12, 44),
        order_req(BOB, OrderType::Sell, 8, 60),
        order_req(ALICE, OrderType::Buy, 3, 61),
    ];
    for r in steps {
        let (_, ns) = place(&mut st, r, 0);
        apply(&ns, &mut local);
    }
    let c = CancelRequest { order_id: 3, trader_id: BOB, price: 60, symbol: TT, side: OrderType::Sell, password: ['0', '0', '0', '2'] };
    let (_, ns) = cancel(&mut st, c);
    apply(&ns, &mut local);
    let book = st.global_orderbook_state.index_ref(&TT);
    let mut actual: std::collections::BTreeMap<(bool, u64), i64> = std::collections::BTreeMap::new();
    for (p, v) in book.buy_volumes() {
        actual.insert((true, p), v as i64);
    }
    for (p, v) in book.sell_volumes() {
        actual.insert((false, p), v as i64);
    }
    assert_eq!(local, actual);
}

#[test]
fn active_orders_follow_the_book() {
    let mut st = new_state(1);
    let carol = TraderId(3);
    place(&mut st, order_req(ALICE, OrderType::Sell, 5, 50), 1);
    place(&mut st, order_req(BOB, OrderType::Sell, 3, 50), 2);
    place(&mut st, order_req(ALICE, OrderType::Sell, 7, 51), 3);
    place(&mut st, order_req(carol, OrderType::Buy, 9, 51), 4);
    // Alice's first order and Bob's traded in full, Alice's second lost one share.
    let alice = &st.global_account_state.index_ref(ALICE).active_orders;
    assert_eq!(alice.len(), 1);
    let left = Order { order_id: 2, trader_id: ALICE, symbol: TT, amount: 6, price: 51, order_type: OrderType::Sell };
    assert_eq!(alice.get(&2), Some(&left));
    assert!(st.global_account_state.index_ref(BOB).active_orders.is_empty());
    assert!(st.global_account_state.index_ref(carol).active_orders.is_empty());
    let book = st.global_orderbook_state.index_ref(&TT);
    assert_eq!(book.sell_volumes(), vec![(51, 6)]);
    assert!(book.buy_volumes().is_empty());
    // Cancelling what is left empties both the book and Alice's active orders.
    let (resp, _) = cancel(&mut st, CancelRequest {
        order_id: 2,
        side: OrderType::Sell,
        price: 51,
        symbol: TT,
        trader_id: ALICE,
        password: ['0', '0', '0', '1'],
    });
    assert_eq!(resp, OrderCancelResponse::CancelConfirmMessage(CancelConfirmMessage { order_info: left }));
    assert!(st.global_account_state.index_ref(ALICE).active_orders.is_empty());
    assert!(st.global_orderbook_state.index_ref(&TT).sell_volumes().is_empty());
}

#[test]
fn place_then_cancel_restores_book() {
    let mut st = new_state(0);
    place(&mut st, order_req(ALICE, OrderType::Buy, 4, 40), 0);
    place(&mut st, order_req(BOB, OrderType::Sell, 2, 60), 1);
    let rows_before = st.global_orderbook_state.index_ref(&TT).book_state_rows();
    let alice_before = (cents(&st, ALICE), shares(&st, ALICE, TT));
    let (resp, _) = place(&mut st, order_req(ALICE, OrderType::Buy, 3, 40), 2);
    let placed = Order { order_id: 2, trader_id: ALICE, symbol: TT, amount: 3, price: 40, order_type: OrderType::Buy };
    assert_eq!(resp, OrderPlaceResponse::OrderConfirmMessage(OrderConfirmMessage { order_info: placed }));
    assert_eq!(st.global_orderbook_state.index_ref(&TT).buy_volumes(), vec![(40, 7)]);
    let c = CancelRequest { order_id: 2, trader_id: ALICE, price: 40, symbol: TT, side: OrderType::Buy, password: ['0', '0', '0', '1'] };
    let (resp, _) = cancel(&mut st, c);
    assert_eq!(resp, OrderCancelResponse::CancelConfirmMessage(CancelConfirmMessage { order_info: placed }));
    assert_eq!(st.global_orderbook_state.index_ref(&TT).book_state_rows(), rows_before);
    assert_eq!((cents(&st, ALICE), shares(&st, ALICE, TT)), alice_before);
    let alice = &st.global_account_state.index_ref(ALICE).active_orders;
    assert_eq!(alice.len(), 1);
    assert!(alice.contains_key(&0));
}
