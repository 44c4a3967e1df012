use matching_engine::config::{TickerSymbol, TraderId};
use matching_engine::messages::{CancelIDNotFoundError, CancelRequest, OrderRequest};
use matching_engine::orderbook::{merge_volumes, quickstart_order_book, Order, OrderType, Trade};

fn req(ty: OrderType, amount: u64, price: u64, trader: u16) -> OrderRequest {
    OrderRequest {
        order_type: ty,
        amount,
        price,
        symbol: TickerSymbol(0),
        trader_id: TraderId(trader),
        password: ['0', '0', '0', '0'],
    }
}

fn order(id: usize, trader: u16, ty: OrderType, amount: u64, price: u64) -> Order {
    Order { order_id: id, trader_id: TraderId(trader), symbol: TickerSymbol(0), amount, price, order_type: ty }
}

#[test]
fn book_starts_empty() {
    let b = quickstart_order_book(TickerSymbol(3));
    assert_eq!(b.symbol, TickerSymbol(3));
    assert!(b.buy_side.is_empty());
    assert!(b.sell_side.is_empty());
    assert!(b.price_history.is_empty());
    assert_eq!(b.level_len(OrderType::Buy, 10), 0);
}

#[test]
fn unmatched_order_rests() {
    let mut b = quickstart_order_book(TickerSymbol(0));
    let (placed, trades, rem) = b.handle_incoming_order_request(&req(OrderType::Buy, 5, 40, 1), 7, 3);
    assert_eq!(placed, order(7, 1, OrderType::Buy, 5, 40));
    assert!(trades.is_empty());
    assert_eq!(rem, 5);
    assert_eq!(b.level_len(OrderType::Buy, 40), 1);
    assert_eq!(b.buy_volumes(), vec![(40, 5)]);
    assert!(b.sell_volumes().is_empty());
}

#[test]
fn crossing_sell_trades_at_resting_price() {
    let mut b = quickstart_order_book(TickerSymbol(0));
    b.handle_incoming_order_request(&req(OrderType::Buy, 5, 40, 1), 0, 1);
    let (placed, trades, rem) = b.handle_incoming_order_request(&req(OrderType::Sell, 3, 35, 2), 1, 2);
    assert_eq!(placed.amount, 3);
    assert_eq!(trades, vec![Trade { resting: order(0, 1, OrderType::Buy, 5, 40), amount: 3 }]);
    assert_eq!(rem, 0);
    assert_eq!(b.buy_volumes(), vec![(40, 2)]);
    assert!(b.sell_volumes().is_empty());
    assert_eq!(b.price_history, vec![(2, 40, 3)]);
}

#[test]
fn best_price_then_oldest_first() {
    let mut b = quickstart_order_book(TickerSymbol(0));
    b.handle_incoming_order_request(&req(OrderType::Sell, 2, 50, 1), 0, 0);
    b.handle_incoming_order_request(&req(OrderType::Sell, 2, 45, 2), 1, 0);
    b.handle_incoming_order_request(&req(OrderType::Sell, 2, 45, 3), 2, 0);
    let (_, trades, rem) = b.handle_incoming_order_request(&req(OrderType::Buy, 5, 50, 4), 3, 9);
    assert_eq!(
        trades,
        vec![
            Trade { resting: order(1, 2, OrderType::Sell, 2, 45), amount: 2 },
            Trade { resting: order(2, 3, OrderType::Sell, 2, 45), amount: 2 },
            Trade { resting: order(0, 1, OrderType::Sell, 2, 50), amount: 1 },
        ]
    );
    assert_eq!(rem, 0);
    assert_eq!(b.sell_volumes(), vec![(50, 1)]);
    assert_eq!(b.price_history, vec![(9, 45, 2), (9, 45, 2), (9, 50, 1)]);
}

#[test]
fn buy_limit_stops_matching_and_rests_remainder() {
    let mut b = quickstart_order_book(TickerSymbol(0));
    b.handle_incoming_order_request(&req(OrderType::Sell, 4, 30, 1), 0, 0);
    b.handle_incoming_order_request(&req(OrderType::Sell, 4, 60, 1), 1, 0);
    let (_, trades, rem) = b.handle_incoming_order_request(&req(OrderType::Buy, 10, 50, 2), 2, 0);
    assert_eq!(trades, vec![Trade { resting: order(0, 1, OrderType::Sell, 4, 30), amount: 4 }]);
    assert_eq!(rem, 6);
    assert_eq!(b.buy_volumes(), vec![(50, 6)]);
    assert_eq!(b.sell_volumes(), vec![(60, 4)]);
    let level = &b.buy_side[0];
    assert_eq!(level.orders[0], order(2, 2, OrderType::Buy, 6, 50));
    assert_eq!(level.total_amount, 6);
}

#[test]
fn cancel_takes_order_off() {
    let mut b = quickstart_order_book(TickerSymbol(0));
    b.handle_incoming_order_request(&req(OrderType::Sell, 4, 30, 1), 0, 0);
    b.handle_incoming_order_request(&req(OrderType::Sell, 6, 30, 2), 1, 0);
    let c = CancelRequest {
        order_id: 0,
        trader_id: TraderId(1),
        price: 30,
        symbol: TickerSymbol(0),
        side: OrderType::Sell,
        password: ['0', '0', '0', '0'],
    };
    assert_eq!(b.handle_incoming_cancel_request(&c), Ok(order(0, 1, OrderType::Sell, 4, 30)));
    assert_eq!(b.sell_volumes(), vec![(30, 6)]);
    assert_eq!(b.level_len(OrderType::Sell, 30), 1);
    assert_eq!(b.handle_incoming_cancel_request(&c), Err(CancelIDNotFoundError));
}

#[test]
fn cancel_needs_matching_price_and_side() {
    let mut b = quickstart_order_book(TickerSymbol(0));
    b.handle_incoming_order_request(&req(OrderType::Buy, 4, 30, 1), 0, 0);
    let mut c = CancelRequest {
        order_id: 0,
        trader_id: TraderId(1),
        price: 31,
        symbol: TickerSymbol(0),
        side: OrderType::Buy,
        password: ['0', '0', '0', '0'],
    };
    assert_eq!(b.handle_incoming_cancel_request(&c), Err(CancelIDNotFoundError));
    c.price = 30;
    c.side = OrderType::Sell;
    assert_eq!(b.handle_incoming_cancel_request(&c), Err(CancelIDNotFoundError));
    assert_eq!(b.buy_volumes(), vec![(30, 4)]);
    c.side = OrderType::Buy;
    assert_eq!(b.handle_incoming_cancel_request(&c), Ok(order(0, 1, OrderType::Buy, 4, 30)));
    assert!(b.buy_side.is_empty());
}

#[test]
fn rest_then_cancel_restores_book() {
    let mut b = quickstart_order_book(TickerSymbol(0));
    b.handle_incoming_order_request(&req(OrderType::Buy, 4, 30, 1), 0, 0);
    b.handle_incoming_order_request(&req(OrderType::Sell, 3, 35, 2), 1, 0);
    let before_buys = b.buy_volumes();
    let before_sells = b.sell_volumes();
    b.handle_incoming_order_request(&req(OrderType::Buy, 5, 32, 3), 2, 0);
    let c = CancelRequest {
        order_id: 2,
        trader_id: TraderId(3),
        price: 32,
        symbol: TickerSymbol(0),
        side: OrderType::Buy,
        password: ['0', '0', '0', '0'],
    };
    assert_eq!(b.handle_incoming_cancel_request(&c), Ok(order(2, 3, OrderType::Buy, 5, 32)));
    assert_eq!(b.buy_volumes(), before_buys);
    assert_eq!(b.sell_volumes(), before_sells);
}

#[test]
fn book_rows_merge_both_sides() {
    let mut b = quickstart_order_book(TickerSymbol(0));
    b.handle_incoming_order_request(&req(OrderType::Buy, 4, 30, 1), 0, 0);
    b.handle_incoming_order_request(&req(OrderType::Buy, 1, 32, 1), 1, 0);
    b.handle_incoming_order_request(&req(OrderType::Sell, 3, 35, 2), 2, 0);
    b.handle_incoming_order_request(&req(OrderType::Sell, 2, 40, 2), 3, 0);
    assert_eq!(b.book_state_rows(), vec![(30, 0, 4), (32, 0, 1), (35, 3, 0), (40, 2, 0)]);
}

#[test]
fn merge_volumes_shares_prices() {
    let r = merge_volumes(&vec![(5, 1), (7, 2)], &vec![(3, 9), (7, 4)]);
    assert_eq!(r, vec![(3, 0, 9), (5, 1, 0), (7, 2, 4)]);
}
