use matching_engine::config::TickerSymbol;
use matching_engine::messages::{
    CancelError, CancelOccurredMessage, OrderFillMessage, OrderPlaceError, OutgoingMessage,
    TradeOccurredMessage,
};
use matching_engine::orderbook::OrderType;
use matching_engine::relay::{RelayAction, Server, BATCH_MAX_SIZE};

fn trade(price: u64) -> OutgoingMessage {
    OutgoingMessage::TradeOccurredMessage(TradeOccurredMessage {
        amount: 1,
        symbol: TickerSymbol(0),
        resting_side: OrderType::Buy,
        price,
        time: 0,
    })
}

#[test]
fn relay_sends_at_once_to_a_single_connection() {
    let mut s = Server::new();
    s.open(7);
    assert_eq!(s.handle(trade(1)), RelayAction::Send(vec![trade(1)]));
    assert!(s.pending_batch.is_empty());
}

#[test]
fn relay_batches_for_many_connections() {
    let mut s = Server::new();
    s.open(1);
    s.open(2);
    assert_eq!(s.handle(trade(1)), RelayAction::ScheduleFlush);
    assert_eq!(s.handle(trade(2)), RelayAction::Wait);
    assert!(s.flush_scheduled);
    assert_eq!(s.flush(), vec![trade(1), trade(2)]);
    assert!(!s.flush_scheduled);
    assert!(s.flush().is_empty());
}

#[test]
fn relay_sends_full_batch() {
    let mut s = Server::new();
    s.open(1);
    s.open(2);
    for i in 0..(BATCH_MAX_SIZE as u64 - 1) {
        let a = s.handle(trade(i));
        assert!(a == RelayAction::ScheduleFlush || a == RelayAction::Wait);
    }
    match s.handle(trade(999)) {
        RelayAction::Send(b) => {
            assert_eq!(b.len(), BATCH_MAX_SIZE);
            assert_eq!(b[0], trade(0));
            assert_eq!(b[BATCH_MAX_SIZE - 1], trade(999));
        }
        _ => panic!("a full batch is sent"),
    }
    assert!(s.pending_batch.is_empty());
}

#[test]
fn relay_close_forgets_connection() {
    let mut s = Server::new();
    s.open(1);
    s.open(2);
    s.open(1);
    s.close(1);
    assert_eq!(s.connected_actors, vec![2]);
    assert_eq!(s.handle(trade(3)), RelayAction::Send(vec![trade(3)]));
}

#[test]
fn market_data_excludes_fills() {
    let fill = OutgoingMessage::OrderFillMessage(OrderFillMessage { order_id: 1, amount_filled: 1, price: 1 });
    assert!(!fill.is_market_data());
    assert!(trade(1).is_market_data());
    let c = OutgoingMessage::CancelOccurredMessage(CancelOccurredMessage { side: OrderType::Sell, amount: 1, symbol: TickerSymbol(0), price: 2 });
    assert!(c.is_market_data());
}

#[test]
fn error_texts() {
    assert_eq!(OrderPlaceError::AmountZero.details(), "Amount must be greater than zero");
    assert_eq!(OrderPlaceError::VolumeTooLarge.details(), "Volume exceeds maximum allowed single-order volume");
    assert_eq!(OrderPlaceError::PriceZero.details(), "Price must be greater than zero");
    assert_eq!(OrderPlaceError::PriceTooHigh.details(), "Price exceeds maximum allowed value");
    assert_eq!(OrderPlaceError::LevelFull.details(), "Price level is at capacity");
    assert_eq!(OrderPlaceError::TooManyActiveOrders.details(), "Trader has reached maximum number of active orders");
    assert_eq!(
        OrderPlaceError::InsufficientFunds.details(),
        "Error Placing Order: The total value of order is greater than current account balance"
    );
    assert_eq!(
        OrderPlaceError::InsufficientShares.details(),
        "Error Placing Order: The total amount of this trade would take your account short"
    );
    assert_eq!(CancelError::NotFound.details(), "order_id not found at specified price/side");
    assert_eq!(CancelError::RateLimited.details(), "Rate limit exceeded");
}
