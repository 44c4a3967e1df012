//! Requests that traders send and the replies and broadcasts the exchange sends back.
use vstd::prelude::*;

use crate::config::{Password, TickerSymbol, TraderId};
use crate::orderbook::{Order, OrderID, OrderType, Price};

verus! {

/// A request to place a limit order.
#[derive(Debug, Clone, Copy)]
pub struct OrderRequest {
    pub order_type: OrderType,
    pub amount: u64,
    pub price: Price,
    pub symbol: TickerSymbol,
    pub trader_id: TraderId,
    pub password: Password,
}

/// A request to cancel a resting order.
#[derive(Debug, Clone, Copy)]
pub struct CancelRequest {
    pub order_id: OrderID,
    pub trader_id: TraderId,
    pub price: Price,
    pub symbol: TickerSymbol,
    pub side: OrderType,
    pub password: Password,
}

/// No resting order with the requested id is at the requested price and side.
#[derive(Debug, Clone, Copy, PartialEq, Eq, Structural)]
pub struct CancelIDNotFoundError;

/// A request for one's own account details.
#[derive(Debug, Clone, Copy)]
pub struct AccountInfoRequest {
    pub trader_id: TraderId,
    pub password: Password,
}

/// What a trader may send.
#[derive(Debug, Clone, Copy)]
pub enum IncomingMessage {
    OrderRequest(OrderRequest),
    CancelRequest(CancelRequest),
    AccountInfoRequest(AccountInfoRequest),
    GameStateRequest,
}

/// Part of one of the trader's own orders was filled.
#[derive(Debug, Clone, Copy, PartialEq, Eq, Structural)]
pub struct OrderFillMessage {
    pub order_id: OrderID,
    pub amount_filled: u64,
    pub price: Price,
}

/// A trade happened; `resting_side` is the side of the order that was already resting.
#[derive(Debug, Clone, Copy, PartialEq, Eq, Structural)]
pub struct TradeOccurredMessage {
    pub amount: u64,
    pub symbol: TickerSymbol,
    pub resting_side: OrderType,
    pub price: Price,
    pub time: u64,
}

/// An order now rests on the book.
#[derive(Debug, Clone, Copy, PartialEq, Eq, Structural)]
pub struct NewRestingOrderMessage {
    pub side: OrderType,
    pub amount: u64,
    pub symbol: TickerSymbol,
    pub price: Price,
}

/// A resting order was cancelled.
#[derive(Debug, Clone, Copy, PartialEq, Eq, Structural)]
pub struct CancelOccurredMessage {
    pub side: OrderType,
    pub amount: u64,
    pub symbol: TickerSymbol,
    pub price: Price,
}

/// Messages the exchange pushes to traders.
#[derive(Debug, Clone, Copy, PartialEq, Eq, Structural)]
pub enum OutgoingMessage {
    OrderFillMessage(OrderFillMessage),
    TradeOccurredMessage(TradeOccurredMessage),
    NewRestingOrderMessage(NewRestingOrderMessage),
    CancelOccurredMessage(CancelOccurredMessage),
}

impl OutgoingMessage {
    /// Whether the message is public market data (sent to every connection).
    pub fn is_market_data(&self) -> (r: bool)
        ensures
            r == !(*self is OrderFillMessage),
    {
        match self {
            OutgoingMessage::OrderFillMessage(_) => false,
            _ => true,
        }
    }
}

/// A message for everyone, or for one trader.
#[derive(Debug, Clone, Copy, PartialEq, Eq, Structural)]
pub enum Notification {
    Broadcast(OutgoingMessage),
    Direct(TraderId, OutgoingMessage),
}

/// Why an order request was refused.
#[derive(Debug, Clone, Copy, PartialEq, Eq, Structural)]
pub enum OrderPlaceError {
    AmountZero,
    VolumeTooLarge,
    PriceZero,
    PriceTooHigh,
    LevelFull,
    TooManyActiveOrders,
    InsufficientFunds,
    InsufficientShares,
    RateLimited,
}

impl OrderPlaceError {
    /// The text sent to the trader.
    pub fn details(&self) -> (r: &'static str)
        ensures
            r@ == self.spec_details(),
    {
        match self {
            OrderPlaceError::AmountZero => "Amount must be greater than zero",
            OrderPlaceError::VolumeTooLarge => "Volume exceeds maximum allowed single-order volume",
            OrderPlaceError::PriceZero => "Price must be greater than zero",
            OrderPlaceError::PriceTooHigh => "Price exceeds maximum allowed value",
            OrderPlaceError::LevelFull => "Price level is at capacity",
            OrderPlaceError::TooManyActiveOrders => "Trader has reached maximum number of active orders",
            OrderPlaceError::InsufficientFunds => "Error Placing Order: The total value of order is greater than current account balance",
            OrderPlaceError::InsufficientShares => "Error Placing Order: The total amount of this trade would take your account short",
            OrderPlaceError::RateLimited => "Rate limit exceeded",
        }
    }

    /// The text sent, as characters.
    pub open spec fn spec_details(&self) -> Seq<char> {
        match self {
            OrderPlaceError::AmountZero => "Amount must be greater than zero"@,
            OrderPlaceError::VolumeTooLarge => "Volume exceeds maximum allowed single-order volume"@,
            OrderPlaceError::PriceZero => "Price must be greater than zero"@,
            OrderPlaceError::PriceTooHigh => "Price exceeds maximum allowed value"@,
            OrderPlaceError::LevelFull => "Price level is at capacity"@,
            OrderPlaceError::TooManyActiveOrders => "Trader has reached maximum number of active orders"@,
            OrderPlaceError::InsufficientFunds => "Error Placing Order: The total value of order is greater than current account balance"@,
            OrderPlaceError::InsufficientShares => "Error Placing Order: The total amount of this trade would take your account short"@,
            OrderPlaceError::RateLimited => "Rate limit exceeded"@,
        }
    }
}

/// The order was accepted; `order_info` is the order as placed.
#[derive(Debug, Clone, Copy, PartialEq, Eq, Structural)]
pub struct OrderConfirmMessage {
    pub order_info: Order,
}

/// The order was refused.
#[derive(Debug, Clone, Copy, PartialEq, Eq, Structural)]
pub struct OrderPlaceErrorMessage {
    pub side: OrderType,
    pub price: Price,
    pub symbol: TickerSymbol,
    pub error_details: OrderPlaceError,
}

/// The answer to an order request.
#[derive(Debug, Clone, Copy, PartialEq, Eq, Structural)]
pub enum OrderPlaceResponse {
    OrderConfirmMessage(OrderConfirmMessage),
    OrderPlaceErrorMessage(OrderPlaceErrorMessage),
}

/// The order was cancelled; `order_info` is the order with the amount it still had.
#[derive(Debug, Clone, Copy, PartialEq, Eq, Structural)]
pub struct CancelConfirmMessage {
    pub order_info: Order,
}

/// Why a cancel request was refused.
#[derive(Debug, Clone, Copy, PartialEq, Eq, Structural)]
pub enum CancelError {
    NotFound,
    RateLimited,
}

impl CancelError {
    /// The text sent to the trader.
    pub fn details(&self) -> (r: &'static str)
        ensures
            r@ == self.spec_details(),
    {
        match self {
            CancelError::NotFound => "order_id not found at specified price/side",
            CancelError::RateLimited => "Rate limit exceeded",
        }
    }

    /// The text sent, as characters.
    pub open spec fn spec_details(&self) -> Seq<char> {
        match self {
            CancelError::NotFound => "order_id not found at specified price/side"@,
            CancelError::RateLimited => "Rate limit exceeded"@,
        }
    }
}

/// The cancel was refused.
#[derive(Debug, Clone, Copy, PartialEq, Eq, Structural)]
pub struct CancelErrorMessage {
    pub order_id: OrderID,
    pub side: OrderType,
    pub price: Price,
    pub symbol: TickerSymbol,
    pub error_details: CancelError,
}

/// The answer to a cancel request.
#[derive(Debug, Clone, Copy, PartialEq, Eq, Structural)]
pub enum OrderCancelResponse {
    CancelConfirmMessage(CancelConfirmMessage),
    CancelErrorMessage(CancelErrorMessage),
}

} // verus!
