//! A verified limit-order matching engine: per-symbol order books with
//! price-time priority, trader accounts with reserved balances, request
//! validation and end-of-game scoring.
use vstd::prelude::*;

pub mod config;
pub mod sums;
pub mod orderbook;
pub mod messages;
pub mod accounts;
pub mod ledger;
pub mod exchange;
pub mod game;
pub mod session;
pub mod relay;
pub mod feed;
pub mod active;

