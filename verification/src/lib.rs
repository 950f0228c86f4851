//! Verified core of a centralized exchange: the order book, OHLCV candles,
//! the order-intake decisions, the matching of orders and the settlement of
//! trades.
pub mod domain;
pub mod orderbook;
pub mod market_data;
pub mod intake;
pub mod settlement;
