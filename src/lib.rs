//! A continuous double-auction matching engine with price-time priority,
//! per-symbol order books and a pre-trade risk gate.
//!
//! Every quantity and price is a fixed-point [`Decimal`]; the book, the
//! matching sweep and the risk rules are verified against their contracts.

mod decimal;
mod engine;
mod engine_spec;
mod laws;
mod market_data;
mod order;
mod orderbook;
mod outside;
mod risk;
mod tables;
mod trade;

pub use decimal::{Decimal, WideDecimal, MAX_UNITS, ONE, SCALE, WIDE_ONE, WIDE_SCALE};
pub use order::{Order, OrderId, OrderSide, OrderStatus, OrderType};
pub use orderbook::{OrderBook, PriceLevel};
pub use trade::Trade;
pub use engine::MatchingEngine;
pub use risk::{join_reason, RiskCheck, RiskLimits, RiskManager};
pub use market_data::{MarketData, Quote, Ticker};
pub use laws::{book_never_crossed, level_total_matches_orders, no_empty_level, status_steps_compose};
