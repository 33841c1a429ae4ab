//! A single-symbol limit-order matching engine under price-time priority.
//!
//! [`OrderBook`] accepts limit orders and cancellations. Every operation
//! returns the commands it emitted, in order; the contracts say what the book
//! and the commands are, over the model in [`book`].
pub mod arena;
pub mod book;
pub mod engine;
pub mod invariants;
pub mod ladder;
pub mod laws;
pub mod matching;
pub mod types;

pub use engine::OrderBook;
pub use types::{CallbackAction, EngineError, Fill, MarketSide, Order, OrderRequest, OrderState};
