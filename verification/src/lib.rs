//! A central limit order book matching engine.
//!
//! Orders are admitted by [`MatchingEngine`], matched against the resting
//! liquidity of their symbol's [`OrderBook`] under price-time priority, and
//! any unfilled remainder of a limit order is left resting in the book.
//!
//! Every executable function carries a contract stated over the
//! mathematical model in [`model`], and the contracts are proved by Verus.
//! What holds of the model whatever orders arrive (no empty level, a
//! coherent index, ids that increase, conservation of quantity, price and
//! time priority) is proved in [`laws`].

mod clock;
mod keys;
pub mod laws;
pub mod matching;
pub mod model;
pub mod orderbook;
pub mod proofs;
pub mod text;
pub mod types;

pub use matching::MatchingEngine;
pub use orderbook::{LevelDepth, OrderBook};
pub use types::{Order, OrderId, OrderType, Price, Quantity, Side, Symbol, Trade};
