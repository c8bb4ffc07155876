//! A price-tick limit order book and matching engine for two-asset trading
//! pairs, together with the closed-form arithmetic of a constant-fee pool.

pub mod error;
pub mod price;
pub mod fee_amm;
pub mod order;
pub mod orderbook;
pub mod queue;
pub mod ledger;
pub mod matching;
pub mod exchange;
