//! Capital-gains tax on a sequence of trades against one running position.
//!
//! Prices and quantities are held in millionths, amounts of money (costs,
//! gains, taxes) in 10^-12 of the currency. The position keeps the weighted
//! average cost exactly, carries losses forward as a deficit and taxes the
//! part of a gain that the deficit does not absorb.
pub mod portfolio;
pub mod serializer;

pub use portfolio::{Operation, OperationType, Portfolio, Position, Tax, TaxConfig, TradeError};
