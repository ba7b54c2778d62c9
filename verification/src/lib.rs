//! Rules for playing one trick of Shengji (Tractor).

pub mod counts;
pub mod format;
pub mod hands;
pub mod laws;
pub mod message;
pub mod order;
pub mod plays;
pub mod search;
pub mod small;
pub mod throw;
pub mod tractor;
pub mod trick;
pub mod types;
pub mod unit;
