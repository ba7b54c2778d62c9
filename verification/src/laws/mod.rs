//! What the rules amount to, said of cards and counts directly.
//!
//! Each law takes one of the notions that the contracts use and says what it comes down to, so
//! that a reader need not follow its definition.

pub mod cards;
pub mod finding;
pub mod formats;
pub mod searching;
pub mod throws;
pub mod tricks;
pub mod units;
