//! The matchers and what they share.

pub mod accounts;
pub mod fifo_matcher;
pub mod levels;
pub mod matcher;
pub mod prices;
pub mod priority;
pub mod progress;
pub mod prorata_matcher;
pub mod reports;
pub mod residuals;
pub mod volume;
