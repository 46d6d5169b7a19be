//! Text formats of orders and fills.

pub mod formatter;
pub mod json_formatter;
