//! The data model: orders, execution reports and the order book.

pub mod book;
pub mod domain;
