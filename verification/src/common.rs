//! Helpers shared by the book and the matchers.

pub mod utils;
