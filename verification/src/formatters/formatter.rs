//! The interface of a text format.

use vstd::prelude::*;

verus! {

/// Formats orders and fills to and from a text format.
pub trait Formatter<T> {
    fn format_to(t: T) -> String;

    fn format_from(data: String) -> T;
}

} // verus!
