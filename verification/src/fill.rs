//! The record of one executed trade.

use vstd::prelude::*;

verus! {

/// A fill represents a trade between two orders.
///
/// `id` is the id of the resting (maker) order that was matched, `price` is
/// always the maker's price, `quantity` is the traded amount, and `done` is
/// true iff the trade fully consumed the maker's remaining quantity.
#[derive(Debug, Clone, Copy, PartialEq, Eq, Structural)]
pub struct Fill {
    pub id: u64,
    pub quantity: u64,
    pub price: u64,
    pub done: bool,
}

impl Fill {
    /// Builds a fill record from its four components.
    pub fn new(id: u64, quantity: u64, price: u64, done: bool) -> (r: Self)
        ensures
            r == (Fill { id, quantity, price, done }),
    {
        Self { id, quantity, price, done }
    }

    /// A fill that left the maker with remaining quantity.
    pub fn partial(id: u64, quantity: u64, price: u64) -> (r: Self)
        ensures
            r == (Fill { id, quantity, price, done: false }),
    {
        Self { id, quantity, price, done: false }
    }

    /// A fill that fully consumed the maker.
    pub fn full(id: u64, quantity: u64, price: u64) -> (r: Self)
        ensures
            r == (Fill { id, quantity, price, done: true }),
    {
        Self { id, quantity, price, done: true }
    }
}

} // verus!
