//! The capability interface an order representation must satisfy.

use vstd::prelude::*;

verus! {

/// The mathematical content of an order: its identity, its remaining
/// quantity and its limit price. Contracts and the matching model speak
/// of orders through this value.
#[derive(Debug, Clone, Copy, PartialEq, Eq, Structural)]
pub struct OrderView {
    pub id: u64,
    pub quantity: u64,
    pub price: u64,
}

/// The capability set the matching engine is written against: expose an
/// id, a quantity, a price, and a way to shrink the quantity in place.
/// The engine never assumes a concrete representation beyond this.
pub trait Order: Sized + Copy {
    /// What this order denotes, for use in contracts.
    spec fn order_view(&self) -> OrderView;

    /// The order's identity.
    fn id(&self) -> (r: u64)
        ensures
            r == self.order_view().id,
    ;

    /// The order's remaining quantity.
    fn quantity(&self) -> (r: u64)
        ensures
            r == self.order_view().quantity,
    ;

    /// Replaces the order's quantity, leaving id and price unchanged.
    fn set_quantity(&mut self, quantity: u64)
        ensures
            final(self).order_view() == (OrderView { quantity, ..old(self).order_view() }),
    ;

    /// The order's limit price.
    fn price(&self) -> (r: u64)
        ensures
            r == self.order_view().price,
    ;
}

} // verus!
