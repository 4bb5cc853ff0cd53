//! A minimal concrete order type.

use vstd::prelude::*;

use crate::order::Order;
use crate::order::OrderView;

verus! {

/// A plain limit order: an id, a remaining quantity and a limit price.
#[derive(Clone, Debug, PartialEq, Eq, Structural, Copy)]
pub struct SimpleOrder {
    order_id: u64,
    quantity: u64,
    price: u64,
}

impl SimpleOrder {
    /// Builds an order from its three components.
    pub fn new(order_id: u64, quantity: u64, price: u64) -> (r: Self)
        ensures
            r.order_view() == (OrderView { id: order_id, quantity, price }),
    {
        Self { order_id, quantity, price }
    }
}

impl Order for SimpleOrder {
    closed spec fn order_view(&self) -> OrderView {
        OrderView { id: self.order_id, quantity: self.quantity, price: self.price }
    }

    fn id(&self) -> (r: u64) {
        self.order_id
    }

    fn quantity(&self) -> (r: u64) {
        self.quantity
    }

    fn set_quantity(&mut self, quantity: u64) {
        self.quantity = quantity;
    }

    fn price(&self) -> (r: u64) {
        self.price
    }
}

} // verus!
