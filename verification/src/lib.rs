//! A limit-order book matching core.
//!
//! Incoming buy/sell limit orders are crossed against the opposite side's
//! resting liquidity under strict price-time priority; any unmatched
//! remainder rests in the book. Two interchangeable book representations
//! are provided: [`VecBook`], which keeps each side sorted with the best
//! order at the tail, and [`orderbook::OrderBook`], which indexes a bounded
//! discrete price domain directly by price level.

pub mod fill;
pub mod matching;
pub mod order;
pub mod orderbook;
pub mod simple_order;
pub mod vecbook;

pub use fill::Fill;
pub use order::Order;
pub use order::OrderView;
pub use simple_order::SimpleOrder;
pub use vecbook::FillIterator;
pub use vecbook::VecBook;

use vstd::prelude::*;

use crate::matching::contains_id;
use crate::matching::last_id_index;
use crate::matching::makers_after;
use crate::matching::submit_fills;
use crate::matching::takers_after;

verus! {

/// The operation surface an order book offers over a generic order
/// type: submission of buys and sells, cancellation, quantity
/// reduction, and the read-only size, best-price and iteration queries.
///
/// Implementations describe themselves through the three spec
/// functions: the two sides in best-first priority order and an internal
/// well-formedness that their constructors establish and every
/// operation preserves. The method contracts are stated once here, over
/// those spec functions, and Verus holds every implementation to them.
pub trait OrderBook<OrderType: Order>: Sized {
    /// The bids, best-first.
    spec fn bids_spec(&self) -> Seq<OrderView>;

    /// The asks, best-first.
    spec fn asks_spec(&self) -> Seq<OrderView>;

    /// The implementation's internal well-formedness.
    spec fn book_inv(&self) -> bool;

    /// Returns the number of open orders in the order book.
    fn len(&self) -> (r: usize)
        requires
            self.book_inv(),
            self.bids_spec().len() + self.asks_spec().len() <= usize::MAX,
        ensures
            r == self.bids_spec().len() + self.asks_spec().len(),
    ;

    /// Returns `true` if the book contains no open orders.
    fn is_empty(&self) -> (r: bool)
        requires
            self.book_inv(),
            self.bids_spec().len() + self.asks_spec().len() <= usize::MAX,
        ensures
            r <==> self.bids_spec().len() + self.asks_spec().len() == 0,
    ;

    /// Returns the bids from best to worst.
    fn bids(&self) -> (r: Vec<OrderType>)
        ensures
            r@.map(|i: int, o: OrderType| o.order_view()) == self.bids_spec(),
    ;

    /// Returns the asks from best to worst.
    fn asks(&self) -> (r: Vec<OrderType>)
        ensures
            r@.map(|i: int, o: OrderType| o.order_view()) == self.asks_spec(),
    ;

    /// Returns the best bid.
    fn best_bid(&self) -> (r: Option<OrderType>)
        ensures
            self.bids_spec().len() > 0 ==> r.is_some() && r.unwrap().order_view()
                == self.bids_spec().first(),
            self.bids_spec().len() == 0 ==> r.is_none(),
    ;

    /// Returns the best ask.
    fn best_ask(&self) -> (r: Option<OrderType>)
        ensures
            self.asks_spec().len() > 0 ==> r.is_some() && r.unwrap().order_view()
                == self.asks_spec().first(),
            self.asks_spec().len() == 0 ==> r.is_none(),
    ;

    /// Adds a buy order to the order book and returns its fills: the
    /// order is crossed against the asks under price-time priority and
    /// any unmatched remainder rests among the bids.
    fn buy(&mut self, order: OrderType) -> (fills: FillIterator)
        requires
            old(self).book_inv(),
            old(self).bids_spec().len() + old(self).asks_spec().len() < usize::MAX,
        ensures
            final(self).book_inv(),
            fills.pending() == submit_fills(old(self).asks_spec(), order.order_view(), true),
            final(self).asks_spec() == makers_after(
                old(self).asks_spec(),
                order.order_view(),
                true,
            ),
            final(self).bids_spec() == takers_after(
                old(self).bids_spec(),
                old(self).asks_spec(),
                order.order_view(),
                true,
            ),
            final(self).bids_spec().len() + final(self).asks_spec().len() <= old(
                self,
            ).bids_spec().len() + old(self).asks_spec().len() + 1,
    ;

    /// Adds a sell order to the order book and returns its fills: the
    /// mirror image of buying.
    fn sell(&mut self, order: OrderType) -> (fills: FillIterator)
        requires
            old(self).book_inv(),
            old(self).bids_spec().len() + old(self).asks_spec().len() < usize::MAX,
        ensures
            final(self).book_inv(),
            fills.pending() == submit_fills(old(self).bids_spec(), order.order_view(), false),
            final(self).bids_spec() == makers_after(
                old(self).bids_spec(),
                order.order_view(),
                false,
            ),
            final(self).asks_spec() == takers_after(
                old(self).asks_spec(),
                old(self).bids_spec(),
                order.order_view(),
                false,
            ),
            final(self).bids_spec().len() + final(self).asks_spec().len() <= old(
                self,
            ).bids_spec().len() + old(self).asks_spec().len() + 1,
    ;

    /// Removes an order by id, returning it when found, searching the
    /// bids before the asks.
    fn remove(&mut self, order_id: u64) -> (r: Option<OrderType>)
        requires
            old(self).book_inv(),
        ensures
            final(self).book_inv(),
            contains_id(old(self).bids_spec(), order_id) ==> ({
                let k = last_id_index(old(self).bids_spec(), order_id);
                &&& r.is_some()
                &&& r.unwrap().order_view() == old(self).bids_spec()[k]
                &&& final(self).bids_spec() == old(self).bids_spec().remove(k)
                &&& final(self).asks_spec() == old(self).asks_spec()
            }),
            !contains_id(old(self).bids_spec(), order_id) && contains_id(
                old(self).asks_spec(),
                order_id,
            ) ==> ({
                let k = last_id_index(old(self).asks_spec(), order_id);
                &&& r.is_some()
                &&& r.unwrap().order_view() == old(self).asks_spec()[k]
                &&& final(self).asks_spec() == old(self).asks_spec().remove(k)
                &&& final(self).bids_spec() == old(self).bids_spec()
            }),
            !contains_id(old(self).bids_spec(), order_id) && !contains_id(
                old(self).asks_spec(),
                order_id,
            ) ==> {
                &&& r.is_none()
                &&& final(self).bids_spec() == old(self).bids_spec()
                &&& final(self).asks_spec() == old(self).asks_spec()
            },
    ;

    /// Modifies the quantity of an order by order id.
    /// Quantity must be non-zero and less than the current order
    /// quantity. Returns `true` if the order's quantity was modified.
    fn modify(&mut self, order_id: u64, quantity: u64) -> (r: bool)
        requires
            old(self).book_inv(),
        ensures
            final(self).book_inv(),
            contains_id(old(self).bids_spec(), order_id) ==> ({
                let k = last_id_index(old(self).bids_spec(), order_id);
                let ok = 0 < quantity < old(self).bids_spec()[k].quantity;
                &&& r == ok
                &&& final(self).bids_spec() == (if ok {
                    old(self).bids_spec().update(
                        k,
                        OrderView { quantity, ..old(self).bids_spec()[k] },
                    )
                } else {
                    old(self).bids_spec()
                })
                &&& final(self).asks_spec() == old(self).asks_spec()
            }),
            !contains_id(old(self).bids_spec(), order_id) && contains_id(
                old(self).asks_spec(),
                order_id,
            ) ==> ({
                let k = last_id_index(old(self).asks_spec(), order_id);
                let ok = 0 < quantity < old(self).asks_spec()[k].quantity;
                &&& r == ok
                &&& final(self).asks_spec() == (if ok {
                    old(self).asks_spec().update(
                        k,
                        OrderView { quantity, ..old(self).asks_spec()[k] },
                    )
                } else {
                    old(self).asks_spec()
                })
                &&& final(self).bids_spec() == old(self).bids_spec()
            }),
            !contains_id(old(self).bids_spec(), order_id) && !contains_id(
                old(self).asks_spec(),
                order_id,
            ) ==> {
                &&& r == false
                &&& final(self).bids_spec() == old(self).bids_spec()
                &&& final(self).asks_spec() == old(self).asks_spec()
            },
    ;
}

} // verus!
