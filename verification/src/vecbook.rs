//! A book representation backed by one sorted vector per side.
//!
//! Each side keeps its resting orders ordered from worst to best
//! priority, so the best order is always the last element: the crossing
//! loop pops makers off the tail, and a newly resting order is spliced in
//! at the position that preserves the order. Among equal prices the
//! newest arrival sits closest to the head, encoding time priority.

use vstd::prelude::*;

use crate::fill::Fill;
use crate::matching::all_positive;
use crate::matching::contains_id;
use crate::matching::cross;
use crate::matching::crossable;
use crate::matching::insert_resting;
use crate::matching::last_id_index;
use crate::matching::lemma_cross_makers_len;
use crate::matching::lemma_cross_positive;
use crate::matching::lemma_cross_sorted;
use crate::matching::lemma_insert_pos_unique;
use crate::matching::lemma_insert_resting_at;
use crate::matching::lemma_insert_resting_sorted;
use crate::matching::lemma_last_id_index_props;
use crate::matching::lemma_remove_keeps_wf;
use crate::matching::lemma_update_qty_keeps_wf;
use crate::matching::makers_after;
use crate::matching::rank_ge;
use crate::matching::sorted_best_first;
use crate::matching::submit_fills;
use crate::matching::takers_after;
use crate::order::Order;
use crate::order::OrderView;

verus! {

/// The order views of a stored side, in storage order.
pub open spec fn views_of<OrderType: Order>(s: Seq<OrderType>) -> Seq<OrderView> {
    s.map(|i: int, o: OrderType| o.order_view())
}

/// A materialized sequence of fills, handed out one at a time.
///
/// Submitting an order applies every trade to the book before this value
/// is returned, so abandoning it midway never leaves the book behind the
/// fills already produced.
pub struct FillIterator {
    fills: Vec<Fill>,
    next_index: usize,
}

impl FillIterator {
    /// The cursor never runs past the end of the fills.
    #[verifier::type_invariant]
    spec fn inv(&self) -> bool {
        self.next_index <= self.fills@.len()
    }

    /// The fills not yet handed out.
    pub closed spec fn pending(&self) -> Seq<Fill> {
        self.fills@.skip(self.next_index as int)
    }

    /// Hands out the next fill, oldest first, or `None` when exhausted.
    pub fn next(&mut self) -> (r: Option<Fill>)
        ensures
            old(self).pending().len() > 0 ==> {
                &&& r == Some(old(self).pending().first())
                &&& final(self).pending() == old(self).pending().drop_first()
            },
            old(self).pending().len() == 0 ==> {
                &&& r is None
                &&& final(self).pending() == old(self).pending()
            },
    {
        proof {
            use_type_invariant(&*self);
        }
        if self.next_index < self.fills.len() {
            let f = self.fills[self.next_index];
            self.next_index = self.next_index + 1;
            proof {
                assert(final(self).pending() =~= old(self).pending().drop_first());
            }
            Some(f)
        } else {
            None
        }
    }

    /// The fills not yet handed out, as a vector.
    pub fn into_vec(self) -> (r: Vec<Fill>)
        ensures
            r@ == self.pending(),
    {
        proof {
            use_type_invariant(&self);
        }
        let mut v = self.fills;
        let r = v.split_off(self.next_index);
        r
    }
}

/// On a non-empty stored side, the best-first view starts at the stored
/// tail, and dropping the stored tail drops the view's head.
proof fn lemma_rev_first<OrderType: Order>(s: Seq<OrderType>)
    requires
        s.len() > 0,
    ensures
        views_of(s).reverse().len() == s.len(),
        views_of(s).reverse().first() == s.last().order_view(),
        views_of(s.drop_last()).reverse() =~= views_of(s).reverse().drop_first(),
{
    let v = views_of(s).reverse();
    assert forall|i: int| 0 <= i < s.len() - 1 implies views_of(s.drop_last()).reverse()[i]
        == v.drop_first()[i] by {
        assert(views_of(s.drop_last()).reverse()[i] == s.drop_last()[s.len() - 2 - i].order_view());
        assert(s.drop_last()[s.len() - 2 - i] == s[s.len() - 2 - i]);
        assert(v.drop_first()[i] == v[i + 1]);
        assert(v[i + 1] == s[s.len() - 2 - i].order_view());
    }
}

/// Replacing the stored tail element replaces the view's head.
proof fn lemma_rev_set_last<OrderType: Order>(s: Seq<OrderType>, m: OrderType)
    requires
        s.len() > 0,
    ensures
        views_of(s.drop_last().push(m)).reverse() =~= views_of(s).reverse().update(
            0,
            m.order_view(),
        ),
{
    let l = views_of(s.drop_last().push(m)).reverse();
    let r = views_of(s).reverse().update(0, m.order_view());
    assert forall|i: int| 0 <= i < s.len() implies l[i] == r[i] by {
        assert(l[i] == s.drop_last().push(m)[s.len() - 1 - i].order_view());
        if i == 0 {
            assert(s.drop_last().push(m)[s.len() - 1] == m);
        } else {
            assert(s.drop_last().push(m)[s.len() - 1 - i] == s[s.len() - 1 - i]);
            assert(r[i] == s[s.len() - 1 - i].order_view());
        }
    }
}

/// Inserting at stored index `i` splices the view at `s.len() - i`.
proof fn lemma_rev_insert<OrderType: Order>(s: Seq<OrderType>, i: int, m: OrderType)
    requires
        0 <= i <= s.len(),
    ensures
        ({
            let v = views_of(s).reverse();
            let k = s.len() - i;
            views_of(s.insert(i, m)).reverse() =~= v.take(k) + seq![m.order_view()] + v.skip(k)
        }),
{
    let v = views_of(s).reverse();
    let k = s.len() - i;
    let l = views_of(s.insert(i, m)).reverse();
    let r = v.take(k) + seq![m.order_view()] + v.skip(k);
    let n = s.len() as int;
    assert forall|t: int| 0 <= t < n + 1 implies l[t] == r[t] by {
        assert(l[t] == s.insert(i, m)[n - t].order_view());
        if t < k {
            assert(s.insert(i, m)[n - t] == s[n - t - 1]);
            assert(r[t] == v[t]);
            assert(v[t] == s[n - 1 - t].order_view());
        } else if t == k {
            assert(s.insert(i, m)[i] == m);
        } else {
            assert(s.insert(i, m)[n - t] == s[n - t]);
            assert(r[t] == v[t - 1]);
            assert(v[t - 1] == s[n - t].order_view());
        }
    }
}

/// Removing stored index `i` removes view index `s.len() - 1 - i`.
proof fn lemma_rev_remove<OrderType: Order>(s: Seq<OrderType>, i: int)
    requires
        0 <= i < s.len(),
    ensures
        views_of(s.remove(i)).reverse() =~= views_of(s).reverse().remove(s.len() - 1 - i),
{
    let n = s.len() as int;
    let l = views_of(s.remove(i)).reverse();
    let r = views_of(s).reverse().remove(n - 1 - i);
    assert forall|t: int| 0 <= t < n - 1 implies l[t] == r[t] by {
        assert(l[t] == s.remove(i)[n - 2 - t].order_view());
        if t < n - 1 - i {
            assert(s.remove(i)[n - 2 - t] == s[n - 1 - t]);
            assert(r[t] == views_of(s).reverse()[t]);
        } else {
            assert(s.remove(i)[n - 2 - t] == s[n - 2 - t]);
            assert(r[t] == views_of(s).reverse()[t + 1]);
        }
    }
}

/// Updating stored index `i` updates view index `s.len() - 1 - i`.
proof fn lemma_rev_update<OrderType: Order>(s: Seq<OrderType>, i: int, m: OrderType)
    requires
        0 <= i < s.len(),
    ensures
        views_of(s.update(i, m)).reverse() =~= views_of(s).reverse().update(
            s.len() - 1 - i,
            m.order_view(),
        ),
{
    let n = s.len() as int;
    let l = views_of(s.update(i, m)).reverse();
    let r = views_of(s).reverse().update(n - 1 - i, m.order_view());
    assert forall|t: int| 0 <= t < n implies l[t] == r[t] by {
        assert(l[t] == s.update(i, m)[n - 1 - t].order_view());
        if t == n - 1 - i {
            assert(s.update(i, m)[i] == m);
        } else {
            assert(s.update(i, m)[n - 1 - t] == s[n - 1 - t]);
            assert(r[t] == views_of(s).reverse()[t]);
        }
    }
}

/// The crossing loop: trades the taker against the best maker (the
/// stored tail) while quantity remains and the price is crossable,
/// removing fully consumed makers and shrinking a partially consumed one
/// in place. Returns the fills and the unmatched taker quantity.
fn cross_makers<OrderType: Order>(
    makers: &mut Vec<OrderType>,
    qty: u64,
    limit: u64,
    taker_is_buy: bool,
) -> (res: (Vec<Fill>, u64))
    ensures
        ({
            let r = cross(views_of(old(makers)@).reverse(), qty, limit, taker_is_buy);
            &&& res.0@ == r.fills
            &&& res.1 == r.remaining
            &&& views_of(final(makers)@).reverse() == r.makers
        }),
{
    let ghost v0 = views_of(makers@).reverse();
    let ghost orig = cross(v0, qty, limit, taker_is_buy);
    let mut fills: Vec<Fill> = Vec::new();
    let mut q: u64 = qty;
    proof {
        assert(fills@ + orig.fills =~= orig.fills);
    }
    loop
        invariant
            ({
                let cur = cross(views_of(makers@).reverse(), q, limit, taker_is_buy);
                &&& orig == cross(v0, qty, limit, taker_is_buy)
                &&& orig.fills == fills@ + cur.fills
                &&& orig.makers == cur.makers
                &&& orig.remaining == cur.remaining
            }),
        ensures
            orig.fills == fills@,
            orig.makers == views_of(makers@).reverse(),
            orig.remaining == q,
        decreases makers@.len(),
    {
        let ghost pre = makers@;
        let ghost vpre = views_of(pre).reverse();
        let ghost curpre = cross(vpre, q, limit, taker_is_buy);
        if q == 0 {
            proof {
                assert(fills@ + curpre.fills =~= fills@);
            }
            break;
        }
        let n = makers.len();
        if n == 0 {
            proof {
                assert(fills@ + curpre.fills =~= fills@);
            }
            break;
        }
        proof {
            lemma_rev_first(pre);
        }
        let p = makers[n - 1].price();
        let not_crossable = if taker_is_buy {
            p > limit
        } else {
            p < limit
        };
        if not_crossable {
            proof {
                assert(!crossable(vpre.first().price, limit, taker_is_buy));
                assert(fills@ + curpre.fills =~= fills@);
            }
            break;
        }
        let mq = makers[n - 1].quantity();
        let mid = makers[n - 1].id();
        if q >= mq {
            let f = Fill::new(mid, mq, p, true);
            fills.push(f);
            makers.pop();
            proof {
                let rest = cross(vpre.drop_first(), (q - mq) as u64, limit, taker_is_buy);
                assert(curpre.fills == seq![f] + rest.fills);
                assert(views_of(makers@).reverse() =~= vpre.drop_first());
                assert(fills@ =~= fills@.drop_last().push(f));
                assert(fills@.drop_last() + (seq![f] + rest.fills) =~= fills@ + rest.fills);
            }
            q = q - mq;
        } else {
            let mut m = makers.pop().unwrap();
            let f = Fill::new(mid, q, p, false);
            fills.push(f);
            let nm = m.quantity() - q;
            m.set_quantity(nm);
            makers.push(m);
            proof {
                lemma_rev_set_last(pre, m);
                assert(curpre.fills == seq![f]);
                assert(curpre.makers == vpre.update(
                    0,
                    OrderView { quantity: nm, ..vpre.first() },
                ));
                assert(m.order_view() == (OrderView { quantity: nm, ..vpre.first() }));
                assert(views_of(makers@).reverse() =~= curpre.makers);
                assert(fills@ =~= fills@.drop_last().push(f));
                assert(fills@.drop_last() + seq![f] =~= fills@);
            }
            q = 0;
            proof {
                let curnow = cross(views_of(makers@).reverse(), q, limit, taker_is_buy);
                assert(curnow.fills =~= Seq::<Fill>::empty());
                assert(fills@ + curnow.fills =~= fills@);
            }
            break;
        }
    }
    (fills, q)
}

/// Splices a newly resting order into a stored side, keeping the side
/// sorted worst-to-best: it lands just before the first stored order of
/// better-or-equal priority, so among equal prices it sits behind every
/// earlier arrival.
fn insert_order<OrderType: Order>(side: &mut Vec<OrderType>, order: OrderType, is_buy: bool)
    requires
        sorted_best_first(views_of(old(side)@).reverse(), is_buy),
        old(side)@.len() < usize::MAX,
    ensures
        views_of(final(side)@).reverse() == insert_resting(
            views_of(old(side)@).reverse(),
            order.order_view(),
            is_buy,
        ),
{
    let ghost s0 = side@;
    let ghost v = views_of(s0).reverse();
    let ghost o = order.order_view();
    let op = order.price();
    let n = side.len();
    let mut i: usize = 0;
    while i < n
        invariant
            0 <= i <= n,
            n == side@.len(),
            side@ == s0,
            op == o.price,
            forall|j: int| 0 <= j < i ==> !rank_ge(views_of(s0)[j].price, o.price, is_buy),
        ensures
            0 <= i <= n,
            side@ == s0,
            forall|j: int| 0 <= j < i ==> !rank_ge(views_of(s0)[j].price, o.price, is_buy),
            i < n ==> rank_ge(views_of(s0)[i as int].price, o.price, is_buy),
        decreases n - i,
    {
        let p = side[i].price();
        let better_or_equal = if is_buy {
            p >= op
        } else {
            p <= op
        };
        if better_or_equal {
            break;
        }
        i = i + 1;
    }
    proof {
        let k = s0.len() - i;
        assert forall|t: int| 0 <= t < k implies rank_ge(#[trigger] v[t].price, o.price, is_buy) by {
            assert(v[t] == views_of(s0)[s0.len() - 1 - t]);
            assert(v[k - 1] == views_of(s0)[i as int]);
            assert(rank_ge(v[t].price, v[k - 1].price, is_buy));
        }
        if k < s0.len() {
            assert(v[k] == views_of(s0)[i - 1]);
            assert(!rank_ge(v[k].price, o.price, is_buy));
        }
        lemma_insert_pos_unique(v, o, is_buy, k);
        lemma_insert_resting_at(v, o, is_buy);
        lemma_rev_insert(s0, i as int, order);
    }
    side.insert(i, order);
}

/// Copies a stored side into a new vector in the opposite order, turning
/// worst-to-best storage into a best-first listing.
fn copy_reversed<OrderType: Order>(side: &Vec<OrderType>) -> (r: Vec<OrderType>)
    ensures
        views_of(r@) == views_of(side@).reverse(),
{
    let n = side.len();
    let mut r: Vec<OrderType> = Vec::new();
    let mut i: usize = 0;
    while i < n
        invariant
            0 <= i <= n,
            n == side@.len(),
            r@.len() == i,
            forall|j: int| 0 <= j < i ==> r@[j] == side@[n - 1 - j],
        decreases n - i,
    {
        r.push(side[n - 1 - i]);
        i = i + 1;
    }
    proof {
        assert(views_of(r@) =~= views_of(side@).reverse());
    }
    r
}

/// Overwrites one element of a vector.
fn vec_set<T>(v: &mut Vec<T>, i: usize, x: T)
    requires
        i < old(v)@.len(),
    ensures
        final(v)@ == old(v)@.update(i as int, x),
{
    let elem = &mut v[i];
    *elem = x;
}

/// Scans a stored side from its worst-priority end for the given id.
/// The stored index found corresponds to the last best-first view index
/// carrying the id, which is the occurrence cancellation detaches.
fn find_in_side<OrderType: Order>(side: &Vec<OrderType>, order_id: u64) -> (r: Option<usize>)
    ensures
        ({
            let v = views_of(side@).reverse();
            match r {
                Some(i) => {
                    &&& i < side@.len()
                    &&& views_of(side@)[i as int].id == order_id
                    &&& last_id_index(v, order_id) == side@.len() - 1 - i
                    &&& contains_id(v, order_id)
                },
                None => !contains_id(v, order_id),
            }
        }),
{
    let ghost s0 = side@;
    let ghost v = views_of(s0).reverse();
    let n = side.len();
    let mut i: usize = 0;
    while i < n
        invariant
            0 <= i <= n,
            n == side@.len(),
            side@ == s0,
            forall|j: int| 0 <= j < i ==> views_of(s0)[j].id != order_id,
        ensures
            side@ == s0,
            0 <= i <= n,
            forall|j: int| 0 <= j < i ==> views_of(s0)[j].id != order_id,
            i < n ==> views_of(s0)[i as int].id == order_id,
        decreases n - i,
    {
        if side[i].id() == order_id {
            break;
        }
        i = i + 1;
    }
    if i < n {
        proof {
            let k = s0.len() - 1 - i;
            assert(v[k] == views_of(s0)[i as int]);
            assert forall|j: int| k < j < v.len() implies (#[trigger] v[j]).id != order_id by {
                assert(v[j] == views_of(s0)[s0.len() - 1 - j]);
            }
            lemma_last_id_index_props(v, order_id);
            let l = last_id_index(v, order_id);
            assert(l >= 0);
            if l != k {
                assert(v[l].id == order_id);
                assert(false);
            }
        }
        Some(i)
    } else {
        proof {
            if contains_id(v, order_id) {
                let w = choose|t: int| 0 <= t < v.len() && v[t].id == order_id;
                assert(v[w] == views_of(s0)[s0.len() - 1 - w]);
                assert(false);
            }
        }
        None
    }
}

/// An order book holding one direction's resting orders per vector.
pub struct VecBook<OrderType> {
    /// Bids, sorted by price ascending: the best bid is the last element.
    bids: Vec<OrderType>,
    /// Asks, sorted by price descending: the best ask is the last element.
    asks: Vec<OrderType>,
}

impl<OrderType: Order> VecBook<OrderType> {
    /// The bids, best-first.
    pub closed spec fn bids_view(&self) -> Seq<OrderView> {
        views_of(self.bids@).reverse()
    }

    /// The asks, best-first.
    pub closed spec fn asks_view(&self) -> Seq<OrderView> {
        views_of(self.asks@).reverse()
    }

    /// How many orders are resting, on both sides together.
    pub open spec fn order_count(&self) -> int {
        self.bids_view().len() + self.asks_view().len() as int
    }

    /// Well-formedness: each side is in priority order and every resting
    /// quantity is positive.
    pub open spec fn wf(&self) -> bool {
        &&& sorted_best_first(self.bids_view(), true)
        &&& sorted_best_first(self.asks_view(), false)
        &&& all_positive(self.bids_view())
        &&& all_positive(self.asks_view())
    }

    /// Returns the number of open orders in the order book.
    pub fn len(&self) -> (r: usize)
        requires
            self.order_count() <= usize::MAX,
        ensures
            r == self.order_count(),
    {
        self.bids.len() + self.asks.len()
    }

    /// Returns `true` if the book contains no open orders.
    pub fn is_empty(&self) -> (r: bool)
        requires
            self.order_count() <= usize::MAX,
        ensures
            r <==> self.order_count() == 0,
    {
        self.len() == 0
    }

    /// Returns the bids from best to worst.
    pub fn bids(&self) -> (r: Vec<OrderType>)
        ensures
            views_of(r@) == self.bids_view(),
    {
        copy_reversed(&self.bids)
    }

    /// Returns the asks from best to worst.
    pub fn asks(&self) -> (r: Vec<OrderType>)
        ensures
            views_of(r@) == self.asks_view(),
    {
        copy_reversed(&self.asks)
    }

    /// Returns the best bid.
    pub fn best_bid(&self) -> (r: Option<OrderType>)
        ensures
            self.bids_view().len() > 0 ==> r.is_some() && r.unwrap().order_view()
                == self.bids_view().first(),
            self.bids_view().len() == 0 ==> r.is_none(),
    {
        let n = self.bids.len();
        if n == 0 {
            None
        } else {
            Some(self.bids[n - 1])
        }
    }

    /// Returns the best ask.
    pub fn best_ask(&self) -> (r: Option<OrderType>)
        ensures
            self.asks_view().len() > 0 ==> r.is_some() && r.unwrap().order_view()
                == self.asks_view().first(),
            self.asks_view().len() == 0 ==> r.is_none(),
    {
        let n = self.asks.len();
        if n == 0 {
            None
        } else {
            Some(self.asks[n - 1])
        }
    }

    /// Adds a buy order to the order book and returns its fills.
    ///
    /// The order is crossed against the asks best-first while its limit
    /// allows; every trade is applied to the book before this returns.
    /// Any unmatched remainder rests among the bids at the order's limit
    /// price, behind all earlier arrivals at that price; a zero-quantity
    /// order trades nothing and never rests.
    pub fn buy(&mut self, order: OrderType) -> (fills: FillIterator)
        requires
            old(self).wf(),
            old(self).order_count() < usize::MAX,
        ensures
            final(self).wf(),
            fills.pending() == submit_fills(old(self).asks_view(), order.order_view(), true),
            final(self).asks_view() == makers_after(old(self).asks_view(), order.order_view(), true),
            final(self).bids_view() == takers_after(
                old(self).bids_view(),
                old(self).asks_view(),
                order.order_view(),
                true,
            ),
            final(self).order_count() <= old(self).order_count() + 1,
    {
        let q0 = order.quantity();
        let limit = order.price();
        let (fillvec, remaining) = cross_makers(&mut self.asks, q0, limit, true);
        proof {
            lemma_cross_sorted(old(self).asks_view(), q0, limit, true, false);
            lemma_cross_positive(old(self).asks_view(), q0, limit, true);
            lemma_cross_makers_len(old(self).asks_view(), q0, limit, true);
        }
        if remaining > 0 {
            let mut rest = order;
            rest.set_quantity(remaining);
            proof {
                assert(old(self).bids_view().len() == old(self).bids@.len());
                lemma_insert_resting_sorted(old(self).bids_view(), rest.order_view(), true);
            }
            insert_order(&mut self.bids, rest, true);
        }
        let ghost fv = fillvec@;
        let r = FillIterator { fills: fillvec, next_index: 0 };
        proof {
            assert(r.pending() =~= fv);
        }
        r
    }

    /// Adds a sell order to the order book and returns its fills.
    ///
    /// The mirror image of buying: the order is crossed against the bids
    /// best-first while its limit allows, and any unmatched remainder
    /// rests among the asks.
    pub fn sell(&mut self, order: OrderType) -> (fills: FillIterator)
        requires
            old(self).wf(),
            old(self).order_count() < usize::MAX,
        ensures
            final(self).wf(),
            fills.pending() == submit_fills(old(self).bids_view(), order.order_view(), false),
            final(self).bids_view() == makers_after(old(self).bids_view(), order.order_view(), false),
            final(self).asks_view() == takers_after(
                old(self).asks_view(),
                old(self).bids_view(),
                order.order_view(),
                false,
            ),
            final(self).order_count() <= old(self).order_count() + 1,
    {
        let q0 = order.quantity();
        let limit = order.price();
        let (fillvec, remaining) = cross_makers(&mut self.bids, q0, limit, false);
        proof {
            lemma_cross_sorted(old(self).bids_view(), q0, limit, false, true);
            lemma_cross_positive(old(self).bids_view(), q0, limit, false);
            lemma_cross_makers_len(old(self).bids_view(), q0, limit, false);
        }
        if remaining > 0 {
            let mut rest = order;
            rest.set_quantity(remaining);
            proof {
                assert(old(self).asks_view().len() == old(self).asks@.len());
                lemma_insert_resting_sorted(old(self).asks_view(), rest.order_view(), false);
            }
            insert_order(&mut self.asks, rest, false);
        }
        let ghost fv = fillvec@;
        let r = FillIterator { fills: fillvec, next_index: 0 };
        proof {
            assert(r.pending() =~= fv);
        }
        r
    }

    /// Removes an order by id: detaches the resting order carrying the id
    /// and returns it, identity and final quantity intact, or returns
    /// `None` when no such order rests. The bids are searched first.
    pub fn remove(&mut self, order_id: u64) -> (r: Option<OrderType>)
        requires
            old(self).wf(),
        ensures
            final(self).wf(),
            contains_id(old(self).bids_view(), order_id) ==> ({
                let k = last_id_index(old(self).bids_view(), order_id);
                &&& r.is_some()
                &&& r.unwrap().order_view() == old(self).bids_view()[k]
                &&& final(self).bids_view() == old(self).bids_view().remove(k)
                &&& final(self).asks_view() == old(self).asks_view()
            }),
            !contains_id(old(self).bids_view(), order_id) && contains_id(
                old(self).asks_view(),
                order_id,
            ) ==> ({
                let k = last_id_index(old(self).asks_view(), order_id);
                &&& r.is_some()
                &&& r.unwrap().order_view() == old(self).asks_view()[k]
                &&& final(self).asks_view() == old(self).asks_view().remove(k)
                &&& final(self).bids_view() == old(self).bids_view()
            }),
            !contains_id(old(self).bids_view(), order_id) && !contains_id(
                old(self).asks_view(),
                order_id,
            ) ==> {
                &&& r.is_none()
                &&& final(self).bids_view() == old(self).bids_view()
                &&& final(self).asks_view() == old(self).asks_view()
            },
    {
        match find_in_side(&self.bids, order_id) {
            Some(i) => {
                proof {
                    lemma_rev_remove(self.bids@, i as int);
                    lemma_remove_keeps_wf(
                        old(self).bids_view(),
                        last_id_index(old(self).bids_view(), order_id),
                        true,
                    );
                }
                let m = self.bids.remove(i);
                Some(m)
            },
            None => {
                match find_in_side(&self.asks, order_id) {
                    Some(i) => {
                        proof {
                            lemma_rev_remove(self.asks@, i as int);
                            lemma_remove_keeps_wf(
                                old(self).asks_view(),
                                last_id_index(old(self).asks_view(), order_id),
                                false,
                            );
                        }
                        let m = self.asks.remove(i);
                        Some(m)
                    },
                    None => None,
                }
            },
        }
    }

    /// Modifies the quantity of a resting order by id. The change is
    /// accepted only when such an order rests and the new quantity is a
    /// strict, non-zero decrease; then the order shrinks in place, its
    /// priority position untouched. Returns whether the change was
    /// applied; on rejection nothing changes.
    pub fn modify(&mut self, order_id: u64, quantity: u64) -> (r: bool)
        requires
            old(self).wf(),
        ensures
            final(self).wf(),
            contains_id(old(self).bids_view(), order_id) ==> ({
                let k = last_id_index(old(self).bids_view(), order_id);
                let ok = 0 < quantity < old(self).bids_view()[k].quantity;
                &&& r == ok
                &&& final(self).bids_view() == (if ok {
                    old(self).bids_view().update(
                        k,
                        OrderView { quantity, ..old(self).bids_view()[k] },
                    )
                } else {
                    old(self).bids_view()
                })
                &&& final(self).asks_view() == old(self).asks_view()
            }),
            !contains_id(old(self).bids_view(), order_id) && contains_id(
                old(self).asks_view(),
                order_id,
            ) ==> ({
                let k = last_id_index(old(self).asks_view(), order_id);
                let ok = 0 < quantity < old(self).asks_view()[k].quantity;
                &&& r == ok
                &&& final(self).asks_view() == (if ok {
                    old(self).asks_view().update(
                        k,
                        OrderView { quantity, ..old(self).asks_view()[k] },
                    )
                } else {
                    old(self).asks_view()
                })
                &&& final(self).bids_view() == old(self).bids_view()
            }),
            !contains_id(old(self).bids_view(), order_id) && !contains_id(
                old(self).asks_view(),
                order_id,
            ) ==> {
                &&& r == false
                &&& final(self).bids_view() == old(self).bids_view()
                &&& final(self).asks_view() == old(self).asks_view()
            },
    {
        match find_in_side(&self.bids, order_id) {
            Some(i) => {
                let cur = self.bids[i].quantity();
                if 0 < quantity && quantity < cur {
                    let mut m = self.bids[i];
                    m.set_quantity(quantity);
                    proof {
                        lemma_rev_update(self.bids@, i as int, m);
                        lemma_update_qty_keeps_wf(
                            old(self).bids_view(),
                            last_id_index(old(self).bids_view(), order_id),
                            quantity,
                            true,
                        );
                    }
                    vec_set(&mut self.bids, i, m);
                    true
                } else {
                    false
                }
            },
            None => {
                match find_in_side(&self.asks, order_id) {
                    Some(i) => {
                        let cur = self.asks[i].quantity();
                        if 0 < quantity && quantity < cur {
                            let mut m = self.asks[i];
                            m.set_quantity(quantity);
                            proof {
                                lemma_rev_update(self.asks@, i as int, m);
                                lemma_update_qty_keeps_wf(
                                    old(self).asks_view(),
                                    last_id_index(old(self).asks_view(), order_id),
                                    quantity,
                                    false,
                                );
                            }
                            vec_set(&mut self.asks, i, m);
                            true
                        } else {
                            false
                        }
                    },
                    None => false,
                }
            },
        }
    }
}

impl<OrderType: Order> crate::OrderBook<OrderType> for VecBook<OrderType> {
    open spec fn bids_spec(&self) -> Seq<OrderView> {
        self.bids_view()
    }

    open spec fn asks_spec(&self) -> Seq<OrderView> {
        self.asks_view()
    }

    open spec fn book_inv(&self) -> bool {
        self.wf()
    }

    fn len(&self) -> (r: usize) {
        VecBook::len(self)
    }

    fn is_empty(&self) -> (r: bool) {
        VecBook::is_empty(self)
    }

    fn bids(&self) -> (r: Vec<OrderType>) {
        let r = VecBook::bids(self);
        proof {
            assert(r@.map(|i: int, o: OrderType| o.order_view()) =~= views_of(r@));
        }
        r
    }

    fn asks(&self) -> (r: Vec<OrderType>) {
        let r = VecBook::asks(self);
        proof {
            assert(r@.map(|i: int, o: OrderType| o.order_view()) =~= views_of(r@));
        }
        r
    }

    fn best_bid(&self) -> (r: Option<OrderType>) {
        VecBook::best_bid(self)
    }

    fn best_ask(&self) -> (r: Option<OrderType>) {
        VecBook::best_ask(self)
    }

    fn buy(&mut self, order: OrderType) -> (fills: FillIterator) {
        VecBook::buy(self, order)
    }

    fn sell(&mut self, order: OrderType) -> (fills: FillIterator) {
        VecBook::sell(self, order)
    }

    fn remove(&mut self, order_id: u64) -> (r: Option<OrderType>) {
        VecBook::remove(self, order_id)
    }

    fn modify(&mut self, order_id: u64, quantity: u64) -> (r: bool) {
        VecBook::modify(self, order_id, quantity)
    }
}

impl<OrderType: Order> std::default::Default for VecBook<OrderType> {
    /// An empty book.
    fn default() -> (r: Self)
        ensures
            r.wf(),
            r.bids_view() == Seq::<OrderView>::empty(),
            r.asks_view() == Seq::<OrderView>::empty(),
    {
        let r = VecBook { bids: Vec::new(), asks: Vec::new() };
        proof {
            assert(r.bids_view() =~= Seq::<OrderView>::empty());
            assert(r.asks_view() =~= Seq::<OrderView>::empty());
        }
        r
    }
}

} // verus!
