//! The mathematical model of the matching core.
//!
//! Both book representations state their contracts against the functions
//! here: a side of the book is a sequence of [`OrderView`]s in best-first
//! priority order, the crossing algorithm is the recursive [`cross`], and
//! resting a remainder is [`insert_resting`]. The proof functions state
//! the laws the model obeys: quantity conservation, matching in priority
//! order, and completeness of a crossing taker.

use vstd::prelude::*;

use crate::fill::Fill;
use crate::order::OrderView;

verus! {

/// The outcome of running the crossing loop against one side:
/// the fills in the order the trades occurred, the makers that survive
/// (still best-first), and the taker quantity left unmatched.
pub struct MatchResult {
    pub fills: Seq<Fill>,
    pub makers: Seq<OrderView>,
    pub remaining: u64,
}

/// Whether a taker whose limit is `limit` may trade against a resting
/// maker priced `maker_price`.
pub open spec fn crossable(maker_price: u64, limit: u64, taker_is_buy: bool) -> bool {
    if taker_is_buy {
        maker_price <= limit
    } else {
        maker_price >= limit
    }
}

/// Whether a resting order priced `a_price` has priority at least as good
/// as one priced `b_price` on the side given by `is_buy`: for bids the
/// numerically higher price is better, for asks the lower.
pub open spec fn rank_ge(a_price: u64, b_price: u64, is_buy: bool) -> bool {
    if is_buy {
        a_price >= b_price
    } else {
        a_price <= b_price
    }
}

/// A side in best-first order: priority never improves along the sequence.
/// Among equal prices the earlier element is the earlier arrival.
pub open spec fn sorted_best_first(s: Seq<OrderView>, is_buy: bool) -> bool {
    forall|i: int, j: int|
        0 <= i <= j < s.len() ==> rank_ge(s[i].price, s[j].price, is_buy)
}

/// Every resting order carries a positive quantity.
pub open spec fn all_positive(s: Seq<OrderView>) -> bool {
    forall|i: int| 0 <= i < s.len() ==> s[i].quantity > 0
}

/// The crossing algorithm: match a taker of quantity `qty` and limit
/// `limit` against `makers` (the opposite side, best-first), trading with
/// each maker in turn at the maker's price while the price is crossable
/// and taker quantity remains.
pub open spec fn cross(makers: Seq<OrderView>, qty: u64, limit: u64, taker_is_buy: bool) -> MatchResult
    decreases makers.len(),
{
    if qty == 0 || makers.len() == 0 || !crossable(makers.first().price, limit, taker_is_buy) {
        MatchResult { fills: Seq::empty(), makers, remaining: qty }
    } else {
        let m = makers.first();
        if qty >= m.quantity {
            let rest = cross(makers.drop_first(), (qty - m.quantity) as u64, limit, taker_is_buy);
            MatchResult {
                fills: seq![Fill { id: m.id, quantity: m.quantity, price: m.price, done: true }]
                    + rest.fills,
                makers: rest.makers,
                remaining: rest.remaining,
            }
        } else {
            MatchResult {
                fills: seq![Fill { id: m.id, quantity: qty, price: m.price, done: false }],
                makers: makers.update(0, OrderView { quantity: (m.quantity - qty) as u64, ..m }),
                remaining: 0,
            }
        }
    }
}

/// Where a newly resting order lands: after every resting order whose
/// priority is at least as good, and in particular after all orders at
/// its own price, since it is the latest arrival among them.
pub open spec fn insert_resting(s: Seq<OrderView>, o: OrderView, is_buy: bool) -> Seq<OrderView>
    decreases s.len(),
{
    if s.len() == 0 {
        seq![o]
    } else if rank_ge(s.first().price, o.price, is_buy) {
        seq![s.first()] + insert_resting(s.drop_first(), o, is_buy)
    } else {
        seq![o] + s
    }
}

/// The fills a submission produces against the given opposite side.
pub open spec fn submit_fills(makers: Seq<OrderView>, o: OrderView, taker_is_buy: bool) -> Seq<Fill> {
    cross(makers, o.quantity, o.price, taker_is_buy).fills
}

/// The opposite side after a submission.
pub open spec fn makers_after(makers: Seq<OrderView>, o: OrderView, taker_is_buy: bool) -> Seq<OrderView> {
    cross(makers, o.quantity, o.price, taker_is_buy).makers
}

/// The submitter's own side after a submission: unchanged when the taker
/// was fully matched (or empty), otherwise with the remainder resting at
/// the taker's limit price.
pub open spec fn takers_after(
    takers: Seq<OrderView>,
    makers: Seq<OrderView>,
    o: OrderView,
    taker_is_buy: bool,
) -> Seq<OrderView> {
    let r = cross(makers, o.quantity, o.price, taker_is_buy);
    if r.remaining > 0 {
        insert_resting(takers, OrderView { quantity: r.remaining, ..o }, taker_is_buy)
    } else {
        takers
    }
}

/// Total resting quantity of a side.
pub open spec fn total_qty(s: Seq<OrderView>) -> int
    decreases s.len(),
{
    if s.len() == 0 {
        0
    } else {
        s.first().quantity + total_qty(s.drop_first())
    }
}

/// Total traded quantity reported by a sequence of fills.
pub open spec fn total_fill_qty(fs: Seq<Fill>) -> int
    decreases fs.len(),
{
    if fs.len() == 0 {
        0
    } else {
        fs.first().quantity + total_fill_qty(fs.drop_first())
    }
}

/// How many resting orders of a side carry the given id.
pub open spec fn count_id(s: Seq<OrderView>, id: u64) -> int
    decreases s.len(),
{
    if s.len() == 0 {
        0
    } else {
        (if s.first().id == id { 1int } else { 0int }) + count_id(s.drop_first(), id)
    }
}

/// Whether some resting order of a side carries the given id.
pub open spec fn contains_id(s: Seq<OrderView>, id: u64) -> bool {
    exists|i: int| 0 <= i < s.len() && s[i].id == id
}

/// The largest index carrying the given id, or -1 when absent. Cancelling
/// by id detaches this occurrence: it is the first found when the stored
/// side is scanned from its worst-priority end.
pub open spec fn last_id_index(s: Seq<OrderView>, id: u64) -> int
    decreases s.len(),
{
    if s.len() == 0 {
        -1
    } else if s.last().id == id {
        s.len() - 1
    } else {
        last_id_index(s.drop_last(), id)
    }
}

/// Total resting quantity is never negative.
pub proof fn lemma_total_qty_nonneg(s: Seq<OrderView>)
    ensures
        total_qty(s) >= 0,
    decreases s.len(),
{
    if s.len() > 0 {
        lemma_total_qty_nonneg(s.drop_first());
    }
}

/// Total traded quantity is never negative.
pub proof fn lemma_total_fill_qty_nonneg(fs: Seq<Fill>)
    ensures
        total_fill_qty(fs) >= 0,
    decreases fs.len(),
{
    if fs.len() > 0 {
        lemma_total_fill_qty_nonneg(fs.drop_first());
    }
}

/// Prepending one fill adds its quantity to the total.
proof fn lemma_total_fill_qty_cons(f: Fill, fs: Seq<Fill>)
    ensures
        total_fill_qty(seq![f] + fs) == f.quantity + total_fill_qty(fs),
{
    assert((seq![f] + fs).drop_first() =~= fs);
    assert((seq![f] + fs).first() == f);
}

/// Conservation: a crossing neither creates nor destroys quantity. The
/// taker's quantity splits exactly into the traded total and the
/// unmatched remainder, and the traded total is exactly what left the
/// maker side; in particular the fills never report more than was
/// submitted, nor more than was resting.
pub proof fn lemma_cross_conservation(makers: Seq<OrderView>, qty: u64, limit: u64, taker_is_buy: bool)
    ensures
        ({
            let r = cross(makers, qty, limit, taker_is_buy);
            &&& r.remaining + total_fill_qty(r.fills) == qty
            &&& total_qty(r.makers) + total_fill_qty(r.fills) == total_qty(makers)
            &&& total_fill_qty(r.fills) <= qty
            &&& total_fill_qty(r.fills) <= total_qty(makers)
        }),
    decreases makers.len(),
{
    lemma_total_qty_nonneg(makers);
    let r = cross(makers, qty, limit, taker_is_buy);
    if qty == 0 || makers.len() == 0 || !crossable(makers.first().price, limit, taker_is_buy) {
        assert(total_fill_qty(r.fills) == 0);
        lemma_total_qty_nonneg(r.makers);
    } else {
        let m = makers.first();
        if qty >= m.quantity {
            let q2 = (qty - m.quantity) as u64;
            let rest = cross(makers.drop_first(), q2, limit, taker_is_buy);
            lemma_cross_conservation(makers.drop_first(), q2, limit, taker_is_buy);
            let f = Fill { id: m.id, quantity: m.quantity, price: m.price, done: true };
            lemma_total_fill_qty_cons(f, rest.fills);
            lemma_total_qty_nonneg(rest.makers);
            lemma_total_fill_qty_nonneg(rest.fills);
            assert(total_qty(makers) == m.quantity + total_qty(makers.drop_first()));
        } else {
            let m2 = OrderView { quantity: (m.quantity - qty) as u64, ..m };
            let f = Fill { id: m.id, quantity: qty, price: m.price, done: false };
            let fs1: Seq<Fill> = seq![f];
            assert(r.fills == fs1);
            assert(total_fill_qty(Seq::<Fill>::empty()) == 0);
            assert(fs1.drop_first() =~= Seq::<Fill>::empty());
            assert(total_fill_qty(fs1) == f.quantity + total_fill_qty(fs1.drop_first()));
            let u = makers.update(0, m2);
            assert(u.drop_first() =~= makers.drop_first());
            assert(u.first() == m2);
            assert(total_qty(u) == m2.quantity + total_qty(u.drop_first()));
            assert(total_qty(makers) == m.quantity + total_qty(makers.drop_first()));
            lemma_total_qty_nonneg(makers.drop_first());
        }
    }
}

/// Priority: the fills walk the maker side best-first. The `i`th fill
/// reports the `i`th-best maker's id at that maker's price, never trades
/// more than that maker had resting, marks the maker done exactly when it
/// traded the maker's whole remaining quantity, and only ever trades at a
/// crossable price.
pub proof fn lemma_cross_priority(makers: Seq<OrderView>, qty: u64, limit: u64, taker_is_buy: bool)
    ensures
        ({
            let r = cross(makers, qty, limit, taker_is_buy);
            &&& r.fills.len() <= makers.len()
            &&& forall|i: int|
                0 <= i < r.fills.len() ==> {
                    &&& (#[trigger] r.fills[i]).id == makers[i].id
                    &&& r.fills[i].price == makers[i].price
                    &&& r.fills[i].quantity <= makers[i].quantity
                    &&& (r.fills[i].done <==> r.fills[i].quantity == makers[i].quantity)
                    &&& crossable(makers[i].price, limit, taker_is_buy)
                }
        }),
    decreases makers.len(),
{
    let r = cross(makers, qty, limit, taker_is_buy);
    if qty == 0 || makers.len() == 0 || !crossable(makers.first().price, limit, taker_is_buy) {
    } else {
        let m = makers.first();
        if qty >= m.quantity {
            let q2 = (qty - m.quantity) as u64;
            let rest = cross(makers.drop_first(), q2, limit, taker_is_buy);
            lemma_cross_priority(makers.drop_first(), q2, limit, taker_is_buy);
            let f = Fill { id: m.id, quantity: m.quantity, price: m.price, done: true };
            assert forall|i: int| 0 <= i < r.fills.len() implies {
                &&& (#[trigger] r.fills[i]).id == makers[i].id
                &&& r.fills[i].price == makers[i].price
                &&& r.fills[i].quantity <= makers[i].quantity
                &&& (r.fills[i].done <==> r.fills[i].quantity == makers[i].quantity)
                &&& crossable(makers[i].price, limit, taker_is_buy)
            } by {
                if i == 0 {
                    assert(r.fills[0] == f);
                } else {
                    assert(r.fills[i] == rest.fills[i - 1]);
                    assert(makers[i] == makers.drop_first()[i - 1]);
                }
            }
        } else {
            let f = Fill { id: m.id, quantity: qty, price: m.price, done: false };
            assert(r.fills[0] == f);
        }
    }
}

/// Crossing keeps the surviving maker side sorted best-first: it removes
/// a best-priority prefix and at most shrinks the quantity of the next
/// maker in place, never reordering anything.
pub proof fn lemma_cross_sorted(makers: Seq<OrderView>, qty: u64, limit: u64, taker_is_buy: bool, is_buy: bool)
    requires
        sorted_best_first(makers, is_buy),
    ensures
        sorted_best_first(cross(makers, qty, limit, taker_is_buy).makers, is_buy),
    decreases makers.len(),
{
    let r = cross(makers, qty, limit, taker_is_buy);
    if qty == 0 || makers.len() == 0 || !crossable(makers.first().price, limit, taker_is_buy) {
    } else {
        let m = makers.first();
        if qty >= m.quantity {
            let q2 = (qty - m.quantity) as u64;
            assert(sorted_best_first(makers.drop_first(), is_buy)) by {
                assert forall|i: int, j: int| 0 <= i <= j < makers.drop_first().len() implies rank_ge(
                    makers.drop_first()[i].price,
                    makers.drop_first()[j].price,
                    is_buy,
                ) by {
                    assert(makers.drop_first()[i] == makers[i + 1]);
                    assert(makers.drop_first()[j] == makers[j + 1]);
                }
            }
            lemma_cross_sorted(makers.drop_first(), q2, limit, taker_is_buy, is_buy);
        } else {
            let m2 = OrderView { quantity: (m.quantity - qty) as u64, ..m };
            let u = makers.update(0, m2);
            assert forall|i: int, j: int| 0 <= i <= j < u.len() implies rank_ge(
                u[i].price,
                u[j].price,
                is_buy,
            ) by {
                assert(u[i].price == makers[i].price);
                assert(u[j].price == makers[j].price);
            }
        }
    }
}

/// Crossing keeps resting quantities positive, and every fill trades a
/// positive quantity.
pub proof fn lemma_cross_positive(makers: Seq<OrderView>, qty: u64, limit: u64, taker_is_buy: bool)
    requires
        all_positive(makers),
    ensures
        ({
            let r = cross(makers, qty, limit, taker_is_buy);
            &&& all_positive(r.makers)
            &&& forall|i: int| 0 <= i < r.fills.len() ==> (#[trigger] r.fills[i]).quantity > 0
        }),
    decreases makers.len(),
{
    let r = cross(makers, qty, limit, taker_is_buy);
    if qty == 0 || makers.len() == 0 || !crossable(makers.first().price, limit, taker_is_buy) {
    } else {
        let m = makers.first();
        assert(m.quantity > 0);
        if qty >= m.quantity {
            let q2 = (qty - m.quantity) as u64;
            assert(all_positive(makers.drop_first())) by {
                assert forall|i: int| 0 <= i < makers.drop_first().len() implies (#[trigger] makers.drop_first()[i]).quantity > 0 by {
                    assert(makers.drop_first()[i] == makers[i + 1]);
                }
            }
            let rest = cross(makers.drop_first(), q2, limit, taker_is_buy);
            lemma_cross_positive(makers.drop_first(), q2, limit, taker_is_buy);
            assert forall|i: int| 0 <= i < r.fills.len() implies (#[trigger] r.fills[i]).quantity > 0 by {
                if i > 0 {
                    assert(r.fills[i] == rest.fills[i - 1]);
                }
            }
        } else {
            let m2 = OrderView { quantity: (m.quantity - qty) as u64, ..m };
            let u = makers.update(0, m2);
            assert forall|i: int| 0 <= i < u.len() implies (#[trigger] u[i]).quantity > 0 by {
                if i != 0 {
                    assert(u[i] == makers[i]);
                }
            }
        }
    }
}

/// Crossing introduces no new order ids: every surviving maker carries
/// the id of some maker that was already resting.
pub proof fn lemma_cross_makers_ids(makers: Seq<OrderView>, qty: u64, limit: u64, taker_is_buy: bool)
    ensures
        forall|k: int|
            0 <= k < cross(makers, qty, limit, taker_is_buy).makers.len() ==> contains_id(
                makers,
                (#[trigger] cross(makers, qty, limit, taker_is_buy).makers[k]).id,
            ),
    decreases makers.len(),
{
    let r = cross(makers, qty, limit, taker_is_buy);
    if qty == 0 || makers.len() == 0 || !crossable(makers.first().price, limit, taker_is_buy) {
        assert forall|k: int| 0 <= k < r.makers.len() implies contains_id(
            makers,
            (#[trigger] r.makers[k]).id,
        ) by {
            assert(makers[k].id == r.makers[k].id);
        }
    } else {
        let m = makers.first();
        if qty >= m.quantity {
            let q2 = (qty - m.quantity) as u64;
            lemma_cross_makers_ids(makers.drop_first(), q2, limit, taker_is_buy);
            let rest = cross(makers.drop_first(), q2, limit, taker_is_buy);
            assert forall|k: int| 0 <= k < r.makers.len() implies contains_id(
                makers,
                (#[trigger] r.makers[k]).id,
            ) by {
                assert(r.makers[k] == rest.makers[k]);
                assert(contains_id(makers.drop_first(), rest.makers[k].id));
                let t = choose|t: int|
                    0 <= t < makers.drop_first().len() && makers.drop_first()[t].id
                        == r.makers[k].id;
                assert(makers[t + 1].id == r.makers[k].id);
            }
        } else {
            assert forall|k: int| 0 <= k < r.makers.len() implies contains_id(
                makers,
                (#[trigger] r.makers[k]).id,
            ) by {
                if k == 0 {
                    assert(r.makers[0].id == makers[0].id);
                } else {
                    assert(r.makers[k].id == makers[k].id);
                }
            }
        }
    }
}

/// Completeness: if the taker has quantity left after the crossing, the
/// opposite side offers nothing more it could trade with — it is either
/// exhausted or its best price is no longer crossable.
pub proof fn lemma_cross_stops(makers: Seq<OrderView>, qty: u64, limit: u64, taker_is_buy: bool)
    ensures
        ({
            let r = cross(makers, qty, limit, taker_is_buy);
            r.remaining > 0 ==> r.makers.len() == 0 || !crossable(
                r.makers.first().price,
                limit,
                taker_is_buy,
            )
        }),
    decreases makers.len(),
{
    if qty == 0 || makers.len() == 0 || !crossable(makers.first().price, limit, taker_is_buy) {
    } else {
        let m = makers.first();
        if qty >= m.quantity {
            lemma_cross_stops(makers.drop_first(), (qty - m.quantity) as u64, limit, taker_is_buy);
        }
    }
}

/// A taker large enough for the whole opposite side, all of it crossable,
/// consumes it completely: one full fill per maker, in priority order.
pub proof fn lemma_cross_sweeps_all(makers: Seq<OrderView>, qty: u64, limit: u64, taker_is_buy: bool)
    requires
        all_positive(makers),
        forall|i: int| 0 <= i < makers.len() ==> crossable(#[trigger] makers[i].price, limit, taker_is_buy),
        qty >= total_qty(makers),
    ensures
        ({
            let r = cross(makers, qty, limit, taker_is_buy);
            &&& r.makers.len() == 0
            &&& r.remaining == qty - total_qty(makers)
            &&& r.fills == makers.map(
                |i: int, m: OrderView| Fill { id: m.id, quantity: m.quantity, price: m.price, done: true },
            )
        }),
    decreases makers.len(),
{
    let fullf = |i: int, m: OrderView| Fill { id: m.id, quantity: m.quantity, price: m.price, done: true };
    let r = cross(makers, qty, limit, taker_is_buy);
    if makers.len() == 0 {
        assert(r.fills =~= makers.map(fullf));
    } else {
        let m = makers.first();
        lemma_total_qty_nonneg(makers.drop_first());
        assert(total_qty(makers) == m.quantity + total_qty(makers.drop_first()));
        assert(qty >= m.quantity);
        assert(m.quantity > 0);
        let q2 = (qty - m.quantity) as u64;
        assert forall|i: int| 0 <= i < makers.drop_first().len() implies crossable(
            (#[trigger] makers.drop_first()[i]).price,
            limit,
            taker_is_buy,
        ) by {
            assert(makers.drop_first()[i] == makers[i + 1]);
        }
        assert(all_positive(makers.drop_first())) by {
            assert forall|i: int| 0 <= i < makers.drop_first().len() implies (#[trigger] makers.drop_first()[i]).quantity > 0 by {
                assert(makers.drop_first()[i] == makers[i + 1]);
            }
        }
        lemma_cross_sweeps_all(makers.drop_first(), q2, limit, taker_is_buy);
        let rest = cross(makers.drop_first(), q2, limit, taker_is_buy);
        let f = Fill { id: m.id, quantity: m.quantity, price: m.price, done: true };
        assert(seq![f] + rest.fills =~= makers.map(fullf)) by {
            assert(rest.fills == makers.drop_first().map(fullf));
            assert forall|i: int| 0 <= i < makers.len() implies (seq![f] + rest.fills)[i]
                == makers.map(fullf)[i] by {
                if i > 0 {
                    assert(makers.drop_first().map(fullf)[i - 1] == fullf(i - 1, makers.drop_first()[i - 1]));
                    assert(makers.drop_first()[i - 1] == makers[i]);
                }
            }
        }
    }
}

/// Crossing never lengthens the maker side.
pub proof fn lemma_cross_makers_len(makers: Seq<OrderView>, qty: u64, limit: u64, taker_is_buy: bool)
    ensures
        cross(makers, qty, limit, taker_is_buy).makers.len() <= makers.len(),
    decreases makers.len(),
{
    if qty == 0 || makers.len() == 0 || !crossable(makers.first().price, limit, taker_is_buy) {
    } else {
        let m = makers.first();
        if qty >= m.quantity {
            lemma_cross_makers_len(makers.drop_first(), (qty - m.quantity) as u64, limit, taker_is_buy);
        }
    }
}

/// A newly resting order passes over any prefix whose priority is at
/// least as good as its own.
pub proof fn lemma_insert_resting_skip_prefix(
    a: Seq<OrderView>,
    b: Seq<OrderView>,
    o: OrderView,
    is_buy: bool,
)
    requires
        forall|i: int| 0 <= i < a.len() ==> rank_ge(#[trigger] a[i].price, o.price, is_buy),
    ensures
        insert_resting(a + b, o, is_buy) == a + insert_resting(b, o, is_buy),
    decreases a.len(),
{
    if a.len() == 0 {
        assert(a + b =~= b);
        assert(a + insert_resting(b, o, is_buy) =~= insert_resting(b, o, is_buy));
    } else {
        let ab = a + b;
        assert(ab.len() > 0);
        assert(ab.first() == a.first());
        assert(rank_ge(ab.first().price, o.price, is_buy));
        assert(ab.drop_first() =~= a.drop_first() + b);
        assert forall|i: int| 0 <= i < a.drop_first().len() implies rank_ge(
            (#[trigger] a.drop_first()[i]).price,
            o.price,
            is_buy,
        ) by {
            assert(a.drop_first()[i] == a[i + 1]);
        }
        lemma_insert_resting_skip_prefix(a.drop_first(), b, o, is_buy);
        assert(insert_resting(ab, o, is_buy) == seq![ab.first()] + insert_resting(
            ab.drop_first(),
            o,
            is_buy,
        ));
        assert(seq![a.first()] + (a.drop_first() + insert_resting(b, o, is_buy)) =~= a
            + insert_resting(b, o, is_buy));
    }
}

/// Total quantity distributes over concatenation.
proof fn lemma_total_qty_append(a: Seq<OrderView>, b: Seq<OrderView>)
    ensures
        total_qty(a + b) == total_qty(a) + total_qty(b),
    decreases a.len(),
{
    if a.len() == 0 {
        assert(a + b =~= b);
    } else {
        assert((a + b).first() == a.first());
        assert((a + b).drop_first() =~= a.drop_first() + b);
        lemma_total_qty_append(a.drop_first(), b);
    }
}

/// Resting an order adds exactly its quantity to the side.
pub proof fn lemma_insert_resting_total(s: Seq<OrderView>, o: OrderView, is_buy: bool)
    ensures
        total_qty(insert_resting(s, o, is_buy)) == total_qty(s) + o.quantity,
        insert_resting(s, o, is_buy).len() == s.len() + 1,
{
    lemma_insert_resting_at(s, o, is_buy);
    let k = insert_pos(s, o, is_buy);
    lemma_total_qty_append(s.take(k), seq![o] + s.skip(k));
    lemma_total_qty_append(seq![o], s.skip(k));
    lemma_total_qty_append(s.take(k), s.skip(k));
    assert(s.take(k) + s.skip(k) =~= s);
    assert(s.take(k) + seq![o] + s.skip(k) =~= s.take(k) + (seq![o] + s.skip(k)));
    assert(total_qty(seq![o]) == o.quantity + total_qty(seq![o].drop_first()));
    assert(seq![o].drop_first() =~= Seq::<OrderView>::empty());
}

/// Conservation, stated over one whole submission: the traded total
/// never exceeds what the taker submitted nor what was resting opposite,
/// the maker side loses exactly the traded total, and the taker side
/// gains exactly the unmatched remainder — so across any sequence of
/// submissions the fills never report more quantity than was submitted
/// on either side.
pub proof fn lemma_submit_conservation(
    takers: Seq<OrderView>,
    makers: Seq<OrderView>,
    o: OrderView,
    taker_is_buy: bool,
)
    ensures
        total_fill_qty(submit_fills(makers, o, taker_is_buy)) <= o.quantity,
        total_fill_qty(submit_fills(makers, o, taker_is_buy)) <= total_qty(makers),
        total_qty(makers_after(makers, o, taker_is_buy)) + total_fill_qty(
            submit_fills(makers, o, taker_is_buy),
        ) == total_qty(makers),
        total_qty(takers_after(takers, makers, o, taker_is_buy)) == total_qty(takers) + o.quantity
            - total_fill_qty(submit_fills(makers, o, taker_is_buy)),
{
    lemma_cross_conservation(makers, o.quantity, o.price, taker_is_buy);
    let r = cross(makers, o.quantity, o.price, taker_is_buy);
    if r.remaining > 0 {
        lemma_insert_resting_total(takers, OrderView { quantity: r.remaining, ..o }, taker_is_buy);
    }
}

/// Priority, stated over one whole submission: the fills walk the
/// opposite side best-first, so resting orders at an identical price
/// are matched in arrival order, the earliest first; each fill trades
/// at its maker's price, never more than the maker had resting, and is
/// marked done exactly when it consumed the maker.
pub proof fn lemma_submit_priority(makers: Seq<OrderView>, o: OrderView, taker_is_buy: bool)
    ensures
        ({
            let fills = submit_fills(makers, o, taker_is_buy);
            &&& fills.len() <= makers.len()
            &&& forall|i: int|
                0 <= i < fills.len() ==> {
                    &&& (#[trigger] fills[i]).id == makers[i].id
                    &&& fills[i].price == makers[i].price
                    &&& fills[i].quantity <= makers[i].quantity
                    &&& (fills[i].done <==> fills[i].quantity == makers[i].quantity)
                    &&& crossable(makers[i].price, o.price, taker_is_buy)
                }
        }),
{
    lemma_cross_priority(makers, o.quantity, o.price, taker_is_buy);
}

/// Completeness: a taker that crossed everything it could leaves no
/// residual when fully matched; a partially matched taker rests with
/// exactly its original quantity minus the traded total, at its
/// original limit price, and only once nothing crossable remains on the
/// opposite side.
pub proof fn lemma_submit_completeness(
    takers: Seq<OrderView>,
    makers: Seq<OrderView>,
    o: OrderView,
    taker_is_buy: bool,
)
    ensures
        ({
            let fills = submit_fills(makers, o, taker_is_buy);
            let rem = o.quantity - total_fill_qty(fills);
            &&& 0 <= rem <= o.quantity
            &&& (rem == 0 ==> takers_after(takers, makers, o, taker_is_buy) == takers)
            &&& (rem != 0 ==> ({
                let after = makers_after(makers, o, taker_is_buy);
                &&& (after.len() == 0 || !crossable(after.first().price, o.price, taker_is_buy))
                &&& takers_after(takers, makers, o, taker_is_buy) == insert_resting(
                    takers,
                    OrderView { quantity: rem as u64, ..o },
                    taker_is_buy,
                )
            }))
        }),
{
    lemma_cross_conservation(makers, o.quantity, o.price, taker_is_buy);
    lemma_cross_stops(makers, o.quantity, o.price, taker_is_buy);
    lemma_total_fill_qty_nonneg(submit_fills(makers, o, taker_is_buy));
}

/// One submission of a replayed stream: the order and its direction.
pub struct Submission {
    pub order: OrderView,
    pub taker_is_buy: bool,
}

/// A replayed book: the two sides and every fill produced so far.
pub struct ReplayResult {
    pub bids: Seq<OrderView>,
    pub asks: Seq<OrderView>,
    pub fills: Seq<Fill>,
}

/// Replays a sequence of submissions against an initially empty book.
pub open spec fn replay(subs: Seq<Submission>) -> ReplayResult
    decreases subs.len(),
{
    if subs.len() == 0 {
        ReplayResult { bids: Seq::empty(), asks: Seq::empty(), fills: Seq::empty() }
    } else {
        let prev = replay(subs.drop_last());
        let s = subs.last();
        if s.taker_is_buy {
            ReplayResult {
                bids: takers_after(prev.bids, prev.asks, s.order, true),
                asks: makers_after(prev.asks, s.order, true),
                fills: prev.fills + submit_fills(prev.asks, s.order, true),
            }
        } else {
            ReplayResult {
                bids: makers_after(prev.bids, s.order, false),
                asks: takers_after(prev.asks, prev.bids, s.order, false),
                fills: prev.fills + submit_fills(prev.bids, s.order, false),
            }
        }
    }
}

/// The total quantity submitted on one side of a stream.
pub open spec fn total_submitted(subs: Seq<Submission>, buys: bool) -> int
    decreases subs.len(),
{
    if subs.len() == 0 {
        0
    } else {
        total_submitted(subs.drop_last(), buys) + (if subs.last().taker_is_buy == buys {
            subs.last().order.quantity as int
        } else {
            0
        })
    }
}

/// Total traded quantity distributes over concatenation.
proof fn lemma_total_fill_qty_append(a: Seq<Fill>, b: Seq<Fill>)
    ensures
        total_fill_qty(a + b) == total_fill_qty(a) + total_fill_qty(b),
    decreases a.len(),
{
    if a.len() == 0 {
        assert(a + b =~= b);
    } else {
        assert((a + b).first() == a.first());
        assert((a + b).drop_first() =~= a.drop_first() + b);
        lemma_total_fill_qty_append(a.drop_first(), b);
    }
}

/// Conservation over any sequence of submissions: on each side, what
/// was submitted is exactly what has traded plus what still rests — so
/// the total traded quantity reported in fills never exceeds the total
/// quantity submitted on either side.
pub proof fn lemma_replay_conservation(subs: Seq<Submission>)
    ensures
        ({
            let r = replay(subs);
            &&& total_fill_qty(r.fills) + total_qty(r.bids) == total_submitted(subs, true)
            &&& total_fill_qty(r.fills) + total_qty(r.asks) == total_submitted(subs, false)
            &&& total_fill_qty(r.fills) <= total_submitted(subs, true)
            &&& total_fill_qty(r.fills) <= total_submitted(subs, false)
        }),
    decreases subs.len(),
{
    let r = replay(subs);
    if subs.len() == 0 {
        assert(total_fill_qty(r.fills) == 0);
        assert(total_qty(r.bids) == 0);
        assert(total_qty(r.asks) == 0);
    } else {
        lemma_replay_conservation(subs.drop_last());
        let prev = replay(subs.drop_last());
        let s = subs.last();
        if s.taker_is_buy {
            lemma_submit_conservation(prev.bids, prev.asks, s.order, true);
            lemma_total_fill_qty_append(prev.fills, submit_fills(prev.asks, s.order, true));
        } else {
            lemma_submit_conservation(prev.asks, prev.bids, s.order, false);
            lemma_total_fill_qty_append(prev.fills, submit_fills(prev.bids, s.order, false));
        }
        lemma_total_qty_nonneg(r.bids);
        lemma_total_qty_nonneg(r.asks);
    }
}

/// How many orders of a side carry an id is never negative, and an id
/// is contained exactly when the count is positive.
pub proof fn lemma_count_id_bounds(s: Seq<OrderView>, id: u64)
    ensures
        0 <= count_id(s, id) <= s.len(),
        contains_id(s, id) <==> count_id(s, id) > 0,
    decreases s.len(),
{
    if s.len() == 0 {
    } else {
        lemma_count_id_bounds(s.drop_first(), id);
        if contains_id(s, id) {
            let w = choose|i: int| 0 <= i < s.len() && s[i].id == id;
            if w > 0 {
                assert(s.drop_first()[w - 1] == s[w]);
                assert(contains_id(s.drop_first(), id));
            }
        }
        if count_id(s, id) > 0 {
            if s.first().id == id {
                assert(contains_id(s, id));
            } else {
                let w = choose|i: int|
                    0 <= i < s.drop_first().len() && s.drop_first()[i].id == id;
                assert(s[w + 1] == s.drop_first()[w]);
                assert(contains_id(s, id));
            }
        }
    }
}

/// Detaching one order lowers the count of its id by one and leaves
/// every other id's count alone.
pub proof fn lemma_count_id_remove(s: Seq<OrderView>, k: int, id: u64)
    requires
        0 <= k < s.len(),
    ensures
        count_id(s.remove(k), id) == count_id(s, id) - (if s[k].id == id {
            1int
        } else {
            0int
        }),
    decreases s.len(),
{
    if k == 0 {
        assert(s.remove(0) =~= s.drop_first());
    } else {
        assert(s.remove(k).first() == s.first());
        assert(s.remove(k).drop_first() =~= s.drop_first().remove(k - 1));
        assert(s.drop_first()[k - 1] == s[k]);
        lemma_count_id_remove(s.drop_first(), k - 1, id);
    }
}

/// Idempotent cancellation: when an id rests at most once across the two
/// sides, detaching its occurrence leaves a book in which the id no
/// longer occurs at all, so an immediately repeated cancellation of the
/// same id finds nothing.
pub proof fn lemma_remove_idempotent(bids: Seq<OrderView>, asks: Seq<OrderView>, id: u64)
    requires
        count_id(bids, id) + count_id(asks, id) <= 1,
    ensures
        contains_id(bids, id) ==> !contains_id(
            bids.remove(last_id_index(bids, id)),
            id,
        ) && !contains_id(asks, id),
        contains_id(asks, id) ==> !contains_id(
            asks.remove(last_id_index(asks, id)),
            id,
        ) && !contains_id(bids, id),
{
    lemma_count_id_bounds(bids, id);
    lemma_count_id_bounds(asks, id);
    lemma_last_id_index_props(bids, id);
    lemma_last_id_index_props(asks, id);
    if contains_id(bids, id) {
        let k = last_id_index(bids, id);
        lemma_count_id_remove(bids, k, id);
        lemma_count_id_bounds(bids.remove(k), id);
    }
    if contains_id(asks, id) {
        let k = last_id_index(asks, id);
        lemma_count_id_remove(asks, k, id);
        lemma_count_id_bounds(asks.remove(k), id);
    }
}

/// Detaching one resting order keeps the side sorted and its quantities
/// positive.
pub proof fn lemma_remove_keeps_wf(s: Seq<OrderView>, k: int, is_buy: bool)
    requires
        0 <= k < s.len(),
        sorted_best_first(s, is_buy),
    ensures
        sorted_best_first(s.remove(k), is_buy),
        all_positive(s) ==> all_positive(s.remove(k)),
{
    let r = s.remove(k);
    assert forall|i: int, j: int| 0 <= i <= j < r.len() implies rank_ge(r[i].price, r[j].price, is_buy) by {
        let i2: int = if i < k { i } else { i + 1 };
        let j2: int = if j < k { j } else { j + 1 };
        assert(r[i] == s[i2]);
        assert(r[j] == s[j2]);
    }
    if all_positive(s) {
        assert forall|i: int| 0 <= i < r.len() implies (#[trigger] r[i]).quantity > 0 by {
            let i2: int = if i < k { i } else { i + 1 };
            assert(r[i] == s[i2]);
        }
    }
}

/// Shrinking one resting order's quantity in place keeps the side sorted
/// — its price and position do not change — and, when the new quantity
/// is positive, keeps every quantity positive.
pub proof fn lemma_update_qty_keeps_wf(s: Seq<OrderView>, k: int, q: u64, is_buy: bool)
    requires
        0 <= k < s.len(),
        sorted_best_first(s, is_buy),
    ensures
        ({
            let r = s.update(k, OrderView { quantity: q, ..s[k] });
            &&& sorted_best_first(r, is_buy)
            &&& (all_positive(s) && q > 0 ==> all_positive(r))
        }),
{
    let r = s.update(k, OrderView { quantity: q, ..s[k] });
    assert forall|i: int, j: int| 0 <= i <= j < r.len() implies rank_ge(r[i].price, r[j].price, is_buy) by {
        assert(r[i].price == s[i].price);
        assert(r[j].price == s[j].price);
    }
    if all_positive(s) && q > 0 {
        assert forall|i: int| 0 <= i < r.len() implies (#[trigger] r[i]).quantity > 0 by {
            if i != k {
                assert(r[i] == s[i]);
            }
        }
    }
}

/// The position at which a newly resting order lands on a side: past
/// every order with priority at least as good as its own.
pub open spec fn insert_pos(s: Seq<OrderView>, o: OrderView, is_buy: bool) -> int
    decreases s.len(),
{
    if s.len() == 0 {
        0
    } else if rank_ge(s.first().price, o.price, is_buy) {
        1 + insert_pos(s.drop_first(), o, is_buy)
    } else {
        0
    }
}

/// `insert_resting` splices the new order in at `insert_pos`, displacing
/// nothing: everything of better or equal priority stays before it,
/// everything worse after it.
pub proof fn lemma_insert_resting_at(s: Seq<OrderView>, o: OrderView, is_buy: bool)
    ensures
        ({
            let k = insert_pos(s, o, is_buy);
            &&& 0 <= k <= s.len()
            &&& forall|i: int| 0 <= i < k ==> rank_ge(#[trigger] s[i].price, o.price, is_buy)
            &&& (k < s.len() ==> !rank_ge(s[k].price, o.price, is_buy))
            &&& insert_resting(s, o, is_buy) == s.take(k) + seq![o] + s.skip(k)
        }),
    decreases s.len(),
{
    let k = insert_pos(s, o, is_buy);
    let r = insert_resting(s, o, is_buy);
    if s.len() == 0 {
        assert(r =~= s.take(0) + seq![o] + s.skip(0));
    } else if rank_ge(s.first().price, o.price, is_buy) {
        lemma_insert_resting_at(s.drop_first(), o, is_buy);
        let k2 = insert_pos(s.drop_first(), o, is_buy);
        assert forall|i: int| 0 <= i < k implies rank_ge(#[trigger] s[i].price, o.price, is_buy) by {
            if i > 0 {
                assert(s.drop_first()[i - 1] == s[i]);
            }
        }
        if k < s.len() {
            assert(s.drop_first()[k2] == s[k]);
        }
        assert(r =~= s.take(k) + seq![o] + s.skip(k)) by {
            assert(r == seq![s.first()] + insert_resting(s.drop_first(), o, is_buy));
            assert(insert_resting(s.drop_first(), o, is_buy) == s.drop_first().take(k2) + seq![o]
                + s.drop_first().skip(k2));
            assert forall|i: int| 0 <= i < s.len() + 1 implies r[i] == (s.take(k) + seq![o] + s.skip(k))[i] by {
                if i > 0 {
                    assert(r[i] == (s.drop_first().take(k2) + seq![o] + s.drop_first().skip(k2))[i - 1]);
                }
            }
        }
    } else {
        assert(r =~= s.take(0) + seq![o] + s.skip(0));
    }
}

/// The resting position is the unique index with a better-or-equal
/// prefix and a strictly worse element at it (or the end of the side).
pub proof fn lemma_insert_pos_unique(s: Seq<OrderView>, o: OrderView, is_buy: bool, k: int)
    requires
        0 <= k <= s.len(),
        forall|i: int| 0 <= i < k ==> rank_ge(#[trigger] s[i].price, o.price, is_buy),
        k < s.len() ==> !rank_ge(s[k].price, o.price, is_buy),
    ensures
        insert_pos(s, o, is_buy) == k,
    decreases s.len(),
{
    if s.len() == 0 {
    } else if rank_ge(s.first().price, o.price, is_buy) {
        assert(k >= 1);
        assert forall|i: int| 0 <= i < k - 1 implies rank_ge(
            (#[trigger] s.drop_first()[i]).price,
            o.price,
            is_buy,
        ) by {
            assert(s.drop_first()[i] == s[i + 1]);
        }
        if k - 1 < s.drop_first().len() {
            assert(s.drop_first()[k - 1] == s[k]);
        }
        lemma_insert_pos_unique(s.drop_first(), o, is_buy, k - 1);
    } else {
        assert(k == 0);
    }
}

/// What cancelling by id finds: the bounds and meaning of
/// `last_id_index`, and that nothing past it carries the id.
pub proof fn lemma_last_id_index_props(s: Seq<OrderView>, id: u64)
    ensures
        -1 <= last_id_index(s, id) < s.len(),
        contains_id(s, id) <==> last_id_index(s, id) >= 0,
        last_id_index(s, id) >= 0 ==> s[last_id_index(s, id)].id == id,
        forall|j: int| last_id_index(s, id) < j < s.len() ==> s[j].id != id,
    decreases s.len(),
{
    if s.len() == 0 {
    } else if s.last().id == id {
        assert(contains_id(s, id));
    } else {
        lemma_last_id_index_props(s.drop_last(), id);
        let k = last_id_index(s.drop_last(), id);
        assert forall|j: int| k < j < s.len() implies s[j].id != id by {
            if j < s.len() - 1 {
                assert(s.drop_last()[j] == s[j]);
            }
        }
        if contains_id(s, id) {
            let w = choose|i: int| 0 <= i < s.len() && s[i].id == id;
            assert(w < s.len() - 1);
            assert(s.drop_last()[w] == s[w]);
            assert(contains_id(s.drop_last(), id));
        }
        if contains_id(s.drop_last(), id) {
            let w = choose|i: int| 0 <= i < s.drop_last().len() && s.drop_last()[i].id == id;
            assert(s.drop_last()[w] == s[w]);
            assert(contains_id(s, id));
        }
        if k >= 0 {
            assert(s.drop_last()[k] == s[k]);
        }
    }
}

/// Resting an order keeps the side sorted best-first and, when its
/// quantity is positive, keeps every resting quantity positive.
pub proof fn lemma_insert_resting_sorted(s: Seq<OrderView>, o: OrderView, is_buy: bool)
    requires
        sorted_best_first(s, is_buy),
    ensures
        sorted_best_first(insert_resting(s, o, is_buy), is_buy),
        insert_resting(s, o, is_buy).len() == s.len() + 1,
        all_positive(s) && o.quantity > 0 ==> all_positive(insert_resting(s, o, is_buy)),
{
    lemma_insert_resting_at(s, o, is_buy);
    let k = insert_pos(s, o, is_buy);
    let r = insert_resting(s, o, is_buy);
    assert forall|i: int, j: int| 0 <= i <= j < r.len() implies rank_ge(r[i].price, r[j].price, is_buy) by {
        if i < k && j == k {
            assert(r[i] == s[i]);
            assert(r[j] == o);
        } else if i == k && j > k {
            assert(r[i] == o);
            assert(r[j] == s[j - 1]);
            assert(!rank_ge(s[k].price, o.price, is_buy));
            assert(rank_ge(s[k].price, s[j - 1].price, is_buy));
        } else if i < k && j > k {
            assert(r[i] == s[i]);
            assert(r[j] == s[j - 1]);
        } else if j < k {
            assert(r[i] == s[i]);
            assert(r[j] == s[j]);
        } else if i > k {
            assert(r[i] == s[i - 1]);
            assert(r[j] == s[j - 1]);
        }
    }
    if all_positive(s) && o.quantity > 0 {
        assert forall|i: int| 0 <= i < r.len() implies (#[trigger] r[i]).quantity > 0 by {
            if i < k {
                assert(r[i] == s[i]);
            } else if i > k {
                assert(r[i] == s[i - 1]);
            }
        }
    }
}

} // verus!
