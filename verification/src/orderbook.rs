//! A book representation for a small, discrete price domain.
//!
//! Every representable price tick owns a queue of resting orders in
//! arrival order, one array of queues per side, so resting an order is a
//! plain append and the crossing sweep walks price levels directly. Two
//! cursor fields bound the occupied levels from the outside: no resting
//! bid sits above `bid` and no resting ask below `ask`, so a sweep never
//! scans the far side of the book. A map from order id to its side and
//! level makes cancellation a single level scan.

use std::collections::HashMap;

use vstd::prelude::*;

use crate::fill::Fill;
use crate::matching::all_positive;
use crate::matching::contains_id;
use crate::matching::cross;
use crate::matching::crossable;
use crate::matching::insert_resting;
use crate::matching::last_id_index;
use crate::matching::lemma_cross_makers_ids;
use crate::matching::lemma_cross_makers_len;
use crate::matching::lemma_insert_resting_at;
use crate::matching::lemma_insert_resting_skip_prefix;
use crate::matching::lemma_last_id_index_props;
use crate::matching::makers_after;
use crate::matching::rank_ge;
use crate::matching::sorted_best_first;
use crate::matching::submit_fills;
use crate::matching::takers_after;
use crate::order::OrderView;

verus! {

broadcast use vstd::std_specs::hash::group_hash_axioms;

/// Addresses a resting order for cancellation.
pub type OrderId = u64;

/// A traded or resting amount.
pub type Quantity = u64;

/// A price tick; the level arrays are indexed directly by price.
pub type Price = u16;

/// The highest representable price tick.
pub const MAX_PRICE: Price = 65535;

/// One resting order as a level queue holds it: its id and its
/// remaining quantity. The price is the level's index.
type LevelEntry = (u64, u64);

/// One resting order's location: its price level and its side.
#[derive(Clone, Copy)]
struct OrderInfo {
    price: u16,
    is_buy: bool,
}

/// The order views of one price level, in arrival order.
spec fn level_views(entries: Seq<LevelEntry>, price: u16) -> Seq<OrderView> {
    entries.map(|i: int, e: LevelEntry| OrderView { id: e.0, quantity: e.1, price: price as u64 })
}

/// The resting asks at levels `p` and above, best-first: the lowest
/// level first, each level in arrival order.
spec fn asks_flat(levels: Seq<Vec<LevelEntry>>, p: int) -> Seq<OrderView>
    decreases levels.len() - p,
{
    if p < 0 || p >= levels.len() {
        Seq::empty()
    } else {
        level_views(levels[p]@, p as u16) + asks_flat(levels, p + 1)
    }
}

/// The resting bids at levels `p` and below, best-first: the highest
/// level first, each level in arrival order.
spec fn bids_flat(levels: Seq<Vec<LevelEntry>>, p: int) -> Seq<OrderView>
    decreases p + 1,
{
    if p < 0 || p >= levels.len() {
        Seq::empty()
    } else {
        level_views(levels[p]@, p as u16) + bids_flat(levels, p - 1)
    }
}

/// The view of the order a submission describes.
pub open spec fn order_of(id: u64, quantity: u64, price: u16) -> OrderView {
    OrderView { id, quantity, price: price as u64 }
}

/// Flattening only reads the levels it covers: two level arrays that
/// agree from `p` upward flatten asks identically.
proof fn lemma_flat_agree_asks(levels1: Seq<Vec<LevelEntry>>, levels2: Seq<Vec<LevelEntry>>, p: int)
    requires
        levels1.len() == levels2.len(),
    ensures
        (forall|r: int| p <= r < levels1.len() ==> levels1[r]@ == levels2[r]@) ==> asks_flat(
            levels1,
            p,
        ) == asks_flat(levels2, p),
    decreases levels1.len() + 1 - p,
{
    if p < 0 || p >= levels1.len() {
    } else {
        lemma_flat_agree_asks(levels1, levels2, p + 1);
    }
}

/// The bid-side mirror of `lemma_flat_agree_asks`: agreement from `p`
/// downward.
proof fn lemma_flat_agree_bids(levels1: Seq<Vec<LevelEntry>>, levels2: Seq<Vec<LevelEntry>>, p: int)
    requires
        levels1.len() == levels2.len(),
    ensures
        (forall|r: int| 0 <= r <= p && r < levels1.len() ==> levels1[r]@ == levels2[r]@)
            ==> bids_flat(levels1, p) == bids_flat(levels2, p),
    decreases p + 1,
{
    if p < 0 || p >= levels1.len() {
    } else {
        lemma_flat_agree_bids(levels1, levels2, p - 1);
    }
}

/// Empty levels contribute nothing: the flattening from an empty level
/// equals the flattening from the next level inward.
proof fn lemma_asks_flat_skip_to(levels: Seq<Vec<LevelEntry>>, a: int, b: int)
    requires
        0 <= a <= b <= levels.len(),
        forall|r: int| a <= r < b ==> (#[trigger] levels[r]@).len() == 0,
    ensures
        asks_flat(levels, a) == asks_flat(levels, b),
    decreases b - a,
{
    if a < b {
        assert(level_views(levels[a]@, a as u16) =~= Seq::<OrderView>::empty());
        assert(level_views(levels[a]@, a as u16) + asks_flat(levels, a + 1) =~= asks_flat(
            levels,
            a + 1,
        ));
        lemma_asks_flat_skip_to(levels, a + 1, b);
    }
}

/// The bid-side mirror of `lemma_asks_flat_skip_to`: sweeping downward.
proof fn lemma_bids_flat_skip_to(levels: Seq<Vec<LevelEntry>>, a: int, b: int)
    requires
        -1 <= b <= a < levels.len(),
        forall|r: int| b < r <= a ==> (#[trigger] levels[r]@).len() == 0,
    ensures
        bids_flat(levels, a) == bids_flat(levels, b),
    decreases a - b,
{
    if b < a {
        assert(level_views(levels[a]@, a as u16) =~= Seq::<OrderView>::empty());
        assert(level_views(levels[a]@, a as u16) + bids_flat(levels, a - 1) =~= bids_flat(
            levels,
            a - 1,
        ));
        lemma_bids_flat_skip_to(levels, a - 1, b);
    }
}

/// Every flattened ask rests at or above its starting level.
proof fn lemma_asks_flat_price_range(levels: Seq<Vec<LevelEntry>>, p: int)
    requires
        levels.len() <= 65536,
    ensures
        forall|k: int| 0 <= k < asks_flat(levels, p).len() ==> (#[trigger] asks_flat(levels, p)[k]).price
            >= p,
    decreases levels.len() + 1 - p,
{
    if p < 0 || p >= levels.len() {
    } else {
        lemma_asks_flat_price_range(levels, p + 1);
        let lv = level_views(levels[p]@, p as u16);
        assert forall|k: int| 0 <= k < asks_flat(levels, p).len() implies (#[trigger] asks_flat(
            levels,
            p,
        )[k]).price >= p by {
            if k < lv.len() {
                assert(asks_flat(levels, p)[k] == lv[k]);
            } else {
                assert(asks_flat(levels, p)[k] == asks_flat(levels, p + 1)[k - lv.len()]);
            }
        }
    }
}

/// Every flattened bid rests at or below its starting level.
proof fn lemma_bids_flat_price_range(levels: Seq<Vec<LevelEntry>>, p: int)
    requires
        levels.len() <= 65536,
    ensures
        forall|k: int| 0 <= k < bids_flat(levels, p).len() ==> (#[trigger] bids_flat(levels, p)[k]).price
            <= p,
    decreases p + 1,
{
    if p < 0 || p >= levels.len() {
    } else {
        lemma_bids_flat_price_range(levels, p - 1);
        let lv = level_views(levels[p]@, p as u16);
        assert forall|k: int| 0 <= k < bids_flat(levels, p).len() implies (#[trigger] bids_flat(
            levels,
            p,
        )[k]).price <= p by {
            if k < lv.len() {
                assert(bids_flat(levels, p)[k] == lv[k]);
            } else {
                assert(bids_flat(levels, p)[k] == bids_flat(levels, p - 1)[k - lv.len()]);
            }
        }
    }
}

/// The head of a non-empty ask flattening started at its level.
proof fn lemma_asks_flat_head(levels: Seq<Vec<LevelEntry>>, p: int)
    requires
        0 <= p < levels.len(),
        levels[p]@.len() > 0,
    ensures
        asks_flat(levels, p).len() > 0,
        asks_flat(levels, p).first() == (OrderView {
            id: levels[p]@[0].0,
            quantity: levels[p]@[0].1,
            price: (p as u16) as u64,
        }),
{
    let lv = level_views(levels[p]@, p as u16);
    assert(asks_flat(levels, p)[0] == lv[0]);
}

/// The head of a non-empty bid flattening started at its level.
proof fn lemma_bids_flat_head(levels: Seq<Vec<LevelEntry>>, p: int)
    requires
        0 <= p < levels.len(),
        levels[p]@.len() > 0,
    ensures
        bids_flat(levels, p).len() > 0,
        bids_flat(levels, p).first() == (OrderView {
            id: levels[p]@[0].0,
            quantity: levels[p]@[0].1,
            price: (p as u16) as u64,
        }),
{
    let lv = level_views(levels[p]@, p as u16);
    assert(bids_flat(levels, p)[0] == lv[0]);
}

/// Consuming the head entry of level `p` drops the head of the ask
/// flattening started there.
proof fn lemma_asks_flat_pop(levels: Seq<Vec<LevelEntry>>, levels2: Seq<Vec<LevelEntry>>, p: int)
    requires
        levels2.len() == levels.len(),
        0 <= p < levels.len(),
        levels[p]@.len() > 0,
        levels2[p]@ == levels[p]@.drop_first(),
        forall|r: int| 0 <= r < levels.len() && r != p ==> levels2[r]@ == levels[r]@,
    ensures
        asks_flat(levels2, p) == asks_flat(levels, p).drop_first(),
{
    lemma_flat_agree_asks(levels, levels2, p + 1);
    let lv = level_views(levels[p]@, p as u16);
    let lv2 = level_views(levels2[p]@, p as u16);
    assert(lv2 =~= lv.drop_first());
    assert(lv.drop_first() + asks_flat(levels, p + 1) =~= (lv + asks_flat(
        levels,
        p + 1,
    )).drop_first());
}

/// Consuming the head entry of level `p` drops the head of the bid
/// flattening started there.
proof fn lemma_bids_flat_pop(levels: Seq<Vec<LevelEntry>>, levels2: Seq<Vec<LevelEntry>>, p: int)
    requires
        levels2.len() == levels.len(),
        0 <= p < levels.len(),
        levels[p]@.len() > 0,
        levels2[p]@ == levels[p]@.drop_first(),
        forall|r: int| 0 <= r < levels.len() && r != p ==> levels2[r]@ == levels[r]@,
    ensures
        bids_flat(levels2, p) == bids_flat(levels, p).drop_first(),
{
    lemma_flat_agree_bids(levels, levels2, p - 1);
    let lv = level_views(levels[p]@, p as u16);
    let lv2 = level_views(levels2[p]@, p as u16);
    assert(lv2 =~= lv.drop_first());
    assert(lv.drop_first() + bids_flat(levels, p - 1) =~= (lv + bids_flat(
        levels,
        p - 1,
    )).drop_first());
}

/// Shrinking the head entry of level `p` updates the head of the ask
/// flattening started there.
proof fn lemma_asks_flat_update(
    levels: Seq<Vec<LevelEntry>>,
    levels2: Seq<Vec<LevelEntry>>,
    p: int,
    e: LevelEntry,
)
    requires
        levels2.len() == levels.len(),
        0 <= p < levels.len(),
        levels[p]@.len() > 0,
        levels2[p]@ == levels[p]@.update(0, e),
        forall|r: int| 0 <= r < levels.len() && r != p ==> levels2[r]@ == levels[r]@,
    ensures
        asks_flat(levels2, p) == asks_flat(levels, p).update(
            0,
            OrderView { id: e.0, quantity: e.1, price: (p as u16) as u64 },
        ),
{
    lemma_flat_agree_asks(levels, levels2, p + 1);
    let o = OrderView { id: e.0, quantity: e.1, price: (p as u16) as u64 };
    let lv = level_views(levels[p]@, p as u16);
    let lv2 = level_views(levels2[p]@, p as u16);
    assert(lv2 =~= lv.update(0, o));
    assert(lv.update(0, o) + asks_flat(levels, p + 1) =~= (lv + asks_flat(levels, p + 1)).update(
        0,
        o,
    ));
}

/// Shrinking the head entry of level `p` updates the head of the bid
/// flattening started there.
proof fn lemma_bids_flat_update(
    levels: Seq<Vec<LevelEntry>>,
    levels2: Seq<Vec<LevelEntry>>,
    p: int,
    e: LevelEntry,
)
    requires
        levels2.len() == levels.len(),
        0 <= p < levels.len(),
        levels[p]@.len() > 0,
        levels2[p]@ == levels[p]@.update(0, e),
        forall|r: int| 0 <= r < levels.len() && r != p ==> levels2[r]@ == levels[r]@,
    ensures
        bids_flat(levels2, p) == bids_flat(levels, p).update(
            0,
            OrderView { id: e.0, quantity: e.1, price: (p as u16) as u64 },
        ),
{
    lemma_flat_agree_bids(levels, levels2, p - 1);
    let o = OrderView { id: e.0, quantity: e.1, price: (p as u16) as u64 };
    let lv = level_views(levels[p]@, p as u16);
    let lv2 = level_views(levels2[p]@, p as u16);
    assert(lv2 =~= lv.update(0, o));
    assert(lv.update(0, o) + bids_flat(levels, p - 1) =~= (lv + bids_flat(levels, p - 1)).update(
        0,
        o,
    ));
}

/// Appending a new entry to ask level `p` rests it exactly where the
/// model's insertion rule puts it: after every ask at a lower or equal
/// price, before every ask at a higher one.
proof fn lemma_asks_flat_insert(
    levels: Seq<Vec<LevelEntry>>,
    levels2: Seq<Vec<LevelEntry>>,
    p: int,
    e: LevelEntry,
    q: int,
)
    requires
        levels2.len() == levels.len(),
        levels.len() <= 65536,
        0 <= q <= p < levels.len(),
        levels2[p]@ == levels[p]@.push(e),
        forall|r: int| 0 <= r < levels.len() && r != p ==> levels2[r]@ == levels[r]@,
    ensures
        asks_flat(levels2, q) == insert_resting(asks_flat(levels, q), order_of(e.0, e.1, p as u16), false),
    decreases p - q,
{
    let o = order_of(e.0, e.1, p as u16);
    if q == p {
        lemma_flat_agree_asks(levels, levels2, p + 1);
        let lv = level_views(levels[p]@, p as u16);
        let lv2 = level_views(levels2[p]@, p as u16);
        let rest = asks_flat(levels, p + 1);
        assert(lv2 =~= lv.push(o));
        assert forall|i: int| 0 <= i < lv.len() implies rank_ge(
            (#[trigger] lv[i]).price,
            o.price,
            false,
        ) by {
            assert(lv[i].price == (p as u16) as u64);
        }
        lemma_insert_resting_skip_prefix(lv, rest, o, false);
        lemma_asks_flat_price_range(levels, p + 1);
        if rest.len() > 0 {
            assert(rest.first().price >= p + 1);
            assert(!rank_ge(rest.first().price, o.price, false));
            assert(insert_resting(rest, o, false) == seq![o] + rest);
        } else {
            assert(insert_resting(rest, o, false) == seq![o]);
            assert(seq![o] =~= seq![o] + rest);
        }
        assert(lv.push(o) + rest =~= lv + (seq![o] + rest));
    } else {
        lemma_asks_flat_insert(levels, levels2, p, e, q + 1);
        assert(levels2[q]@ == levels[q]@);
        let lv = level_views(levels[q]@, q as u16);
        assert(level_views(levels2[q]@, q as u16) == lv);
        assert forall|i: int| 0 <= i < lv.len() implies rank_ge(
            (#[trigger] lv[i]).price,
            o.price,
            false,
        ) by {
            assert(lv[i].price == (q as u16) as u64);
        }
        lemma_insert_resting_skip_prefix(lv, asks_flat(levels, q + 1), o, false);
    }
}

/// Appending a new entry to bid level `p` rests it exactly where the
/// model's insertion rule puts it: after every bid at a higher or equal
/// price, before every bid at a lower one.
proof fn lemma_bids_flat_insert(
    levels: Seq<Vec<LevelEntry>>,
    levels2: Seq<Vec<LevelEntry>>,
    p: int,
    e: LevelEntry,
    q: int,
)
    requires
        levels2.len() == levels.len(),
        levels.len() <= 65536,
        0 <= p <= q < levels.len(),
        levels2[p]@ == levels[p]@.push(e),
        forall|r: int| 0 <= r < levels.len() && r != p ==> levels2[r]@ == levels[r]@,
    ensures
        bids_flat(levels2, q) == insert_resting(bids_flat(levels, q), order_of(e.0, e.1, p as u16), true),
    decreases q - p,
{
    let o = order_of(e.0, e.1, p as u16);
    if q == p {
        lemma_flat_agree_bids(levels, levels2, p - 1);
        let lv = level_views(levels[p]@, p as u16);
        let lv2 = level_views(levels2[p]@, p as u16);
        let rest = bids_flat(levels, p - 1);
        assert(lv2 =~= lv.push(o));
        assert forall|i: int| 0 <= i < lv.len() implies rank_ge(
            (#[trigger] lv[i]).price,
            o.price,
            true,
        ) by {
            assert(lv[i].price == (p as u16) as u64);
        }
        lemma_insert_resting_skip_prefix(lv, rest, o, true);
        lemma_bids_flat_price_range(levels, p - 1);
        if rest.len() > 0 {
            assert(rest.first().price <= p - 1);
            assert(!rank_ge(rest.first().price, o.price, true));
            assert(insert_resting(rest, o, true) == seq![o] + rest);
        } else {
            assert(insert_resting(rest, o, true) == seq![o]);
            assert(seq![o] =~= seq![o] + rest);
        }
        assert(lv.push(o) + rest =~= lv + (seq![o] + rest));
    } else {
        lemma_bids_flat_insert(levels, levels2, p, e, q - 1);
        assert(levels2[q]@ == levels[q]@);
        let lv = level_views(levels[q]@, q as u16);
        assert(level_views(levels2[q]@, q as u16) == lv);
        assert forall|i: int| 0 <= i < lv.len() implies rank_ge(
            (#[trigger] lv[i]).price,
            o.price,
            true,
        ) by {
            assert(lv[i].price == (q as u16) as u64);
        }
        lemma_insert_resting_skip_prefix(lv, bids_flat(levels, q - 1), o, true);
    }
}

/// Every entry of a covered ask level appears in the flattening.
proof fn lemma_asks_flat_covers(levels: Seq<Vec<LevelEntry>>, q: int, p: int, i: int)
    requires
        0 <= q <= p < levels.len(),
        0 <= i < levels[p]@.len(),
    ensures
        exists|k: int|
            0 <= k < asks_flat(levels, q).len() && (#[trigger] asks_flat(levels, q)[k])
                == level_views(levels[p]@, p as u16)[i],
    decreases p - q,
{
    let lv = level_views(levels[q]@, q as u16);
    if q == p {
        assert(asks_flat(levels, q)[i] == lv[i]);
    } else {
        lemma_asks_flat_covers(levels, q + 1, p, i);
        let k2 = choose|k: int|
            0 <= k < asks_flat(levels, q + 1).len() && (#[trigger] asks_flat(levels, q + 1)[k])
                == level_views(levels[p]@, p as u16)[i];
        assert(asks_flat(levels, q)[lv.len() + k2] == asks_flat(levels, q + 1)[k2]);
    }
}

/// Every entry of a covered bid level appears in the flattening.
proof fn lemma_bids_flat_covers(levels: Seq<Vec<LevelEntry>>, q: int, p: int, i: int)
    requires
        0 <= p <= q < levels.len(),
        0 <= i < levels[p]@.len(),
    ensures
        exists|k: int|
            0 <= k < bids_flat(levels, q).len() && (#[trigger] bids_flat(levels, q)[k])
                == level_views(levels[p]@, p as u16)[i],
    decreases q - p,
{
    let lv = level_views(levels[q]@, q as u16);
    if q == p {
        assert(bids_flat(levels, q)[i] == lv[i]);
    } else {
        lemma_bids_flat_covers(levels, q - 1, p, i);
        let k2 = choose|k: int|
            0 <= k < bids_flat(levels, q - 1).len() && (#[trigger] bids_flat(levels, q - 1)[k])
                == level_views(levels[p]@, p as u16)[i];
        assert(bids_flat(levels, q)[lv.len() + k2] == bids_flat(levels, q - 1)[k2]);
    }
}

/// A covered ask level never outgrows the flattening.
proof fn lemma_asks_flat_level_len(levels: Seq<Vec<LevelEntry>>, q: int, p: int)
    requires
        0 <= q <= p < levels.len(),
    ensures
        asks_flat(levels, q).len() >= levels[p]@.len(),
    decreases p - q,
{
    if q < p {
        lemma_asks_flat_level_len(levels, q + 1, p);
    }
}

/// A covered bid level never outgrows the flattening.
proof fn lemma_bids_flat_level_len(levels: Seq<Vec<LevelEntry>>, q: int, p: int)
    requires
        0 <= p <= q < levels.len(),
    ensures
        bids_flat(levels, q).len() >= levels[p]@.len(),
    decreases q - p,
{
    if q > p {
        lemma_bids_flat_level_len(levels, q - 1, p);
    }
}

/// When every ask entry is registered in the order map with its level
/// and side, so is every element of the flattening.
proof fn lemma_asks_flat_registered(
    levels: Seq<Vec<LevelEntry>>,
    omap: Map<u64, OrderInfo>,
    q: int,
)
    requires
        levels.len() <= 65536,
        0 <= q,
        forall|p: int, i: int|
            0 <= p < levels.len() && 0 <= i < (#[trigger] levels[p]@).len() ==> {
                let e = #[trigger] levels[p]@[i];
                &&& omap.contains_key(e.0)
                &&& omap[e.0].price as int == p
                &&& omap[e.0].is_buy == false
            },
    ensures
        forall|k: int|
            0 <= k < asks_flat(levels, q).len() ==> {
                let v = #[trigger] asks_flat(levels, q)[k];
                &&& omap.contains_key(v.id)
                &&& omap[v.id].price as int == v.price as int
                &&& omap[v.id].is_buy == false
            },
    decreases levels.len() + 1 - q,
{
    if q >= levels.len() {
    } else {
        lemma_asks_flat_registered(levels, omap, q + 1);
        let lv = level_views(levels[q]@, q as u16);
        assert forall|k: int| 0 <= k < asks_flat(levels, q).len() implies {
            let v = #[trigger] asks_flat(levels, q)[k];
            &&& omap.contains_key(v.id)
            &&& omap[v.id].price as int == v.price as int
            &&& omap[v.id].is_buy == false
        } by {
            if k < lv.len() {
                assert(asks_flat(levels, q)[k] == lv[k]);
                assert(lv[k].id == levels[q]@[k].0);
            } else {
                assert(asks_flat(levels, q)[k] == asks_flat(levels, q + 1)[k - lv.len()]);
            }
        }
    }
}

/// When every bid entry is registered in the order map with its level
/// and side, so is every element of the flattening.
proof fn lemma_bids_flat_registered(
    levels: Seq<Vec<LevelEntry>>,
    omap: Map<u64, OrderInfo>,
    q: int,
)
    requires
        levels.len() <= 65536,
        q < levels.len(),
        forall|p: int, i: int|
            0 <= p < levels.len() && 0 <= i < (#[trigger] levels[p]@).len() ==> {
                let e = #[trigger] levels[p]@[i];
                &&& omap.contains_key(e.0)
                &&& omap[e.0].price as int == p
                &&& omap[e.0].is_buy == true
            },
    ensures
        forall|k: int|
            0 <= k < bids_flat(levels, q).len() ==> {
                let v = #[trigger] bids_flat(levels, q)[k];
                &&& omap.contains_key(v.id)
                &&& omap[v.id].price as int == v.price as int
                &&& omap[v.id].is_buy == true
            },
    decreases q + 1,
{
    if q < 0 {
    } else {
        lemma_bids_flat_registered(levels, omap, q - 1);
        let lv = level_views(levels[q]@, q as u16);
        assert forall|k: int| 0 <= k < bids_flat(levels, q).len() implies {
            let v = #[trigger] bids_flat(levels, q)[k];
            &&& omap.contains_key(v.id)
            &&& omap[v.id].price as int == v.price as int
            &&& omap[v.id].is_buy == true
        } by {
            if k < lv.len() {
                assert(bids_flat(levels, q)[k] == lv[k]);
                assert(lv[k].id == levels[q]@[k].0);
            } else {
                assert(bids_flat(levels, q)[k] == bids_flat(levels, q - 1)[k - lv.len()]);
            }
        }
    }
}

/// With registration and per-level distinctness, no two flattened asks
/// share an id.
proof fn lemma_asks_flat_distinct(
    levels: Seq<Vec<LevelEntry>>,
    omap: Map<u64, OrderInfo>,
    q: int,
)
    requires
        levels.len() <= 65536,
        0 <= q,
        forall|p: int, i: int|
            0 <= p < levels.len() && 0 <= i < (#[trigger] levels[p]@).len() ==> {
                let e = #[trigger] levels[p]@[i];
                &&& omap.contains_key(e.0)
                &&& omap[e.0].price as int == p
                &&& omap[e.0].is_buy == false
            },
        forall|p: int, i: int, j: int|
            #![trigger levels[p]@[i], levels[p]@[j]]
            0 <= p < levels.len() && 0 <= i < j < levels[p]@.len() ==> levels[p]@[i].0
                != levels[p]@[j].0,
    ensures
        forall|k1: int, k2: int|
            #![trigger asks_flat(levels, q)[k1], asks_flat(levels, q)[k2]]
            0 <= k1 < k2 < asks_flat(levels, q).len() ==> asks_flat(levels, q)[k1].id != asks_flat(
                levels,
                q,
            )[k2].id,
    decreases levels.len() + 1 - q,
{
    if q >= levels.len() {
    } else {
        lemma_asks_flat_distinct(levels, omap, q + 1);
        lemma_asks_flat_registered(levels, omap, q + 1);
        lemma_asks_flat_price_range(levels, q + 1);
        let lv = level_views(levels[q]@, q as u16);
        let rest = asks_flat(levels, q + 1);
        assert forall|k1: int, k2: int|
            0 <= k1 < k2 < asks_flat(levels, q).len() implies (#[trigger] asks_flat(levels, q)[k1]).id
            != (#[trigger] asks_flat(levels, q)[k2]).id by {
            if k2 < lv.len() {
                assert(asks_flat(levels, q)[k1] == lv[k1]);
                assert(asks_flat(levels, q)[k2] == lv[k2]);
                assert(levels[q]@[k1].0 != levels[q]@[k2].0);
            } else if k1 >= lv.len() {
                assert(asks_flat(levels, q)[k1] == rest[k1 - lv.len()]);
                assert(asks_flat(levels, q)[k2] == rest[k2 - lv.len()]);
            } else {
                let a = lv[k1];
                let b = rest[k2 - lv.len()];
                assert(asks_flat(levels, q)[k1] == a);
                assert(asks_flat(levels, q)[k2] == b);
                assert(a.id == levels[q]@[k1].0);
                assert(omap[a.id].price as int == q);
                assert(b.price >= q + 1);
                if a.id == b.id {
                    assert(omap[b.id].price as int == b.price as int);
                    assert(false);
                }
            }
        }
    }
}

/// With registration and per-level distinctness, no two flattened bids
/// share an id.
proof fn lemma_bids_flat_distinct(
    levels: Seq<Vec<LevelEntry>>,
    omap: Map<u64, OrderInfo>,
    q: int,
)
    requires
        levels.len() <= 65536,
        q < levels.len(),
        forall|p: int, i: int|
            0 <= p < levels.len() && 0 <= i < (#[trigger] levels[p]@).len() ==> {
                let e = #[trigger] levels[p]@[i];
                &&& omap.contains_key(e.0)
                &&& omap[e.0].price as int == p
                &&& omap[e.0].is_buy == true
            },
        forall|p: int, i: int, j: int|
            #![trigger levels[p]@[i], levels[p]@[j]]
            0 <= p < levels.len() && 0 <= i < j < levels[p]@.len() ==> levels[p]@[i].0
                != levels[p]@[j].0,
    ensures
        forall|k1: int, k2: int|
            #![trigger bids_flat(levels, q)[k1], bids_flat(levels, q)[k2]]
            0 <= k1 < k2 < bids_flat(levels, q).len() ==> bids_flat(levels, q)[k1].id != bids_flat(
                levels,
                q,
            )[k2].id,
    decreases q + 1,
{
    if q < 0 {
    } else {
        lemma_bids_flat_distinct(levels, omap, q - 1);
        lemma_bids_flat_registered(levels, omap, q - 1);
        lemma_bids_flat_price_range(levels, q - 1);
        let lv = level_views(levels[q]@, q as u16);
        let rest = bids_flat(levels, q - 1);
        assert forall|k1: int, k2: int|
            0 <= k1 < k2 < bids_flat(levels, q).len() implies (#[trigger] bids_flat(levels, q)[k1]).id
            != (#[trigger] bids_flat(levels, q)[k2]).id by {
            if k2 < lv.len() {
                assert(bids_flat(levels, q)[k1] == lv[k1]);
                assert(bids_flat(levels, q)[k2] == lv[k2]);
                assert(levels[q]@[k1].0 != levels[q]@[k2].0);
            } else if k1 >= lv.len() {
                assert(bids_flat(levels, q)[k1] == rest[k1 - lv.len()]);
                assert(bids_flat(levels, q)[k2] == rest[k2 - lv.len()]);
            } else {
                let a = lv[k1];
                let b = rest[k2 - lv.len()];
                assert(bids_flat(levels, q)[k1] == a);
                assert(bids_flat(levels, q)[k2] == b);
                assert(a.id == levels[q]@[k1].0);
                assert(omap[a.id].price as int == q);
                assert(b.price <= q - 1);
                if a.id == b.id {
                    assert(omap[b.id].price as int == b.price as int);
                    assert(false);
                }
            }
        }
    }
}

/// Removing entry `j` of ask level `p` removes exactly that order from
/// the flattening, at some position.
proof fn lemma_asks_flat_remove(
    levels: Seq<Vec<LevelEntry>>,
    levels2: Seq<Vec<LevelEntry>>,
    p: int,
    j: int,
    q: int,
)
    requires
        levels2.len() == levels.len(),
        0 <= q <= p < levels.len(),
        0 <= j < levels[p]@.len(),
        levels2[p]@ == levels[p]@.remove(j),
        forall|r: int| 0 <= r < levels.len() && r != p ==> levels2[r]@ == levels[r]@,
    ensures
        exists|k: int|
            0 <= k < asks_flat(levels, q).len() && (#[trigger] asks_flat(levels, q)[k])
                == level_views(levels[p]@, p as u16)[j] && asks_flat(levels2, q) == asks_flat(
                levels,
                q,
            ).remove(k),
    decreases p - q,
{
    let target = level_views(levels[p]@, p as u16)[j];
    if q == p {
        lemma_flat_agree_asks(levels, levels2, p + 1);
        let lv = level_views(levels[p]@, p as u16);
        let lv2 = level_views(levels2[p]@, p as u16);
        let rest = asks_flat(levels, p + 1);
        assert(lv2 =~= lv.remove(j));
        assert(asks_flat(levels, q)[j] == lv[j]);
        assert(lv.remove(j) + rest =~= (lv + rest).remove(j));
        assert(asks_flat(levels2, q) == asks_flat(levels, q).remove(j));
    } else {
        lemma_asks_flat_remove(levels, levels2, p, j, q + 1);
        let k2 = choose|k: int|
            0 <= k < asks_flat(levels, q + 1).len() && (#[trigger] asks_flat(levels, q + 1)[k])
                == target && asks_flat(levels2, q + 1) == asks_flat(levels, q + 1).remove(k);
        assert(levels2[q]@ == levels[q]@);
        let lv = level_views(levels[q]@, q as u16);
        assert(level_views(levels2[q]@, q as u16) == lv);
        let k = lv.len() + k2;
        assert(asks_flat(levels, q)[k] == asks_flat(levels, q + 1)[k2]);
        assert(lv + asks_flat(levels, q + 1).remove(k2) =~= (lv + asks_flat(levels, q + 1)).remove(
            k,
        ));
        assert(asks_flat(levels2, q) == asks_flat(levels, q).remove(k));
    }
}

/// Removing entry `j` of bid level `p` removes exactly that order from
/// the flattening, at some position.
proof fn lemma_bids_flat_remove(
    levels: Seq<Vec<LevelEntry>>,
    levels2: Seq<Vec<LevelEntry>>,
    p: int,
    j: int,
    q: int,
)
    requires
        levels2.len() == levels.len(),
        0 <= p <= q < levels.len(),
        0 <= j < levels[p]@.len(),
        levels2[p]@ == levels[p]@.remove(j),
        forall|r: int| 0 <= r < levels.len() && r != p ==> levels2[r]@ == levels[r]@,
    ensures
        exists|k: int|
            0 <= k < bids_flat(levels, q).len() && (#[trigger] bids_flat(levels, q)[k])
                == level_views(levels[p]@, p as u16)[j] && bids_flat(levels2, q) == bids_flat(
                levels,
                q,
            ).remove(k),
    decreases q - p,
{
    let target = level_views(levels[p]@, p as u16)[j];
    if q == p {
        lemma_flat_agree_bids(levels, levels2, p - 1);
        let lv = level_views(levels[p]@, p as u16);
        let lv2 = level_views(levels2[p]@, p as u16);
        let rest = bids_flat(levels, p - 1);
        assert(lv2 =~= lv.remove(j));
        assert(bids_flat(levels, q)[j] == lv[j]);
        assert(lv.remove(j) + rest =~= (lv + rest).remove(j));
        assert(bids_flat(levels2, q) == bids_flat(levels, q).remove(j));
    } else {
        lemma_bids_flat_remove(levels, levels2, p, j, q - 1);
        let k2 = choose|k: int|
            0 <= k < bids_flat(levels, q - 1).len() && (#[trigger] bids_flat(levels, q - 1)[k])
                == target && bids_flat(levels2, q - 1) == bids_flat(levels, q - 1).remove(k);
        assert(levels2[q]@ == levels[q]@);
        let lv = level_views(levels[q]@, q as u16);
        assert(level_views(levels2[q]@, q as u16) == lv);
        let k = lv.len() + k2;
        assert(bids_flat(levels, q)[k] == bids_flat(levels, q - 1)[k2]);
        assert(lv + bids_flat(levels, q - 1).remove(k2) =~= (lv + bids_flat(levels, q - 1)).remove(
            k,
        ));
        assert(bids_flat(levels2, q) == bids_flat(levels, q).remove(k));
    }
}

/// Flattened asks are sorted best-first: the level index only grows
/// along the flattening, and the level index is the price.
proof fn lemma_asks_flat_sorted(levels: Seq<Vec<LevelEntry>>, p: int)
    requires
        levels.len() <= 65536,
    ensures
        sorted_best_first(asks_flat(levels, p), false),
    decreases levels.len() + 1 - p,
{
    if p < 0 || p >= levels.len() {
    } else {
        lemma_asks_flat_sorted(levels, p + 1);
        lemma_asks_flat_price_range(levels, p + 1);
        let lv = level_views(levels[p]@, p as u16);
        let whole = asks_flat(levels, p);
        assert forall|i: int, j: int| 0 <= i <= j < whole.len() implies rank_ge(
            whole[i].price,
            whole[j].price,
            false,
        ) by {
            if i < lv.len() {
                assert(whole[i] == lv[i]);
            } else {
                assert(whole[i] == asks_flat(levels, p + 1)[i - lv.len()]);
            }
            if j < lv.len() {
                assert(whole[j] == lv[j]);
            } else {
                assert(whole[j] == asks_flat(levels, p + 1)[j - lv.len()]);
            }
        }
    }
}

/// Flattened bids are sorted best-first: the level index only shrinks
/// along the flattening, and the level index is the price.
proof fn lemma_bids_flat_sorted(levels: Seq<Vec<LevelEntry>>, p: int)
    requires
        levels.len() <= 65536,
    ensures
        sorted_best_first(bids_flat(levels, p), true),
    decreases p + 1,
{
    if p < 0 || p >= levels.len() {
    } else {
        lemma_bids_flat_sorted(levels, p - 1);
        lemma_bids_flat_price_range(levels, p - 1);
        let lv = level_views(levels[p]@, p as u16);
        let whole = bids_flat(levels, p);
        assert forall|i: int, j: int| 0 <= i <= j < whole.len() implies rank_ge(
            whole[i].price,
            whole[j].price,
            true,
        ) by {
            if i < lv.len() {
                assert(whole[i] == lv[i]);
            } else {
                assert(whole[i] == bids_flat(levels, p - 1)[i - lv.len()]);
            }
            if j < lv.len() {
                assert(whole[j] == lv[j]);
            } else {
                assert(whole[j] == bids_flat(levels, p - 1)[j - lv.len()]);
            }
        }
    }
}

/// Every queued quantity is positive, so every flattened ask is.
proof fn lemma_asks_flat_positive(levels: Seq<Vec<LevelEntry>>, q: int)
    requires
        forall|p: int, i: int|
            0 <= p < levels.len() && 0 <= i < (#[trigger] levels[p]@).len() ==> (
            #[trigger] levels[p]@[i]).1 > 0,
    ensures
        all_positive(asks_flat(levels, q)),
    decreases levels.len() + 1 - q,
{
    if q < 0 || q >= levels.len() {
    } else {
        lemma_asks_flat_positive(levels, q + 1);
        let lv = level_views(levels[q]@, q as u16);
        assert forall|k: int| 0 <= k < asks_flat(levels, q).len() implies (#[trigger] asks_flat(
            levels,
            q,
        )[k]).quantity > 0 by {
            if k < lv.len() {
                assert(asks_flat(levels, q)[k] == lv[k]);
                assert(lv[k].quantity == levels[q]@[k].1);
            } else {
                assert(asks_flat(levels, q)[k] == asks_flat(levels, q + 1)[k - lv.len()]);
            }
        }
    }
}

/// Every queued quantity is positive, so every flattened bid is.
proof fn lemma_bids_flat_positive(levels: Seq<Vec<LevelEntry>>, q: int)
    requires
        forall|p: int, i: int|
            0 <= p < levels.len() && 0 <= i < (#[trigger] levels[p]@).len() ==> (
            #[trigger] levels[p]@[i]).1 > 0,
    ensures
        all_positive(bids_flat(levels, q)),
    decreases q + 1,
{
    if q < 0 || q >= levels.len() {
    } else {
        lemma_bids_flat_positive(levels, q - 1);
        let lv = level_views(levels[q]@, q as u16);
        assert forall|k: int| 0 <= k < bids_flat(levels, q).len() implies (#[trigger] bids_flat(
            levels,
            q,
        )[k]).quantity > 0 by {
            if k < lv.len() {
                assert(bids_flat(levels, q)[k] == lv[k]);
                assert(lv[k].quantity == levels[q]@[k].1);
            } else {
                assert(bids_flat(levels, q)[k] == bids_flat(levels, q - 1)[k - lv.len()]);
            }
        }
    }
}

/// Appends an arriving order to the back of a level queue.
fn level_push(levels: &mut Vec<Vec<LevelEntry>>, p: usize, e: LevelEntry)
    requires
        p < old(levels)@.len(),
    ensures
        final(levels)@.len() == old(levels)@.len(),
        final(levels)@[p as int]@ == old(levels)@[p as int]@.push(e),
        forall|r: int| 0 <= r < old(levels)@.len() && r != p ==> final(levels)@[r] == old(
            levels,
        )@[r],
{
    let lvl = &mut levels[p];
    lvl.push(e);
}

/// Drops the front (earliest-arrived) entry of a level queue.
fn level_pop_front(levels: &mut Vec<Vec<LevelEntry>>, p: usize)
    requires
        p < old(levels)@.len(),
        old(levels)@[p as int]@.len() > 0,
    ensures
        final(levels)@.len() == old(levels)@.len(),
        final(levels)@[p as int]@ == old(levels)@[p as int]@.drop_first(),
        forall|r: int| 0 <= r < old(levels)@.len() && r != p ==> final(levels)@[r] == old(
            levels,
        )@[r],
{
    let lvl = &mut levels[p];
    let _ = lvl.remove(0);
    proof {
        assert(levels@[p as int]@ =~= old(levels)@[p as int]@.drop_first());
    }
}

/// Replaces the front entry of a level queue.
fn level_set_front(levels: &mut Vec<Vec<LevelEntry>>, p: usize, e: LevelEntry)
    requires
        p < old(levels)@.len(),
        old(levels)@[p as int]@.len() > 0,
    ensures
        final(levels)@.len() == old(levels)@.len(),
        final(levels)@[p as int]@ == old(levels)@[p as int]@.update(0, e),
        forall|r: int| 0 <= r < old(levels)@.len() && r != p ==> final(levels)@[r] == old(
            levels,
        )@[r],
{
    let lvl = &mut levels[p];
    let slot = &mut lvl[0];
    *slot = e;
}

/// Detaches the entry at the given position of a level queue.
fn level_remove_at(levels: &mut Vec<Vec<LevelEntry>>, p: usize, j: usize)
    requires
        p < old(levels)@.len(),
        j < old(levels)@[p as int]@.len(),
    ensures
        final(levels)@.len() == old(levels)@.len(),
        final(levels)@[p as int]@ == old(levels)@[p as int]@.remove(j as int),
        forall|r: int| 0 <= r < old(levels)@.len() && r != p ==> final(levels)@[r] == old(
            levels,
        )@[r],
{
    let lvl = &mut levels[p];
    let _ = lvl.remove(j);
}

/// Replaces the entry at the given position of a level queue.
fn level_set_at(levels: &mut Vec<Vec<LevelEntry>>, p: usize, j: usize, e: LevelEntry)
    requires
        p < old(levels)@.len(),
        j < old(levels)@[p as int]@.len(),
    ensures
        final(levels)@.len() == old(levels)@.len(),
        final(levels)@[p as int]@ == old(levels)@[p as int]@.update(j as int, e),
        forall|r: int| 0 <= r < old(levels)@.len() && r != p ==> final(levels)@[r] == old(
            levels,
        )@[r],
{
    let lvl = &mut levels[p];
    let slot = &mut lvl[j];
    *slot = e;
}

/// Replacing entry `j` of ask level `p` replaces exactly that order in
/// the flattening, at some position, leaving everything else alone.
proof fn lemma_asks_flat_set(
    levels: Seq<Vec<LevelEntry>>,
    levels2: Seq<Vec<LevelEntry>>,
    p: int,
    j: int,
    e: LevelEntry,
    q: int,
)
    requires
        levels2.len() == levels.len(),
        0 <= q <= p < levels.len(),
        0 <= j < levels[p]@.len(),
        levels2[p]@ == levels[p]@.update(j, e),
        forall|r: int| 0 <= r < levels.len() && r != p ==> levels2[r]@ == levels[r]@,
    ensures
        exists|k: int|
            0 <= k < asks_flat(levels, q).len() && (#[trigger] asks_flat(levels, q)[k])
                == level_views(levels[p]@, p as u16)[j] && asks_flat(levels2, q) == asks_flat(
                levels,
                q,
            ).update(k, OrderView { id: e.0, quantity: e.1, price: (p as u16) as u64 }),
    decreases p - q,
{
    let target = level_views(levels[p]@, p as u16)[j];
    let nv = OrderView { id: e.0, quantity: e.1, price: (p as u16) as u64 };
    if q == p {
        lemma_flat_agree_asks(levels, levels2, p + 1);
        let lv = level_views(levels[p]@, p as u16);
        let lv2 = level_views(levels2[p]@, p as u16);
        let rest = asks_flat(levels, p + 1);
        assert(lv2 =~= lv.update(j, nv));
        assert(asks_flat(levels, q)[j] == lv[j]);
        assert(lv.update(j, nv) + rest =~= (lv + rest).update(j, nv));
        assert(asks_flat(levels2, q) == asks_flat(levels, q).update(j, nv));
    } else {
        lemma_asks_flat_set(levels, levels2, p, j, e, q + 1);
        let k2 = choose|k: int|
            0 <= k < asks_flat(levels, q + 1).len() && (#[trigger] asks_flat(levels, q + 1)[k])
                == target && asks_flat(levels2, q + 1) == asks_flat(levels, q + 1).update(k, nv);
        assert(levels2[q]@ == levels[q]@);
        let lv = level_views(levels[q]@, q as u16);
        assert(level_views(levels2[q]@, q as u16) == lv);
        let k = lv.len() + k2;
        assert(asks_flat(levels, q)[k] == asks_flat(levels, q + 1)[k2]);
        assert(lv + asks_flat(levels, q + 1).update(k2, nv) =~= (lv + asks_flat(
            levels,
            q + 1,
        )).update(k, nv));
        assert(asks_flat(levels2, q) == asks_flat(levels, q).update(k, nv));
    }
}

/// Replacing entry `j` of bid level `p` replaces exactly that order in
/// the flattening, at some position, leaving everything else alone.
proof fn lemma_bids_flat_set(
    levels: Seq<Vec<LevelEntry>>,
    levels2: Seq<Vec<LevelEntry>>,
    p: int,
    j: int,
    e: LevelEntry,
    q: int,
)
    requires
        levels2.len() == levels.len(),
        0 <= p <= q < levels.len(),
        0 <= j < levels[p]@.len(),
        levels2[p]@ == levels[p]@.update(j, e),
        forall|r: int| 0 <= r < levels.len() && r != p ==> levels2[r]@ == levels[r]@,
    ensures
        exists|k: int|
            0 <= k < bids_flat(levels, q).len() && (#[trigger] bids_flat(levels, q)[k])
                == level_views(levels[p]@, p as u16)[j] && bids_flat(levels2, q) == bids_flat(
                levels,
                q,
            ).update(k, OrderView { id: e.0, quantity: e.1, price: (p as u16) as u64 }),
    decreases q - p,
{
    let target = level_views(levels[p]@, p as u16)[j];
    let nv = OrderView { id: e.0, quantity: e.1, price: (p as u16) as u64 };
    if q == p {
        lemma_flat_agree_bids(levels, levels2, p - 1);
        let lv = level_views(levels[p]@, p as u16);
        let lv2 = level_views(levels2[p]@, p as u16);
        let rest = bids_flat(levels, p - 1);
        assert(lv2 =~= lv.update(j, nv));
        assert(bids_flat(levels, q)[j] == lv[j]);
        assert(lv.update(j, nv) + rest =~= (lv + rest).update(j, nv));
        assert(bids_flat(levels2, q) == bids_flat(levels, q).update(j, nv));
    } else {
        lemma_bids_flat_set(levels, levels2, p, j, e, q - 1);
        let k2 = choose|k: int|
            0 <= k < bids_flat(levels, q - 1).len() && (#[trigger] bids_flat(levels, q - 1)[k])
                == target && bids_flat(levels2, q - 1) == bids_flat(levels, q - 1).update(k, nv);
        assert(levels2[q]@ == levels[q]@);
        let lv = level_views(levels[q]@, q as u16);
        assert(level_views(levels2[q]@, q as u16) == lv);
        let k = lv.len() + k2;
        assert(bids_flat(levels, q)[k] == bids_flat(levels, q - 1)[k2]);
        assert(lv + bids_flat(levels, q - 1).update(k2, nv) =~= (lv + bids_flat(
            levels,
            q - 1,
        )).update(k, nv));
        assert(bids_flat(levels2, q) == bids_flat(levels, q).update(k, nv));
    }
}

/// An order book that stores each side as one queue of resting orders
/// per price level, plus a map from order id to its side and level.
pub struct OrderBook {
    /// Each resting order's side and level, keyed by id.
    orders: HashMap<u64, OrderInfo>,
    /// Resting buy orders per price level, in arrival order.
    bid_levels: Vec<Vec<LevelEntry>>,
    /// Resting sell orders per price level, in arrival order.
    ask_levels: Vec<Vec<LevelEntry>>,
    /// No resting bid sits above this level.
    bid: Price,
    /// No resting ask sits below this level.
    ask: Price,
    /// The number of resting orders.
    count: usize,
}

impl OrderBook {
    /// The bids, best-first.
    pub closed spec fn bids_view(&self) -> Seq<OrderView> {
        bids_flat(self.bid_levels@, MAX_PRICE as int)
    }

    /// The asks, best-first.
    pub closed spec fn asks_view(&self) -> Seq<OrderView> {
        asks_flat(self.ask_levels@, 0)
    }

    /// How many orders are resting, on both sides together.
    pub open spec fn order_count(&self) -> int {
        self.bids_view().len() + self.asks_view().len() as int
    }

    /// Well-formedness: one level queue per representable price on each
    /// side; every queued order has a positive quantity and is
    /// registered in the order map under its side and level, and every
    /// registered order is queued; no id is queued twice at a level; the
    /// two cursors bound the occupied levels; the count is exact.
    pub closed spec fn wf(&self) -> bool {
        &&& self.bid_levels@.len() == 65536
        &&& self.ask_levels@.len() == 65536
        &&& (forall|p: int, i: int|
            0 <= p < self.bid_levels@.len() && 0 <= i < (#[trigger] self.bid_levels@[p]@).len()
                ==> {
                let e = #[trigger] self.bid_levels@[p]@[i];
                &&& e.1 > 0
                &&& self.orders@.contains_key(e.0)
                &&& self.orders@[e.0].price as int == p
                &&& self.orders@[e.0].is_buy == true
            })
        &&& (forall|p: int, i: int|
            0 <= p < self.ask_levels@.len() && 0 <= i < (#[trigger] self.ask_levels@[p]@).len()
                ==> {
                let e = #[trigger] self.ask_levels@[p]@[i];
                &&& e.1 > 0
                &&& self.orders@.contains_key(e.0)
                &&& self.orders@[e.0].price as int == p
                &&& self.orders@[e.0].is_buy == false
            })
        &&& (forall|p: int, i: int, j: int|
            #![trigger self.bid_levels@[p]@[i], self.bid_levels@[p]@[j]]
            0 <= p < self.bid_levels@.len() && 0 <= i < j < self.bid_levels@[p]@.len()
                ==> self.bid_levels@[p]@[i].0 != self.bid_levels@[p]@[j].0)
        &&& (forall|p: int, i: int, j: int|
            #![trigger self.ask_levels@[p]@[i], self.ask_levels@[p]@[j]]
            0 <= p < self.ask_levels@.len() && 0 <= i < j < self.ask_levels@[p]@.len()
                ==> self.ask_levels@[p]@[i].0 != self.ask_levels@[p]@[j].0)
        &&& (forall|id: u64| #[trigger] self.orders@.contains_key(id) ==> {
            let info = self.orders@[id];
            if info.is_buy {
                exists|i: int|
                    0 <= i < self.bid_levels@[info.price as int]@.len() && (
                    #[trigger] self.bid_levels@[info.price as int]@[i]).0 == id
            } else {
                exists|i: int|
                    0 <= i < self.ask_levels@[info.price as int]@.len() && (
                    #[trigger] self.ask_levels@[info.price as int]@[i]).0 == id
            }
        })
        &&& (forall|p: int|
            self.bid < p < self.bid_levels@.len() ==> (#[trigger] self.bid_levels@[p]@).len() == 0)
        &&& (forall|p: int| 0 <= p < self.ask ==> (#[trigger] self.ask_levels@[p]@).len() == 0)
        &&& self.count == self.order_count()
    }

    /// Rests an unmatched remainder among the bids at its level.
    #[verifier::rlimit(100)]
    fn rest_bid(&mut self, id: OrderId, q: Quantity, price: Price)
        requires
            old(self).wf(),
            q > 0,
            old(self).count < usize::MAX,
            forall|p2: int, i: int|
                0 <= p2 < old(self).bid_levels@.len() && 0 <= i < old(self).bid_levels@[p2]@.len()
                    ==> (#[trigger] old(self).bid_levels@[p2]@[i]).0 != id,
            forall|p2: int, i: int|
                0 <= p2 < old(self).ask_levels@.len() && 0 <= i < old(self).ask_levels@[p2]@.len()
                    ==> (#[trigger] old(self).ask_levels@[p2]@[i]).0 != id,
        ensures
            final(self).wf(),
            final(self).bids_view() == insert_resting(
                old(self).bids_view(),
                order_of(id, q, price),
                true,
            ),
            final(self).asks_view() == old(self).asks_view(),
    {
        let ghost pre_bids = self.bid_levels@;
        let ghost pre_orders = self.orders@;
        level_push(&mut self.bid_levels, price as usize, (id, q));
        self.orders.insert(id, OrderInfo { price, is_buy: true });
        if self.bid < price {
            self.bid = price;
        }
        self.count = self.count + 1;
        proof {
            lemma_bids_flat_insert(pre_bids, self.bid_levels@, price as int, (id, q), 65535);
            lemma_insert_resting_at(old(self).bids_view(), order_of(id, q, price), true);
            assert((self.bid_levels@[price as int]@[pre_bids[price as int]@.len() as int]).0
                == id);
            assert forall|k2: u64| #[trigger] self.orders@.contains_key(k2) implies {
                let info = self.orders@[k2];
                if info.is_buy {
                    exists|i: int|
                        0 <= i < self.bid_levels@[info.price as int]@.len() && (
                        #[trigger] self.bid_levels@[info.price as int]@[i]).0 == k2
                } else {
                    exists|i: int|
                        0 <= i < self.ask_levels@[info.price as int]@.len() && (
                        #[trigger] self.ask_levels@[info.price as int]@[i]).0 == k2
                }
            } by {
                let info = self.orders@[k2];
                if k2 != id {
                    assert(self.orders@ == pre_orders.insert(id, OrderInfo { price, is_buy: true }));
                    assert(pre_orders.contains_key(k2));
                    if info.is_buy && info.price as int == price as int {
                        let t = choose|i: int|
                            0 <= i < pre_bids[price as int]@.len() && (
                            #[trigger] pre_bids[price as int]@[i]).0 == k2;
                        assert(self.bid_levels@[price as int]@[t] == pre_bids[price as int]@[t]);
                        assert((self.bid_levels@[price as int]@[t]).0 == k2);
                    } else if info.is_buy {
                        assert(self.bid_levels@[info.price as int]@ == pre_bids[info.price as int]@);
                        let t = choose|i: int|
                            0 <= i < pre_bids[info.price as int]@.len() && (
                            #[trigger] pre_bids[info.price as int]@[i]).0 == k2;
                        assert((self.bid_levels@[info.price as int]@[t]).0 == k2);
                    } else {
                        let t = choose|i: int|
                            0 <= i < self.ask_levels@[info.price as int]@.len() && (
                            #[trigger] self.ask_levels@[info.price as int]@[i]).0 == k2;
                        assert((self.ask_levels@[info.price as int]@[t]).0 == k2);
                    }
                } else {
                    assert((self.bid_levels@[price as int]@[pre_bids[price as int]@.len() as int]).0
                        == id);
                }
            }
            assert(self.wf());
        }
    }

    /// Adds a new buy order to the order book and returns its fills.
    ///
    /// The order is crossed against the resting asks, sweeping the
    /// occupied price levels upward from the best ask while they are at
    /// or under the order's limit, trading within a level in arrival
    /// order. Any unmatched remainder rests at the order's own level; a
    /// zero-quantity order trades nothing and never rests. The id must
    /// not already be resting.
    #[verifier::rlimit(100)]
    pub fn buy(&mut self, id: OrderId, quantity: Quantity, price: Price) -> (fills: Vec<Fill>)
        requires
            old(self).wf(),
            !contains_id(old(self).bids_view(), id),
            !contains_id(old(self).asks_view(), id),
            old(self).order_count() < usize::MAX,
        ensures
            final(self).wf(),
            fills@ == submit_fills(old(self).asks_view(), order_of(id, quantity, price), true),
            final(self).asks_view() == makers_after(
                old(self).asks_view(),
                order_of(id, quantity, price),
                true,
            ),
            final(self).bids_view() == takers_after(
                old(self).bids_view(),
                old(self).asks_view(),
                order_of(id, quantity, price),
                true,
            ),
    {
        let mut fills: Vec<Fill> = Vec::new();
        let limit: u64 = price as u64;
        let ghost v0 = old(self).asks_view();
        let ghost orig = cross(v0, quantity, limit, true);
        if quantity == 0 {
            proof {
                assert(fills@ =~= Seq::<Fill>::empty());
            }
            return fills;
        }
        let mut q: u64 = quantity;
        proof {
            assert(fills@ + orig.fills =~= orig.fills);
        }
        while q != 0 && self.ask <= price
            invariant
                limit == price as u64,
                v0 == old(self).asks_view(),
                orig == cross(v0, quantity, limit, true),
                self.wf(),
                self.bid_levels@ == old(self).bid_levels@,
                self.bid == old(self).bid,
                ({
                    let cur = cross(asks_flat(self.ask_levels@, 0), q, limit, true);
                    &&& orig.fills == fills@ + cur.fills
                    &&& orig.makers == cur.makers
                    &&& orig.remaining == cur.remaining
                }),
            ensures
                self.wf(),
                self.bid_levels@ == old(self).bid_levels@,
                self.bid == old(self).bid,
                ({
                    let cur = cross(asks_flat(self.ask_levels@, 0), q, limit, true);
                    &&& orig.fills == fills@ + cur.fills
                    &&& orig.makers == cur.makers
                    &&& orig.remaining == cur.remaining
                }),
                q == 0 || self.ask > price || asks_flat(self.ask_levels@, 0).len() == 0,
            decreases price + 1 - self.ask as int, self.ask_levels@[self.ask as int]@.len(), q,
        {
            let pi = self.ask as usize;
            let n = self.ask_levels[pi].len();
            if n == 0 {
                if self.ask == MAX_PRICE {
                    proof {
                        assert forall|r: int| 0 <= r < 65536 implies (
                        #[trigger] self.ask_levels@[r]@).len() == 0 by {
                            if r < self.ask as int {
                            }
                        }
                        lemma_asks_flat_skip_to(self.ask_levels@, 0, 65536);
                        let cur = cross(asks_flat(self.ask_levels@, 0), q, limit, true);
                        assert(cur.fills =~= Seq::<Fill>::empty());
                        assert(fills@ + cur.fills =~= fills@);
                    }
                    break;
                }
                self.ask = self.ask + 1;
            } else {
                let ghost pre = self.ask_levels@;
                let ghost pre_orders = self.orders@;
                let ghost flat0 = asks_flat(pre, 0);
                let ghost curpre = cross(flat0, q, limit, true);
                proof {
                    lemma_asks_flat_skip_to(pre, 0, self.ask as int);
                    lemma_asks_flat_head(pre, self.ask as int);
                    assert(flat0 == asks_flat(pre, self.ask as int));
                    assert(flat0.first() == asks_flat(pre, self.ask as int).first());
                    assert(flat0.first().price == ((self.ask as int) as u16) as u64);
                    assert(((self.ask as int) as u16) as u64 == self.ask as u64);
                    assert(self.ask as u64 <= price as u64);
                    assert(flat0.first().price <= limit);
                    assert(crossable(flat0.first().price, limit, true));
                }
                let e = self.ask_levels[pi][0];
                let mid = e.0;
                let mq = e.1;
                if q >= mq {
                    fills.push(Fill::new(mid, mq, self.ask as u64, true));
                    level_pop_front(&mut self.ask_levels, pi);
                    let _ = self.orders.remove(&mid);
                    self.count = self.count - 1;
                    q = q - mq;
                    proof {
                        let rest = cross(flat0.drop_first(), q, limit, true);
                        let f = Fill { id: mid, quantity: mq, price: (self.ask as u16) as u64, done: true };
                        assert(curpre.fills == seq![f] + rest.fills);
                        lemma_asks_flat_pop(pre, self.ask_levels@, self.ask as int);
                        lemma_asks_flat_skip_to(self.ask_levels@, 0, self.ask as int);
                        assert(asks_flat(self.ask_levels@, 0) == flat0.drop_first());
                        assert(fills@ =~= fills@.drop_last().push(f));
                        assert(fills@.drop_last() + (seq![f] + rest.fills) =~= fills@ + rest.fills);
                        // the maker side shrank by its head
                        assert(flat0.len() >= 1);
                        // restore well-formedness clause by clause
                        let lvp = self.ask as int;
                        assert forall|k2: u64| #[trigger] self.orders@.contains_key(k2) implies {
                            let info = self.orders@[k2];
                            if info.is_buy {
                                exists|i: int|
                                    0 <= i < self.bid_levels@[info.price as int]@.len() && (
                                    #[trigger] self.bid_levels@[info.price as int]@[i]).0 == k2
                            } else {
                                exists|i: int|
                                    0 <= i < self.ask_levels@[info.price as int]@.len() && (
                                    #[trigger] self.ask_levels@[info.price as int]@[i]).0 == k2
                            }
                        } by {
                            let info = self.orders@[k2];
                            assert(self.orders@ == pre_orders.remove(mid));
                            assert(pre_orders.contains_key(k2));
                            assert(k2 != mid);
                            if info.is_buy {
                                let t = choose|i: int|
                                    0 <= i < old(self).bid_levels@[info.price as int]@.len() && (
                                    #[trigger] old(self).bid_levels@[info.price as int]@[i]).0
                                        == k2;
                                assert((self.bid_levels@[info.price as int]@[t]).0 == k2);
                            } else if info.price as int == lvp {
                                let t = choose|i: int|
                                    0 <= i < pre[lvp]@.len() && (#[trigger] pre[lvp]@[i]).0 == k2;
                                assert(t != 0);
                                assert(self.ask_levels@[lvp]@[t - 1] == pre[lvp]@[t]);
                                assert((self.ask_levels@[lvp]@[t - 1]).0 == k2);
                            } else if !info.is_buy {
                                assert(self.ask_levels@[info.price as int]@ == pre[info.price as int]@);
                                let t = choose|i: int|
                                    0 <= i < pre[info.price as int]@.len() && (
                                    #[trigger] pre[info.price as int]@[i]).0 == k2;
                                assert((self.ask_levels@[info.price as int]@[t]).0 == k2);
                            }
                        }
                    }
                } else {
                    fills.push(Fill::new(mid, q, self.ask as u64, false));
                    level_set_front(&mut self.ask_levels, pi, (mid, mq - q));
                    proof {
                        let f = Fill { id: mid, quantity: q, price: (self.ask as u16) as u64, done: false };
                        let m2 = OrderView {
                            id: mid,
                            quantity: (mq - q) as u64,
                            price: (self.ask as u16) as u64,
                        };
                        assert(curpre.fills == seq![f]);
                        assert(curpre.makers == flat0.update(0, m2));
                        lemma_asks_flat_update(pre, self.ask_levels@, self.ask as int, (mid, (mq - q) as u64));
                        lemma_asks_flat_skip_to(self.ask_levels@, 0, self.ask as int);
                        assert(asks_flat(self.ask_levels@, 0) == flat0.update(0, m2));
                        assert(fills@ =~= fills@.drop_last().push(f));
                        assert(fills@.drop_last() + seq![f] =~= fills@);
                        let lvp = self.ask as int;
                        assert(self.ask_levels@[lvp]@[0].0 == mid);
                        assert forall|k2: u64| #[trigger] self.orders@.contains_key(k2) implies {
                            let info = self.orders@[k2];
                            if info.is_buy {
                                exists|i: int|
                                    0 <= i < self.bid_levels@[info.price as int]@.len() && (
                                    #[trigger] self.bid_levels@[info.price as int]@[i]).0 == k2
                            } else {
                                exists|i: int|
                                    0 <= i < self.ask_levels@[info.price as int]@.len() && (
                                    #[trigger] self.ask_levels@[info.price as int]@[i]).0 == k2
                            }
                        } by {
                            let info = self.orders@[k2];
                            if info.is_buy {
                                let t = choose|i: int|
                                    0 <= i < old(self).bid_levels@[info.price as int]@.len() && (
                                    #[trigger] old(self).bid_levels@[info.price as int]@[i]).0
                                        == k2;
                                assert((self.bid_levels@[info.price as int]@[t]).0 == k2);
                            } else if info.price as int == lvp {
                                let t = choose|i: int|
                                    0 <= i < pre[lvp]@.len() && (#[trigger] pre[lvp]@[i]).0 == k2;
                                assert(self.ask_levels@[lvp]@[t] == (if t == 0 {
                                    (mid, (mq - q) as u64)
                                } else {
                                    pre[lvp]@[t]
                                }));
                                assert((self.ask_levels@[lvp]@[t]).0 == k2);
                            } else {
                                assert(self.ask_levels@[info.price as int]@ == pre[info.price as int]@);
                                let t = choose|i: int|
                                    0 <= i < pre[info.price as int]@.len() && (
                                    #[trigger] pre[info.price as int]@[i]).0 == k2;
                                assert((self.ask_levels@[info.price as int]@[t]).0 == k2);
                            }
                        }
                        let curnow = cross(asks_flat(self.ask_levels@, 0), 0, limit, true);
                        assert(curnow.fills =~= Seq::<Fill>::empty());
                        assert(fills@ + curnow.fills =~= fills@);
                    }
                    q = 0;
                    break;
                }
            }
        }
        proof {
            let flat = asks_flat(self.ask_levels@, 0);
            let cur = cross(flat, q, limit, true);
            if q != 0 && flat.len() > 0 {
                lemma_asks_flat_skip_to(self.ask_levels@, 0, self.ask as int);
                lemma_asks_flat_price_range(self.ask_levels@, self.ask as int);
                assert(flat == asks_flat(self.ask_levels@, self.ask as int));
                assert(flat[0].price >= self.ask as int);
                assert(!crossable(flat.first().price, limit, true));
            }
            assert(cur.fills == Seq::<Fill>::empty());
            assert(fills@ + cur.fills =~= fills@);
            assert(orig.fills == fills@);
            assert(orig.makers == flat);
            assert(orig.remaining == q);
        }
        if q > 0 {
            let ghost pre_bids = self.bid_levels@;
            proof {
                lemma_cross_makers_len(v0, quantity, limit, true);
                assert(asks_flat(self.ask_levels@, 0).len() <= v0.len());
                // the incoming id rests nowhere on either side
                assert forall|p2: int, i: int|
                    0 <= p2 < pre_bids.len() && 0 <= i < pre_bids[p2]@.len() implies (
                #[trigger] pre_bids[p2]@[i]).0 != id by {
                    if pre_bids[p2]@[i].0 == id {
                        lemma_bids_flat_covers(pre_bids, 65535, p2, i);
                        assert(contains_id(old(self).bids_view(), id));
                    }
                }
                lemma_cross_makers_ids(v0, quantity, limit, true);
                assert forall|p2: int, i: int|
                    0 <= p2 < self.ask_levels@.len() && 0 <= i < self.ask_levels@[p2]@.len() implies (
                #[trigger] self.ask_levels@[p2]@[i]).0 != id by {
                    if self.ask_levels@[p2]@[i].0 == id {
                        lemma_asks_flat_covers(self.ask_levels@, 0, p2, i);
                        let k = choose|k: int|
                            0 <= k < asks_flat(self.ask_levels@, 0).len() && (
                            #[trigger] asks_flat(self.ask_levels@, 0)[k]) == level_views(
                                self.ask_levels@[p2]@,
                                p2 as u16,
                            )[i];
                        assert(orig.makers[k].id == id);
                        assert(contains_id(v0, id));
                    }
                }
            }
            self.rest_bid(id, q, price);
        }
        fills
    }

    /// Rests an unmatched remainder among the asks at its level.
    #[verifier::rlimit(100)]
    fn rest_ask(&mut self, id: OrderId, q: Quantity, price: Price)
        requires
            old(self).wf(),
            q > 0,
            old(self).count < usize::MAX,
            forall|p2: int, i: int|
                0 <= p2 < old(self).bid_levels@.len() && 0 <= i < old(self).bid_levels@[p2]@.len()
                    ==> (#[trigger] old(self).bid_levels@[p2]@[i]).0 != id,
            forall|p2: int, i: int|
                0 <= p2 < old(self).ask_levels@.len() && 0 <= i < old(self).ask_levels@[p2]@.len()
                    ==> (#[trigger] old(self).ask_levels@[p2]@[i]).0 != id,
        ensures
            final(self).wf(),
            final(self).asks_view() == insert_resting(
                old(self).asks_view(),
                order_of(id, q, price),
                false,
            ),
            final(self).bids_view() == old(self).bids_view(),
    {
        let ghost pre_asks = self.ask_levels@;
        let ghost pre_orders = self.orders@;
        level_push(&mut self.ask_levels, price as usize, (id, q));
        self.orders.insert(id, OrderInfo { price, is_buy: false });
        if price < self.ask {
            self.ask = price;
        }
        self.count = self.count + 1;
        proof {
            lemma_asks_flat_insert(pre_asks, self.ask_levels@, price as int, (id, q), 0);
            lemma_insert_resting_at(old(self).asks_view(), order_of(id, q, price), false);
            assert((self.ask_levels@[price as int]@[pre_asks[price as int]@.len() as int]).0
                == id);
            assert forall|k2: u64| #[trigger] self.orders@.contains_key(k2) implies {
                let info = self.orders@[k2];
                if info.is_buy {
                    exists|i: int|
                        0 <= i < self.bid_levels@[info.price as int]@.len() && (
                        #[trigger] self.bid_levels@[info.price as int]@[i]).0 == k2
                } else {
                    exists|i: int|
                        0 <= i < self.ask_levels@[info.price as int]@.len() && (
                        #[trigger] self.ask_levels@[info.price as int]@[i]).0 == k2
                }
            } by {
                let info = self.orders@[k2];
                if k2 != id {
                    assert(self.orders@ == pre_orders.insert(id, OrderInfo { price, is_buy: false }));
                    assert(pre_orders.contains_key(k2));
                    if !info.is_buy && info.price as int == price as int {
                        let t = choose|i: int|
                            0 <= i < pre_asks[price as int]@.len() && (
                            #[trigger] pre_asks[price as int]@[i]).0 == k2;
                        assert(self.ask_levels@[price as int]@[t] == pre_asks[price as int]@[t]);
                        assert((self.ask_levels@[price as int]@[t]).0 == k2);
                    } else if !info.is_buy {
                        assert(self.ask_levels@[info.price as int]@ == pre_asks[info.price as int]@);
                        let t = choose|i: int|
                            0 <= i < pre_asks[info.price as int]@.len() && (
                            #[trigger] pre_asks[info.price as int]@[i]).0 == k2;
                        assert((self.ask_levels@[info.price as int]@[t]).0 == k2);
                    } else {
                        let t = choose|i: int|
                            0 <= i < self.bid_levels@[info.price as int]@.len() && (
                            #[trigger] self.bid_levels@[info.price as int]@[i]).0 == k2;
                        assert((self.bid_levels@[info.price as int]@[t]).0 == k2);
                    }
                } else {
                    assert((self.ask_levels@[price as int]@[pre_asks[price as int]@.len() as int]).0
                        == id);
                }
            }
            assert(self.wf());
        }
    }

    /// Adds a new sell order to the order book and returns its fills.
    ///
    /// The mirror image of buying: the order is crossed against the
    /// resting bids, sweeping the occupied price levels downward from the
    /// best bid while they are at or above the order's limit, and any
    /// unmatched remainder rests at the order's own level.
    pub fn sell(&mut self, id: OrderId, quantity: Quantity, price: Price) -> (fills: Vec<Fill>)
        requires
            old(self).wf(),
            !contains_id(old(self).bids_view(), id),
            !contains_id(old(self).asks_view(), id),
            old(self).order_count() < usize::MAX,
        ensures
            final(self).wf(),
            fills@ == submit_fills(old(self).bids_view(), order_of(id, quantity, price), false),
            final(self).bids_view() == makers_after(
                old(self).bids_view(),
                order_of(id, quantity, price),
                false,
            ),
            final(self).asks_view() == takers_after(
                old(self).asks_view(),
                old(self).bids_view(),
                order_of(id, quantity, price),
                false,
            ),
    {
        let mut fills: Vec<Fill> = Vec::new();
        let limit: u64 = price as u64;
        let ghost v0 = old(self).bids_view();
        let ghost orig = cross(v0, quantity, limit, false);
        if quantity == 0 {
            proof {
                assert(fills@ =~= Seq::<Fill>::empty());
            }
            return fills;
        }
        let mut q: u64 = quantity;
        proof {
            assert(fills@ + orig.fills =~= orig.fills);
        }
        while q != 0 && price <= self.bid
            invariant
                limit == price as u64,
                v0 == old(self).bids_view(),
                orig == cross(v0, quantity, limit, false),
                self.wf(),
                self.ask_levels@ == old(self).ask_levels@,
                self.ask == old(self).ask,
                ({
                    let cur = cross(bids_flat(self.bid_levels@, 65535), q, limit, false);
                    &&& orig.fills == fills@ + cur.fills
                    &&& orig.makers == cur.makers
                    &&& orig.remaining == cur.remaining
                }),
            ensures
                self.wf(),
                self.ask_levels@ == old(self).ask_levels@,
                self.ask == old(self).ask,
                ({
                    let cur = cross(bids_flat(self.bid_levels@, 65535), q, limit, false);
                    &&& orig.fills == fills@ + cur.fills
                    &&& orig.makers == cur.makers
                    &&& orig.remaining == cur.remaining
                }),
                q == 0 || price > self.bid || bids_flat(self.bid_levels@, 65535).len() == 0,
            decreases self.bid as int + 1 - price as int, self.bid_levels@[self.bid as int]@.len(), q,
        {
            let pi = self.bid as usize;
            let n = self.bid_levels[pi].len();
            if n == 0 {
                if self.bid == 0 {
                    proof {
                        assert forall|r: int| 0 <= r < 65536 implies (
                        #[trigger] self.bid_levels@[r]@).len() == 0 by {
                            if r > self.bid as int {
                            }
                        }
                        lemma_bids_flat_skip_to(self.bid_levels@, 65535, -1);
                        let cur = cross(bids_flat(self.bid_levels@, 65535), q, limit, false);
                        assert(cur.fills =~= Seq::<Fill>::empty());
                        assert(fills@ + cur.fills =~= fills@);
                    }
                    break;
                }
                self.bid = self.bid - 1;
            } else {
                let ghost pre = self.bid_levels@;
                let ghost pre_orders = self.orders@;
                let ghost flat0 = bids_flat(pre, 65535);
                let ghost curpre = cross(flat0, q, limit, false);
                proof {
                    lemma_bids_flat_skip_to(pre, 65535, self.bid as int);
                    lemma_bids_flat_head(pre, self.bid as int);
                    assert(flat0 == bids_flat(pre, self.bid as int));
                    assert(flat0.first() == bids_flat(pre, self.bid as int).first());
                    assert(flat0.first().price == ((self.bid as int) as u16) as u64);
                    assert(((self.bid as int) as u16) as u64 == self.bid as u64);
                    assert(self.bid as u64 >= price as u64);
                    assert(flat0.first().price >= limit);
                    assert(crossable(flat0.first().price, limit, false));
                }
                let e = self.bid_levels[pi][0];
                let mid = e.0;
                let mq = e.1;
                if q >= mq {
                    fills.push(Fill::new(mid, mq, self.bid as u64, true));
                    level_pop_front(&mut self.bid_levels, pi);
                    let _ = self.orders.remove(&mid);
                    self.count = self.count - 1;
                    q = q - mq;
                    proof {
                        let rest = cross(flat0.drop_first(), q, limit, false);
                        let f = Fill { id: mid, quantity: mq, price: (self.bid as u16) as u64, done: true };
                        assert(curpre.fills == seq![f] + rest.fills);
                        lemma_bids_flat_pop(pre, self.bid_levels@, self.bid as int);
                        lemma_bids_flat_skip_to(self.bid_levels@, 65535, self.bid as int);
                        assert(bids_flat(self.bid_levels@, 65535) == flat0.drop_first());
                        assert(fills@ =~= fills@.drop_last().push(f));
                        assert(fills@.drop_last() + (seq![f] + rest.fills) =~= fills@ + rest.fills);
                        assert(flat0.len() >= 1);
                        let lvp = self.bid as int;
                        assert forall|k2: u64| #[trigger] self.orders@.contains_key(k2) implies {
                            let info = self.orders@[k2];
                            if info.is_buy {
                                exists|i: int|
                                    0 <= i < self.bid_levels@[info.price as int]@.len() && (
                                    #[trigger] self.bid_levels@[info.price as int]@[i]).0 == k2
                            } else {
                                exists|i: int|
                                    0 <= i < self.ask_levels@[info.price as int]@.len() && (
                                    #[trigger] self.ask_levels@[info.price as int]@[i]).0 == k2
                            }
                        } by {
                            let info = self.orders@[k2];
                            assert(self.orders@ == pre_orders.remove(mid));
                            assert(pre_orders.contains_key(k2));
                            assert(k2 != mid);
                            if !info.is_buy {
                                let t = choose|i: int|
                                    0 <= i < old(self).ask_levels@[info.price as int]@.len() && (
                                    #[trigger] old(self).ask_levels@[info.price as int]@[i]).0
                                        == k2;
                                assert((self.ask_levels@[info.price as int]@[t]).0 == k2);
                            } else if info.price as int == lvp {
                                let t = choose|i: int|
                                    0 <= i < pre[lvp]@.len() && (#[trigger] pre[lvp]@[i]).0 == k2;
                                assert(t != 0);
                                assert(self.bid_levels@[lvp]@[t - 1] == pre[lvp]@[t]);
                                assert((self.bid_levels@[lvp]@[t - 1]).0 == k2);
                            } else {
                                assert(self.bid_levels@[info.price as int]@ == pre[info.price as int]@);
                                let t = choose|i: int|
                                    0 <= i < pre[info.price as int]@.len() && (
                                    #[trigger] pre[info.price as int]@[i]).0 == k2;
                                assert((self.bid_levels@[info.price as int]@[t]).0 == k2);
                            }
                        }
                    }
                } else {
                    fills.push(Fill::new(mid, q, self.bid as u64, false));
                    level_set_front(&mut self.bid_levels, pi, (mid, mq - q));
                    proof {
                        let f = Fill { id: mid, quantity: q, price: (self.bid as u16) as u64, done: false };
                        let m2 = OrderView {
                            id: mid,
                            quantity: (mq - q) as u64,
                            price: (self.bid as u16) as u64,
                        };
                        assert(curpre.fills == seq![f]);
                        assert(curpre.makers == flat0.update(0, m2));
                        lemma_bids_flat_update(pre, self.bid_levels@, self.bid as int, (mid, (mq - q) as u64));
                        lemma_bids_flat_skip_to(self.bid_levels@, 65535, self.bid as int);
                        assert(bids_flat(self.bid_levels@, 65535) == flat0.update(0, m2));
                        assert(fills@ =~= fills@.drop_last().push(f));
                        assert(fills@.drop_last() + seq![f] =~= fills@);
                        let lvp = self.bid as int;
                        assert(self.bid_levels@[lvp]@[0].0 == mid);
                        assert forall|k2: u64| #[trigger] self.orders@.contains_key(k2) implies {
                            let info = self.orders@[k2];
                            if info.is_buy {
                                exists|i: int|
                                    0 <= i < self.bid_levels@[info.price as int]@.len() && (
                                    #[trigger] self.bid_levels@[info.price as int]@[i]).0 == k2
                            } else {
                                exists|i: int|
                                    0 <= i < self.ask_levels@[info.price as int]@.len() && (
                                    #[trigger] self.ask_levels@[info.price as int]@[i]).0 == k2
                            }
                        } by {
                            let info = self.orders@[k2];
                            if !info.is_buy {
                                let t = choose|i: int|
                                    0 <= i < old(self).ask_levels@[info.price as int]@.len() && (
                                    #[trigger] old(self).ask_levels@[info.price as int]@[i]).0
                                        == k2;
                                assert((self.ask_levels@[info.price as int]@[t]).0 == k2);
                            } else if info.price as int == lvp {
                                let t = choose|i: int|
                                    0 <= i < pre[lvp]@.len() && (#[trigger] pre[lvp]@[i]).0 == k2;
                                assert(self.bid_levels@[lvp]@[t] == (if t == 0 {
                                    (mid, (mq - q) as u64)
                                } else {
                                    pre[lvp]@[t]
                                }));
                                assert((self.bid_levels@[lvp]@[t]).0 == k2);
                            } else {
                                assert(self.bid_levels@[info.price as int]@ == pre[info.price as int]@);
                                let t = choose|i: int|
                                    0 <= i < pre[info.price as int]@.len() && (
                                    #[trigger] pre[info.price as int]@[i]).0 == k2;
                                assert((self.bid_levels@[info.price as int]@[t]).0 == k2);
                            }
                        }
                        let curnow = cross(bids_flat(self.bid_levels@, 65535), 0, limit, false);
                        assert(curnow.fills =~= Seq::<Fill>::empty());
                        assert(fills@ + curnow.fills =~= fills@);
                    }
                    q = 0;
                    break;
                }
            }
        }
        proof {
            let flat = bids_flat(self.bid_levels@, 65535);
            let cur = cross(flat, q, limit, false);
            if q != 0 && flat.len() > 0 {
                lemma_bids_flat_skip_to(self.bid_levels@, 65535, self.bid as int);
                lemma_bids_flat_price_range(self.bid_levels@, self.bid as int);
                assert(flat == bids_flat(self.bid_levels@, self.bid as int));
                assert(flat[0].price <= self.bid as int);
                assert(!crossable(flat.first().price, limit, false));
            }
            assert(cur.fills == Seq::<Fill>::empty());
            assert(fills@ + cur.fills =~= fills@);
            assert(orig.fills == fills@);
            assert(orig.makers == flat);
            assert(orig.remaining == q);
        }
        if q > 0 {
            let ghost pre_asks = self.ask_levels@;
            proof {
                lemma_cross_makers_len(v0, quantity, limit, false);
                assert(bids_flat(self.bid_levels@, 65535).len() <= v0.len());
                // the incoming id rests nowhere on either side
                assert forall|p2: int, i: int|
                    0 <= p2 < pre_asks.len() && 0 <= i < pre_asks[p2]@.len() implies (
                #[trigger] pre_asks[p2]@[i]).0 != id by {
                    if pre_asks[p2]@[i].0 == id {
                        lemma_asks_flat_covers(pre_asks, 0, p2, i);
                        assert(contains_id(old(self).asks_view(), id));
                    }
                }
                lemma_cross_makers_ids(v0, quantity, limit, false);
                assert forall|p2: int, i: int|
                    0 <= p2 < self.bid_levels@.len() && 0 <= i < self.bid_levels@[p2]@.len() implies (
                #[trigger] self.bid_levels@[p2]@[i]).0 != id by {
                    if self.bid_levels@[p2]@[i].0 == id {
                        lemma_bids_flat_covers(self.bid_levels@, 65535, p2, i);
                        let k = choose|k: int|
                            0 <= k < bids_flat(self.bid_levels@, 65535).len() && (
                            #[trigger] bids_flat(self.bid_levels@, 65535)[k]) == level_views(
                                self.bid_levels@[p2]@,
                                p2 as u16,
                            )[i];
                        assert(orig.makers[k].id == id);
                        assert(contains_id(v0, id));
                    }
                }
            }
            self.rest_ask(id, q, price);
        }
        fills
    }

    /// Removes an order from the order book. Returns `false` if the
    /// order was not found; otherwise the resting order carrying the id
    /// is detached from its level and forgotten.
    #[verifier::rlimit(100)]
    pub fn remove(&mut self, id: OrderId) -> (r: bool)
        requires
            old(self).wf(),
        ensures
            final(self).wf(),
            r == (contains_id(old(self).bids_view(), id) || contains_id(
                old(self).asks_view(),
                id,
            )),
            contains_id(old(self).bids_view(), id) ==> {
                &&& final(self).bids_view() == old(self).bids_view().remove(
                    last_id_index(old(self).bids_view(), id),
                )
                &&& final(self).asks_view() == old(self).asks_view()
            },
            contains_id(old(self).asks_view(), id) ==> {
                &&& final(self).asks_view() == old(self).asks_view().remove(
                    last_id_index(old(self).asks_view(), id),
                )
                &&& final(self).bids_view() == old(self).bids_view()
            },
            !contains_id(old(self).bids_view(), id) && !contains_id(old(self).asks_view(), id)
                ==> {
                &&& final(self).bids_view() == old(self).bids_view()
                &&& final(self).asks_view() == old(self).asks_view()
            },
    {
        let info = match self.orders.get(&id) {
            Some(v) => *v,
            None => {
                proof {
                    lemma_bids_flat_registered(self.bid_levels@, self.orders@, 65535);
                    lemma_asks_flat_registered(self.ask_levels@, self.orders@, 0);
                    if contains_id(self.bids_view(), id) {
                        let k = choose|t: int|
                            0 <= t < self.bids_view().len() && self.bids_view()[t].id == id;
                        assert(self.orders@.contains_key(self.bids_view()[k].id));
                    }
                    if contains_id(self.asks_view(), id) {
                        let k = choose|t: int|
                            0 <= t < self.asks_view().len() && self.asks_view()[t].id == id;
                        assert(self.orders@.contains_key(self.asks_view()[k].id));
                    }
                }
                return false;
            },
        };
        let pi = info.price as usize;
        if info.is_buy {
            let n = self.bid_levels[pi].len();
            let mut j: usize = 0;
            proof {
                assert(self.orders@.contains_key(id));
            }
            while j < n
                invariant
                    j <= n,
                    pi < self.bid_levels@.len(),
                    n == self.bid_levels@[pi as int]@.len(),
                    exists|t: int|
                        j <= t < n && (#[trigger] self.bid_levels@[pi as int]@[t]).0 == id,
                ensures
                    j < n,
                    self.bid_levels@[pi as int]@[j as int].0 == id,
                decreases n - j,
            {
                if self.bid_levels[pi][j].0 == id {
                    break;
                }
                j = j + 1;
            }
            let ghost pre = self.bid_levels@;
            let ghost pre_orders = self.orders@;
            proof {
                lemma_bids_flat_level_len(pre, 65535, pi as int);
            }
            level_remove_at(&mut self.bid_levels, pi, j);
            let _ = self.orders.remove(&id);
            self.count = self.count - 1;
            proof {
                lemma_bids_flat_remove(pre, self.bid_levels@, pi as int, j as int, 65535);
                lemma_bids_flat_distinct(pre, pre_orders, 65535);
                lemma_bids_flat_registered(pre, pre_orders, 65535);
                lemma_asks_flat_registered(self.ask_levels@, pre_orders, 0);
                let v = bids_flat(pre, 65535);
                let k = choose|k: int|
                    0 <= k < v.len() && (#[trigger] v[k]) == level_views(pre[pi as int]@, pi as u16)[
                        j as int
                    ] && bids_flat(self.bid_levels@, 65535) == v.remove(k);
                assert(v[k].id == id);
                assert(contains_id(old(self).bids_view(), id));
                lemma_last_id_index_props(v, id);
                let l = last_id_index(v, id);
                assert(l >= 0 && v[l].id == id);
                assert(l == k);
                if contains_id(old(self).asks_view(), id) {
                    let t = choose|t: int|
                        0 <= t < old(self).asks_view().len() && old(self).asks_view()[t].id == id;
                    assert(pre_orders[old(self).asks_view()[t].id].is_buy == false);
                    assert(false);
                }
                // restore well-formedness
                assert forall|k2: u64| #[trigger] self.orders@.contains_key(k2) implies {
                    let info2 = self.orders@[k2];
                    if info2.is_buy {
                        exists|i: int|
                            0 <= i < self.bid_levels@[info2.price as int]@.len() && (
                            #[trigger] self.bid_levels@[info2.price as int]@[i]).0 == k2
                    } else {
                        exists|i: int|
                            0 <= i < self.ask_levels@[info2.price as int]@.len() && (
                            #[trigger] self.ask_levels@[info2.price as int]@[i]).0 == k2
                    }
                } by {
                    let info2 = self.orders@[k2];
                    assert(self.orders@ == pre_orders.remove(id));
                    assert(pre_orders.contains_key(k2));
                    assert(k2 != id);
                    if !info2.is_buy {
                        let t = choose|i: int|
                            0 <= i < self.ask_levels@[info2.price as int]@.len() && (
                            #[trigger] self.ask_levels@[info2.price as int]@[i]).0 == k2;
                        assert((self.ask_levels@[info2.price as int]@[t]).0 == k2);
                    } else if info2.price as int == pi as int {
                        let t = choose|i: int|
                            0 <= i < pre[pi as int]@.len() && (#[trigger] pre[pi as int]@[i]).0
                                == k2;
                        assert(t != j);
                        if t < j {
                            assert(self.bid_levels@[pi as int]@[t] == pre[pi as int]@[t]);
                            assert((self.bid_levels@[pi as int]@[t]).0 == k2);
                        } else {
                            assert(self.bid_levels@[pi as int]@[t - 1] == pre[pi as int]@[t]);
                            assert((self.bid_levels@[pi as int]@[t - 1]).0 == k2);
                        }
                    } else {
                        assert(self.bid_levels@[info2.price as int]@ == pre[info2.price as int]@);
                        let t = choose|i: int|
                            0 <= i < pre[info2.price as int]@.len() && (
                            #[trigger] pre[info2.price as int]@[i]).0 == k2;
                        assert((self.bid_levels@[info2.price as int]@[t]).0 == k2);
                    }
                }
                assert(self.wf());
            }
            true
        } else {
            let n = self.ask_levels[pi].len();
            let mut j: usize = 0;
            proof {
                assert(self.orders@.contains_key(id));
            }
            while j < n
                invariant
                    j <= n,
                    pi < self.ask_levels@.len(),
                    n == self.ask_levels@[pi as int]@.len(),
                    exists|t: int|
                        j <= t < n && (#[trigger] self.ask_levels@[pi as int]@[t]).0 == id,
                ensures
                    j < n,
                    self.ask_levels@[pi as int]@[j as int].0 == id,
                decreases n - j,
            {
                if self.ask_levels[pi][j].0 == id {
                    break;
                }
                j = j + 1;
            }
            let ghost pre = self.ask_levels@;
            let ghost pre_orders = self.orders@;
            proof {
                lemma_asks_flat_level_len(pre, 0, pi as int);
            }
            level_remove_at(&mut self.ask_levels, pi, j);
            let _ = self.orders.remove(&id);
            self.count = self.count - 1;
            proof {
                lemma_asks_flat_remove(pre, self.ask_levels@, pi as int, j as int, 0);
                lemma_asks_flat_distinct(pre, pre_orders, 0);
                lemma_asks_flat_registered(pre, pre_orders, 0);
                lemma_bids_flat_registered(self.bid_levels@, pre_orders, 65535);
                let v = asks_flat(pre, 0);
                let k = choose|k: int|
                    0 <= k < v.len() && (#[trigger] v[k]) == level_views(pre[pi as int]@, pi as u16)[
                        j as int
                    ] && asks_flat(self.ask_levels@, 0) == v.remove(k);
                assert(v[k].id == id);
                assert(contains_id(old(self).asks_view(), id));
                lemma_last_id_index_props(v, id);
                let l = last_id_index(v, id);
                assert(l >= 0 && v[l].id == id);
                assert(l == k);
                if contains_id(old(self).bids_view(), id) {
                    let t = choose|t: int|
                        0 <= t < old(self).bids_view().len() && old(self).bids_view()[t].id == id;
                    assert(pre_orders[old(self).bids_view()[t].id].is_buy == true);
                    assert(false);
                }
                // restore well-formedness
                assert forall|k2: u64| #[trigger] self.orders@.contains_key(k2) implies {
                    let info2 = self.orders@[k2];
                    if info2.is_buy {
                        exists|i: int|
                            0 <= i < self.bid_levels@[info2.price as int]@.len() && (
                            #[trigger] self.bid_levels@[info2.price as int]@[i]).0 == k2
                    } else {
                        exists|i: int|
                            0 <= i < self.ask_levels@[info2.price as int]@.len() && (
                            #[trigger] self.ask_levels@[info2.price as int]@[i]).0 == k2
                    }
                } by {
                    let info2 = self.orders@[k2];
                    assert(self.orders@ == pre_orders.remove(id));
                    assert(pre_orders.contains_key(k2));
                    assert(k2 != id);
                    if info2.is_buy {
                        let t = choose|i: int|
                            0 <= i < self.bid_levels@[info2.price as int]@.len() && (
                            #[trigger] self.bid_levels@[info2.price as int]@[i]).0 == k2;
                        assert((self.bid_levels@[info2.price as int]@[t]).0 == k2);
                    } else if info2.price as int == pi as int {
                        let t = choose|i: int|
                            0 <= i < pre[pi as int]@.len() && (#[trigger] pre[pi as int]@[i]).0
                                == k2;
                        assert(t != j);
                        if t < j {
                            assert(self.ask_levels@[pi as int]@[t] == pre[pi as int]@[t]);
                            assert((self.ask_levels@[pi as int]@[t]).0 == k2);
                        } else {
                            assert(self.ask_levels@[pi as int]@[t - 1] == pre[pi as int]@[t]);
                            assert((self.ask_levels@[pi as int]@[t - 1]).0 == k2);
                        }
                    } else {
                        assert(self.ask_levels@[info2.price as int]@ == pre[info2.price as int]@);
                        let t = choose|i: int|
                            0 <= i < pre[info2.price as int]@.len() && (
                            #[trigger] pre[info2.price as int]@[i]).0 == k2;
                        assert((self.ask_levels@[info2.price as int]@[t]).0 == k2);
                    }
                }
                assert(self.wf());
            }
            true
        }
    }

    /// Modifies the quantity of a resting order by id. The change is
    /// accepted only when such an order rests and the new quantity is a
    /// strict, non-zero decrease; then the order shrinks in place, its
    /// place in its level queue untouched. Returns whether the change
    /// was applied; on rejection nothing changes.
    #[verifier::rlimit(100)]
    pub fn modify(&mut self, id: OrderId, quantity: Quantity) -> (r: bool)
        requires
            old(self).wf(),
        ensures
            final(self).wf(),
            contains_id(old(self).bids_view(), id) ==> ({
                let k = last_id_index(old(self).bids_view(), id);
                let ok = 0 < quantity < old(self).bids_view()[k].quantity;
                &&& r == ok
                &&& final(self).bids_view() == (if ok {
                    old(self).bids_view().update(
                        k,
                        OrderView { quantity, ..old(self).bids_view()[k] },
                    )
                } else {
                    old(self).bids_view()
                })
                &&& final(self).asks_view() == old(self).asks_view()
            }),
            contains_id(old(self).asks_view(), id) ==> ({
                let k = last_id_index(old(self).asks_view(), id);
                let ok = 0 < quantity < old(self).asks_view()[k].quantity;
                &&& r == ok
                &&& final(self).asks_view() == (if ok {
                    old(self).asks_view().update(
                        k,
                        OrderView { quantity, ..old(self).asks_view()[k] },
                    )
                } else {
                    old(self).asks_view()
                })
                &&& final(self).bids_view() == old(self).bids_view()
            }),
            !contains_id(old(self).bids_view(), id) && !contains_id(old(self).asks_view(), id)
                ==> {
                &&& r == false
                &&& final(self).bids_view() == old(self).bids_view()
                &&& final(self).asks_view() == old(self).asks_view()
            },
    {
        let info = match self.orders.get(&id) {
            Some(v) => *v,
            None => {
                proof {
                    lemma_bids_flat_registered(self.bid_levels@, self.orders@, 65535);
                    lemma_asks_flat_registered(self.ask_levels@, self.orders@, 0);
                    if contains_id(self.bids_view(), id) {
                        let k = choose|t: int|
                            0 <= t < self.bids_view().len() && self.bids_view()[t].id == id;
                        assert(self.orders@.contains_key(self.bids_view()[k].id));
                    }
                    if contains_id(self.asks_view(), id) {
                        let k = choose|t: int|
                            0 <= t < self.asks_view().len() && self.asks_view()[t].id == id;
                        assert(self.orders@.contains_key(self.asks_view()[k].id));
                    }
                }
                return false;
            },
        };
        let pi = info.price as usize;
        if info.is_buy {
            let n = self.bid_levels[pi].len();
            let mut j: usize = 0;
            proof {
                assert(self.orders@.contains_key(id));
            }
            while j < n
                invariant
                    j <= n,
                    pi < self.bid_levels@.len(),
                    n == self.bid_levels@[pi as int]@.len(),
                    exists|t: int|
                        j <= t < n && (#[trigger] self.bid_levels@[pi as int]@[t]).0 == id,
                ensures
                    j < n,
                    self.bid_levels@[pi as int]@[j as int].0 == id,
                decreases n - j,
            {
                if self.bid_levels[pi][j].0 == id {
                    break;
                }
                j = j + 1;
            }
            let ghost pre = self.bid_levels@;
            let ghost pre_orders = self.orders@;
            proof {
                lemma_bids_flat_distinct(pre, pre_orders, 65535);
                lemma_bids_flat_registered(pre, pre_orders, 65535);
                lemma_asks_flat_registered(self.ask_levels@, pre_orders, 0);
                lemma_bids_flat_covers(pre, 65535, pi as int, j as int);
                let v = bids_flat(pre, 65535);
                let k = choose|k: int|
                    0 <= k < v.len() && (#[trigger] v[k]) == level_views(pre[pi as int]@, pi as u16)[
                        j as int
                    ];
                assert(v[k].id == id);
                assert(contains_id(old(self).bids_view(), id));
                lemma_last_id_index_props(v, id);
                let l = last_id_index(v, id);
                assert(l >= 0 && v[l].id == id);
                assert(l == k);
                assert(v[l].quantity == pre[pi as int]@[j as int].1);
                if contains_id(old(self).asks_view(), id) {
                    let t = choose|t: int|
                        0 <= t < old(self).asks_view().len() && old(self).asks_view()[t].id == id;
                    assert(pre_orders[old(self).asks_view()[t].id].is_buy == false);
                    assert(false);
                }
            }
            let e = self.bid_levels[pi][j];
            if 0 < quantity && quantity < e.1 {
                level_set_at(&mut self.bid_levels, pi, j, (id, quantity));
                proof {
                    lemma_bids_flat_set(pre, self.bid_levels@, pi as int, j as int, (id, quantity), 65535);
                    let v = bids_flat(pre, 65535);
                    let k = choose|k: int|
                        0 <= k < v.len() && (#[trigger] v[k]) == level_views(
                            pre[pi as int]@,
                            pi as u16,
                        )[j as int] && bids_flat(self.bid_levels@, 65535) == v.update(
                            k,
                            OrderView { id, quantity, price: (pi as u16) as u64 },
                        );
                    assert(k == last_id_index(v, id));
                    assert forall|k2: u64| #[trigger] self.orders@.contains_key(k2) implies {
                        let info2 = self.orders@[k2];
                        if info2.is_buy {
                            exists|i: int|
                                0 <= i < self.bid_levels@[info2.price as int]@.len() && (
                                #[trigger] self.bid_levels@[info2.price as int]@[i]).0 == k2
                        } else {
                            exists|i: int|
                                0 <= i < self.ask_levels@[info2.price as int]@.len() && (
                                #[trigger] self.ask_levels@[info2.price as int]@[i]).0 == k2
                        }
                    } by {
                        let info2 = self.orders@[k2];
                        if !info2.is_buy {
                            let t = choose|i: int|
                                0 <= i < self.ask_levels@[info2.price as int]@.len() && (
                                #[trigger] self.ask_levels@[info2.price as int]@[i]).0 == k2;
                            assert((self.ask_levels@[info2.price as int]@[t]).0 == k2);
                        } else if info2.price as int == pi as int {
                            let t = choose|i: int|
                                0 <= i < pre[pi as int]@.len() && (#[trigger] pre[pi as int]@[i]).0
                                    == k2;
                            assert(self.bid_levels@[pi as int]@[t] == (if t == j {
                                (id, quantity)
                            } else {
                                pre[pi as int]@[t]
                            }));
                            assert((self.bid_levels@[pi as int]@[t]).0 == k2);
                        } else {
                            assert(self.bid_levels@[info2.price as int]@ == pre[info2.price as int]@);
                            let t = choose|i: int|
                                0 <= i < pre[info2.price as int]@.len() && (
                                #[trigger] pre[info2.price as int]@[i]).0 == k2;
                            assert((self.bid_levels@[info2.price as int]@[t]).0 == k2);
                        }
                    }
                    assert(self.wf());
                }
                true
            } else {
                false
            }
        } else {
            let n = self.ask_levels[pi].len();
            let mut j: usize = 0;
            proof {
                assert(self.orders@.contains_key(id));
            }
            while j < n
                invariant
                    j <= n,
                    pi < self.ask_levels@.len(),
                    n == self.ask_levels@[pi as int]@.len(),
                    exists|t: int|
                        j <= t < n && (#[trigger] self.ask_levels@[pi as int]@[t]).0 == id,
                ensures
                    j < n,
                    self.ask_levels@[pi as int]@[j as int].0 == id,
                decreases n - j,
            {
                if self.ask_levels[pi][j].0 == id {
                    break;
                }
                j = j + 1;
            }
            let ghost pre = self.ask_levels@;
            let ghost pre_orders = self.orders@;
            proof {
                lemma_asks_flat_distinct(pre, pre_orders, 0);
                lemma_asks_flat_registered(pre, pre_orders, 0);
                lemma_bids_flat_registered(self.bid_levels@, pre_orders, 65535);
                lemma_asks_flat_covers(pre, 0, pi as int, j as int);
                let v = asks_flat(pre, 0);
                let k = choose|k: int|
                    0 <= k < v.len() && (#[trigger] v[k]) == level_views(pre[pi as int]@, pi as u16)[
                        j as int
                    ];
                assert(v[k].id == id);
                assert(contains_id(old(self).asks_view(), id));
                lemma_last_id_index_props(v, id);
                let l = last_id_index(v, id);
                assert(l >= 0 && v[l].id == id);
                assert(l == k);
                assert(v[l].quantity == pre[pi as int]@[j as int].1);
                if contains_id(old(self).bids_view(), id) {
                    let t = choose|t: int|
                        0 <= t < old(self).bids_view().len() && old(self).bids_view()[t].id == id;
                    assert(pre_orders[old(self).bids_view()[t].id].is_buy == true);
                    assert(false);
                }
            }
            let e = self.ask_levels[pi][j];
            if 0 < quantity && quantity < e.1 {
                level_set_at(&mut self.ask_levels, pi, j, (id, quantity));
                proof {
                    lemma_asks_flat_set(pre, self.ask_levels@, pi as int, j as int, (id, quantity), 0);
                    let v = asks_flat(pre, 0);
                    let k = choose|k: int|
                        0 <= k < v.len() && (#[trigger] v[k]) == level_views(
                            pre[pi as int]@,
                            pi as u16,
                        )[j as int] && asks_flat(self.ask_levels@, 0) == v.update(
                            k,
                            OrderView { id, quantity, price: (pi as u16) as u64 },
                        );
                    assert(k == last_id_index(v, id));
                    assert forall|k2: u64| #[trigger] self.orders@.contains_key(k2) implies {
                        let info2 = self.orders@[k2];
                        if info2.is_buy {
                            exists|i: int|
                                0 <= i < self.bid_levels@[info2.price as int]@.len() && (
                                #[trigger] self.bid_levels@[info2.price as int]@[i]).0 == k2
                        } else {
                            exists|i: int|
                                0 <= i < self.ask_levels@[info2.price as int]@.len() && (
                                #[trigger] self.ask_levels@[info2.price as int]@[i]).0 == k2
                        }
                    } by {
                        let info2 = self.orders@[k2];
                        if info2.is_buy {
                            let t = choose|i: int|
                                0 <= i < self.bid_levels@[info2.price as int]@.len() && (
                                #[trigger] self.bid_levels@[info2.price as int]@[i]).0 == k2;
                            assert((self.bid_levels@[info2.price as int]@[t]).0 == k2);
                        } else if info2.price as int == pi as int {
                            let t = choose|i: int|
                                0 <= i < pre[pi as int]@.len() && (#[trigger] pre[pi as int]@[i]).0
                                    == k2;
                            assert(self.ask_levels@[pi as int]@[t] == (if t == j {
                                (id, quantity)
                            } else {
                                pre[pi as int]@[t]
                            }));
                            assert((self.ask_levels@[pi as int]@[t]).0 == k2);
                        } else {
                            assert(self.ask_levels@[info2.price as int]@ == pre[info2.price as int]@);
                            let t = choose|i: int|
                                0 <= i < pre[info2.price as int]@.len() && (
                                #[trigger] pre[info2.price as int]@[i]).0 == k2;
                            assert((self.ask_levels@[info2.price as int]@[t]).0 == k2);
                        }
                    }
                    assert(self.wf());
                }
                true
            } else {
                false
            }
        }
    }

    /// Returns the number of orders in the book.
    pub fn len(&self) -> (r: usize)
        requires
            self.wf(),
        ensures
            r == self.order_count(),
    {
        self.count
    }

    /// Returns `true` if the book contains no orders.
    pub fn is_empty(&self) -> (r: bool)
        requires
            self.wf(),
        ensures
            r <==> self.order_count() == 0,
    {
        self.count == 0
    }

    /// What well-formedness means for the views: both sides are in
    /// best-first priority order, every resting quantity is positive,
    /// and no id rests twice, on one side or across the two.
    pub proof fn lemma_wf_views(&self)
        requires
            self.wf(),
        ensures
            sorted_best_first(self.bids_view(), true),
            sorted_best_first(self.asks_view(), false),
            all_positive(self.bids_view()),
            all_positive(self.asks_view()),
            forall|k1: int, k2: int|
                #![trigger self.bids_view()[k1], self.bids_view()[k2]]
                0 <= k1 < k2 < self.bids_view().len() ==> self.bids_view()[k1].id
                    != self.bids_view()[k2].id,
            forall|k1: int, k2: int|
                #![trigger self.asks_view()[k1], self.asks_view()[k2]]
                0 <= k1 < k2 < self.asks_view().len() ==> self.asks_view()[k1].id
                    != self.asks_view()[k2].id,
            forall|k1: int, k2: int|
                #![trigger self.bids_view()[k1], self.asks_view()[k2]]
                0 <= k1 < self.bids_view().len() && 0 <= k2 < self.asks_view().len()
                    ==> self.bids_view()[k1].id != self.asks_view()[k2].id,
    {
        lemma_bids_flat_sorted(self.bid_levels@, 65535);
        lemma_asks_flat_sorted(self.ask_levels@, 0);
        lemma_bids_flat_positive(self.bid_levels@, 65535);
        lemma_asks_flat_positive(self.ask_levels@, 0);
        lemma_bids_flat_distinct(self.bid_levels@, self.orders@, 65535);
        lemma_asks_flat_distinct(self.ask_levels@, self.orders@, 0);
        lemma_bids_flat_registered(self.bid_levels@, self.orders@, 65535);
        lemma_asks_flat_registered(self.ask_levels@, self.orders@, 0);
        assert forall|k1: int, k2: int|
            0 <= k1 < self.bids_view().len() && 0 <= k2 < self.asks_view().len() implies (
        #[trigger] self.bids_view()[k1]).id != (#[trigger] self.asks_view()[k2]).id by {
            if self.bids_view()[k1].id == self.asks_view()[k2].id {
                assert(self.orders@[self.bids_view()[k1].id].is_buy == true);
                assert(self.orders@[self.asks_view()[k2].id].is_buy == false);
            }
        }
    }
}

impl std::default::Default for OrderBook {
    /// An empty book over the full price domain.
    fn default() -> (r: Self)
        ensures
            r.wf(),
            r.bids_view() == Seq::<OrderView>::empty(),
            r.asks_view() == Seq::<OrderView>::empty(),
    {
        let mut bid_levels: Vec<Vec<LevelEntry>> = Vec::new();
        let mut ask_levels: Vec<Vec<LevelEntry>> = Vec::new();
        let mut i: usize = 0;
        while i < 65536
            invariant
                i <= 65536,
                bid_levels@.len() == i,
                ask_levels@.len() == i,
                forall|r: int| 0 <= r < i ==> (#[trigger] bid_levels@[r]@).len() == 0,
                forall|r: int| 0 <= r < i ==> (#[trigger] ask_levels@[r]@).len() == 0,
            decreases 65536 - i,
        {
            bid_levels.push(Vec::new());
            ask_levels.push(Vec::new());
            i = i + 1;
        }
        let r = OrderBook {
            orders: HashMap::new(),
            bid_levels,
            ask_levels,
            bid: 0,
            ask: MAX_PRICE,
            count: 0,
        };
        proof {
            lemma_bids_flat_skip_to(r.bid_levels@, 65535, -1);
            lemma_asks_flat_skip_to(r.ask_levels@, 0, 65536);
        }
        r
    }
}

} // verus!
