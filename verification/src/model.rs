//! The mathematical model of the book.
//!
//! A side of the book is modelled as one flat sequence of open orders in
//! matching priority order: ascending by price for asks, descending for
//! bids, first-come-first-served within a price. `match_step` is the
//! reference definition of matching: it walks that sequence from the
//! front and says exactly which orders fill, what the id index becomes,
//! and what the taker has left. Every mutating operation of the book is
//! specified against these functions.
use vstd::prelude::*;
use crate::amount::Amount;
use crate::types::{IndexEntry, OpenOrder, Side};

verus! {

/// True when an order priced `a` may stand ahead of one priced `b` on
/// `side`: cheaper-or-equal first for asks, dearer-or-equal first for bids.
pub open spec fn priority_le(side: Side, a: Amount, b: Amount) -> bool {
    match side {
        Side::Asks => a.units <= b.units,
        Side::Bids => a.units >= b.units,
    }
}

/// True when a maker order priced `maker_price` is matchable by a taker on
/// side `taker` bounded by `limit`. A market order (`limit == None`)
/// matches any price; a bid matches makers at or below its limit, an ask
/// matches makers at or above it.
pub open spec fn price_crosses(taker: Side, limit: Option<Amount>, maker_price: Amount) -> bool {
    match limit {
        Option::None => true,
        Option::Some(l) => match taker {
            Side::Bids => maker_price.units <= l.units,
            Side::Asks => maker_price.units >= l.units,
        },
    }
}

/// What a resting order must satisfy: positive price and quantity, and
/// strictly unfilled (fully matched orders leave the queues).
pub open spec fn queue_order_wf(o: OpenOrder) -> bool {
    &&& o.price.units > 0
    &&& o.quantity.units > 0
    &&& o.quantity_filled.units < o.quantity.units
}

/// True when the id index holds exactly `o` under `o.order_id`, marked
/// resting.
pub open spec fn in_map(map: Seq<IndexEntry>, o: OpenOrder) -> bool {
    &&& 1 <= o.order_id <= map.len()
    &&& map[o.order_id - 1].resting
    &&& map[o.order_id - 1].order == o
}

/// Well-formedness of one side queue against the id index: every entry is
/// a valid resting order of that side, is mirrored in the index, and the
/// queue is sorted by matching priority.
pub open spec fn side_wf(s: Seq<OpenOrder>, side: Side, map: Seq<IndexEntry>) -> bool {
    &&& forall|i: int| 0 <= i < s.len() ==> queue_order_wf(#[trigger] s[i])
    &&& forall|i: int| 0 <= i < s.len() ==> (#[trigger] s[i]).side == side
    &&& forall|i: int| 0 <= i < s.len() ==> in_map(map, #[trigger] s[i])
    &&& side_sorted(s, side)
}

/// The queue is sorted by matching priority (ties keep arrival order, so
/// equal prices are allowed in either direction of the comparison).
pub open spec fn side_sorted(s: Seq<OpenOrder>, side: Side) -> bool {
    forall|i: int, j: int|
        0 <= i < j < s.len() ==> priority_le(side, (#[trigger] s[i]).price, (#[trigger] s[j]).price)
}

/// No two entries of the queue carry the same order id.
pub open spec fn ids_distinct(s: Seq<OpenOrder>) -> bool {
    forall|i: int, j: int|
        0 <= i < j < s.len() ==> (#[trigger] s[i]).order_id != (#[trigger] s[j]).order_id
}

/// True when some entry of the queue carries `id`.
pub open spec fn id_in_seq(s: Seq<OpenOrder>, id: u64) -> bool {
    exists|i: int| 0 <= i < s.len() && (#[trigger] s[i]).order_id == id
}

/// True when `o` itself is an entry of the queue.
pub open spec fn appears(s: Seq<OpenOrder>, o: OpenOrder) -> bool {
    exists|i: int| 0 <= i < s.len() && #[trigger] s[i] == o
}

/// Well-formedness of the id index itself: the slot at position `i` holds
/// the order with id `i + 1`, fills never exceed the quantity, and a
/// resting order is strictly unfilled.
pub open spec fn map_wf(map: Seq<IndexEntry>) -> bool {
    forall|i: int|
        0 <= i < map.len() ==> {
            let e = #[trigger] map[i];
            &&& e.order.order_id == i + 1
            &&& e.order.price.units > 0
            &&& e.order.quantity.units > 0
            &&& e.order.quantity_filled.units <= e.order.quantity.units
            &&& (e.resting ==> e.order.quantity_filled.units < e.order.quantity.units)
        }
}

/// `o` filled up to its full quantity.
pub open spec fn fully_filled(o: OpenOrder) -> OpenOrder {
    OpenOrder { quantity_filled: o.quantity, ..o }
}

/// `o` with `take` more units filled.
pub open spec fn filled_by(o: OpenOrder, take: int) -> OpenOrder {
    OpenOrder { quantity_filled: Amount { units: (o.quantity_filled.units + take) as u64 }, ..o }
}

/// The outcome of a matching walk: the surviving maker queue, the updated
/// id index, what the taker still wants, and the sum and count of the
/// prices of the maker orders it touched (one entry per touched order, for
/// the equal-weighted average a market order reports).
#[verifier::ext_equal]
pub struct MatchState {
    pub makers: Seq<OpenOrder>,
    pub map: Seq<IndexEntry>,
    pub remaining: int,
    pub fill_sum: int,
    pub fill_count: int,
}

/// The reference definition of matching. Walks the maker queue from the
/// front while the taker wants more and the front still crosses `limit`:
/// a maker with no more than the taker's remainder is consumed whole and
/// leaves the queue (its index slot becomes fully filled, not resting); a
/// larger maker absorbs the whole remainder in place. Each touched maker
/// contributes its price once to `fill_sum`/`fill_count`.
pub open spec fn match_step(
    makers: Seq<OpenOrder>,
    map: Seq<IndexEntry>,
    taker: Side,
    limit: Option<Amount>,
    remaining: int,
    fill_sum: int,
    fill_count: int,
) -> MatchState
    decreases makers.len(),
{
    if remaining <= 0 || makers.len() == 0 || !price_crosses(taker, limit, makers[0].price) {
        MatchState { makers, map, remaining, fill_sum, fill_count }
    } else {
        let o = makers[0];
        let avail = o.remaining();
        if remaining >= avail {
            match_step(
                makers.drop_first(),
                map.update(o.order_id - 1, IndexEntry { order: fully_filled(o), resting: false }),
                taker,
                limit,
                remaining - avail,
                fill_sum + o.price.units,
                fill_count + 1,
            )
        } else {
            let o2 = filled_by(o, remaining);
            MatchState {
                makers: makers.update(0, o2),
                map: map.update(o.order_id - 1, IndexEntry { order: o2, resting: true }),
                remaining: 0,
                fill_sum: fill_sum + o.price.units,
                fill_count: fill_count + 1,
            }
        }
    }
}

/// How one slot of the id index may change under a matching walk: it
/// keeps its identity, only gains fill, and never starts resting again.
pub open spec fn slot_evolves(e0: IndexEntry, e1: IndexEntry) -> bool {
    &&& e1.order.order_id == e0.order.order_id
    &&& e1.order.price == e0.order.price
    &&& e1.order.side == e0.order.side
    &&& e1.order.user_id == e0.order.user_id
    &&& e1.order.quantity == e0.order.quantity
    &&& e1.order.quantity_filled.units >= e0.order.quantity_filled.units
    &&& (e1.resting ==> e0.resting)
}

/// How a maker order may change while staying at the front of the walk:
/// identity kept, fill advanced.
pub open spec fn front_evolves(o: OpenOrder, f: OpenOrder) -> bool {
    &&& f.order_id == o.order_id
    &&& f.price == o.price
    &&& f.side == o.side
    &&& f.user_id == o.user_id
    &&& f.quantity == o.quantity
    &&& f.quantity_filled.units >= o.quantity_filled.units
}

/// The shape of a matching walk from `(m0, map0)` to `(m1, map1)`: the
/// survivors are a suffix of the old maker queue with only the front's
/// fill advanced, consumed makers are no longer marked resting, slots of
/// ids outside the maker queue are untouched, and every slot evolves.
pub open spec fn walk_rel(
    m0: Seq<OpenOrder>,
    map0: Seq<IndexEntry>,
    m1: Seq<OpenOrder>,
    map1: Seq<IndexEntry>,
) -> bool {
    &&& map1.len() == map0.len()
    &&& m1.len() <= m0.len()
    &&& forall|i: int|
        0 <= i < map0.len() && !id_in_seq(m0, (i + 1) as u64) ==> #[trigger] map1[i] == map0[i]
    &&& forall|i: int| 0 <= i < map0.len() ==> slot_evolves(map0[i], #[trigger] map1[i])
    &&& forall|i: int| 1 <= i < m1.len() ==> #[trigger] m1[i] == m0[m0.len() - m1.len() + i]
    &&& (m1.len() > 0 ==> front_evolves(m0[m0.len() - m1.len()], m1[0]))
    &&& forall|j: int|
        0 <= j < m0.len() - m1.len() ==> !map1[(#[trigger] m0[j]).order_id - 1].resting
}

/// The ask side stands strictly above the bid side, phrased over an
/// (own, opposite) pair of queues for an order on side `own_side`.
pub open spec fn pair_uncrossed(own_side: Side, own: Seq<OpenOrder>, opp: Seq<OpenOrder>) -> bool {
    match own_side {
        Side::Bids => own.len() > 0 && opp.len() > 0 ==> opp[0].price.units > own[0].price.units,
        Side::Asks => own.len() > 0 && opp.len() > 0 ==> own[0].price.units > opp[0].price.units,
    }
}

/// No order id appears in both queues.
pub open spec fn pair_disjoint(a: Seq<OpenOrder>, b: Seq<OpenOrder>) -> bool {
    forall|i: int, j: int|
        0 <= i < a.len() && 0 <= j < b.len() ==> (#[trigger] a[i]).order_id != (
        #[trigger] b[j]).order_id
}

/// Every resting slot of the id index appears in its queue: `own` for
/// orders on `own_side`, `opp` for the others.
pub open spec fn pair_resting(
    own_side: Side,
    own: Seq<OpenOrder>,
    opp: Seq<OpenOrder>,
    map: Seq<IndexEntry>,
) -> bool {
    forall|k: int|
        0 <= k < map.len() && (#[trigger] map[k]).resting ==> appears(
            if map[k].order.side == own_side {
                own
            } else {
                opp
            },
            map[k].order,
        )
}

/// Where an order priced `price` goes on `side`: after every entry with
/// priority at or ahead of it, so a new order joins the tail of its own
/// price level.
pub open spec fn insert_pos(s: Seq<OpenOrder>, side: Side, price: Amount) -> int
    decreases s.len(),
{
    if s.len() == 0 {
        0
    } else if priority_le(side, s[0].price, price) {
        1 + insert_pos(s.drop_first(), side, price)
    } else {
        0
    }
}

/// The queue with `o` rested at its price-time position.
pub open spec fn insert_order(s: Seq<OpenOrder>, o: OpenOrder) -> Seq<OpenOrder> {
    s.insert(insert_pos(s, o.side, o.price), o)
}

/// The queue with the (first) entry carrying `id` removed.
pub open spec fn remove_id(s: Seq<OpenOrder>, id: u64) -> Seq<OpenOrder>
    decreases s.len(),
{
    if s.len() == 0 {
        s
    } else if s[0].order_id == id {
        s.drop_first()
    } else {
        seq![s[0]] + remove_id(s.drop_first(), id)
    }
}

/// The queue with the (first) entry carrying `id` replaced by `o`, in
/// place: the entry keeps its queue position.
pub open spec fn replace_id(s: Seq<OpenOrder>, id: u64, o: OpenOrder) -> Seq<OpenOrder>
    decreases s.len(),
{
    if s.len() == 0 {
        s
    } else if s[0].order_id == id {
        s.update(0, o)
    } else {
        seq![s[0]] + replace_id(s.drop_first(), id, o)
    }
}

/// Total unfilled units resting in the queue.
pub open spec fn sum_remaining(s: Seq<OpenOrder>) -> int
    decreases s.len(),
{
    if s.len() == 0 {
        0
    } else {
        s[0].remaining() + sum_remaining(s.drop_first())
    }
}

/// Length of the leading run of entries sharing the front's price: the
/// size of the first price level of the queue.
pub open spec fn run_len(s: Seq<OpenOrder>) -> nat
    decreases s.len(),
{
    if s.len() == 0 {
        0
    } else if s.len() == 1 || s[1].price != s[0].price {
        1
    } else {
        1 + run_len(s.drop_first())
    }
}

/// `v` capped at the largest representable amount.
pub open spec fn clamp_units(v: int) -> u64 {
    if v > u64::MAX {
        u64::MAX
    } else {
        v as u64
    }
}

/// The depth snapshot of one side: one row per price level (maximal run of
/// one price) with the level's aggregate unfilled quantity, capped at the
/// largest representable amount, and its order count.
pub open spec fn depth_rows(s: Seq<OpenOrder>) -> Seq<crate::types::Order>
    decreases s.len(),
        via depth_rows_decreases
{
    if s.len() == 0 {
        Seq::empty()
    } else {
        let r = run_len(s) as int;
        seq![
            crate::types::Order {
                price: s[0].price,
                quantity: Amount { units: clamp_units(sum_remaining(s.take(r))) },
                order_count: r as u64,
            },
        ] + depth_rows(s.skip(r))
    }
}

#[via_fn]
proof fn depth_rows_decreases(s: Seq<OpenOrder>) {
    lemma_run_len_bounds(s);
}

/// The leading run is non-empty on a non-empty queue and never longer than
/// the queue.
pub proof fn lemma_run_len_bounds(s: Seq<OpenOrder>)
    ensures
        s.len() == 0 ==> run_len(s) == 0,
        s.len() > 0 ==> 1 <= run_len(s) <= s.len(),
    decreases s.len(),
{
    if s.len() > 1 && s[1].price == s[0].price {
        lemma_run_len_bounds(s.drop_first());
    }
}

/// The leading run is exactly the prefix of length `r` when everything in
/// it shares the front price and position `r` (if any) breaks it.
pub proof fn lemma_run_len_is(s: Seq<OpenOrder>, r: int)
    requires
        0 < r <= s.len(),
        forall|m: int| 0 <= m < r ==> (#[trigger] s[m]).price == s[0].price,
        r < s.len() ==> s[r].price != s[0].price,
    ensures
        run_len(s) == r,
    decreases s.len(),
{
    if r > 1 {
        let t = s.drop_first();
        assert forall|m: int| 0 <= m < r - 1 implies (#[trigger] t[m]).price == t[0].price by {
            assert(t[m] == s[m + 1]);
            assert(t[0] == s[1]);
        }
        lemma_run_len_is(t, r - 1);
    }
}

/// Extending a prefix by one adds that entry's remainder to its sum.
pub proof fn lemma_sum_take_succ(s: Seq<OpenOrder>, k: int)
    requires
        0 <= k < s.len(),
    ensures
        sum_remaining(s.take(k + 1)) == sum_remaining(s.take(k)) + s[k].remaining(),
    decreases k,
{
    if k == 0 {
        assert(s.take(1) =~= seq![s[0]]);
        assert(s.take(1).drop_first() =~= Seq::<OpenOrder>::empty());
        assert(s.take(0) =~= Seq::<OpenOrder>::empty());
    } else {
        let t = s.drop_first();
        lemma_sum_take_succ(t, k - 1);
        assert(s.take(k + 1).drop_first() =~= t.take(k));
        assert(s.take(k).drop_first() =~= t.take(k - 1));
        assert(sum_remaining(s.take(k + 1)) == s[0].remaining() + sum_remaining(t.take(k)));
        assert(sum_remaining(s.take(k)) == s[0].remaining() + sum_remaining(t.take(k - 1)));
        assert(t[k - 1] == s[k]);
    }
}

/// Every entry's remainder is bounded by the whole queue's total, and the
/// total of a queue of orders below `cap` remaining each is at most
/// `len * cap`.
pub proof fn lemma_sum_remaining_bound(s: Seq<OpenOrder>, cap: int)
    requires
        forall|i: int| 0 <= i < s.len() ==> 0 <= (#[trigger] s[i]).remaining() <= cap,
        cap >= 0,
    ensures
        0 <= sum_remaining(s),
        sum_remaining(s) <= s.len() * cap,
    decreases s.len(),
{
    if s.len() > 0 {
        let t = s.drop_first();
        assert forall|i: int| 0 <= i < t.len() implies 0 <= (#[trigger] t[i]).remaining() <= cap by {
            assert(t[i] == s[i + 1]);
        }
        lemma_sum_remaining_bound(t, cap);
        assert(s.len() * cap == t.len() * cap + cap) by (nonlinear_arith)
            requires
                s.len() == t.len() + 1,
        ;
    }
}

/// Removing one position of a sorted queue keeps it sorted; distinct ids
/// and membership of the other entries are kept as well.
pub proof fn lemma_remove_keeps_side(s: Seq<OpenOrder>, side: Side, i: int)
    requires
        0 <= i < s.len(),
        side_sorted(s, side),
        ids_distinct(s),
    ensures
        side_sorted(s.remove(i), side),
        ids_distinct(s.remove(i)),
        forall|x: OpenOrder|
            appears(s, x) && x.order_id != s[i].order_id ==> appears(#[trigger] s.remove(i), x),
{
    let t = s.remove(i);
    assert forall|a: int, b: int| 0 <= a < b < t.len() implies priority_le(
        side,
        (#[trigger] t[a]).price,
        (#[trigger] t[b]).price,
    ) && t[a].order_id != t[b].order_id by {
        let a0 = if a < i {
            a
        } else {
            a + 1
        };
        let b0 = if b < i {
            b
        } else {
            b + 1
        };
        assert(t[a] == s[a0]);
        assert(t[b] == s[b0]);
    }
    assert forall|x: OpenOrder| appears(s, x) && x.order_id != s[i].order_id implies appears(
        #[trigger] s.remove(i),
        x,
    ) by {
        let j = choose|j: int| 0 <= j < s.len() && s[j] == x;
        if j < i {
            assert(t[j] == s[j]);
        } else {
            assert(j != i);
            assert(t[j - 1] == s[j]);
        }
    }
}

/// Removing the (unique) entry carrying `id` at position `i` is what
/// `remove_id` denotes.
pub proof fn lemma_remove_id_at(s: Seq<OpenOrder>, id: u64, i: int)
    requires
        0 <= i < s.len(),
        s[i].order_id == id,
        forall|j: int| 0 <= j < i ==> (#[trigger] s[j]).order_id != id,
    ensures
        remove_id(s, id) == s.remove(i),
    decreases i,
{
    if i == 0 {
        assert(s.remove(0) =~= s.drop_first());
    } else {
        let t = s.drop_first();
        assert(t[i - 1] == s[i]);
        assert forall|j: int| 0 <= j < i - 1 implies (#[trigger] t[j]).order_id != id by {
            assert(t[j] == s[j + 1]);
        }
        lemma_remove_id_at(t, id, i - 1);
        assert(remove_id(s, id) == seq![s[0]] + t.remove(i - 1));
        assert(seq![s[0]] + t.remove(i - 1) =~= s.remove(i));
    }
}

/// Replacing the (unique) entry carrying `id` at position `i` is what
/// `replace_id` denotes.
pub proof fn lemma_replace_id_at(s: Seq<OpenOrder>, id: u64, o: OpenOrder, i: int)
    requires
        0 <= i < s.len(),
        s[i].order_id == id,
        forall|j: int| 0 <= j < i ==> (#[trigger] s[j]).order_id != id,
    ensures
        replace_id(s, id, o) == s.update(i, o),
    decreases i,
{
    if i > 0 {
        let t = s.drop_first();
        assert(t[i - 1] == s[i]);
        assert forall|j: int| 0 <= j < i - 1 implies (#[trigger] t[j]).order_id != id by {
            assert(t[j] == s[j + 1]);
        }
        lemma_replace_id_at(t, id, o, i - 1);
        assert(replace_id(s, id, o) == seq![s[0]] + t.update(i - 1, o));
        assert(seq![s[0]] + t.update(i - 1, o) =~= s.update(i, o));
    }
}

/// The insertion point lies within the queue, everything before it has
/// priority at or ahead of `price`, and the entry at it (if any) does not.
pub proof fn lemma_insert_pos_props(s: Seq<OpenOrder>, side: Side, price: Amount)
    ensures
        0 <= insert_pos(s, side, price) <= s.len(),
        forall|j: int|
            0 <= j < insert_pos(s, side, price) ==> priority_le(
                side,
                (#[trigger] s[j]).price,
                price,
            ),
        insert_pos(s, side, price) < s.len() ==> !priority_le(
            side,
            s[insert_pos(s, side, price)].price,
            price,
        ),
    decreases s.len(),
{
    if s.len() > 0 && priority_le(side, s[0].price, price) {
        let t = s.drop_first();
        lemma_insert_pos_props(t, side, price);
        assert forall|j: int| 0 <= j < insert_pos(s, side, price) implies priority_le(
            side,
            (#[trigger] s[j]).price,
            price,
        ) by {
            if j > 0 {
                assert(t[j - 1] == s[j]);
            }
        }
        if insert_pos(s, side, price) < s.len() {
            assert(t[insert_pos(t, side, price)] == s[insert_pos(s, side, price)]);
        }
    }
}

/// The maximal prefix with priority at or ahead of `price` is the
/// insertion point.
pub proof fn lemma_insert_pos_is(s: Seq<OpenOrder>, side: Side, price: Amount, i: int)
    requires
        0 <= i <= s.len(),
        forall|j: int| 0 <= j < i ==> priority_le(side, (#[trigger] s[j]).price, price),
        i < s.len() ==> !priority_le(side, s[i].price, price),
    ensures
        insert_pos(s, side, price) == i,
    decreases i,
{
    if i == 0 {
    } else {
        let t = s.drop_first();
        assert forall|j: int| 0 <= j < i - 1 implies priority_le(
            side,
            (#[trigger] t[j]).price,
            price,
        ) by {
            assert(t[j] == s[j + 1]);
        }
        if i - 1 < t.len() {
            assert(t[i - 1] == s[i]);
        }
        lemma_insert_pos_is(t, side, price, i - 1);
    }
}

/// Resting an order of the right side at its insertion point keeps the
/// queue sorted, keeps ids distinct when the new id is fresh, and keeps
/// every old entry present alongside the new one.
pub proof fn lemma_insert_keeps_side(s: Seq<OpenOrder>, side: Side, o: OpenOrder)
    requires
        side_sorted(s, side),
        ids_distinct(s),
        o.side == side,
        !id_in_seq(s, o.order_id),
    ensures
        side_sorted(insert_order(s, o), side),
        ids_distinct(insert_order(s, o)),
        appears(insert_order(s, o), o),
        forall|x: OpenOrder| appears(s, x) ==> appears(#[trigger] insert_order(s, o), x),
        insert_order(s, o).len() == s.len() + 1,
{
    let p = insert_pos(s, side, o.price);
    lemma_insert_pos_props(s, side, o.price);
    let t = s.insert(p, o);
    assert(t[p] == o);
    assert forall|a: int, b: int| 0 <= a < b < t.len() implies priority_le(
        side,
        (#[trigger] t[a]).price,
        (#[trigger] t[b]).price,
    ) && t[a].order_id != t[b].order_id by {
        if a < p && b < p {
            assert(t[a] == s[a] && t[b] == s[b]);
        } else if a < p && b == p {
            assert(t[a] == s[a]);
        } else if a < p && b > p {
            assert(t[a] == s[a] && t[b] == s[b - 1]);
        } else if a == p && b > p {
            assert(t[b] == s[b - 1]);
            assert(!priority_le(side, s[p].price, o.price));
            assert(priority_le(side, o.price, s[b - 1].price));
        } else {
            assert(a > p && b > p);
            assert(t[a] == s[a - 1] && t[b] == s[b - 1]);
        }
    }
    assert forall|x: OpenOrder| appears(s, x) implies appears(#[trigger] insert_order(s, o), x) by {
        let j = choose|j: int| 0 <= j < s.len() && s[j] == x;
        if j < p {
            assert(t[j] == s[j]);
        } else {
            assert(t[j + 1] == s[j]);
        }
    }
}

/// After a walk on the opposite side and the push of the fresh order's
/// slot, the index and both queues are well formed again.
pub proof fn lemma_admit_sides(
    own_side: Side,
    own0: Seq<OpenOrder>,
    m0: Seq<OpenOrder>,
    map0: Seq<IndexEntry>,
    m1: Seq<OpenOrder>,
    map1: Seq<IndexEntry>,
    ownf: Seq<OpenOrder>,
    mapf: Seq<IndexEntry>,
    open: OpenOrder,
    rested: bool,
)
    requires
        side_wf(own0, own_side, map0),
        side_wf(m1, own_side.opposite_spec(), map1),
        ids_distinct(own0),
        map_wf(map0),
        map_wf(map1),
        map1.len() == map0.len(),
        forall|i: int|
            0 <= i < map0.len() && !id_in_seq(m0, (i + 1) as u64) ==> #[trigger] map1[i]
                == map0[i],
        pair_disjoint(own0, m0),
        mapf == map1.push(IndexEntry { order: open, resting: rested }),
        open.side == own_side,
        open.order_id == map0.len() + 1,
        open.price.units > 0,
        open.quantity.units > 0,
        open.quantity_filled.units <= open.quantity.units,
        rested ==> open.quantity_filled.units < open.quantity.units,
        ownf == if rested {
            insert_order(own0, open)
        } else {
            own0
        },
    ensures
        map_wf(mapf),
        side_wf(m1, own_side.opposite_spec(), mapf),
        side_wf(ownf, own_side, mapf),
        ids_distinct(ownf),
        appears(ownf, open) || !rested,
        forall|x: OpenOrder| appears(own0, x) ==> #[trigger] appears(ownf, x),
{
    assert(map_wf(mapf));
    assert forall|i: int| 0 <= i < m1.len() implies queue_order_wf(#[trigger] m1[i]) && m1[i].side
        == own_side.opposite_spec() && in_map(mapf, m1[i]) by {
        assert(in_map(map1, m1[i]));
    }
    assert forall|j: int| 0 <= j < own0.len() implies (#[trigger] own0[j]).order_id
        < open.order_id by {
        assert(in_map(map0, own0[j]));
    }
    assert forall|j: int| 0 <= j < own0.len() implies map1[(#[trigger] own0[j]).order_id - 1]
        == map0[own0[j].order_id - 1] by {
        if id_in_seq(m0, own0[j].order_id) {
            let w = choose|w: int| 0 <= w < m0.len() && m0[w].order_id == own0[j].order_id;
            assert(own0[j].order_id != m0[w].order_id);
        }
    }
    if rested {
        lemma_insert_keeps_side(own0, own_side, open);
        let p = insert_pos(own0, own_side, open.price);
        lemma_insert_pos_props(own0, own_side, open.price);
        assert forall|i: int| 0 <= i < ownf.len() implies queue_order_wf(#[trigger] ownf[i])
            && ownf[i].side == own_side && in_map(mapf, ownf[i]) by {
            if i < p {
                assert(ownf[i] == own0[i]);
            } else if i == p {
                assert(ownf[i] == open);
                assert(mapf[open.order_id - 1] == (IndexEntry { order: open, resting: rested }));
            } else {
                assert(ownf[i] == own0[i - 1]);
            }
            if i != p {
                assert(in_map(map0, ownf[i]));
            }
        }
    } else {
        assert forall|i: int| 0 <= i < ownf.len() implies queue_order_wf(#[trigger] ownf[i])
            && ownf[i].side == own_side && in_map(mapf, ownf[i]) by {
            assert(in_map(map0, ownf[i]));
        }
    }
}

/// After the walk, the two sides still hold disjoint sets of order ids.
pub proof fn lemma_admit_disjoint(
    own_side: Side,
    own0: Seq<OpenOrder>,
    m0: Seq<OpenOrder>,
    map0: Seq<IndexEntry>,
    m1: Seq<OpenOrder>,
    map1: Seq<IndexEntry>,
    ownf: Seq<OpenOrder>,
    open: OpenOrder,
    rested: bool,
)
    requires
        pair_disjoint(own0, m0),
        side_wf(m0, own_side.opposite_spec(), map0),
        walk_rel(m0, map0, m1, map1),
        open.side == own_side,
        open.order_id == map0.len() + 1,
        ownf == if rested {
            insert_order(own0, open)
        } else {
            own0
        },
    ensures
        pair_disjoint(ownf, m1),
{
    let k = m0.len() - m1.len();
    assert forall|i: int, j: int|
        0 <= i < ownf.len() && 0 <= j < m1.len() implies (#[trigger] ownf[i]).order_id != (
    #[trigger] m1[j]).order_id by {
        assert(m1[j].order_id == m0[k + j].order_id);
        assert(in_map(map0, m0[k + j]));
        if rested {
            let p = insert_pos(own0, own_side, open.price);
            lemma_insert_pos_props(own0, own_side, open.price);
            own0.insert_ensures(p, open);
            if i < p {
                assert(ownf[i] == own0[i]);
            } else if i == p {
                assert(ownf[i] == open);
            } else {
                assert(ownf[i] == own0[i - 1]);
            }
        }
    }
}

/// After the walk and the push, every resting slot of the index still
/// appears in its queue.
pub proof fn lemma_admit_resting(
    own_side: Side,
    own0: Seq<OpenOrder>,
    m0: Seq<OpenOrder>,
    map0: Seq<IndexEntry>,
    m1: Seq<OpenOrder>,
    map1: Seq<IndexEntry>,
    ownf: Seq<OpenOrder>,
    mapf: Seq<IndexEntry>,
    open: OpenOrder,
    rested: bool,
)
    requires
        pair_resting(own_side, own0, m0, map0),
        map_wf(map0),
        walk_rel(m0, map0, m1, map1),
        side_wf(m1, own_side.opposite_spec(), map1),
        side_wf(own0, own_side, map0),
        ids_distinct(m0),
        pair_disjoint(own0, m0),
        mapf == map1.push(IndexEntry { order: open, resting: rested }),
        open.side == own_side,
        open.order_id == map0.len() + 1,
        rested ==> appears(ownf, open),
        forall|x: OpenOrder| appears(own0, x) ==> #[trigger] appears(ownf, x),
    ensures
        pair_resting(own_side, ownf, m1, mapf),
{
    let k = m0.len() - m1.len();
    assert forall|q: int| 0 <= q < mapf.len() && (#[trigger] mapf[q]).resting implies appears(
        if mapf[q].order.side == own_side {
            ownf
        } else {
            m1
        },
        mapf[q].order,
    ) by {
        if q == map1.len() {
            assert(mapf[q].order == open);
        } else {
            assert(mapf[q] == map1[q]);
            assert(slot_evolves(map0[q], map1[q]));
            assert(map0[q].resting);
            assert(map0[q].order.order_id == q + 1);
            if map0[q].order.side == own_side {
                assert(appears(own0, map0[q].order));
                let w = choose|w: int| 0 <= w < own0.len() && own0[w] == map0[q].order;
                assert(own0[w].order_id == q + 1);
                if id_in_seq(m0, (q + 1) as u64) {
                    let v = choose|v: int| 0 <= v < m0.len() && m0[v].order_id == (q + 1) as u64;
                    assert(own0[w].order_id != m0[v].order_id);
                }
                assert(map1[q] == map0[q]);
                assert(appears(ownf, mapf[q].order));
            } else {
                assert(appears(m0, map0[q].order));
                let w = choose|w: int| 0 <= w < m0.len() && m0[w] == map0[q].order;
                assert(m0[w].order_id == q + 1);
                if w < k {
                    assert(!map1[m0[w].order_id - 1].resting);
                } else {
                    assert(0 <= w - k < m1.len());
                    if w - k >= 1 {
                        assert(m1[w - k] == m0[w]);
                    }
                    assert(m1[w - k].order_id == (q + 1) as u64);
                    assert(in_map(map1, m1[w - k]));
                    assert(map1[q].order == m1[w - k]);
                    assert(appears(m1, mapf[q].order));
                }
            }
        }
    }
}

/// After the walk and any resting of the remainder, the book stays
/// uncrossed: the walk stops at the first maker the limit does not cross,
/// and the remainder rests strictly on its own side of that price.
pub proof fn lemma_admit_uncrossed(
    own_side: Side,
    own0: Seq<OpenOrder>,
    m0: Seq<OpenOrder>,
    map0: Seq<IndexEntry>,
    m1: Seq<OpenOrder>,
    map1: Seq<IndexEntry>,
    ownf: Seq<OpenOrder>,
    open: OpenOrder,
    rested: bool,
)
    requires
        pair_uncrossed(own_side, own0, m0),
        side_wf(m0, own_side.opposite_spec(), map0),
        walk_rel(m0, map0, m1, map1),
        rested && m1.len() > 0 ==> !price_crosses(own_side, Some(open.price), m1[0].price),
        open.side == own_side,
        ownf == if rested {
            insert_order(own0, open)
        } else {
            own0
        },
    ensures
        pair_uncrossed(own_side, ownf, m1),
{
    if ownf.len() > 0 && m1.len() > 0 {
        let k = m0.len() - m1.len();
        assert(m1[0].price == m0[k].price);
        assert(priority_le(own_side.opposite_spec(), m0[0].price, m0[k].price));
        if rested {
            let p = insert_pos(own0, own_side, open.price);
            lemma_insert_pos_props(own0, own_side, open.price);
            if p == 0 {
                assert(ownf[0] == open);
            } else {
                assert(ownf[0] == own0[0]);
            }
        }
    }
}

/// The touch count of a walk never decreases, and a walk that can match
/// at all touches at least one maker.
pub proof fn lemma_match_step_count(
    makers: Seq<OpenOrder>,
    map: Seq<IndexEntry>,
    taker: Side,
    limit: Option<Amount>,
    remaining: int,
    fill_sum: int,
    fill_count: int,
)
    ensures
        match_step(makers, map, taker, limit, remaining, fill_sum, fill_count).fill_count
            >= fill_count,
        remaining > 0 && makers.len() > 0 && price_crosses(taker, limit, makers[0].price)
            ==> match_step(makers, map, taker, limit, remaining, fill_sum, fill_count).fill_count
            >= fill_count + 1,
    decreases makers.len(),
{
    if remaining > 0 && makers.len() > 0 && price_crosses(taker, limit, makers[0].price) {
        let o = makers[0];
        if remaining >= o.remaining() {
            lemma_match_step_count(
                makers.drop_first(),
                map.update(o.order_id - 1, IndexEntry { order: fully_filled(o), resting: false }),
                taker,
                limit,
                remaining - o.remaining(),
                fill_sum + o.price.units,
                fill_count + 1,
            );
        }
    }
}

/// After a matching walk, the untouched own side still mirrors the index,
/// the two sides stay disjoint, every resting slot still appears in its
/// queue, and the book stays uncrossed.
pub proof fn lemma_market_restore(
    own_side: Side,
    own0: Seq<OpenOrder>,
    m0: Seq<OpenOrder>,
    map0: Seq<IndexEntry>,
    m1: Seq<OpenOrder>,
    map1: Seq<IndexEntry>,
)
    requires
        side_wf(own0, own_side, map0),
        side_wf(m0, own_side.opposite_spec(), map0),
        side_wf(m1, own_side.opposite_spec(), map1),
        map_wf(map0),
        ids_distinct(m0),
        pair_disjoint(own0, m0),
        pair_resting(own_side, own0, m0, map0),
        pair_uncrossed(own_side, own0, m0),
        walk_rel(m0, map0, m1, map1),
    ensures
        side_wf(own0, own_side, map1),
        pair_disjoint(own0, m1),
        pair_resting(own_side, own0, m1, map1),
        pair_uncrossed(own_side, own0, m1),
{
    let k = m0.len() - m1.len();
    assert forall|j: int| 0 <= j < own0.len() implies map1[(#[trigger] own0[j]).order_id - 1]
        == map0[own0[j].order_id - 1] by {
        assert(in_map(map0, own0[j]));
        if id_in_seq(m0, own0[j].order_id) {
            let w = choose|w: int| 0 <= w < m0.len() && m0[w].order_id == own0[j].order_id;
            assert(own0[j].order_id != m0[w].order_id);
        }
    }
    assert forall|i: int| 0 <= i < own0.len() implies queue_order_wf(#[trigger] own0[i])
        && own0[i].side == own_side && in_map(map1, own0[i]) by {
        assert(in_map(map0, own0[i]));
    }
    assert forall|i: int, j: int|
        0 <= i < own0.len() && 0 <= j < m1.len() implies (#[trigger] own0[i]).order_id != (
    #[trigger] m1[j]).order_id by {
        assert(m1[j].order_id == m0[k + j].order_id);
    }
    assert forall|q: int| 0 <= q < map1.len() && (#[trigger] map1[q]).resting implies appears(
        if map1[q].order.side == own_side {
            own0
        } else {
            m1
        },
        map1[q].order,
    ) by {
        assert(slot_evolves(map0[q], map1[q]));
        assert(map0[q].resting);
        assert(map0[q].order.order_id == q + 1);
        if map0[q].order.side == own_side {
            assert(appears(own0, map0[q].order));
            let w = choose|w: int| 0 <= w < own0.len() && own0[w] == map0[q].order;
            assert(own0[w].order_id == q + 1);
            assert(map1[q] == map0[q]);
        } else {
            assert(appears(m0, map0[q].order));
            let w = choose|w: int| 0 <= w < m0.len() && m0[w] == map0[q].order;
            assert(m0[w].order_id == q + 1);
            if w < k {
                assert(!map1[m0[w].order_id - 1].resting);
            } else {
                assert(0 <= w - k < m1.len());
                if w - k >= 1 {
                    assert(m1[w - k] == m0[w]);
                }
                assert(m1[w - k].order_id == (q + 1) as u64);
                assert(in_map(map1, m1[w - k]));
                assert(map1[q].order == m1[w - k]);
                assert(appears(m1, map1[q].order));
            }
        }
    }
    if own0.len() > 0 && m1.len() > 0 {
        assert(m1[0].price == m0[k].price);
        assert(priority_le(own_side.opposite_spec(), m0[0].price, m0[k].price));
    }
}

/// Every row of a depth snapshot covers at least one order: a price level
/// exists only while its queue is non-empty.
pub proof fn lemma_depth_rows_positive(s: Seq<OpenOrder>)
    requires
        s.len() <= u64::MAX,
    ensures
        forall|i: int| 0 <= i < depth_rows(s).len() ==> (#[trigger] depth_rows(s)[i]).order_count
            >= 1,
    decreases s.len(),
{
    if s.len() > 0 {
        lemma_run_len_bounds(s);
        let r = run_len(s) as int;
        lemma_depth_rows_positive(s.skip(r));
        assert forall|i: int| 0 <= i < depth_rows(s).len() implies (
        #[trigger] depth_rows(s)[i]).order_count >= 1 by {
            if i > 0 {
                assert(depth_rows(s)[i] == depth_rows(s.skip(r))[i - 1]);
            }
        }
    }
}

/// Taking one resting order out of the book and marking its slot as no
/// longer resting (a cancel, or a modify that leaves the order fully
/// matched and records `gone` in its slot) restores the invariant.
pub proof fn lemma_cancel_restore(
    own_side: Side,
    own0: Seq<OpenOrder>,
    other: Seq<OpenOrder>,
    map0: Seq<IndexEntry>,
    ownf: Seq<OpenOrder>,
    mapf: Seq<IndexEntry>,
    order_id: u64,
    gone: OpenOrder,
)
    requires
        side_wf(own0, own_side, map0),
        side_wf(other, own_side.opposite_spec(), map0),
        ids_distinct(own0),
        map_wf(map0),
        pair_disjoint(own0, other),
        pair_resting(own_side, own0, other, map0),
        pair_uncrossed(own_side, own0, other),
        1 <= order_id <= map0.len(),
        map0[order_id - 1].resting,
        map0[order_id - 1].order.side == own_side,
        id_in_seq(own0, order_id),
        gone.order_id == order_id,
        gone.side == own_side,
        gone.price.units > 0,
        gone.quantity.units > 0,
        gone.quantity_filled.units <= gone.quantity.units,
        ownf == remove_id(own0, order_id),
        mapf == map0.update(order_id - 1, IndexEntry { order: gone, resting: false }),
    ensures
        side_wf(ownf, own_side, mapf),
        side_wf(other, own_side.opposite_spec(), mapf),
        ids_distinct(ownf),
        map_wf(mapf),
        pair_disjoint(ownf, other),
        pair_resting(own_side, ownf, other, mapf),
        pair_uncrossed(own_side, ownf, other),
        ownf.len() == own0.len() - 1,
{
    let i = choose|i: int| 0 <= i < own0.len() && (#[trigger] own0[i]).order_id == order_id;
    assert forall|j: int| 0 <= j < i implies (#[trigger] own0[j]).order_id != order_id by {
        assert(own0[j].order_id != own0[i].order_id);
    }
    lemma_remove_id_at(own0, order_id, i);
    lemma_remove_keeps_side(own0, own_side, i);
    own0.remove_ensures(i);
    assert forall|j: int| 0 <= j < ownf.len() implies queue_order_wf(#[trigger] ownf[j])
        && ownf[j].side == own_side && in_map(mapf, ownf[j]) by {
        if j < i {
            assert(ownf[j] == own0[j]);
            assert(own0[j].order_id != own0[i].order_id);
        } else {
            assert(ownf[j] == own0[j + 1]);
            assert(own0[j + 1].order_id != own0[i].order_id);
        }
        assert(in_map(map0, if j < i {
            own0[j]
        } else {
            own0[j + 1]
        }));
    }
    assert forall|j: int| 0 <= j < other.len() implies in_map(mapf, #[trigger] other[j]) by {
        assert(in_map(map0, other[j]));
        assert(other[j].order_id != own0[i].order_id);
    }
    assert forall|q: int| 0 <= q < mapf.len() && (#[trigger] mapf[q]).resting implies appears(
        if mapf[q].order.side == own_side {
            ownf
        } else {
            other
        },
        mapf[q].order,
    ) by {
        assert(q != order_id - 1);
        assert(mapf[q] == map0[q]);
        assert(map0[q].order.order_id == q + 1);
        if map0[q].order.side == own_side {
            assert(appears(own0, map0[q].order));
            assert(map0[q].order.order_id != order_id);
            assert(appears(ownf, map0[q].order));
        }
    }
    if ownf.len() > 0 && other.len() > 0 {
        if i == 0 {
            assert(ownf[0] == own0[1]);
            assert(priority_le(own_side, own0[0].price, own0[1].price));
        } else {
            assert(ownf[0] == own0[0]);
        }
    }
}

/// Changing a resting order in place, at the same price, restores the
/// invariant: the order keeps its position and the index mirrors it.
pub proof fn lemma_replace_restore(
    own_side: Side,
    own0: Seq<OpenOrder>,
    other: Seq<OpenOrder>,
    map0: Seq<IndexEntry>,
    ownf: Seq<OpenOrder>,
    mapf: Seq<IndexEntry>,
    order_id: u64,
    upd: OpenOrder,
)
    requires
        side_wf(own0, own_side, map0),
        side_wf(other, own_side.opposite_spec(), map0),
        ids_distinct(own0),
        map_wf(map0),
        pair_disjoint(own0, other),
        pair_resting(own_side, own0, other, map0),
        pair_uncrossed(own_side, own0, other),
        1 <= order_id <= map0.len(),
        map0[order_id - 1].resting,
        map0[order_id - 1].order.side == own_side,
        id_in_seq(own0, order_id),
        upd.order_id == order_id,
        upd.side == own_side,
        upd.price == map0[order_id - 1].order.price,
        queue_order_wf(upd),
        ownf == replace_id(own0, order_id, upd),
        mapf == map0.update(order_id - 1, IndexEntry { order: upd, resting: true }),
    ensures
        side_wf(ownf, own_side, mapf),
        side_wf(other, own_side.opposite_spec(), mapf),
        ids_distinct(ownf),
        map_wf(mapf),
        pair_disjoint(ownf, other),
        pair_resting(own_side, ownf, other, mapf),
        pair_uncrossed(own_side, ownf, other),
        ownf.len() == own0.len(),
{
    let i = choose|i: int| 0 <= i < own0.len() && (#[trigger] own0[i]).order_id == order_id;
    assert forall|j: int| 0 <= j < i implies (#[trigger] own0[j]).order_id != order_id by {
        assert(own0[j].order_id != own0[i].order_id);
    }
    lemma_replace_id_at(own0, order_id, upd, i);
    assert(in_map(map0, own0[i]));
    assert(own0[i].price == upd.price);
    assert forall|j: int| 0 <= j < ownf.len() implies queue_order_wf(#[trigger] ownf[j])
        && ownf[j].side == own_side && in_map(mapf, ownf[j]) && ownf[j].price == own0[j].price
        && ownf[j].order_id == own0[j].order_id by {
        if j != i {
            assert(ownf[j] == own0[j]);
            assert(own0[j].order_id != own0[i].order_id);
            assert(in_map(map0, own0[j]));
        }
    }
    assert forall|j: int| 0 <= j < other.len() implies in_map(mapf, #[trigger] other[j]) by {
        assert(in_map(map0, other[j]));
        assert(other[j].order_id != own0[i].order_id);
    }
    assert forall|q: int| 0 <= q < mapf.len() && (#[trigger] mapf[q]).resting implies appears(
        if mapf[q].order.side == own_side {
            ownf
        } else {
            other
        },
        mapf[q].order,
    ) by {
        if q == order_id - 1 {
            assert(mapf[q].order == upd);
            assert(ownf[i] == upd);
        } else {
            assert(mapf[q] == map0[q]);
            assert(map0[q].order.order_id == q + 1);
            if map0[q].order.side == own_side {
                assert(appears(own0, map0[q].order));
                let w = choose|w: int|
                    0 <= w < own0.len() && #[trigger] own0[w] == map0[q].order;
                assert(own0[w].order_id != own0[i].order_id);
                assert(ownf[w] == own0[w]);
            }
        }
    }
}

/// Moving a resting order to a new price (remove, then rest at the new
/// price-time position) restores the invariant, provided the new price
/// does not cross the opposite side.
pub proof fn lemma_move_restore(
    own_side: Side,
    own0: Seq<OpenOrder>,
    other: Seq<OpenOrder>,
    map0: Seq<IndexEntry>,
    ownf: Seq<OpenOrder>,
    mapf: Seq<IndexEntry>,
    order_id: u64,
    upd: OpenOrder,
)
    requires
        side_wf(own0, own_side, map0),
        side_wf(other, own_side.opposite_spec(), map0),
        ids_distinct(own0),
        map_wf(map0),
        pair_disjoint(own0, other),
        pair_resting(own_side, own0, other, map0),
        pair_uncrossed(own_side, own0, other),
        1 <= order_id <= map0.len(),
        map0[order_id - 1].resting,
        map0[order_id - 1].order.side == own_side,
        id_in_seq(own0, order_id),
        upd.order_id == order_id,
        upd.side == own_side,
        queue_order_wf(upd),
        match own_side {
            Side::Bids => other.len() > 0 ==> other[0].price.units > upd.price.units,
            Side::Asks => other.len() > 0 ==> upd.price.units > other[0].price.units,
        },
        ownf == insert_order(remove_id(own0, order_id), upd),
        mapf == map0.update(order_id - 1, IndexEntry { order: upd, resting: true }),
    ensures
        side_wf(ownf, own_side, mapf),
        side_wf(other, own_side.opposite_spec(), mapf),
        ids_distinct(ownf),
        map_wf(mapf),
        pair_disjoint(ownf, other),
        pair_resting(own_side, ownf, other, mapf),
        pair_uncrossed(own_side, ownf, other),
        ownf.len() == own0.len(),
{
    let i = choose|i: int| 0 <= i < own0.len() && (#[trigger] own0[i]).order_id == order_id;
    assert forall|j: int| 0 <= j < i implies (#[trigger] own0[j]).order_id != order_id by {
        assert(own0[j].order_id != own0[i].order_id);
    }
    lemma_remove_id_at(own0, order_id, i);
    lemma_remove_keeps_side(own0, own_side, i);
    own0.remove_ensures(i);
    let mid = own0.remove(i);
    assert forall|j: int| 0 <= j < mid.len() implies (#[trigger] mid[j]).order_id != order_id
        && queue_order_wf(mid[j]) && mid[j].side == own_side && in_map(map0, mid[j]) by {
        if j < i {
            assert(mid[j] == own0[j]);
            assert(own0[j].order_id != own0[i].order_id);
        } else {
            assert(mid[j] == own0[j + 1]);
            assert(own0[j + 1].order_id != own0[i].order_id);
        }
    }
    lemma_insert_keeps_side(mid, own_side, upd);
    let p = insert_pos(mid, own_side, upd.price);
    lemma_insert_pos_props(mid, own_side, upd.price);
    mid.insert_ensures(p, upd);
    assert forall|j: int| 0 <= j < ownf.len() implies queue_order_wf(#[trigger] ownf[j])
        && ownf[j].side == own_side && in_map(mapf, ownf[j]) by {
        if j < p {
            assert(ownf[j] == mid[j]);
        } else if j == p {
            assert(ownf[j] == upd);
        } else {
            assert(ownf[j] == mid[j - 1]);
        }
        if j != p {
            let x = if j < p {
                mid[j]
            } else {
                mid[j - 1]
            };
            assert(in_map(map0, x));
            assert(x.order_id != order_id);
        }
    }
    assert forall|j: int| 0 <= j < other.len() implies in_map(mapf, #[trigger] other[j]) by {
        assert(in_map(map0, other[j]));
        assert(other[j].order_id != own0[i].order_id);
    }
    assert forall|a: int, b: int|
        0 <= a < ownf.len() && 0 <= b < other.len() implies (#[trigger] ownf[a]).order_id != (
    #[trigger] other[b]).order_id by {
        if a < p {
            assert(ownf[a] == mid[a]);
        } else if a == p {
            assert(ownf[a] == upd);
            assert(other[b].order_id != own0[i].order_id);
        } else {
            assert(ownf[a] == mid[a - 1]);
        }
        if a != p {
            let x = if a < p {
                mid[a]
            } else {
                mid[a - 1]
            };
            assert(appears(own0, x) && x.order_id != order_id ==> appears(own0.remove(i), x));
            if appears(own0, x) {
                let w = choose|w: int| 0 <= w < own0.len() && #[trigger] own0[w] == x;
                assert(own0[w].order_id != other[b].order_id);
            }
        }
    }
    assert forall|q: int| 0 <= q < mapf.len() && (#[trigger] mapf[q]).resting implies appears(
        if mapf[q].order.side == own_side {
            ownf
        } else {
            other
        },
        mapf[q].order,
    ) by {
        if q == order_id - 1 {
            assert(mapf[q].order == upd);
            assert(appears(ownf, upd));
        } else {
            assert(mapf[q] == map0[q]);
            assert(map0[q].order.order_id == q + 1);
            if map0[q].order.side == own_side {
                assert(appears(own0, map0[q].order));
                assert(map0[q].order.order_id != order_id);
                assert(appears(mid, map0[q].order));
                assert(appears(ownf, map0[q].order));
            }
        }
    }
    if ownf.len() > 0 && other.len() > 0 {
        if p == 0 {
            assert(ownf[0] == upd);
        } else {
            assert(ownf[0] == mid[0]);
            assert(mid.len() > 0);
            if i == 0 {
                assert(mid[0] == own0[1]);
                assert(priority_le(own_side, own0[0].price, own0[1].price));
            } else {
                assert(mid[0] == own0[0]);
            }
        }
    }
}

} // verus!

