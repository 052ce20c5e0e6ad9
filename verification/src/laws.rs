//! Laws of the matching walk, proved once over the model.
//!
//! The book operations' contracts pin each operation down via
//! `match_step`, `insert_order` and `remove_id`; the proofs here state
//! properties that hold across those functions: price-time priority, the
//! behaviour of walks large enough to drain a side, and the round trip of
//! admitting and cancelling an order that could not match.
use vstd::prelude::*;
use crate::amount::Amount;
use crate::model::{
    fully_filled, id_in_seq, ids_distinct, in_map, insert_order, insert_pos, map_wf, match_step,
    price_crosses, queue_order_wf, remove_id, side_wf, sum_remaining, lemma_insert_pos_props,
};
use crate::types::{IndexEntry, OpenOrder, Side};

verus! {

/// A walk never touches the slot of an id that is not in the maker queue.
pub proof fn lemma_match_step_frame(
    makers: Seq<OpenOrder>,
    map: Seq<IndexEntry>,
    taker: Side,
    limit: Option<Amount>,
    remaining: int,
    fill_sum: int,
    fill_count: int,
    slot: int,
)
    requires
        0 <= slot < map.len(),
        !id_in_seq(makers, (slot + 1) as u64),
        forall|k: int| 0 <= k < makers.len() ==> 1 <= (#[trigger] makers[k]).order_id <= map.len(),
    ensures
        match_step(makers, map, taker, limit, remaining, fill_sum, fill_count).map.len()
            == map.len(),
        match_step(makers, map, taker, limit, remaining, fill_sum, fill_count).map[slot]
            == map[slot],
    decreases makers.len(),
{
    if remaining > 0 && makers.len() > 0 && price_crosses(taker, limit, makers[0].price) {
        let o = makers[0];
        assert(o.order_id != (slot + 1) as u64);
        if remaining >= o.remaining() {
            let map1 = map.update(
                o.order_id - 1,
                IndexEntry { order: fully_filled(o), resting: false },
            );
            let t = makers.drop_first();
            assert forall|k: int| 0 <= k < t.len() implies 1 <= (#[trigger] t[k]).order_id
                <= map1.len() by {
                assert(t[k] == makers[k + 1]);
            }
            if id_in_seq(t, (slot + 1) as u64) {
                let w = choose|w: int|
                    0 <= w < t.len() && (#[trigger] t[w]).order_id == (slot + 1) as u64;
                assert(makers[w + 1].order_id == (slot + 1) as u64);
            }
            lemma_match_step_frame(
                t,
                map1,
                taker,
                limit,
                remaining - o.remaining(),
                fill_sum + o.price.units,
                fill_count + 1,
                slot,
            );
        }
    }
}

/// Consuming the front maker keeps the queue and the index well formed.
proof fn lemma_consume_step_wf(
    makers: Seq<OpenOrder>,
    map: Seq<IndexEntry>,
    mside: Side,
)
    requires
        side_wf(makers, mside, map),
        ids_distinct(makers),
        map_wf(map),
        makers.len() > 0,
    ensures
        ({
            let map1 = map.update(
                makers[0].order_id - 1,
                IndexEntry { order: fully_filled(makers[0]), resting: false },
            );
            &&& side_wf(makers.drop_first(), mside, map1)
            &&& ids_distinct(makers.drop_first())
            &&& map_wf(map1)
        }),
{
    let o = makers[0];
    let map1 = map.update(o.order_id - 1, IndexEntry { order: fully_filled(o), resting: false });
    let t = makers.drop_first();
    assert(in_map(map, o));
    assert forall|i: int| 0 <= i < t.len() implies queue_order_wf(#[trigger] t[i]) && t[i].side
        == mside && in_map(map1, t[i]) by {
        assert(t[i] == makers[i + 1]);
        assert(makers[0].order_id != makers[i + 1].order_id);
    }
    assert forall|i: int, j: int| 0 <= i < j < t.len() implies (#[trigger] t[i]).order_id != (
    #[trigger] t[j]).order_id && crate::model::priority_le(mside, t[i].price, t[j].price) by {
        assert(t[i] == makers[i + 1]);
        assert(t[j] == makers[j + 1]);
    }
}

/// Price-time priority. Of two resting orders at the same price on the
/// same side, the earlier one fills first: whenever a single matching
/// walk fills any part of the later order, it has already filled the
/// earlier one completely.
pub proof fn fifo_same_price_fills_in_order(
    makers: Seq<OpenOrder>,
    map: Seq<IndexEntry>,
    taker: Side,
    limit: Option<Amount>,
    remaining: int,
    fill_sum: int,
    fill_count: int,
    i: int,
    j: int,
)
    requires
        side_wf(makers, taker.opposite_spec(), map),
        ids_distinct(makers),
        map_wf(map),
        0 <= i < j < makers.len(),
        makers[i].price == makers[j].price,
    ensures
        ({
            let st = match_step(makers, map, taker, limit, remaining, fill_sum, fill_count);
            st.map[makers[j].order_id - 1].order.quantity_filled.units
                > makers[j].quantity_filled.units ==> st.map[makers[i].order_id
                - 1].order.quantity_filled.units == makers[i].quantity.units
        }),
    decreases makers.len(),
{
    let st = match_step(makers, map, taker, limit, remaining, fill_sum, fill_count);
    assert(in_map(map, makers[i]));
    assert(in_map(map, makers[j]));
    if remaining <= 0 || !price_crosses(taker, limit, makers[0].price) {
        // nothing filled: the slots are unchanged
    } else {
        let o = makers[0];
        if remaining >= o.remaining() {
            let map1 = map.update(
                o.order_id - 1,
                IndexEntry { order: fully_filled(o), resting: false },
            );
            let t = makers.drop_first();
            lemma_consume_step_wf(makers, map, taker.opposite_spec());
            if i == 0 {
                // the earlier order is consumed whole here; later steps
                // never touch its slot again
                assert forall|k: int| 0 <= k < t.len() implies 1 <= (#[trigger] t[k]).order_id
                    <= map1.len() by {
                    assert(in_map(map1, t[k]));
                }
                if id_in_seq(t, o.order_id) {
                    let w = choose|w: int|
                        0 <= w < t.len() && (#[trigger] t[w]).order_id == o.order_id;
                    assert(makers[w + 1].order_id == makers[0].order_id);
                    assert(false);
                }
                lemma_match_step_frame(
                    t,
                    map1,
                    taker,
                    limit,
                    remaining - o.remaining(),
                    fill_sum + o.price.units,
                    fill_count + 1,
                    o.order_id - 1,
                );
                assert(st.map[o.order_id - 1].order == fully_filled(o));
            } else {
                assert(t[i - 1] == makers[i]);
                assert(t[j - 1] == makers[j]);
                fifo_same_price_fills_in_order(
                    t,
                    map1,
                    taker,
                    limit,
                    remaining - o.remaining(),
                    fill_sum + o.price.units,
                    fill_count + 1,
                    i - 1,
                    j - 1,
                );
                assert(makers[i].order_id != o.order_id);
                assert(makers[j].order_id != o.order_id);
            }
        } else {
            // only the front order is touched, and j > 0
            assert(makers[j].order_id != o.order_id);
        }
    }
}

/// Non-negative remainders sum to a non-negative total.
pub proof fn lemma_sum_remaining_nonneg(s: Seq<OpenOrder>)
    requires
        forall|k: int| 0 <= k < s.len() ==> (#[trigger] s[k]).remaining() >= 0,
    ensures
        sum_remaining(s) >= 0,
    decreases s.len(),
{
    if s.len() > 0 {
        let t = s.drop_first();
        assert forall|k: int| 0 <= k < t.len() implies (#[trigger] t[k]).remaining() >= 0 by {
            assert(t[k] == s[k + 1]);
        }
        lemma_sum_remaining_nonneg(t);
    }
}

/// A walk large enough for all the liquidity it can reach drains the side:
/// a taker wanting at least the side's total remaining quantity (every
/// level being matchable) leaves the side empty and keeps exactly the
/// excess. In particular, a taker wanting exactly the total fills
/// entirely and rests nothing, and one wanting more ends with a partial
/// fill of exactly the total.
pub proof fn exhausting_walk_empties_side(
    makers: Seq<OpenOrder>,
    map: Seq<IndexEntry>,
    taker: Side,
    limit: Option<Amount>,
    remaining: int,
    fill_sum: int,
    fill_count: int,
)
    requires
        forall|k: int| 0 <= k < makers.len() ==> (#[trigger] makers[k]).remaining() > 0,
        forall|k: int|
            0 <= k < makers.len() ==> price_crosses(taker, limit, (#[trigger] makers[k]).price),
        remaining >= sum_remaining(makers),
    ensures
        ({
            let st = match_step(makers, map, taker, limit, remaining, fill_sum, fill_count);
            &&& st.makers.len() == 0
            &&& st.remaining == remaining - sum_remaining(makers)
        }),
    decreases makers.len(),
{
    if makers.len() > 0 {
        let o = makers[0];
        let t = makers.drop_first();
        assert forall|k: int| 0 <= k < t.len() implies (#[trigger] t[k]).remaining() > 0
            && price_crosses(taker, limit, t[k].price) by {
            assert(t[k] == makers[k + 1]);
        }
        lemma_sum_remaining_nonneg(t);
        exhausting_walk_empties_side(
            t,
            map.update(o.order_id - 1, IndexEntry { order: fully_filled(o), resting: false }),
            taker,
            limit,
            remaining - o.remaining(),
            fill_sum + o.price.units,
            fill_count + 1,
        );
    }
}

/// Round trip: admitting a limit order that does not match, then
/// cancelling it, restores the queue it rested in exactly. (The order id
/// counter and the order's index record remain, per the operations'
/// contracts.)
pub proof fn admit_then_cancel_restores_queue(s: Seq<OpenOrder>, o: OpenOrder)
    requires
        !id_in_seq(s, o.order_id),
    ensures
        remove_id(insert_order(s, o), o.order_id) == s,
    decreases s.len(),
{
    let p = insert_pos(s, o.side, o.price);
    lemma_insert_pos_props(s, o.side, o.price);
    let t = s.insert(p, o);
    s.insert_ensures(p, o);
    if p == 0 {
        assert(t[0] == o);
        assert(remove_id(t, o.order_id) == t.drop_first());
        assert(t.drop_first() =~= s);
    } else {
        assert(t[0] == s[0]);
        assert(s[0].order_id != o.order_id);
        assert(remove_id(t, o.order_id) == seq![t[0]] + remove_id(t.drop_first(), o.order_id));
        let s1 = s.drop_first();
        if id_in_seq(s1, o.order_id) {
            let w = choose|w: int| 0 <= w < s1.len() && (#[trigger] s1[w]).order_id == o.order_id;
            assert(s[w + 1].order_id == o.order_id);
        }
        assert forall|m: int| 0 <= m < p - 1 implies crate::model::priority_le(
            o.side,
            (#[trigger] s1[m]).price,
            o.price,
        ) by {
            assert(s1[m] == s[m + 1]);
        }
        if p - 1 < s1.len() {
            assert(s1[p - 1] == s[p as int]);
        }
        crate::model::lemma_insert_pos_is(s1, o.side, o.price, p - 1);
        assert(t.drop_first() =~= s1.insert(p - 1, o));
        admit_then_cancel_restores_queue(s1, o);
        assert(seq![s[0]] + s1 =~= s);
    }
}

} // verus!
