//! The order book: state invariant, queries, matching, cancel and modify.
use vstd::prelude::*;
use crate::amount::Amount;
use crate::model::{
    appears, depth_rows, id_in_seq, ids_distinct, in_map, insert_order, map_wf, match_step,
    pair_disjoint, pair_resting, pair_uncrossed, price_crosses, priority_le, queue_order_wf,
    remove_id, replace_id, run_len, side_wf, sum_remaining, clamp_units, walk_rel, MatchState,
};
use crate::response::{CustomError, DeleteResponse, ErrorResponse, MarketOrderResponse,
    ModifyOrderResponse};
use crate::types::{Depth, IndexEntry, LimitOrder, MarketOrder, ModifyOrderRequest, OpenOrder,
    Order, Orderbook, Side};

verus! {

/// Executable form of `price_crosses`.
fn crosses(taker: Side, limit: Option<Amount>, maker_price: Amount) -> (r: bool)
    ensures
        r == price_crosses(taker, limit, maker_price),
{
    match limit {
        None => true,
        Some(l) => match taker {
            Side::Bids => maker_price.units <= l.units,
            Side::Asks => maker_price.units >= l.units,
        },
    }
}

/// The matching walk: consumes makers from the front of `makers` while the
/// taker wants more and the front still crosses `limit`, mirroring every
/// fill into the id index. Implements `match_step` exactly; the returned
/// triple is the taker's remainder and the sum and count of touched maker
/// prices.
#[verifier::loop_isolation(false)]
fn match_against(
    makers: &mut Vec<OpenOrder>,
    index: &mut Vec<IndexEntry>,
    taker: Side,
    limit: Option<Amount>,
    quantity: u64,
) -> (r: (u64, u128, u64))
    requires
        side_wf(old(makers)@, taker.opposite_spec(), old(index)@),
        ids_distinct(old(makers)@),
        map_wf(old(index)@),
        old(makers)@.len() <= u64::MAX,
    ensures
        ({
            let st = match_step(old(makers)@, old(index)@, taker, limit, quantity as int, 0, 0);
            &&& final(makers)@ == st.makers
            &&& final(index)@ == st.map
            &&& r.0 == st.remaining
            &&& r.1 == st.fill_sum
            &&& r.2 == st.fill_count
        }),
        side_wf(final(makers)@, taker.opposite_spec(), final(index)@),
        ids_distinct(final(makers)@),
        map_wf(final(index)@),
        final(index)@.len() == old(index)@.len(),
        final(makers)@.len() <= old(makers)@.len(),
        r.0 <= quantity,
        r.2 <= old(makers)@.len(),
        r.1 <= r.2 as int * u64::MAX as int,
        r.0 > 0 ==> final(makers)@.len() == 0 || !price_crosses(
            taker,
            limit,
            final(makers)@[0].price,
        ),
        walk_rel(old(makers)@, old(index)@, final(makers)@, final(index)@),
{
    let ghost old_m = makers@;
    let ghost old_map = index@;
    let ghost goal = match_step(old_m, old_map, taker, limit, quantity as int, 0, 0);
    let ghost mside = taker.opposite_spec();
    let mut rem: u64 = quantity;
    let mut sum: u128 = 0;
    let mut cnt: u64 = 0;
    while rem > 0 && makers.len() > 0 && crosses(taker, limit, makers[0].price)
        invariant
            side_wf(makers@, mside, index@),
            ids_distinct(makers@),
            map_wf(index@),
            index@.len() == old_map.len(),
            makers@.len() <= old_m.len(),
            match_step(makers@, index@, taker, limit, rem as int, sum as int, cnt as int) == goal,
            rem <= quantity,
            cnt as int + makers@.len() <= old_m.len() + (if rem == 0 && makers@.len() > 0 {
                1int
            } else {
                0int
            }),
            sum as int <= cnt as int * u64::MAX as int,
            forall|i: int|
                0 <= i < old_map.len() && !id_in_seq(old_m, (i + 1) as u64) ==> index@[i]
                    == old_map[i],
            forall|i: int|
                0 <= i < old_map.len() ==> {
                    let e0 = old_map[i];
                    let e1 = #[trigger] index@[i];
                    &&& e1.order.order_id == e0.order.order_id
                    &&& e1.order.price == e0.order.price
                    &&& e1.order.side == e0.order.side
                    &&& e1.order.user_id == e0.order.user_id
                    &&& e1.order.quantity == e0.order.quantity
                    &&& e1.order.quantity_filled.units >= e0.order.quantity_filled.units
                    &&& (e1.resting ==> e0.resting)
                },
            forall|i: int|
                1 <= i < makers@.len() ==> makers@[i] == old_m[old_m.len() - makers@.len() + i],
            makers@.len() > 0 ==> {
                let k = old_m.len() - makers@.len();
                let f = makers@[0];
                let o = old_m[k];
                &&& f.order_id == o.order_id
                &&& f.price == o.price
                &&& f.side == o.side
                &&& f.user_id == o.user_id
                &&& f.quantity == o.quantity
                &&& f.quantity_filled.units >= o.quantity_filled.units
            },
            forall|j: int|
                0 <= j < old_m.len() - makers@.len() ==> !index@[(#[trigger] old_m[j]).order_id
                    - 1].resting,
        decreases makers@.len(), rem,
    {
        let ghost pre_m = makers@;
        let ghost pre_map = index@;
        let ghost pre_rem = rem as int;
        let ghost pre_sum = sum as int;
        let ghost pre_cnt = cnt as int;
        let ghost k = old_m.len() - makers@.len();
        let o = makers[0];
        proof {
            assert(queue_order_wf(pre_m[0]));
            assert(in_map(pre_map, pre_m[0]));
            assert(o.order_id - 1 < pre_map.len());
        }
        let avail = o.quantity.units - o.quantity_filled.units;
        let maplen = index.len();
        let idx = (o.order_id - 1) as usize;
        proof {
            assert(pre_map.len() == maplen);
            assert(idx == o.order_id - 1);
        }
        if rem >= avail {
            // the front maker fills completely and leaves the queue
            let e = IndexEntry {
                order: OpenOrder { quantity_filled: o.quantity, ..o },
                resting: false,
            };
            index[idx] = e;
            let _consumed = makers.remove(0);
            rem = rem - avail;
            proof {
                assert(makers@ =~= pre_m.drop_first());
                assert(index@ =~= pre_map.update(o.order_id - 1, e));
                assert(match_step(
                    pre_m,
                    pre_map,
                    taker,
                    limit,
                    pre_rem,
                    pre_sum,
                    pre_cnt,
                ) == match_step(
                    makers@,
                    index@,
                    taker,
                    limit,
                    rem as int,
                    (pre_sum + o.price.units) as int,
                    pre_cnt + 1,
                ));
                assert forall|i: int| 0 <= i < makers@.len() implies queue_order_wf(
                    #[trigger] makers@[i],
                ) && makers@[i].side == mside && in_map(index@, makers@[i]) by {
                    assert(makers@[i] == pre_m[i + 1]);
                    assert(pre_m[0].order_id != pre_m[i + 1].order_id);
                }
                assert forall|i: int|
                    1 <= i < makers@.len() implies makers@[i] == old_m[old_m.len() - makers@.len()
                    + i] by {
                    assert(makers@[i] == pre_m[i + 1]);
                }
                if makers@.len() > 0 {
                    assert(makers@[0] == pre_m[1]);
                }
                assert forall|j: int| 0 <= j < old_m.len() - makers@.len() implies !index@[(
                #[trigger] old_m[j]).order_id - 1].resting by {
                    assert(in_map(pre_map, pre_m[0]));
                    if j < k {
                        assert(!pre_map[old_m[j].order_id - 1].resting);
                        if old_m[j].order_id == o.order_id {
                            assert(pre_map[o.order_id - 1].resting);
                        }
                    } else {
                        assert(j == k);
                        assert(old_m[j].order_id == o.order_id);
                    }
                }
            }
        } else {
            // the taker's whole remainder fits inside the front maker
            let o2 = OpenOrder {
                quantity_filled: Amount { units: o.quantity_filled.units + rem },
                ..o
            };
            makers[0] = o2;
            let e = IndexEntry { order: o2, resting: true };
            index[idx] = e;
            proof {
                assert(makers@ =~= pre_m.update(0, o2));
                assert(index@ =~= pre_map.update(o.order_id - 1, e));
                assert(match_step(
                    pre_m,
                    pre_map,
                    taker,
                    limit,
                    pre_rem,
                    pre_sum,
                    pre_cnt,
                ) == match_step(
                    makers@,
                    index@,
                    taker,
                    limit,
                    0,
                    (pre_sum + o.price.units) as int,
                    pre_cnt + 1,
                ));
                assert forall|i: int| 0 <= i < makers@.len() implies queue_order_wf(
                    #[trigger] makers@[i],
                ) && makers@[i].side == mside && in_map(index@, makers@[i]) by {
                    if i > 0 {
                        assert(makers@[i] == pre_m[i]);
                        assert(pre_m[0].order_id != pre_m[i].order_id);
                    }
                }
                assert forall|j: int| 0 <= j < old_m.len() - makers@.len() implies !index@[(
                #[trigger] old_m[j]).order_id - 1].resting by {
                    assert(!pre_map[old_m[j].order_id - 1].resting);
                    if old_m[j].order_id == o.order_id {
                        assert(pre_map[o.order_id - 1].resting);
                    }
                }
            }
            rem = 0;
        }
        sum = sum + o.price.units as u128;
        cnt = cnt + 1;
    }
    proof {
        assert(match_step(makers@, index@, taker, limit, rem as int, sum as int, cnt as int)
            == MatchState {
            makers: makers@,
            map: index@,
            remaining: rem as int,
            fill_sum: sum as int,
            fill_count: cnt as int,
        });
    }
    (rem, sum, cnt)
}

/// Executable form of `priority_le`.
fn priority_le_exec(side: Side, a: Amount, b: Amount) -> (r: bool)
    ensures
        r == priority_le(side, a, b),
{
    match side {
        Side::Asks => a.units <= b.units,
        Side::Bids => a.units >= b.units,
    }
}

/// Rests `o` at its price-time position: after every entry with priority
/// at or ahead of its price, so it joins the tail of its own price level.
#[verifier::loop_isolation(false)]
fn insert_resting(s: &mut Vec<OpenOrder>, o: OpenOrder)
    ensures
        final(s)@ == insert_order(old(s)@, o),
        final(s)@.len() == old(s)@.len() + 1,
{
    let mut i: usize = 0;
    while i < s.len() && priority_le_exec(o.side, s[i].price, o.price)
        invariant
            i <= s@.len(),
            s@ == old(s)@,
            forall|j: int| 0 <= j < i ==> priority_le(o.side, (#[trigger] s@[j]).price, o.price),
        decreases s@.len() - i,
    {
        i = i + 1;
    }
    proof {
        crate::model::lemma_insert_pos_is(s@, o.side, o.price, i as int);
    }
    s.insert(i, o);
}

/// Admits one limit order: matches it against `opp`, issues `order_id`
/// into the index, and rests any remainder in `own`. Carries the whole
/// book invariant across the operation, phrased over the (own, opposite)
/// pair of queues.
#[verifier::rlimit(100)]
#[verifier::spinoff_prover]
fn admit_limit(
    own: &mut Vec<OpenOrder>,
    opp: &mut Vec<OpenOrder>,
    index: &mut Vec<IndexEntry>,
    order: LimitOrder,
    order_id: u64,
) -> (r: OpenOrder)
    requires
        side_wf(old(own)@, order.side, old(index)@),
        side_wf(old(opp)@, order.side.opposite_spec(), old(index)@),
        ids_distinct(old(own)@),
        ids_distinct(old(opp)@),
        map_wf(old(index)@),
        pair_disjoint(old(own)@, old(opp)@),
        pair_resting(order.side, old(own)@, old(opp)@, old(index)@),
        pair_uncrossed(order.side, old(own)@, old(opp)@),
        order.price.units > 0,
        order.quantity.units > 0,
        order_id == old(index)@.len() + 1,
        old(index)@.len() < u64::MAX,
        old(own)@.len() + old(opp)@.len() <= old(index)@.len(),
    ensures
        ({
            let st = match_step(
                old(opp)@,
                old(index)@,
                order.side,
                Some(order.price),
                order.quantity.units as int,
                0,
                0,
            );
            let rested = st.remaining > 0;
            &&& r == (OpenOrder {
                price: order.price,
                quantity: order.quantity,
                side: order.side,
                quantity_filled: Amount { units: (order.quantity.units - st.remaining) as u64 },
                user_id: order.user_id,
                order_id,
            })
            &&& final(opp)@ == st.makers
            &&& final(index)@ == st.map.push(IndexEntry { order: r, resting: rested })
            &&& final(own)@ == if rested {
                insert_order(old(own)@, r)
            } else {
                old(own)@
            }
        }),
        side_wf(final(own)@, order.side, final(index)@),
        side_wf(final(opp)@, order.side.opposite_spec(), final(index)@),
        ids_distinct(final(own)@),
        ids_distinct(final(opp)@),
        map_wf(final(index)@),
        pair_disjoint(final(own)@, final(opp)@),
        pair_resting(order.side, final(own)@, final(opp)@, final(index)@),
        pair_uncrossed(order.side, final(own)@, final(opp)@),
        final(index)@.len() == old(index)@.len() + 1,
        final(own)@.len() + final(opp)@.len() <= old(own)@.len() + old(opp)@.len() + 1,
{
    let ghost own0 = own@;
    let ghost m0 = opp@;
    let ghost map0 = index@;
    let ghost oside = order.side.opposite_spec();
    let (rem, _fill_sum, _fill_count) = match_against(
        opp,
        index,
        order.side,
        Some(order.price),
        order.quantity.units,
    );
    let ghost st = match_step(
        m0,
        map0,
        order.side,
        Some(order.price),
        order.quantity.units as int,
        0,
        0,
    );
    let ghost map1 = index@;
    let ghost k = m0.len() - st.makers.len();
    let open = OpenOrder {
        price: order.price,
        quantity: order.quantity,
        side: order.side,
        quantity_filled: Amount { units: order.quantity.units - rem },
        user_id: order.user_id,
        order_id,
    };
    let rested = rem > 0;
    index.push(IndexEntry { order: open, resting: rested });
    if rested {
        insert_resting(own, open);
    }
    proof {
        let mapf = index@;
        let ownf = own@;
        let oppf = opp@;
        assert(mapf =~= st.map.push(IndexEntry { order: open, resting: rem > 0 }));
        crate::model::lemma_admit_sides(
            order.side,
            own0,
            m0,
            map0,
            oppf,
            map1,
            ownf,
            mapf,
            open,
            rested,
        );
        crate::model::lemma_admit_disjoint(
            order.side,
            own0,
            m0,
            map0,
            oppf,
            map1,
            ownf,
            open,
            rested,
        );
        crate::model::lemma_admit_resting(
            order.side,
            own0,
            m0,
            map0,
            oppf,
            map1,
            ownf,
            mapf,
            open,
            rested,
        );
        crate::model::lemma_admit_uncrossed(
            order.side,
            own0,
            m0,
            map0,
            oppf,
            map1,
            ownf,
            open,
            rested,
        );
    }
    open
}

/// Builds the depth rows of one side: one row per price level (maximal
/// run of one price) with the level's aggregate unfilled quantity, capped
/// at the largest representable amount, and its order count.
#[verifier::loop_isolation(false)]
fn depth_side(s: &Vec<OpenOrder>) -> (r: Vec<Order>)
    requires
        forall|m: int|
            0 <= m < s@.len() ==> (#[trigger] s@[m]).quantity_filled.units
                <= s@[m].quantity.units,
    ensures
        r@ == depth_rows(s@),
{
    let mut rows: Vec<Order> = Vec::new();
    let mut i: usize = 0;
    proof {
        assert(s@.skip(0) =~= s@);
        assert(Seq::<Order>::empty() + depth_rows(s@) =~= depth_rows(s@));
    }
    while i < s.len()
        invariant
            i <= s@.len(),
            depth_rows(s@) == rows@ + depth_rows(s@.skip(i as int)),
        decreases s@.len() - i,
    {
        let price = s[i].price;
        let ghost t = s@.skip(i as int);
        let mut j: usize = i;
        let mut total: u128 = 0;
        while j < s.len() && s[j].price == price
            invariant
                i <= j <= s@.len(),
                forall|m: int| i <= m < j ==> (#[trigger] s@[m]).price == price,
                total == sum_remaining(t.take(j - i)),
                total <= (j - i) as int * u64::MAX as int,
            decreases s@.len() - j,
        {
            proof {
                crate::model::lemma_sum_take_succ(t, j - i);
                assert(t[j - i] == s@[j as int]);
            }
            total = total + (s[j].quantity.units - s[j].quantity_filled.units) as u128;
            j = j + 1;
        }
        proof {
            assert(t[0] == s@[i as int]);
            assert forall|m: int| 0 <= m < j - i implies (#[trigger] t[m]).price == t[0].price by {
                assert(t[m] == s@[i + m]);
            }
            if j < s@.len() {
                assert(t[j - i] == s@[j as int]);
            }
            crate::model::lemma_run_len_is(t, j - i);
        }
        let count = (j - i) as u64;
        let qty = if total > u64::MAX as u128 {
            u64::MAX
        } else {
            total as u64
        };
        rows.push(Order { price, quantity: Amount { units: qty }, order_count: count });
        proof {
            assert(t.skip(j - i) =~= s@.skip(j as int));
            assert(depth_rows(t) == seq![
                Order {
                    price: t[0].price,
                    quantity: Amount { units: clamp_units(sum_remaining(t.take(run_len(t) as int))) },
                    order_count: run_len(t) as u64,
                },
            ] + depth_rows(t.skip(run_len(t) as int)));
            assert(rows@ + depth_rows(s@.skip(j as int)) =~= depth_rows(s@));
        }
        i = j;
    }
    proof {
        assert(s@.skip(i as int) =~= Seq::<OpenOrder>::empty());
        assert(rows@ + depth_rows(s@.skip(i as int)) =~= rows@);
    }
    rows
}

/// Removes the entry carrying `order_id` from the queue.
#[verifier::loop_isolation(false)]
fn remove_from_queue(s: &mut Vec<OpenOrder>, order_id: u64)
    requires
        id_in_seq(old(s)@, order_id),
    ensures
        final(s)@ == remove_id(old(s)@, order_id),
        final(s)@.len() == old(s)@.len() - 1,
{
    let mut i: usize = 0;
    while i < s.len() && s[i].order_id != order_id
        invariant
            i <= s@.len(),
            s@ == old(s)@,
            forall|j: int| 0 <= j < i ==> (#[trigger] s@[j]).order_id != order_id,
        decreases s@.len() - i,
    {
        i = i + 1;
    }
    proof {
        if i == s@.len() {
            let w = choose|w: int| 0 <= w < s@.len() && (#[trigger] s@[w]).order_id == order_id;
            assert(false);
        }
        crate::model::lemma_remove_id_at(s@, order_id, i as int);
    }
    let _removed = s.remove(i);
}

/// Replaces the entry carrying `order_id` in place: it keeps its position.
#[verifier::loop_isolation(false)]
fn replace_in_queue(s: &mut Vec<OpenOrder>, order_id: u64, upd: OpenOrder)
    requires
        id_in_seq(old(s)@, order_id),
    ensures
        final(s)@ == replace_id(old(s)@, order_id, upd),
        final(s)@.len() == old(s)@.len(),
{
    let mut i: usize = 0;
    while i < s.len() && s[i].order_id != order_id
        invariant
            i <= s@.len(),
            s@ == old(s)@,
            forall|j: int| 0 <= j < i ==> (#[trigger] s@[j]).order_id != order_id,
        decreases s@.len() - i,
    {
        i = i + 1;
    }
    proof {
        if i == s@.len() {
            let w = choose|w: int| 0 <= w < s@.len() && (#[trigger] s@[w]).order_id == order_id;
            assert(false);
        }
        crate::model::lemma_replace_id_at(old(s)@, order_id, upd, i as int);
    }
    s[i] = upd;
}

/// Restates the book's resting-slot invariant as the (own, opposite) pair
/// form that the restoration lemmas use.
proof fn lemma_resting_to_pair(b: Orderbook, own_side: Side)
    requires
        b.resting_in_queues(),
    ensures
        pair_resting(own_side, b.side_seq(own_side), b.side_seq(own_side.opposite_spec()),
            b.order_map@),
{
    assert forall|k: int|
        0 <= k < b.order_map@.len() && (#[trigger] b.order_map@[k]).resting implies appears(
        if b.order_map@[k].order.side == own_side {
            b.side_seq(own_side)
        } else {
            b.side_seq(own_side.opposite_spec())
        },
        b.order_map@[k].order,
    ) by {
        assert(appears(b.side_seq(b.order_map@[k].order.side), b.order_map@[k].order));
    }
}

/// Restates the pair form of the resting-slot invariant back over the
/// book's own orientation.
proof fn lemma_pair_to_resting(b: Orderbook, own_side: Side)
    requires
        pair_resting(own_side, b.side_seq(own_side), b.side_seq(own_side.opposite_spec()),
            b.order_map@),
    ensures
        b.resting_in_queues(),
{
    assert forall|i: int|
        0 <= i < b.order_map@.len() && (#[trigger] b.order_map@[i]).resting implies appears(
        b.side_seq(b.order_map@[i].order.side),
        b.order_map@[i].order,
    ) by {
        assert(appears(
            if b.order_map@[i].order.side == own_side {
                b.side_seq(own_side)
            } else {
                b.side_seq(own_side.opposite_spec())
            },
            b.order_map@[i].order,
        ));
    }
}

/// Restates the pair form of id disjointness over the book's orientation.
proof fn lemma_pair_to_disjoint(b: Orderbook, own_side: Side)
    requires
        pair_disjoint(b.side_seq(own_side), b.side_seq(own_side.opposite_spec())),
    ensures
        b.sides_disjoint(),
{
    assert forall|i: int, j: int|
        0 <= i < b.asks@.len() && 0 <= j < b.bids@.len() implies (
    #[trigger] b.asks@[i]).order_id != (#[trigger] b.bids@[j]).order_id by {
        match own_side {
            Side::Asks => {
                assert(b.side_seq(own_side)[i].order_id != b.side_seq(
                    own_side.opposite_spec(),
                )[j].order_id);
            },
            Side::Bids => {
                assert(b.side_seq(own_side)[j].order_id != b.side_seq(
                    own_side.opposite_spec(),
                )[i].order_id);
            },
        }
    }
}

/// True when a resting order of side `side` repriced to `p` would cross or
/// lock the opposite side's best price.
pub open spec fn reprice_crosses(pre: Orderbook, side: Side, p: Amount) -> bool {
    match side {
        Side::Bids => pre.asks@.len() > 0 && p.units >= pre.asks@[0].price.units,
        Side::Asks => pre.bids@.len() > 0 && p.units <= pre.bids@[0].price.units,
    }
}

/// What a modify does. Unknown, cancelled and fully matched ids fail as in
/// `cancel_rel`; a quantity below the filled amount is rejected; a price
/// change that would cross or lock the opposite side is rejected. An
/// accepted modify is atomic and keeps the order's id and fill:
/// a quantity change at the same price is applied in place, keeping time
/// priority; setting the quantity exactly to the filled amount makes the
/// order fully matched, and it leaves its queue; a price change moves the
/// order to the tail of its new price level, forfeiting time priority.
pub open spec fn modify_rel(
    pre: Orderbook,
    post: Orderbook,
    req: ModifyOrderRequest,
    r: Result<ModifyOrderResponse, ErrorResponse>,
) -> bool {
    let id = req.order_id;
    if id < 1 || id > pre.order_map@.len() {
        &&& r == Err::<ModifyOrderResponse, ErrorResponse>(
            ErrorResponse { error: CustomError::OrderDoesNotExist },
        )
        &&& book_unchanged(pre, post)
    } else {
        let e = pre.order_map@[id - 1];
        let new_price = if req.price is Some {
            req.price->0
        } else {
            e.order.price
        };
        let new_quantity = if req.quantity is Some {
            req.quantity->0
        } else {
            e.order.quantity
        };
        let upd = OpenOrder { price: new_price, quantity: new_quantity, ..e.order };
        if e.order.quantity_filled.units == e.order.quantity.units {
            &&& r == Err::<ModifyOrderResponse, ErrorResponse>(
                ErrorResponse { error: CustomError::OrderAlreadyMatched },
            )
            &&& book_unchanged(pre, post)
        } else if !e.resting {
            &&& r == Err::<ModifyOrderResponse, ErrorResponse>(
                ErrorResponse { error: CustomError::OrderDoesNotExist },
            )
            &&& book_unchanged(pre, post)
        } else if req.quantity is Some && req.quantity->0.units
            < e.order.quantity_filled.units {
            &&& r == Err::<ModifyOrderResponse, ErrorResponse>(
                ErrorResponse { error: CustomError::ModifyQuantityCannotBeLesserThanFilledQuantity },
            )
            &&& book_unchanged(pre, post)
        } else if new_price.units != e.order.price.units && reprice_crosses(
            pre,
            e.order.side,
            new_price,
        ) {
            &&& r == Err::<ModifyOrderResponse, ErrorResponse>(
                ErrorResponse { error: CustomError::ModifyPriceWouldCrossBook },
            )
            &&& book_unchanged(pre, post)
        } else {
            &&& r == Ok::<ModifyOrderResponse, ErrorResponse>(
                ModifyOrderResponse {
                    success: true,
                    price: upd.price,
                    quantity: upd.quantity,
                    order_id: id,
                },
            )
            &&& post.order_id_index == pre.order_id_index
            &&& post.side_seq(e.order.side.opposite_spec()) == pre.side_seq(
                e.order.side.opposite_spec(),
            )
            &&& (if upd.quantity_filled.units == upd.quantity.units {
                &&& post.side_seq(e.order.side) == remove_id(pre.side_seq(e.order.side), id)
                &&& post.order_map@ == pre.order_map@.update(
                    id - 1,
                    IndexEntry { order: upd, resting: false },
                )
            } else if new_price.units == e.order.price.units {
                &&& post.side_seq(e.order.side) == replace_id(pre.side_seq(e.order.side), id, upd)
                &&& post.order_map@ == pre.order_map@.update(
                    id - 1,
                    IndexEntry { order: upd, resting: true },
                )
            } else {
                &&& post.side_seq(e.order.side) == insert_order(
                    remove_id(pre.side_seq(e.order.side), id),
                    upd,
                )
                &&& post.order_map@ == pre.order_map@.update(
                    id - 1,
                    IndexEntry { order: upd, resting: true },
                )
            })
        }
    }
}

/// What a cancel does: an id the book never issued fails as unknown; a
/// fully matched order cannot be cancelled; an order cancelled earlier is
/// no longer reachable as an active order and fails as unknown too. An
/// active order leaves its queue, its slot stays in the index (no longer
/// resting) so the record remains queryable, and the response reports its
/// price, quantity and fill at cancel time.
pub open spec fn cancel_rel(
    pre: Orderbook,
    post: Orderbook,
    order_id: u64,
    r: Result<DeleteResponse, ErrorResponse>,
) -> bool {
    if order_id < 1 || order_id > pre.order_map@.len() {
        &&& r == Err::<DeleteResponse, ErrorResponse>(
            ErrorResponse { error: CustomError::OrderDoesNotExist },
        )
        &&& book_unchanged(pre, post)
    } else {
        let e = pre.order_map@[order_id - 1];
        if e.order.quantity_filled.units == e.order.quantity.units {
            &&& r == Err::<DeleteResponse, ErrorResponse>(
                ErrorResponse { error: CustomError::OrderAlreadyMatched },
            )
            &&& book_unchanged(pre, post)
        } else if !e.resting {
            &&& r == Err::<DeleteResponse, ErrorResponse>(
                ErrorResponse { error: CustomError::OrderDoesNotExist },
            )
            &&& book_unchanged(pre, post)
        } else {
            &&& r == Ok::<DeleteResponse, ErrorResponse>(
                DeleteResponse {
                    success: true,
                    price: e.order.price,
                    quantity: e.order.quantity,
                    quantity_filled: e.order.quantity_filled,
                    order_id,
                },
            )
            &&& post.side_seq(e.order.side) == remove_id(pre.side_seq(e.order.side), order_id)
            &&& post.side_seq(e.order.side.opposite_spec()) == pre.side_seq(
                e.order.side.opposite_spec(),
            )
            &&& post.order_map@ == pre.order_map@.update(
                order_id - 1,
                IndexEntry { order: e.order, resting: false },
            )
            &&& post.order_id_index == pre.order_id_index
        }
    }
}

/// The matching walk a limit order performs against the book.
pub open spec fn limit_match_state(b: Orderbook, order: LimitOrder) -> MatchState {
    match_step(
        b.side_seq(order.side.opposite_spec()),
        b.order_map@,
        order.side,
        Some(order.price),
        order.quantity.units as int,
        0,
        0,
    )
}

/// The canonical record a limit order admission returns: the next id,
/// filled by exactly what the walk consumed.
pub open spec fn limit_result(b: Orderbook, order: LimitOrder) -> OpenOrder {
    OpenOrder {
        price: order.price,
        quantity: order.quantity,
        side: order.side,
        quantity_filled: Amount {
            units: (order.quantity.units - limit_match_state(b, order).remaining) as u64,
        },
        user_id: order.user_id,
        order_id: (b.order_id_index + 1) as u64,
    }
}

/// How limit admission transforms the book: the opposite side becomes the
/// walk's survivors, the id index gains the new record (resting exactly
/// when something was left over), and any remainder rests at its
/// price-time position on its own side.
pub open spec fn limit_admission_rel(
    pre: Orderbook,
    post: Orderbook,
    order: LimitOrder,
    r: OpenOrder,
) -> bool {
    let st = limit_match_state(pre, order);
    let rested = st.remaining > 0;
    &&& r == limit_result(pre, order)
    &&& post.order_id_index == pre.order_id_index + 1
    &&& post.side_seq(order.side.opposite_spec()) == st.makers
    &&& post.order_map@ == st.map.push(IndexEntry { order: r, resting: rested })
    &&& post.side_seq(order.side) == (if rested {
        insert_order(pre.side_seq(order.side), r)
    } else {
        pre.side_seq(order.side)
    })
}

/// The matching walk a market order performs: no price bound.
pub open spec fn market_match_state(b: Orderbook, order: MarketOrder) -> MatchState {
    match_step(
        b.side_seq(order.side.opposite_spec()),
        b.order_map@,
        order.side,
        None,
        order.quantity.units as int,
        0,
        0,
    )
}

/// The two books hold the same state.
pub open spec fn book_unchanged(pre: Orderbook, post: Orderbook) -> bool {
    &&& post.asks@ == pre.asks@
    &&& post.bids@ == pre.bids@
    &&& post.order_map@ == pre.order_map@
    &&& post.order_id_index == pre.order_id_index
}

/// How market admission transforms the book and what it reports: against
/// an empty opposite side it fails with no liquidity and changes nothing;
/// otherwise it consumes as much as the side offers, reports the filled
/// quantity, and reports the equal-weighted mean of the touched orders'
/// prices (one price per touched order, rounded toward zero at the fixed
/// scale).
pub open spec fn market_admission_rel(
    pre: Orderbook,
    post: Orderbook,
    order: MarketOrder,
    r: MarketOrderResponse,
) -> bool {
    let st = market_match_state(pre, order);
    if pre.side_seq(order.side.opposite_spec()).len() == 0 {
        &&& r == (MarketOrderResponse {
            success: false,
            average_price: None,
            quantity: None,
            error: Some(CustomError::LimitOrderDoesNotExist),
        })
        &&& book_unchanged(pre, post)
    } else {
        &&& r.success == true
        &&& r.error is None
        &&& r.quantity == Some(Amount { units: (order.quantity.units - st.remaining) as u64 })
        &&& r.average_price == Some(Amount { units: (st.fill_sum / st.fill_count) as u64 })
        &&& post.side_seq(order.side.opposite_spec()) == st.makers
        &&& post.order_map@ == st.map
        &&& post.side_seq(order.side) == pre.side_seq(order.side)
        &&& post.order_id_index == pre.order_id_index
    }
}

impl Orderbook {
    /// The queue of `side`.
    pub open spec fn side_seq(self, side: Side) -> Seq<OpenOrder> {
        match side {
            Side::Asks => self.asks@,
            Side::Bids => self.bids@,
        }
    }

    /// The book is not crossed: whenever both sides rest, the best ask is
    /// strictly above the best bid.
    pub open spec fn not_crossed(self) -> bool {
        self.asks@.len() > 0 && self.bids@.len() > 0 ==> self.asks@[0].price.units
            > self.bids@[0].price.units
    }

    /// Every resting slot of the id index is present in its side's queue.
    pub open spec fn resting_in_queues(self) -> bool {
        forall|i: int|
            0 <= i < self.order_map@.len() && (#[trigger] self.order_map@[i]).resting ==> appears(
                self.side_seq(self.order_map@[i].order.side),
                self.order_map@[i].order,
            )
    }

    /// No order id rests on both sides at once.
    pub open spec fn sides_disjoint(self) -> bool {
        forall|i: int, j: int|
            0 <= i < self.asks@.len() && 0 <= j < self.bids@.len() ==> (#[trigger] self.asks@[i]).order_id
                != (#[trigger] self.bids@[j]).order_id
    }

    /// The book invariant, maintained by every operation.
    pub open spec fn wf(self) -> bool {
        &&& side_wf(self.asks@, Side::Asks, self.order_map@)
        &&& side_wf(self.bids@, Side::Bids, self.order_map@)
        &&& map_wf(self.order_map@)
        &&& ids_distinct(self.asks@)
        &&& ids_distinct(self.bids@)
        &&& self.sides_disjoint()
        &&& self.resting_in_queues()
        &&& self.not_crossed()
        &&& self.order_map@.len() == self.order_id_index
        &&& self.asks@.len() + self.bids@.len() <= self.order_id_index
    }

    /// An empty book.
    pub fn new() -> (r: Orderbook)
        ensures
            r.wf(),
            r.asks@.len() == 0,
            r.bids@.len() == 0,
            r.order_id_index == 0,
            r.order_map@.len() == 0,
    {
        Orderbook {
            bids: Vec::new(),
            asks: Vec::new(),
            order_id_index: 0,
            order_map: Vec::new(),
        }
    }

    /// The highest resting bid price, if any bid rests.
    pub fn get_best_bid(&self) -> (r: Option<Amount>)
        ensures
            self.bids@.len() == 0 ==> r is None,
            self.bids@.len() > 0 ==> r == Some(self.bids@[0].price),
    {
        if self.bids.len() == 0 {
            None
        } else {
            Some(self.bids[0].price)
        }
    }

    /// The lowest resting ask price, if any ask rests.
    pub fn get_best_ask(&self) -> (r: Option<Amount>)
        ensures
            self.asks@.len() == 0 ==> r is None,
            self.asks@.len() > 0 ==> r == Some(self.asks@[0].price),
    {
        if self.asks.len() == 0 {
            None
        } else {
            Some(self.asks[0].price)
        }
    }

    /// The lowest resting bid price, if any bid rests.
    pub fn get_worst_bid(&self) -> (r: Option<Amount>)
        ensures
            self.bids@.len() == 0 ==> r is None,
            self.bids@.len() > 0 ==> r == Some(self.bids@[self.bids@.len() - 1].price),
    {
        if self.bids.len() == 0 {
            None
        } else {
            Some(self.bids[self.bids.len() - 1].price)
        }
    }

    /// The highest resting ask price, if any ask rests.
    pub fn get_worst_ask(&self) -> (r: Option<Amount>)
        ensures
            self.asks@.len() == 0 ==> r is None,
            self.asks@.len() > 0 ==> r == Some(self.asks@[self.asks@.len() - 1].price),
    {
        if self.asks.len() == 0 {
            None
        } else {
            Some(self.asks[self.asks.len() - 1].price)
        }
    }

    /// Best ask minus best bid when both sides rest; `None` otherwise.
    /// The invariant keeps the book uncrossed, so the spread is positive.
    pub fn get_spread(&self) -> (r: Option<Amount>)
        requires
            self.wf(),
        ensures
            self.asks@.len() == 0 || self.bids@.len() == 0 ==> r is None,
            self.asks@.len() > 0 && self.bids@.len() > 0 ==> r == Some(
                Amount { units: (self.asks@[0].price.units - self.bids@[0].price.units) as u64 },
            ),
    {
        if self.asks.len() == 0 || self.bids.len() == 0 {
            None
        } else {
            Some(Amount { units: self.asks[0].price.units - self.bids[0].price.units })
        }
    }

    /// The midpoint of the best prices when both sides rest; `None`
    /// otherwise. The division by two rounds toward zero at the fixed
    /// scale of `Amount`.
    pub fn mid_price(&self) -> (r: Option<Amount>)
        ensures
            self.asks@.len() == 0 || self.bids@.len() == 0 ==> r is None,
            self.asks@.len() > 0 && self.bids@.len() > 0 ==> r == Some(
                Amount {
                    units: ((self.asks@[0].price.units + self.bids@[0].price.units) as int
                        / 2) as u64,
                },
            ),
    {
        if self.asks.len() == 0 || self.bids.len() == 0 {
            None
        } else {
            let a = self.asks[0].price.units as u128;
            let b = self.bids[0].price.units as u128;
            let m = (a + b) / 2;
            Some(Amount { units: m as u64 })
        }
    }

    /// The canonical record of an issued order id, whatever its state
    /// (resting, partially filled, fully matched, or cancelled);
    /// `OrderDoesNotExist` for an id the book never issued. A returned
    /// record never reports more filled than its quantity.
    pub fn get_order(&self, order_id: u64) -> (r: Result<OpenOrder, ErrorResponse>)
        requires
            self.wf(),
        ensures
            1 <= order_id <= self.order_map@.len() ==> r == Ok::<OpenOrder, ErrorResponse>(
                self.order_map@[order_id - 1].order,
            ),
            !(1 <= order_id <= self.order_map@.len()) ==> r == Err::<OpenOrder, ErrorResponse>(
                ErrorResponse { error: CustomError::OrderDoesNotExist },
            ),
            r matches Ok(o) ==> o.quantity_filled.units <= o.quantity.units,
    {
        if 1 <= order_id && order_id <= self.order_map.len() as u64 {
            Ok(self.order_map[(order_id - 1) as usize].order)
        } else {
            Err(ErrorResponse::new(CustomError::OrderDoesNotExist))
        }
    }

    /// The bid-side depth rows: price levels descending from the best bid.
    pub fn get_bids(&self) -> (r: Vec<Order>)
        requires
            self.wf(),
        ensures
            r@ == depth_rows(self.bids@),
    {
        depth_side(&self.bids)
    }

    /// The ask-side depth rows: price levels ascending from the best ask.
    pub fn get_asks(&self) -> (r: Vec<Order>)
        requires
            self.wf(),
        ensures
            r@ == depth_rows(self.asks@),
    {
        depth_side(&self.asks)
    }

    /// A snapshot of both sides: asks ascending, bids descending, one row
    /// per price level. The snapshot is a pure function of the book's
    /// state, and every row covers at least one order.
    pub fn depth(&self) -> (r: Depth)
        requires
            self.wf(),
        ensures
            r.asks@ == depth_rows(self.asks@),
            r.bids@ == depth_rows(self.bids@),
            forall|i: int| 0 <= i < r.asks@.len() ==> (#[trigger] r.asks@[i]).order_count >= 1,
            forall|i: int| 0 <= i < r.bids@.len() ==> (#[trigger] r.bids@[i]).order_count >= 1,
    {
        proof {
            crate::model::lemma_depth_rows_positive(self.asks@);
            crate::model::lemma_depth_rows_positive(self.bids@);
        }
        let bids = self.get_bids();
        let asks = self.get_asks();
        Depth { bids, asks }
    }

    /// Admits a limit order: allocates the next id, matches against the
    /// opposite side while the price crosses, rests any remainder at its
    /// price-time position, and returns the canonical record. A fully
    /// matched order is returned too, with `quantity_filled == quantity`;
    /// it stays in the id index but never rests.
    pub fn add_limit_order(&mut self, order: LimitOrder) -> (r: OpenOrder)
        requires
            old(self).wf(),
            order.price.units > 0,
            order.quantity.units > 0,
            old(self).order_id_index < u64::MAX,
        ensures
            final(self).wf(),
            limit_admission_rel(*old(self), *final(self), order, r),
    {
        self.order_id_index = self.order_id_index + 1;
        let order_id = self.order_id_index;
        let r = match order.side {
            Side::Asks => {
                proof {
                    assert forall|k: int|
                        0 <= k < self.order_map@.len() && (#[trigger] self.order_map@[k]).resting
                        implies appears(
                        if self.order_map@[k].order.side == Side::Asks {
                            self.asks@
                        } else {
                            self.bids@
                        },
                        self.order_map@[k].order,
                    ) by {
                        assert(appears(
                            old(self).side_seq(self.order_map@[k].order.side),
                            self.order_map@[k].order,
                        ));
                    }
                }
                admit_limit(&mut self.asks, &mut self.bids, &mut self.order_map, order, order_id)
            },
            Side::Bids => {
                proof {
                    assert forall|k: int|
                        0 <= k < self.order_map@.len() && (#[trigger] self.order_map@[k]).resting
                        implies appears(
                        if self.order_map@[k].order.side == Side::Bids {
                            self.bids@
                        } else {
                            self.asks@
                        },
                        self.order_map@[k].order,
                    ) by {
                        assert(appears(
                            old(self).side_seq(self.order_map@[k].order.side),
                            self.order_map@[k].order,
                        ));
                    }
                }
                admit_limit(&mut self.bids, &mut self.asks, &mut self.order_map, order, order_id)
            },
        };
        proof {
            let post = *self;
            let pre = *old(self);
            match order.side {
                Side::Asks => {
                    assert(pair_resting(Side::Asks, post.asks@, post.bids@, post.order_map@));
                    assert forall|i: int|
                        0 <= i < post.order_map@.len() && (#[trigger] post.order_map@[i]).resting
                        implies appears(
                        post.side_seq(post.order_map@[i].order.side),
                        post.order_map@[i].order,
                    ) by {
                        assert(appears(
                            if post.order_map@[i].order.side == Side::Asks {
                                post.asks@
                            } else {
                                post.bids@
                            },
                            post.order_map@[i].order,
                        ));
                    }
                    assert(post.sides_disjoint());
                },
                Side::Bids => {
                    assert(pair_resting(Side::Bids, post.bids@, post.asks@, post.order_map@));
                    assert forall|i: int|
                        0 <= i < post.order_map@.len() && (#[trigger] post.order_map@[i]).resting
                        implies appears(
                        post.side_seq(post.order_map@[i].order.side),
                        post.order_map@[i].order,
                    ) by {
                        assert(appears(
                            if post.order_map@[i].order.side == Side::Bids {
                                post.bids@
                            } else {
                                post.asks@
                            },
                            post.order_map@[i].order,
                        ));
                    }
                    assert(pair_disjoint(post.bids@, post.asks@));
                    assert forall|i: int, j: int|
                        0 <= i < post.asks@.len() && 0 <= j < post.bids@.len() implies (
                    #[trigger] post.asks@[i]).order_id != (#[trigger] post.bids@[j]).order_id by {
                        assert(post.bids@[j].order_id != post.asks@[i].order_id);
                    }
                },
            }
            assert(post.wf());
            assert(limit_admission_rel(pre, post, order, r));
        }
        r
    }

    /// Cancels a resting order, per `cancel_rel`: unknown and previously
    /// cancelled ids fail as unknown, fully matched orders cannot be
    /// cancelled, and an active order leaves its queue while its record
    /// stays queryable in the index.
    pub fn delete_order(&mut self, order_id: u64) -> (r: Result<DeleteResponse, ErrorResponse>)
        requires
            old(self).wf(),
        ensures
            final(self).wf(),
            cancel_rel(*old(self), *final(self), order_id, r),
    {
        if order_id < 1 || order_id > self.order_map.len() as u64 {
            return Err(ErrorResponse::new(CustomError::OrderDoesNotExist));
        }
        let e = self.order_map[(order_id - 1) as usize];
        if e.order.quantity_filled.units == e.order.quantity.units {
            return Err(ErrorResponse::new(CustomError::OrderAlreadyMatched));
        }
        if !e.resting {
            return Err(ErrorResponse::new(CustomError::OrderDoesNotExist));
        }
        proof {
            assert(e.order.order_id == order_id);
            assert(appears(old(self).side_seq(e.order.side), e.order));
            let w = choose|w: int|
                0 <= w < old(self).side_seq(e.order.side).len() && #[trigger] old(self).side_seq(
                    e.order.side,
                )[w] == e.order;
            assert(old(self).side_seq(e.order.side)[w].order_id == order_id);
        }
        match e.order.side {
            Side::Asks => remove_from_queue(&mut self.asks, order_id),
            Side::Bids => remove_from_queue(&mut self.bids, order_id),
        }
        let idx = (order_id - 1) as usize;
        self.order_map[idx] = IndexEntry { order: e.order, resting: false };
        proof {
            let pre = *old(self);
            let post = *self;
            match e.order.side {
                Side::Asks => {
                    assert(pair_resting(Side::Asks, pre.asks@, pre.bids@, pre.order_map@)) by {
                        assert forall|k: int|
                            0 <= k < pre.order_map@.len() && (
                            #[trigger] pre.order_map@[k]).resting implies appears(
                            if pre.order_map@[k].order.side == Side::Asks {
                                pre.asks@
                            } else {
                                pre.bids@
                            },
                            pre.order_map@[k].order,
                        ) by {
                            assert(appears(
                                pre.side_seq(pre.order_map@[k].order.side),
                                pre.order_map@[k].order,
                            ));
                        }
                    }
                    crate::model::lemma_cancel_restore(
                        Side::Asks,
                        pre.asks@,
                        pre.bids@,
                        pre.order_map@,
                        post.asks@,
                        post.order_map@,
                        order_id,
                        e.order,
                    );
                    assert forall|i: int|
                        0 <= i < post.order_map@.len() && (#[trigger] post.order_map@[i]).resting
                        implies appears(
                        post.side_seq(post.order_map@[i].order.side),
                        post.order_map@[i].order,
                    ) by {
                        assert(appears(
                            if post.order_map@[i].order.side == Side::Asks {
                                post.asks@
                            } else {
                                post.bids@
                            },
                            post.order_map@[i].order,
                        ));
                    }
                    assert(post.sides_disjoint());
                },
                Side::Bids => {
                    assert(pair_resting(Side::Bids, pre.bids@, pre.asks@, pre.order_map@)) by {
                        assert forall|k: int|
                            0 <= k < pre.order_map@.len() && (
                            #[trigger] pre.order_map@[k]).resting implies appears(
                            if pre.order_map@[k].order.side == Side::Bids {
                                pre.bids@
                            } else {
                                pre.asks@
                            },
                            pre.order_map@[k].order,
                        ) by {
                            assert(appears(
                                pre.side_seq(pre.order_map@[k].order.side),
                                pre.order_map@[k].order,
                            ));
                        }
                    }
                    crate::model::lemma_cancel_restore(
                        Side::Bids,
                        pre.bids@,
                        pre.asks@,
                        pre.order_map@,
                        post.bids@,
                        post.order_map@,
                        order_id,
                        e.order,
                    );
                    assert forall|i: int|
                        0 <= i < post.order_map@.len() && (#[trigger] post.order_map@[i]).resting
                        implies appears(
                        post.side_seq(post.order_map@[i].order.side),
                        post.order_map@[i].order,
                    ) by {
                        assert(appears(
                            if post.order_map@[i].order.side == Side::Bids {
                                post.bids@
                            } else {
                                post.asks@
                            },
                            post.order_map@[i].order,
                        ));
                    }
                    assert forall|i: int, j: int|
                        0 <= i < post.asks@.len() && 0 <= j < post.bids@.len() implies (
                    #[trigger] post.asks@[i]).order_id != (#[trigger] post.bids@[j]).order_id by {
                        assert(post.bids@[j].order_id != post.asks@[i].order_id);
                    }
                },
            }
            assert(post.wf());
        }
        Ok(DeleteResponse::new(e.order.price, e.order.quantity, e.order.quantity_filled, order_id))
    }

    /// Modifies a resting order, per `modify_rel`: after validation, a
    /// quantity change at the same price is applied in place (time
    /// priority kept); a quantity set exactly to the filled amount leaves
    /// the order fully matched and out of its queue; a price change moves
    /// the order to the tail of the new price level, and is rejected when
    /// it would cross or lock the opposite side.
    pub fn modify_order(&mut self, modify_order_request: ModifyOrderRequest) -> (r: Result<
        ModifyOrderResponse,
        ErrorResponse,
    >)
        requires
            old(self).wf(),
            modify_order_request.price matches Some(p) ==> p.units > 0,
            modify_order_request.quantity matches Some(q) ==> q.units > 0,
        ensures
            final(self).wf(),
            modify_rel(*old(self), *final(self), modify_order_request, r),
    {
        let req = modify_order_request;
        let order_id = req.order_id;
        if order_id < 1 || order_id > self.order_map.len() as u64 {
            return Err(ErrorResponse::new(CustomError::OrderDoesNotExist));
        }
        let e = self.order_map[(order_id - 1) as usize];
        if e.order.quantity_filled.units == e.order.quantity.units {
            return Err(ErrorResponse::new(CustomError::OrderAlreadyMatched));
        }
        if !e.resting {
            return Err(ErrorResponse::new(CustomError::OrderDoesNotExist));
        }
        if let Some(q) = req.quantity {
            if q.units < e.order.quantity_filled.units {
                return Err(
                    ErrorResponse::new(CustomError::ModifyQuantityCannotBeLesserThanFilledQuantity),
                );
            }
        }
        let new_price = match req.price {
            Some(p) => p,
            None => e.order.price,
        };
        let new_quantity = match req.quantity {
            Some(q) => q,
            None => e.order.quantity,
        };
        if new_price.units != e.order.price.units {
            let crossing = match e.order.side {
                Side::Bids => self.asks.len() > 0 && new_price.units >= self.asks[0].price.units,
                Side::Asks => self.bids.len() > 0 && new_price.units <= self.bids[0].price.units,
            };
            if crossing {
                return Err(ErrorResponse::new(CustomError::ModifyPriceWouldCrossBook));
            }
        }
        let upd = OpenOrder { price: new_price, quantity: new_quantity, ..e.order };
        let idx = (order_id - 1) as usize;
        proof {
            assert(e.order.order_id == order_id);
            assert(appears(old(self).side_seq(e.order.side), e.order));
            let w = choose|w: int|
                0 <= w < old(self).side_seq(e.order.side).len() && #[trigger] old(self).side_seq(
                    e.order.side,
                )[w] == e.order;
            assert(old(self).side_seq(e.order.side)[w].order_id == order_id);
            lemma_resting_to_pair(*old(self), e.order.side);
        }
        if upd.quantity_filled.units == upd.quantity.units {
            match e.order.side {
                Side::Asks => remove_from_queue(&mut self.asks, order_id),
                Side::Bids => remove_from_queue(&mut self.bids, order_id),
            }
            self.order_map[idx] = IndexEntry { order: upd, resting: false };
            proof {
                match e.order.side {
                    Side::Asks => crate::model::lemma_cancel_restore(
                        Side::Asks,
                        old(self).asks@,
                        old(self).bids@,
                        old(self).order_map@,
                        self.asks@,
                        self.order_map@,
                        order_id,
                        upd,
                    ),
                    Side::Bids => crate::model::lemma_cancel_restore(
                        Side::Bids,
                        old(self).bids@,
                        old(self).asks@,
                        old(self).order_map@,
                        self.bids@,
                        self.order_map@,
                        order_id,
                        upd,
                    ),
                }
                lemma_pair_to_resting(*self, e.order.side);
                lemma_pair_to_disjoint(*self, e.order.side);
                assert(self.wf());
            }
            return Ok(ModifyOrderResponse::new(upd.price, upd.quantity, order_id));
        }
        if new_price.units == e.order.price.units {
            match e.order.side {
                Side::Asks => replace_in_queue(&mut self.asks, order_id, upd),
                Side::Bids => replace_in_queue(&mut self.bids, order_id, upd),
            }
            self.order_map[idx] = IndexEntry { order: upd, resting: true };
            proof {
                assert(upd.price == old(self).order_map@[order_id - 1].order.price);
                match e.order.side {
                    Side::Asks => crate::model::lemma_replace_restore(
                        Side::Asks,
                        old(self).asks@,
                        old(self).bids@,
                        old(self).order_map@,
                        self.asks@,
                        self.order_map@,
                        order_id,
                        upd,
                    ),
                    Side::Bids => crate::model::lemma_replace_restore(
                        Side::Bids,
                        old(self).bids@,
                        old(self).asks@,
                        old(self).order_map@,
                        self.bids@,
                        self.order_map@,
                        order_id,
                        upd,
                    ),
                }
                lemma_pair_to_resting(*self, e.order.side);
                lemma_pair_to_disjoint(*self, e.order.side);
                assert(self.wf());
            }
            return Ok(ModifyOrderResponse::new(upd.price, upd.quantity, order_id));
        }
        match e.order.side {
            Side::Asks => {
                remove_from_queue(&mut self.asks, order_id);
                insert_resting(&mut self.asks, upd);
            },
            Side::Bids => {
                remove_from_queue(&mut self.bids, order_id);
                insert_resting(&mut self.bids, upd);
            },
        }
        self.order_map[idx] = IndexEntry { order: upd, resting: true };
        proof {
            match e.order.side {
                Side::Asks => crate::model::lemma_move_restore(
                    Side::Asks,
                    old(self).asks@,
                    old(self).bids@,
                    old(self).order_map@,
                    self.asks@,
                    self.order_map@,
                    order_id,
                    upd,
                ),
                Side::Bids => crate::model::lemma_move_restore(
                    Side::Bids,
                    old(self).bids@,
                    old(self).asks@,
                    old(self).order_map@,
                    self.bids@,
                    self.order_map@,
                    order_id,
                    upd,
                ),
            }
            lemma_pair_to_resting(*self, e.order.side);
            lemma_pair_to_disjoint(*self, e.order.side);
            assert(self.wf());
        }
        Ok(ModifyOrderResponse::new(upd.price, upd.quantity, order_id))
    }

    /// Admits a market order: against an empty opposite side it fails with
    /// no liquidity and leaves the book unchanged; otherwise it consumes
    /// the opposite side best-price first until filled or the side is
    /// exhausted (a partial fill is still a success), and reports the
    /// filled quantity and the equal-weighted mean of the touched orders'
    /// prices, rounded toward zero at the fixed scale. Market orders are
    /// ephemeral: they allocate no id and never rest.
    pub fn add_market_order(&mut self, order: MarketOrder) -> (r: MarketOrderResponse)
        requires
            old(self).wf(),
            order.quantity.units > 0,
        ensures
            final(self).wf(),
            market_admission_rel(*old(self), *final(self), order, r),
    {
        let opp_empty = match order.side {
            Side::Asks => self.bids.len() == 0,
            Side::Bids => self.asks.len() == 0,
        };
        if opp_empty {
            return MarketOrderResponse::new(
                false,
                None,
                None,
                Some(CustomError::LimitOrderDoesNotExist),
            );
        }
        let walk = match order.side {
            Side::Asks => match_against(
                &mut self.bids,
                &mut self.order_map,
                Side::Asks,
                None,
                order.quantity.units,
            ),
            Side::Bids => match_against(
                &mut self.asks,
                &mut self.order_map,
                Side::Bids,
                None,
                order.quantity.units,
            ),
        };
        let (rem, fill_sum, fill_count) = walk;
        proof {
            let pre = *old(self);
            let post = *self;
            let oside = order.side.opposite_spec();
            let m0 = pre.side_seq(oside);
            let own0 = pre.side_seq(order.side);
            crate::model::lemma_match_step_count(
                m0,
                pre.order_map@,
                order.side,
                None,
                order.quantity.units as int,
                0,
                0,
            );
            assert(fill_count >= 1);
            vstd::arithmetic::div_mod::lemma_div_is_ordered(
                fill_sum as int,
                fill_count as int * u64::MAX as int,
                fill_count as int,
            );
            vstd::arithmetic::div_mod::lemma_div_multiples_vanish(
                u64::MAX as int,
                fill_count as int,
            );
            assert(fill_sum as int / fill_count as int <= u64::MAX as int);
            match order.side {
                Side::Asks => {
                    assert(pair_resting(Side::Asks, own0, m0, pre.order_map@)) by {
                        assert forall|k: int|
                            0 <= k < pre.order_map@.len() && (
                            #[trigger] pre.order_map@[k]).resting implies appears(
                            if pre.order_map@[k].order.side == Side::Asks {
                                own0
                            } else {
                                m0
                            },
                            pre.order_map@[k].order,
                        ) by {
                            assert(appears(
                                pre.side_seq(pre.order_map@[k].order.side),
                                pre.order_map@[k].order,
                            ));
                        }
                    }
                    crate::model::lemma_market_restore(
                        Side::Asks,
                        own0,
                        m0,
                        pre.order_map@,
                        post.bids@,
                        post.order_map@,
                    );
                    assert forall|i: int|
                        0 <= i < post.order_map@.len() && (#[trigger] post.order_map@[i]).resting
                        implies appears(
                        post.side_seq(post.order_map@[i].order.side),
                        post.order_map@[i].order,
                    ) by {
                        assert(appears(
                            if post.order_map@[i].order.side == Side::Asks {
                                post.asks@
                            } else {
                                post.bids@
                            },
                            post.order_map@[i].order,
                        ));
                    }
                    assert(post.sides_disjoint());
                },
                Side::Bids => {
                    assert(pair_resting(Side::Bids, own0, m0, pre.order_map@)) by {
                        assert forall|k: int|
                            0 <= k < pre.order_map@.len() && (
                            #[trigger] pre.order_map@[k]).resting implies appears(
                            if pre.order_map@[k].order.side == Side::Bids {
                                own0
                            } else {
                                m0
                            },
                            pre.order_map@[k].order,
                        ) by {
                            assert(appears(
                                pre.side_seq(pre.order_map@[k].order.side),
                                pre.order_map@[k].order,
                            ));
                        }
                    }
                    crate::model::lemma_market_restore(
                        Side::Bids,
                        own0,
                        m0,
                        pre.order_map@,
                        post.asks@,
                        post.order_map@,
                    );
                    assert forall|i: int|
                        0 <= i < post.order_map@.len() && (#[trigger] post.order_map@[i]).resting
                        implies appears(
                        post.side_seq(post.order_map@[i].order.side),
                        post.order_map@[i].order,
                    ) by {
                        assert(appears(
                            if post.order_map@[i].order.side == Side::Bids {
                                post.bids@
                            } else {
                                post.asks@
                            },
                            post.order_map@[i].order,
                        ));
                    }
                    assert forall|i: int, j: int|
                        0 <= i < post.asks@.len() && 0 <= j < post.bids@.len() implies (
                    #[trigger] post.asks@[i]).order_id != (#[trigger] post.bids@[j]).order_id by {
                        assert(post.bids@[j].order_id != post.asks@[i].order_id);
                    }
                },
            }
            assert(post.wf());
        }
        let avg = (fill_sum / (fill_count as u128)) as u64;
        let filled = order.quantity.units - rem;
        MarketOrderResponse::new(true, Some(Amount { units: avg }), Some(Amount { units: filled }), None)
    }
}

} // verus!
