use crate::book_model::{
    best_price, better, crosses, depth_of, distinct_prices, fill, front_len, left_of,
    lemma_level_index_bounds, lemma_step_keeps_wf, lemma_traded_qty_concat, level_index,
    level_wf, match_book, match_step, mid_of, min_nat, opposite, positive_side, price_runs, qty_total,
    queue_of, rest_in_side, side_holds, side_traced, side_wf, sweep, top_levels,
    traded_notional, traded_qty, uncrossed, visible_levels, BookState, LevelState,
};
use crate::types::{BookOrder, OrderId, Price, Quantity, Side, Timestamp, Trade};
use vstd::prelude::*;

verus! {

broadcast use crate::types::group_value_views;

/// After a fill that used up its maker, the queue has lost exactly its head.
proof fn lemma_step_pops_queue(
    taker_side: Side,
    levels: Seq<LevelState>,
    remaining: nat,
    limit: Option<Price>,
    taker_id: OrderId,
    ts: Timestamp,
)
    requires
        match_step(taker_side, levels, remaining, limit, taker_id, ts) is Some,
    ensures
        ({
            let s = match_step(taker_side, levels, remaining, limit, taker_id, ts).unwrap();
            &&& queue_of(levels).len() > 0
            &&& queue_of(levels)[0] == levels[0].orders[0]
            &&& s.2 == levels[0].orders[0].qty@ ==> queue_of(s.0) =~= queue_of(levels).drop_first()
        }),
{
    let s = match_step(taker_side, levels, remaining, limit, taker_id, ts).unwrap();
    let o = levels[0].orders;
    assert(queue_of(levels) == o + queue_of(levels.drop_first()));
    if s.2 == o[0].qty@ {
        if o.len() > 1 {
            assert(s.0.drop_first() =~= levels.drop_first());
            assert(queue_of(s.0) == o.drop_first() + queue_of(s.0.drop_first()));
        } else {
            assert(o.drop_first() =~= Seq::<crate::types::BookOrder>::empty());
        }
    }
}

/// Price-time priority: a taker trades with the resting orders exactly in queue order (best
/// price first, oldest first within a price), at the price of each maker, never beyond its
/// limit, and every trade names the taker and the time of the order.
pub proof fn law_fill_follows_queue(
    taker_side: Side,
    levels: Seq<LevelState>,
    qty: nat,
    limit: Option<Price>,
    taker_id: OrderId,
    ts: Timestamp,
)
    requires
        side_wf(opposite(taker_side), levels),
    ensures
        ({
            let trades = fill(taker_side, levels, qty, limit, taker_id, ts).1;
            let queue = queue_of(levels);
            &&& trades.len() <= queue.len()
            &&& forall|i: int|
                0 <= i < trades.len() ==> {
                    &&& (#[trigger] trades[i]).maker_order_id == queue[i].id
                    &&& trades[i].price == queue[i].price
                    &&& trades[i].taker_order_id == taker_id
                    &&& trades[i].ts == ts
                    &&& crosses(taker_side, trades[i].price@, limit)
                }
        }),
    decreases levels.len(), front_len(levels), qty,
{
    if qty > 0 {
        match match_step(taker_side, levels, qty, limit, taker_id, ts) {
            None => {},
            Some(step) => {
                let rest_qty = (qty - step.2) as nat;
                lemma_step_pops_queue(taker_side, levels, qty, limit, taker_id, ts);
                lemma_step_keeps_wf(opposite(taker_side), taker_side, levels, qty, limit, taker_id, ts);
                law_fill_follows_queue(taker_side, step.0, rest_qty, limit, taker_id, ts);
                let next = fill(taker_side, step.0, rest_qty, limit, taker_id, ts);
                let trades = fill(taker_side, levels, qty, limit, taker_id, ts).1;
                let queue = queue_of(levels);
                assert(level_wf(opposite(taker_side), levels[0]));
                assert(trades == seq![step.1] + next.1);
                if step.2 == levels[0].orders[0].qty@ {
                    assert forall|i: int| 0 <= i < trades.len() implies {
                        &&& (#[trigger] trades[i]).maker_order_id == queue[i].id
                        &&& trades[i].price == queue[i].price
                        &&& trades[i].taker_order_id == taker_id
                        &&& trades[i].ts == ts
                        &&& crosses(taker_side, trades[i].price@, limit)
                    } by {
                        if i > 0 {
                            assert(trades[i] == next.1[i - 1]);
                            assert(queue_of(step.0)[i - 1] == queue[i]);
                        }
                    }
                } else {
                    assert(rest_qty == 0);
                    assert(next.1 =~= Seq::<crate::types::Trade>::empty());
                }
            },
        }
    }
}

/// Every order of a queue sits at the price of one of its levels.
proof fn lemma_queue_prices(side: Side, levels: Seq<LevelState>)
    requires
        side_wf(side, levels),
    ensures
        forall|i: int|
            0 <= i < queue_of(levels).len() ==> exists|k: int|
                0 <= k < levels.len() && (#[trigger] queue_of(levels)[i]).price == levels[k].price,
    decreases levels.len(),
{
    if levels.len() > 0 {
        let rest = levels.drop_first();
        assert(side_wf(side, rest)) by {
            assert forall|i: int| 0 <= i < rest.len() implies level_wf(side, #[trigger] rest[i]) by {
                assert(rest[i] == levels[i + 1]);
            }
            assert forall|i: int, j: int| 0 <= i < j < rest.len() implies better(
                side,
                #[trigger] rest[i].price@,
                #[trigger] rest[j].price@,
            ) by {
                assert(better(side, levels[i + 1].price@, levels[j + 1].price@));
            }
        }
        lemma_queue_prices(side, rest);
        let q = queue_of(levels);
        let o = levels[0].orders;
        assert(level_wf(side, levels[0]));
        assert forall|i: int| 0 <= i < q.len() implies exists|k: int|
            0 <= k < levels.len() && (#[trigger] q[i]).price == levels[k].price by {
            if i < o.len() {
                assert(q[i] == o[i]);
                assert(q[i].price == levels[0].price);
            } else {
                assert(q[i] == queue_of(rest)[i - o.len()]);
                let k = choose|k: int|
                    0 <= k < rest.len() && queue_of(rest)[i - o.len()].price == rest[k].price;
                assert(rest[k] == levels[k + 1]);
            }
        }
    }
}

/// The queue of a well-formed side is in priority order: no order is better priced than one
/// before it.
pub proof fn law_queue_in_priority_order(side: Side, levels: Seq<LevelState>)
    requires
        side_wf(side, levels),
    ensures
        forall|i: int, j: int|
            0 <= i < j < queue_of(levels).len() ==> !better(
                side,
                (#[trigger] queue_of(levels)[j]).price@,
                (#[trigger] queue_of(levels)[i]).price@,
            ),
    decreases levels.len(),
{
    if levels.len() > 0 {
        let rest = levels.drop_first();
        assert(side_wf(side, rest)) by {
            assert forall|i: int| 0 <= i < rest.len() implies level_wf(side, #[trigger] rest[i]) by {
                assert(rest[i] == levels[i + 1]);
            }
            assert forall|i: int, j: int| 0 <= i < j < rest.len() implies better(
                side,
                #[trigger] rest[i].price@,
                #[trigger] rest[j].price@,
            ) by {
                assert(better(side, levels[i + 1].price@, levels[j + 1].price@));
            }
        }
        law_queue_in_priority_order(side, rest);
        lemma_queue_prices(side, rest);
        let q = queue_of(levels);
        let o = levels[0].orders;
        assert(level_wf(side, levels[0]));
        assert forall|i: int, j: int| 0 <= i < j < q.len() implies !better(
            side,
            (#[trigger] q[j]).price@,
            (#[trigger] q[i]).price@,
        ) by {
            if j < o.len() {
                assert(q[i] == o[i] && q[j] == o[j]);
            } else if i < o.len() {
                assert(q[i] == o[i]);
                assert(q[j] == queue_of(rest)[j - o.len()]);
                let k = choose|k: int|
                    0 <= k < rest.len() && queue_of(rest)[j - o.len()].price == rest[k].price;
                assert(rest[k] == levels[k + 1]);
                assert(better(side, levels[0].price@, levels[k + 1].price@));
            } else {
                assert(q[i] == queue_of(rest)[i - o.len()]);
                assert(q[j] == queue_of(rest)[j - o.len()]);
            }
        }
    }
}

/// Within one side, "not strictly better" is transitive.
proof fn lemma_not_better_trans(side: Side, a: u64, b: u64, c: u64)
    requires
        !better(side, a, b),
        !better(side, b, c),
    ensures
        !better(side, a, c),
{
}

/// After a sweep, the best level left is never better than the best level before it.
pub proof fn lemma_fill_front_not_better(
    taker_side: Side,
    levels: Seq<LevelState>,
    qty: nat,
    limit: Option<Price>,
    taker_id: OrderId,
    ts: Timestamp,
)
    requires
        side_wf(opposite(taker_side), levels),
    ensures
        ({
            let rest = fill(taker_side, levels, qty, limit, taker_id, ts).0;
            rest.len() > 0 ==> levels.len() > 0 && !better(
                opposite(taker_side),
                rest[0].price@,
                levels[0].price@,
            )
        }),
    decreases levels.len(), front_len(levels), qty,
{
    let ms = opposite(taker_side);
    if qty > 0 {
        match match_step(taker_side, levels, qty, limit, taker_id, ts) {
            None => {},
            Some(step) => {
                lemma_step_keeps_wf(ms, taker_side, levels, qty, limit, taker_id, ts);
                lemma_fill_front_not_better(
                    taker_side,
                    step.0,
                    (qty - step.2) as nat,
                    limit,
                    taker_id,
                    ts,
                );
                let rest = fill(taker_side, levels, qty, limit, taker_id, ts).0;
                if rest.len() > 0 {
                    if step.0.len() < levels.len() && step.0.len() > 0 {
                        assert(step.0[0] == levels[1]);
                        assert(better(ms, levels[0].price@, levels[1].price@));
                        lemma_not_better_trans(
                            ms,
                            rest[0].price@,
                            step.0[0].price@,
                            levels[0].price@,
                        );
                    }
                }
            },
        }
    }
}

/// A sweep that leaves part of the taker unfilled stops at a level that does not cross, or
/// at an empty side.
pub proof fn lemma_fill_stops(
    taker_side: Side,
    levels: Seq<LevelState>,
    qty: nat,
    limit: Option<Price>,
    taker_id: OrderId,
    ts: Timestamp,
)
    requires
        side_wf(opposite(taker_side), levels),
    ensures
        ({
            let r = fill(taker_side, levels, qty, limit, taker_id, ts);
            traded_qty(r.1) < qty ==> r.0.len() == 0 || !crosses(taker_side, r.0[0].price@, limit)
        }),
    decreases levels.len(), front_len(levels), qty,
{
    let ms = opposite(taker_side);
    if qty > 0 {
        match match_step(taker_side, levels, qty, limit, taker_id, ts) {
            None => {
                if levels.len() > 0 {
                    assert(level_wf(ms, levels[0]));
                }
                assert(traded_qty(Seq::<Trade>::empty()) == 0);
            },
            Some(step) => {
                let rest_qty = (qty - step.2) as nat;
                lemma_step_keeps_wf(ms, taker_side, levels, qty, limit, taker_id, ts);
                lemma_fill_stops(taker_side, step.0, rest_qty, limit, taker_id, ts);
                let next = fill(taker_side, step.0, rest_qty, limit, taker_id, ts);
                let one = seq![step.1];
                lemma_traded_qty_concat(one, next.1);
                assert(one.drop_last() =~= Seq::<Trade>::empty());
                assert(traded_qty(one.drop_last()) == 0);
                assert(traded_qty(one) == step.1.qty@);
            },
        }
    }
}

/// The best price after an order rests on its side: its own, unless a better level exists.
pub proof fn lemma_rest_best(side: Side, levels: Seq<LevelState>, o: BookOrder)
    requires
        side_wf(side, levels),
        o.side == side,
    ensures
        best_price(rest_in_side(side, levels, o)) == Some(
            if levels.len() > 0 && better(side, levels[0].price@, o.price@) {
                levels[0].price
            } else {
                o.price
            },
        ),
{
    lemma_level_index_bounds(side, levels, o.price@);
    let k = level_index(side, levels, o.price@);
    if levels.len() > 0 && better(side, levels[0].price@, o.price@) {
        assert(k > 0);
    } else {
        assert(k == 0);
    }
}

/// The quantity of a level is that of its oldest order plus that of the others.
proof fn lemma_qty_total_front(orders: Seq<BookOrder>)
    requires
        orders.len() > 0,
    ensures
        qty_total(orders) == orders[0].qty@ + qty_total(orders.drop_first()),
    decreases orders.len(),
{
    if orders.len() == 1 {
        assert(orders.drop_last() =~= Seq::<BookOrder>::empty());
        assert(orders.drop_first() =~= Seq::<BookOrder>::empty());
        assert(qty_total(Seq::<BookOrder>::empty()) == 0);
    } else {
        lemma_qty_total_front(orders.drop_last());
        assert(orders.drop_last().drop_first() =~= orders.drop_first().drop_last());
        assert(orders.drop_last()[0] == orders[0]);
        assert(orders.drop_first().last() == orders.last());
    }
}

/// The notional of two runs of trades adds up.
pub proof fn lemma_traded_notional_concat(a: Seq<Trade>, b: Seq<Trade>)
    ensures
        traded_notional(a + b) == traded_notional(a) + traded_notional(b),
    decreases b.len(),
{
    if b.len() == 0 {
        assert(a + b =~= a);
    } else {
        lemma_traded_notional_concat(a, b.drop_last());
        assert((a + b).drop_last() =~= a + b.drop_last());
    }
}

/// The quantity and notional of a single trade.
proof fn lemma_one_trade(t: Trade)
    ensures
        traded_qty(seq![t]) == t.qty@,
        traded_notional(seq![t]) == (t.price@ as nat) * (t.qty@ as nat),
{
    let one = seq![t];
    assert(one.drop_last() =~= Seq::<Trade>::empty());
    assert(traded_qty(one.drop_last()) == 0);
    assert(traded_notional(one.drop_last()) == 0);
    assert(one.last() == t);
}

/// The estimate of a market order is what the order would get: the quantity and notional that
/// a sweep of the levels (without a limit) would trade.
pub proof fn law_estimate_matches_market_fill(
    taker_side: Side,
    levels: Seq<LevelState>,
    qty: nat,
    taker_id: OrderId,
    ts: Timestamp,
)
    requires
        side_wf(opposite(taker_side), levels),
    ensures
        ({
            let trades = fill(taker_side, levels, qty, None, taker_id, ts).1;
            &&& sweep(levels, qty).0 == traded_qty(trades)
            &&& sweep(levels, qty).1 == traded_notional(trades)
        }),
    decreases levels.len(), front_len(levels), qty,
{
    let ms = opposite(taker_side);
    let trades = fill(taker_side, levels, qty, None, taker_id, ts).1;
    if qty == 0 || levels.len() == 0 {
        assert(trades =~= Seq::<Trade>::empty());
        assert(traded_qty(trades) == 0);
        assert(traded_notional(trades) == 0);
    } else {
        assert(level_wf(ms, levels[0]));
        let step = match_step(taker_side, levels, qty, None, taker_id, ts).unwrap();
        let o = levels[0].orders;
        let mq = o[0].qty@ as nat;
        let price = levels[0].price@ as nat;
        let traded = step.2;
        let rest_qty = (qty - traded) as nat;
        assert(traded == min_nat(qty, mq));
        lemma_step_keeps_wf(ms, taker_side, levels, qty, None, taker_id, ts);
        law_estimate_matches_market_fill(taker_side, step.0, rest_qty, taker_id, ts);
        let next = fill(taker_side, step.0, rest_qty, None, taker_id, ts).1;
        assert(trades == seq![step.1] + next);
        lemma_traded_qty_concat(seq![step.1], next);
        lemma_traded_notional_concat(seq![step.1], next);
        lemma_one_trade(step.1);
        assert(step.1.qty@ == traded);
        assert(step.1.price@ == price);
        lemma_qty_total_front(o);
        let total = qty_total(o);
        let taken = min_nat(total, qty);
        let df = levels.drop_first();
        let below = sweep(df, (qty - taken) as nat);
        assert(sweep(levels, qty) == if taken == 0 {
            below
        } else {
            (below.0 + taken, below.1 + price * taken, below.2 + 1)
        });
        if traded == mq {
            if o.len() > 1 {
                let s0 = step.0;
                assert(s0.drop_first() =~= df);
                assert(s0[0].orders == o.drop_first());
                assert(s0[0].price@ == price);
                let total2 = qty_total(o.drop_first());
                assert(total2 == total - mq);
                if rest_qty == 0 {
                    assert(sweep(s0, 0) == (0nat, 0nat, 0nat));
                    assert(taken == qty);
                    assert(sweep(df, 0) == (0nat, 0nat, 0nat));
                } else {
                    let taken2 = min_nat(total2, rest_qty);
                    assert(taken2 + mq == taken);
                    let below2 = sweep(df, (rest_qty - taken2) as nat);
                    assert(below2 == below);
                    assert(sweep(s0, rest_qty) == if taken2 == 0 {
                        below2
                    } else {
                        (below2.0 + taken2, below2.1 + price * taken2, below2.2 + 1)
                    });
                    assert(price * taken == price * mq + price * taken2) by (nonlinear_arith)
                        requires
                            taken == mq + taken2,
                    ;
                }
            } else {
                assert(o.drop_first() =~= Seq::<BookOrder>::empty());
                assert(qty_total(Seq::<BookOrder>::empty()) == 0);
                assert(step.0 == df);
                assert(taken == mq);
            }
        } else {
            assert(traded == qty);
            assert(rest_qty == 0);
            assert(next =~= Seq::<Trade>::empty());
            assert(traded_qty(next) == 0);
            assert(traded_notional(next) == 0);
            assert(taken == qty);
            assert(sweep(df, 0) == (0nat, 0nat, 0nat));
        }
    }
}

/// A contiguous part of a well-formed side is well formed.
pub proof fn lemma_side_wf_subrange(side: Side, levels: Seq<LevelState>, a: int, b: int)
    requires
        side_wf(side, levels),
        0 <= a <= b <= levels.len(),
    ensures
        side_wf(side, levels.subrange(a, b)),
{
    let sub = levels.subrange(a, b);
    assert forall|i: int| 0 <= i < sub.len() implies level_wf(side, #[trigger] sub[i]) by {
        assert(sub[i] == levels[a + i]);
    }
    assert forall|i: int, j: int| 0 <= i < j < sub.len() implies better(
        side,
        #[trigger] sub[i].price@,
        #[trigger] sub[j].price@,
    ) by {
        assert(better(side, levels[a + i].price@, levels[a + j].price@));
    }
}

/// The shown levels of a well-formed side come best first, each at the price of one of the
/// levels and with a positive quantity, provided the totals fit.
proof fn lemma_visible_sorted(side: Side, levels: Seq<LevelState>)
    requires
        side_wf(side, levels),
        forall|k: int| 0 <= k < levels.len() ==> qty_total(#[trigger] levels[k].orders) <= u64::MAX,
    ensures
        forall|i: int|
            0 <= i < visible_levels(levels).len() ==> (#[trigger] visible_levels(levels)[i]).qty@ > 0
                && exists|k: int|
                0 <= k < levels.len() && visible_levels(levels)[i].price == levels[k].price,
        forall|i: int, j: int|
            0 <= i < j < visible_levels(levels).len() ==> better(
                side,
                (#[trigger] visible_levels(levels)[i]).price@,
                (#[trigger] visible_levels(levels)[j]).price@,
            ),
    decreases levels.len(),
{
    if levels.len() > 0 {
        let n = levels.len() - 1;
        let init = levels.drop_last();
        assert(init =~= levels.subrange(0, n));
        lemma_side_wf_subrange(side, levels, 0, n);
        assert forall|k: int| 0 <= k < init.len() implies qty_total(#[trigger] init[k].orders)
            <= u64::MAX by {
            assert(init[k] == levels[k]);
        }
        lemma_visible_sorted(side, init);
        let v = visible_levels(levels);
        let vi = visible_levels(init);
        let t = qty_total(levels[n].orders);
        assert(levels.last() == levels[n]);
        if t > 0 {
            assert(v == vi + seq![
                crate::types::Level {
                    price: levels[n].price,
                    qty: crate::types::Quantity::spec_from(t as u64),
                },
            ]);
            assert(v[vi.len() as int].qty@ == t);
        } else {
            assert(v =~= vi);
        }
        assert forall|i: int| 0 <= i < v.len() implies (#[trigger] v[i]).qty@ > 0 && exists|k: int|
            0 <= k < levels.len() && v[i].price == levels[k].price by {
            if i < vi.len() {
                assert(v[i] == vi[i]);
                let k = choose|k: int| 0 <= k < init.len() && vi[i].price == init[k].price;
                assert(levels[k] == init[k]);
            } else {
                assert(v[i].price == levels[n].price);
            }
        }
        assert forall|i: int, j: int| 0 <= i < j < v.len() implies better(
            side,
            (#[trigger] v[i]).price@,
            (#[trigger] v[j]).price@,
        ) by {
            assert(v[i] == vi[i]);
            if j < vi.len() {
                assert(v[j] == vi[j]);
            } else {
                let k = choose|k: int| 0 <= k < init.len() && vi[i].price == init[k].price;
                assert(levels[k] == init[k]);
                assert(better(side, levels[k].price@, levels[n].price@));
            }
        }
    }
}

/// The levels of a snapshot side come best first, at distinct prices, each with a positive
/// quantity, and none better than the side's best price.
pub proof fn law_top_levels_in_priority_order(side: Side, levels: Seq<LevelState>, depth: nat)
    requires
        side_wf(side, levels),
        crate::book_model::depth_fits(levels, depth),
    ensures
        ({
            let top = top_levels(levels, depth);
            &&& top.len() <= depth
            &&& forall|i: int, j: int|
                0 <= i < j < top.len() ==> better(side, (#[trigger] top[i]).price@, (#[trigger] top[j]).price@)
            &&& forall|i: int| 0 <= i < top.len() ==> (#[trigger] top[i]).qty@ > 0
            &&& forall|i: int|
                0 <= i < top.len() ==> !better(side, (#[trigger] top[i]).price@, levels[0].price@)
        }),
{
    let n = depth_of(levels, depth);
    let shown = levels.take(n);
    assert(shown =~= levels.subrange(0, n));
    lemma_side_wf_subrange(side, levels, 0, n);
    assert forall|k: int| 0 <= k < shown.len() implies qty_total(#[trigger] shown[k].orders)
        <= u64::MAX by {
        assert(shown[k] == levels[k]);
    }
    lemma_visible_sorted(side, shown);
    lemma_visible_len(shown);
    let top = top_levels(levels, depth);
    assert forall|i: int| 0 <= i < top.len() implies !better(
        side,
        (#[trigger] top[i]).price@,
        levels[0].price@,
    ) by {
        let k = choose|k: int| 0 <= k < shown.len() && top[i].price == shown[k].price;
        assert(shown[k] == levels[k]);
        if k > 0 {
            assert(better(side, levels[0].price@, levels[k].price@));
        }
    }
}

/// Never more levels are shown than there are.
proof fn lemma_visible_len(levels: Seq<LevelState>)
    ensures
        visible_levels(levels).len() <= levels.len(),
    decreases levels.len(),
{
    if levels.len() > 0 {
        lemma_visible_len(levels.drop_last());
    }
}

/// In an uncrossed book the mid price lies between the best bid (inclusive) and the best ask.
pub proof fn law_mid_between_best_prices(b: BookState)
    requires
        uncrossed(b),
        b.bids.len() > 0,
        b.asks.len() > 0,
    ensures
        ({
            let mid = mid_of(best_price(b.bids), best_price(b.asks)).unwrap();
            b.bids[0].price@ <= mid@ < b.asks[0].price@
        }),
{
}

/// The notional of a walk over levels priced within `[lo, hi]` lies between `lo` and `hi`
/// times the quantity it fills.
proof fn lemma_sweep_bounds(levels: Seq<LevelState>, remaining: nat, lo: nat, hi: nat)
    requires
        forall|k: int| 0 <= k < levels.len() ==> lo <= (#[trigger] levels[k]).price@ <= hi,
    ensures
        lo * sweep(levels, remaining).0 <= sweep(levels, remaining).1 <= hi * sweep(
            levels,
            remaining,
        ).0,
    decreases levels.len(),
{
    if levels.len() == 0 || remaining == 0 {
        assert(lo * 0 == 0 && hi * 0 == 0) by (nonlinear_arith);
    } else {
        let rest = levels.drop_first();
        assert forall|k: int| 0 <= k < rest.len() implies lo <= (#[trigger] rest[k]).price@ <= hi by {
            assert(rest[k] == levels[k + 1]);
        }
        let taken = min_nat(qty_total(levels[0].orders), remaining);
        lemma_sweep_bounds(rest, (remaining - taken) as nat, lo, hi);
        let r = sweep(rest, (remaining - taken) as nat);
        let p = levels[0].price@ as nat;
        assert(lo <= p <= hi);
        assert(lo * (r.0 + taken) <= r.1 + p * taken <= hi * (r.0 + taken)) by (nonlinear_arith)
            requires
                lo * r.0 <= r.1 <= hi * r.0,
                lo <= p <= hi,
        ;
    }
}

/// The average price of an estimate lies between the lowest and the highest level price of
/// the side it walks; in particular it fits a `u64` exactly.
pub proof fn law_estimate_average_within_prices(
    levels: Seq<LevelState>,
    qty: nat,
    lo: u64,
    hi: u64,
)
    requires
        forall|k: int| 0 <= k < levels.len() ==> lo <= (#[trigger] levels[k]).price@ <= hi,
    ensures
        sweep(levels, qty).0 > 0 ==> lo <= sweep(levels, qty).1 / sweep(levels, qty).0 <= hi,
{
    lemma_sweep_bounds(levels, qty, lo as nat, hi as nat);
    let s = sweep(levels, qty);
    if s.0 > 0 {
        assert(lo <= s.1 / s.0 <= hi) by (nonlinear_arith)
            requires
                lo * s.0 <= s.1 <= hi * s.0,
                s.0 > 0,
        ;
    }
}

/// One fill keeps every resting quantity positive: a maker is either used up and removed, or
/// left with what it had beyond the fill.
pub proof fn lemma_step_keeps_positive(
    taker_side: Side,
    levels: Seq<LevelState>,
    remaining: nat,
    limit: Option<Price>,
    taker_id: OrderId,
    ts: Timestamp,
)
    requires
        positive_side(levels),
        match_step(taker_side, levels, remaining, limit, taker_id, ts) is Some,
    ensures
        positive_side(match_step(taker_side, levels, remaining, limit, taker_id, ts).unwrap().0),
{
    let s = match_step(taker_side, levels, remaining, limit, taker_id, ts).unwrap();
    let r = s.0;
    let o = levels[0].orders;
    assert forall|i: int, k: int| 0 <= i < r.len() && 0 <= k < r[i].orders.len() implies (
    #[trigger] r[i].orders[k]).qty@ > 0 by {
        if r.len() < levels.len() {
            assert(r[i] == levels[i + 1]);
        } else if i > 0 {
            assert(r[i] == levels[i]);
        } else if r[0].orders.len() < o.len() {
            assert(r[0].orders[k] == o[k + 1]);
        } else if k > 0 {
            assert(r[0].orders[k] == o[k]);
        } else {
            assert(o[0].qty@ > 0);
        }
    }
}

/// A whole sweep keeps every resting quantity positive.
pub proof fn lemma_fill_keeps_positive(
    taker_side: Side,
    levels: Seq<LevelState>,
    qty: nat,
    limit: Option<Price>,
    taker_id: OrderId,
    ts: Timestamp,
)
    requires
        positive_side(levels),
    ensures
        positive_side(fill(taker_side, levels, qty, limit, taker_id, ts).0),
    decreases levels.len(), front_len(levels), qty,
{
    if qty > 0 {
        match match_step(taker_side, levels, qty, limit, taker_id, ts) {
            None => {},
            Some(step) => {
                lemma_step_keeps_positive(taker_side, levels, qty, limit, taker_id, ts);
                lemma_fill_keeps_positive(taker_side, step.0, (qty - step.2) as nat, limit, taker_id, ts);
            },
        }
    }
}

/// Resting an order of positive quantity keeps every resting quantity positive.
pub proof fn lemma_rest_keeps_positive(side: Side, levels: Seq<LevelState>, o: BookOrder)
    requires
        positive_side(levels),
        o.qty@ > 0,
    ensures
        positive_side(rest_in_side(side, levels, o)),
{
    let k = level_index(side, levels, o.price@) as int;
    lemma_level_index_bounds(side, levels, o.price@);
    let r = rest_in_side(side, levels, o);
    assert forall|i: int, j: int| 0 <= i < r.len() && 0 <= j < r[i].orders.len() implies (
    #[trigger] r[i].orders[j]).qty@ > 0 by {
        if k < levels.len() && levels[k].price == o.price {
            if i == k && j < levels[k].orders.len() {
                assert(r[i].orders[j] == levels[k].orders[j]);
            } else if i != k {
                assert(r[i] == levels[i]);
            }
        } else {
            if i < k {
                assert(r[i] == levels[i]);
            } else if i > k {
                assert(r[i] == levels[i - 1]);
            }
        }
    }
}

/// A level of positive orders holds a positive quantity.
proof fn lemma_qty_total_positive(orders: Seq<BookOrder>)
    requires
        orders.len() > 0,
        forall|k: int| 0 <= k < orders.len() ==> (#[trigger] orders[k]).qty@ > 0,
    ensures
        qty_total(orders) > 0,
{
    lemma_qty_total_front(orders);
}

/// The first trade of a sweep that trades at all is at the price of the best level.
proof fn lemma_fill_first_price(
    taker_side: Side,
    levels: Seq<LevelState>,
    qty: nat,
    taker_id: OrderId,
    ts: Timestamp,
)
    requires
        side_wf(opposite(taker_side), levels),
        qty > 0,
        levels.len() > 0,
    ensures
        fill(taker_side, levels, qty, None, taker_id, ts).1.len() > 0,
        fill(taker_side, levels, qty, None, taker_id, ts).1[0].price == levels[0].price,
{
    assert(level_wf(opposite(taker_side), levels[0]));
    let step = match_step(taker_side, levels, qty, None, taker_id, ts).unwrap();
    let next = fill(taker_side, step.0, (qty - step.2) as nat, None, taker_id, ts);
    assert(fill(taker_side, levels, qty, None, taker_id, ts).1 == seq![step.1] + next.1);
}

/// The runs of prices of a trade followed by others.
proof fn lemma_price_runs_cons(t: Trade, rest: Seq<Trade>)
    ensures
        price_runs(seq![t] + rest) == if rest.len() == 0 {
            1
        } else if rest[0].price == t.price {
            price_runs(rest)
        } else {
            price_runs(rest) + 1
        },
{
    let s = seq![t] + rest;
    if rest.len() > 0 {
        assert(s.drop_first() =~= rest);
        assert(s[1] == rest[0]);
    }
}

/// The number of levels an estimate takes from is the number of price runs among the trades
/// of the same market order, when every resting quantity is positive.
pub proof fn law_estimate_levels_match_price_runs(
    taker_side: Side,
    levels: Seq<LevelState>,
    qty: nat,
    taker_id: OrderId,
    ts: Timestamp,
)
    requires
        side_wf(opposite(taker_side), levels),
        positive_side(levels),
    ensures
        sweep(levels, qty).2 == price_runs(fill(taker_side, levels, qty, None, taker_id, ts).1),
    decreases levels.len(), front_len(levels), qty,
{
    let ms = opposite(taker_side);
    let trades = fill(taker_side, levels, qty, None, taker_id, ts).1;
    if qty == 0 || levels.len() == 0 {
        assert(trades =~= Seq::<Trade>::empty());
    } else {
        assert(level_wf(ms, levels[0]));
        let step = match_step(taker_side, levels, qty, None, taker_id, ts).unwrap();
        let o = levels[0].orders;
        let mq = o[0].qty@ as nat;
        assert(mq > 0);
        let traded = step.2;
        let rest_qty = (qty - traded) as nat;
        lemma_step_keeps_wf(ms, taker_side, levels, qty, None, taker_id, ts);
        lemma_step_keeps_positive(taker_side, levels, qty, None, taker_id, ts);
        law_estimate_levels_match_price_runs(taker_side, step.0, rest_qty, taker_id, ts);
        let next = fill(taker_side, step.0, rest_qty, None, taker_id, ts).1;
        assert(trades == seq![step.1] + next);
        lemma_price_runs_cons(step.1, next);
        lemma_qty_total_front(o);
        let total = qty_total(o);
        let taken = min_nat(total, qty);
        let df = levels.drop_first();
        let below = sweep(df, (qty - taken) as nat);
        assert(taken > 0);
        assert(sweep(levels, qty).2 == below.2 + 1);
        if rest_qty == 0 {
            assert(next =~= Seq::<Trade>::empty());
            assert(taken == qty);
            assert(sweep(df, 0).2 == 0);
        } else if traded == mq && o.len() > 1 {
            let s0 = step.0;
            assert(s0.drop_first() =~= df);
            assert(s0[0].orders == o.drop_first());
            assert forall|k: int| 0 <= k < s0[0].orders.len() implies (#[trigger] s0[0].orders[k]).qty@
                > 0 by {
                assert(s0[0].orders[k] == o[k + 1]);
            }
            lemma_qty_total_positive(s0[0].orders);
            lemma_fill_first_price(taker_side, s0, rest_qty, taker_id, ts);
            let taken2 = min_nat(qty_total(o.drop_first()), rest_qty);
            assert(taken2 + mq == taken);
            assert(sweep(df, (rest_qty - taken2) as nat) == below);
            assert(sweep(s0, rest_qty).2 == below.2 + 1);
        } else {
            assert(traded == mq);
            assert(o.drop_first() =~= Seq::<BookOrder>::empty());
            assert(step.0 == df);
            assert(taken == mq);
            if df.len() > 0 {
                lemma_fill_first_price(taker_side, df, rest_qty, taker_id, ts);
                assert(better(ms, levels[0].price@, levels[1].price@));
                assert(df[0] == levels[1]);
            } else {
                assert(next =~= Seq::<Trade>::empty());
            }
        }
    }
}

/// For trades in priority order, the price runs are the distinct prices.
pub proof fn lemma_price_runs_are_distinct_prices(side: Side, trades: Seq<Trade>)
    requires
        forall|i: int, j: int|
            0 <= i < j < trades.len() ==> !better(
                side,
                (#[trigger] trades[j]).price@,
                (#[trigger] trades[i]).price@,
            ),
    ensures
        price_runs(trades) == distinct_prices(trades),
    decreases trades.len(),
{
    let prices = trades.map_values(|t: Trade| t.price@);
    vstd::seq_lib::seq_to_set_is_finite(prices);
    if trades.len() == 0 {
        assert(prices.to_set() =~= Set::<u64>::empty());
    } else {
        let t = trades[0];
        let rest = trades.drop_first();
        assert(trades =~= seq![t] + rest);
        lemma_price_runs_cons(t, rest);
        lemma_price_runs_are_distinct_prices(side, rest);
        let rp = rest.map_values(|t: Trade| t.price@);
        vstd::seq_lib::seq_to_set_is_finite(rp);
        assert(prices.to_set() =~= rp.to_set().insert(t.price@)) by {
            assert forall|x: u64| prices.to_set().contains(x) <==> rp.to_set().insert(t.price@).contains(x) by {
                if prices.contains(x) {
                    let i = choose|i: int| 0 <= i < prices.len() && prices[i] == x;
                    if i > 0 {
                        assert(rp[i - 1] == x);
                    }
                }
                if rp.contains(x) {
                    let i = choose|i: int| 0 <= i < rp.len() && rp[i] == x;
                    assert(prices[i + 1] == x);
                }
                if x == t.price@ {
                    assert(prices[0] == x);
                }
            }
        }
        if rest.len() > 0 && rest[0].price == t.price {
            assert(rp[0] == t.price@);
            assert(rp.to_set().contains(t.price@));
            assert(rp.to_set().insert(t.price@) =~= rp.to_set());
        } else {
            assert(!rp.to_set().contains(t.price@)) by {
                if rp.contains(t.price@) {
                    let i = choose|i: int| 0 <= i < rp.len() && rp[i] == t.price@;
                    assert(rest[i] == trades[i + 1]);
                    assert(rest[0] == trades[1]);
                    assert(!better(side, trades[1].price@, trades[0].price@));
                    if i > 0 {
                        assert(!better(side, trades[i + 1].price@, trades[1].price@));
                    }
                    assert(Price::spec_from(rest[0].price@) == rest[0].price);
                    assert(Price::spec_from(t.price@) == t.price);
                }
            }
        }
    }
}

/// An estimate takes from as many levels as a market order run right after it would trade at
/// distinct prices, when every resting quantity is positive.
pub proof fn law_estimate_levels_match_distinct_prices(
    taker_side: Side,
    levels: Seq<LevelState>,
    qty: nat,
    taker_id: OrderId,
    ts: Timestamp,
)
    requires
        side_wf(opposite(taker_side), levels),
        positive_side(levels),
    ensures
        sweep(levels, qty).2 == distinct_prices(fill(taker_side, levels, qty, None, taker_id, ts).1),
{
    let ms = opposite(taker_side);
    let trades = fill(taker_side, levels, qty, None, taker_id, ts).1;
    law_estimate_levels_match_price_runs(taker_side, levels, qty, taker_id, ts);
    law_fill_follows_queue(taker_side, levels, qty, None, taker_id, ts);
    law_queue_in_priority_order(ms, levels);
    let q = queue_of(levels);
    assert forall|i: int, j: int| 0 <= i < j < trades.len() implies !better(
        ms,
        (#[trigger] trades[j]).price@,
        (#[trigger] trades[i]).price@,
    ) by {
        assert(trades[i].price == q[i].price);
        assert(trades[j].price == q[j].price);
        assert(!better(ms, q[j].price@, q[i].price@));
    }
    lemma_price_runs_are_distinct_prices(ms, trades);
}

/// Every order of the queue of a side rests in one of its levels.
pub proof fn lemma_queue_members(levels: Seq<LevelState>)
    ensures
        forall|i: int| 0 <= i < queue_of(levels).len() ==> side_holds(levels, #[trigger] queue_of(levels)[i]),
    decreases levels.len(),
{
    if levels.len() > 0 {
        let rest = levels.drop_first();
        lemma_queue_members(rest);
        let q = queue_of(levels);
        let o = levels[0].orders;
        assert forall|i: int| 0 <= i < q.len() implies side_holds(levels, #[trigger] q[i]) by {
            if i < o.len() {
                assert(levels[0].orders[i] == q[i]);
            } else {
                assert(q[i] == queue_of(rest)[i - o.len()]);
                let x = q[i];
                assert(side_holds(rest, x));
                let (k, j) = choose|k: int, j: int|
                    0 <= k < rest.len() && 0 <= j < rest[k].orders.len() && #[trigger] rest[k].orders[j] == x;
                assert(levels[k + 1].orders[j] == x);
            }
        }
    }
}

/// A side is traced to itself.
proof fn lemma_traced_refl(levels: Seq<LevelState>)
    ensures
        side_traced(levels, levels),
{
    assert forall|o: BookOrder| #[trigger] side_holds(levels, o) implies exists|p: BookOrder| #[trigger]
        side_holds(levels, p) && left_of(o, p) by {
        assert(left_of(o, o));
    }
}

/// Being traced is transitive.
proof fn lemma_traced_trans(a: Seq<LevelState>, b: Seq<LevelState>, c: Seq<LevelState>)
    requires
        side_traced(a, b),
        side_traced(b, c),
    ensures
        side_traced(a, c),
{
    assert forall|o: BookOrder| #[trigger] side_holds(a, o) implies exists|p: BookOrder| #[trigger]
        side_holds(c, p) && left_of(o, p) by {
        let p = choose|p: BookOrder| #[trigger] side_holds(b, p) && left_of(o, p);
        let q = choose|q: BookOrder| #[trigger] side_holds(c, q) && left_of(p, q);
        assert(left_of(o, q));
    }
}

/// One fill leaves only what is left of the orders that rested before it.
proof fn lemma_step_traced(
    taker_side: Side,
    levels: Seq<LevelState>,
    remaining: nat,
    limit: Option<Price>,
    taker_id: OrderId,
    ts: Timestamp,
)
    requires
        match_step(taker_side, levels, remaining, limit, taker_id, ts) is Some,
    ensures
        side_traced(match_step(taker_side, levels, remaining, limit, taker_id, ts).unwrap().0, levels),
{
    let r = match_step(taker_side, levels, remaining, limit, taker_id, ts).unwrap().0;
    let o = levels[0].orders;
    let maker = o[0];
    let traded = min_nat(remaining, maker.qty@ as nat);
    assert forall|x: BookOrder| #[trigger] side_holds(r, x) implies exists|p: BookOrder| #[trigger]
        side_holds(levels, p) && left_of(x, p) by {
        let (i, k) = choose|i: int, k: int|
            0 <= i < r.len() && 0 <= k < r[i].orders.len() && #[trigger] r[i].orders[k] == x;
        if traded == maker.qty@ {
            let orders = o.drop_first();
            if orders.len() == 0 {
                assert(r =~= levels.drop_first());
                assert(levels[i + 1].orders[k] == x);
                assert(side_holds(levels, x));
                assert(left_of(x, x));
            } else {
                assert(r =~= levels.update(0, LevelState { price: levels[0].price, orders }));
                if i > 0 {
                    assert(levels[i].orders[k] == x);
                } else {
                    assert(levels[0].orders[k + 1] == x);
                }
                assert(side_holds(levels, x));
                assert(left_of(x, x));
            }
        } else {
            let shrunk = BookOrder {
                id: maker.id,
                user_id: maker.user_id,
                side: maker.side,
                price: maker.price,
                qty: Quantity::spec_from((maker.qty@ - traded) as u64),
                ts: maker.ts,
            };
            let orders = o.update(0, shrunk);
            assert(r =~= levels.update(0, LevelState { price: levels[0].price, orders }));
            if i > 0 {
                assert(levels[i].orders[k] == x);
                assert(side_holds(levels, x));
                assert(left_of(x, x));
            } else if k > 0 {
                assert(levels[0].orders[k] == x);
                assert(side_holds(levels, x));
                assert(left_of(x, x));
            } else {
                assert(x == shrunk);
                assert(levels[0].orders[0] == maker);
                assert(side_holds(levels, maker));
                assert(shrunk.qty@ == maker.qty@ - traded);
                assert(left_of(x, maker));
            }
        }
    }
}

/// A whole sweep leaves only what is left of the orders that rested before it.
pub proof fn lemma_fill_traced(
    taker_side: Side,
    levels: Seq<LevelState>,
    qty: nat,
    limit: Option<Price>,
    taker_id: OrderId,
    ts: Timestamp,
)
    ensures
        side_traced(fill(taker_side, levels, qty, limit, taker_id, ts).0, levels),
    decreases levels.len(), front_len(levels), qty,
{
    lemma_traced_refl(levels);
    if qty > 0 {
        match match_step(taker_side, levels, qty, limit, taker_id, ts) {
            None => {},
            Some(step) => {
                lemma_step_traced(taker_side, levels, qty, limit, taker_id, ts);
                lemma_fill_traced(taker_side, step.0, (qty - step.2) as nat, limit, taker_id, ts);
                lemma_traced_trans(
                    fill(taker_side, step.0, (qty - step.2) as nat, limit, taker_id, ts).0,
                    step.0,
                    levels,
                );
            },
        }
    }
}

/// Resting `o` adds `o` and nothing else.
pub proof fn lemma_rest_holds(side: Side, levels: Seq<LevelState>, o: BookOrder, x: BookOrder)
    requires
        side_holds(rest_in_side(side, levels, o), x),
    ensures
        x == o || side_holds(levels, x),
{
    let k = level_index(side, levels, o.price@) as int;
    lemma_level_index_bounds(side, levels, o.price@);
    let r = rest_in_side(side, levels, o);
    let (i, j) = choose|i: int, j: int|
        0 <= i < r.len() && 0 <= j < r[i].orders.len() && #[trigger] r[i].orders[j] == x;
    if k < levels.len() && levels[k].price == o.price {
        if i == k && j < levels[k].orders.len() {
            assert(levels[k].orders[j] == x);
        } else if i != k {
            assert(r[i] == levels[i]);
            assert(levels[i].orders[j] == x);
        }
    } else {
        if i < k {
            assert(r[i] == levels[i]);
            assert(levels[i].orders[j] == x);
        } else if i > k {
            assert(r[i] == levels[i - 1]);
            assert(levels[i - 1].orders[j] == x);
        }
    }
}

/// What is left of resting order `o` after a trade of `traded` against it.
pub open spec fn reduced_by(o: BookOrder, traded: nat) -> BookOrder {
    BookOrder {
        id: o.id,
        user_id: o.user_id,
        side: o.side,
        price: o.price,
        qty: Quantity::spec_from((o.qty@ - traded) as u64),
        ts: o.ts,
    }
}

/// The queue of a side after a sweep that made `trades` against the queue `q`: the makers used
/// up are gone from its head, and a maker only partly filled stays first, with its quantity
/// reduced by exactly the trade.
pub open spec fn queue_after_trades(q: Seq<BookOrder>, trades: Seq<Trade>) -> Seq<BookOrder> {
    let n = trades.len() as int;
    if n == 0 {
        q
    } else if trades[n - 1].qty@ == q[n - 1].qty@ {
        q.skip(n)
    } else {
        q.skip(n - 1).update(0, reduced_by(q[n - 1], trades[n - 1].qty@ as nat))
    }
}

/// A sweep takes from the queue of the side it matches against in order, and quantity is
/// conserved: every maker before the last one it trades with is used up by its trade, the last
/// one gives at most what it had, and the queue afterwards is the old queue without the makers
/// used up, the last maker, if only partly filled, staying first with its quantity reduced by
/// the trade. No order is moved, and no quantity is made or lost.
pub proof fn law_fill_consumes_queue_in_order(
    taker_side: Side,
    levels: Seq<LevelState>,
    qty: nat,
    limit: Option<Price>,
    taker_id: OrderId,
    ts: Timestamp,
)
    ensures
        ({
            let r = fill(taker_side, levels, qty, limit, taker_id, ts);
            let q = queue_of(levels);
            let trades = r.1;
            &&& trades.len() <= q.len()
            &&& forall|i: int|
                0 <= i < trades.len() - 1 ==> (#[trigger] trades[i]).qty@ == q[i].qty@
            &&& trades.len() > 0 ==> trades[trades.len() - 1].qty@ <= q[trades.len() - 1].qty@
            &&& queue_of(r.0) == queue_after_trades(q, trades)
            &&& traded_qty(trades) <= qty
            &&& trades.len() > 0 && trades[trades.len() - 1].qty@ < q[trades.len() - 1].qty@
                ==> traded_qty(trades) == qty
        }),
    decreases levels.len(), front_len(levels), qty,
{
    let r = fill(taker_side, levels, qty, limit, taker_id, ts);
    let q = queue_of(levels);
    if qty > 0 {
        match match_step(taker_side, levels, qty, limit, taker_id, ts) {
            None => {},
            Some(step) => {
                let rest_qty = (qty - step.2) as nat;
                lemma_step_pops_queue(taker_side, levels, qty, limit, taker_id, ts);
                law_fill_consumes_queue_in_order(taker_side, step.0, rest_qty, limit, taker_id, ts);
                let next = fill(taker_side, step.0, rest_qty, limit, taker_id, ts);
                let trades = r.1;
                assert(trades == seq![step.1] + next.1);
                let maker = levels[0].orders[0];
                assert(q[0] == maker);
                assert(step.1.qty@ == step.2);
                let one = seq![step.1];
                lemma_traded_qty_concat(one, next.1);
                assert(one.drop_last() =~= Seq::<Trade>::empty());
                assert(traded_qty(one.drop_last()) == 0);
                assert(one.last() == step.1);
                assert(traded_qty(one) == step.2);
                if step.2 == maker.qty@ {
                    let q1 = queue_of(step.0);
                    assert(q1 =~= q.drop_first());
                    assert forall|i: int| 0 <= i < trades.len() - 1 implies (#[trigger] trades[i]).qty@
                        == q[i].qty@ by {
                        if i > 0 {
                            assert(trades[i] == next.1[i - 1]);
                            assert(q[i] == q1[i - 1]);
                        }
                    }
                    if next.1.len() == 0 {
                        assert(q1 =~= q.skip(1));
                    } else {
                        let m = next.1.len() as int;
                        assert(trades[m] == next.1[m - 1]);
                        assert(q[m] == q1[m - 1]);
                        assert(q1.skip(m) =~= q.skip(m + 1));
                        assert(q1.skip(m - 1) =~= q.skip(m));
                    }
                } else {
                    assert(rest_qty == 0);
                    assert(next.1 =~= Seq::<Trade>::empty());
                    let o = levels[0].orders;
                    let orders = o.update(0, reduced_by(maker, step.2));
                    assert(step.0 =~= levels.update(0, LevelState { price: levels[0].price, orders }));
                    assert(step.0.drop_first() =~= levels.drop_first());
                    assert(queue_of(step.0) == orders + queue_of(step.0.drop_first()));
                    assert(q == o + queue_of(levels.drop_first()));
                    assert(q.skip(0) =~= q);
                    assert(queue_of(step.0) =~= q.update(0, reduced_by(maker, step.2)));
                }
            },
        }
    }
}

/// After a taker order has matched, the book's last price is the price of the last trade it
/// made, whatever its limit; an order that made no trade leaves the last price as it was.
pub proof fn law_match_sets_last_trade_price(
    b: BookState,
    taker_side: Side,
    qty: nat,
    limit: Option<Price>,
    taker_id: OrderId,
    ts: Timestamp,
)
    ensures
        ({
            let m = match_book(b, taker_side, qty, limit, taker_id, ts);
            &&& m.1.len() > 0 ==> m.0.last_price == Some(m.1[m.1.len() - 1].price)
            &&& m.1.len() == 0 ==> m.0.last_price == b.last_price
            &&& m.0.last_price is Some ==> m.0.last_price == b.last_price || exists|i: int|
                0 <= i < m.1.len() && m.0.last_price == Some(#[trigger] m.1[i].price)
        }),
{
    let m = match_book(b, taker_side, qty, limit, taker_id, ts);
    if m.1.len() > 0 {
        assert(m.1.last() == m.1[m.1.len() - 1]);
    }
}

} // verus!
