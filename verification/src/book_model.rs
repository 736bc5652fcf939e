use crate::types::{BookOrder, Level, OrderId, Price, Quantity, Side, Timestamp, Trade};
use vstd::prelude::*;

verus! {

broadcast use crate::types::group_value_views;

/// One price level as the contracts see it: its price and its orders, oldest first.
pub struct LevelState {
    pub price: Price,
    pub orders: Seq<BookOrder>,
}

/// A book as the contracts see it: each side is a sequence of levels, best price first.
pub struct BookState {
    pub bids: Seq<LevelState>,
    pub asks: Seq<LevelState>,
    pub last_price: Option<Price>,
}

pub open spec fn empty_book() -> BookState {
    BookState { bids: Seq::empty(), asks: Seq::empty(), last_price: None }
}

pub open spec fn opposite(side: Side) -> Side {
    match side {
        Side::Bid => Side::Ask,
        Side::Ask => Side::Bid,
    }
}

/// Whether a resting price `a` has strict priority over a resting price `b` on `side`:
/// the higher bid, the lower ask.
pub open spec fn better(side: Side, a: u64, b: u64) -> bool {
    match side {
        Side::Bid => a > b,
        Side::Ask => a < b,
    }
}

/// A level is never empty, and each of its orders sits on its side at its price.
pub open spec fn level_wf(side: Side, level: LevelState) -> bool {
    &&& level.orders.len() > 0
    &&& forall|k: int|
        0 <= k < level.orders.len() ==> (#[trigger] level.orders[k]).price == level.price
            && level.orders[k].side == side
}

/// Levels are sorted best first, one level per price.
pub open spec fn side_wf(side: Side, levels: Seq<LevelState>) -> bool {
    &&& forall|i: int, j: int|
        0 <= i < j < levels.len() ==> better(side, #[trigger] levels[i].price@, #[trigger] levels[j].price@)
    &&& forall|i: int| 0 <= i < levels.len() ==> level_wf(side, #[trigger] levels[i])
}

pub open spec fn book_wf(b: BookState) -> bool {
    side_wf(Side::Bid, b.bids) && side_wf(Side::Ask, b.asks)
}

pub open spec fn side_levels(b: BookState, side: Side) -> Seq<LevelState> {
    match side {
        Side::Bid => b.bids,
        Side::Ask => b.asks,
    }
}

pub open spec fn with_side(b: BookState, side: Side, levels: Seq<LevelState>) -> BookState {
    match side {
        Side::Bid => BookState { bids: levels, asks: b.asks, last_price: b.last_price },
        Side::Ask => BookState { bids: b.bids, asks: levels, last_price: b.last_price },
    }
}

// ---------------------------------------------------------------- resting orders

/// How many levels at the front of `levels` have a price strictly better than `p`.
pub open spec fn level_index(side: Side, levels: Seq<LevelState>, p: u64) -> nat
    decreases levels.len(),
{
    if levels.len() == 0 {
        0
    } else if better(side, levels[0].price@, p) {
        1 + level_index(side, levels.drop_first(), p)
    } else {
        0
    }
}

/// The side after `o` joins it: at the back of the level of its price, or in a new level
/// placed by price.
pub open spec fn rest_in_side(side: Side, levels: Seq<LevelState>, o: BookOrder) -> Seq<LevelState> {
    let k = level_index(side, levels, o.price@) as int;
    if k < levels.len() && levels[k].price == o.price {
        levels.update(k, LevelState { price: o.price, orders: levels[k].orders.push(o) })
    } else {
        levels.insert(k, LevelState { price: o.price, orders: seq![o] })
    }
}

/// The book after `o` rests on the side it names.
pub open spec fn rest_order(b: BookState, o: BookOrder) -> BookState {
    with_side(b, o.side, rest_in_side(o.side, side_levels(b, o.side), o))
}

// ---------------------------------------------------------------- matching

/// Whether a taker on `taker_side` with the given limit accepts a maker at `maker_price`.
pub open spec fn crosses(taker_side: Side, maker_price: u64, limit: Option<Price>) -> bool {
    match limit {
        None => true,
        Some(l) => match taker_side {
            Side::Bid => maker_price <= l@,
            Side::Ask => maker_price >= l@,
        },
    }
}

pub open spec fn min_nat(a: nat, b: nat) -> nat {
    if a <= b {
        a
    } else {
        b
    }
}

/// One fill against the oldest order of the best level, if that level crosses: the levels
/// afterwards, the trade, and the quantity it took.
pub open spec fn match_step(
    taker_side: Side,
    levels: Seq<LevelState>,
    remaining: nat,
    limit: Option<Price>,
    taker_id: OrderId,
    ts: Timestamp,
) -> Option<(Seq<LevelState>, Trade, nat)> {
    if levels.len() == 0 || levels[0].orders.len() == 0 || !crosses(
        taker_side,
        levels[0].price@,
        limit,
    ) {
        None
    } else {
        let level = levels[0];
        let maker = level.orders[0];
        let traded = min_nat(remaining, maker.qty@ as nat);
        let trade = Trade {
            price: level.price,
            qty: Quantity::spec_from(traded as u64),
            maker_order_id: maker.id,
            taker_order_id: taker_id,
            ts,
        };
        let orders = if traded == maker.qty@ {
            level.orders.drop_first()
        } else {
            level.orders.update(
                0,
                BookOrder {
                    id: maker.id,
                    user_id: maker.user_id,
                    side: maker.side,
                    price: maker.price,
                    qty: Quantity::spec_from((maker.qty@ - traded) as u64),
                    ts: maker.ts,
                },
            )
        };
        let rest = if orders.len() == 0 {
            levels.drop_first()
        } else {
            levels.update(0, LevelState { price: level.price, orders })
        };
        Some((rest, trade, traded))
    }
}

pub open spec fn front_len(levels: Seq<LevelState>) -> nat {
    if levels.len() > 0 {
        levels[0].orders.len()
    } else {
        0
    }
}

/// A taker of `qty` sweeping `levels` in price-time priority: the levels left and the trades,
/// in the order they happened.
pub open spec fn fill(
    taker_side: Side,
    levels: Seq<LevelState>,
    qty: nat,
    limit: Option<Price>,
    taker_id: OrderId,
    ts: Timestamp,
) -> (Seq<LevelState>, Seq<Trade>)
    decreases levels.len(), front_len(levels), qty,
{
    if qty == 0 {
        (levels, Seq::empty())
    } else {
        match match_step(taker_side, levels, qty, limit, taker_id, ts) {
            None => (levels, Seq::empty()),
            Some(step) => {
                let next = fill(taker_side, step.0, (qty - step.2) as nat, limit, taker_id, ts);
                (next.0, seq![step.1] + next.1)
            },
        }
    }
}

/// The book and the trades after a taker order of `qty` on `taker_side` has matched.
pub open spec fn match_book(
    b: BookState,
    taker_side: Side,
    qty: nat,
    limit: Option<Price>,
    taker_id: OrderId,
    ts: Timestamp,
) -> (BookState, Seq<Trade>) {
    let maker_side = opposite(taker_side);
    let r = fill(taker_side, side_levels(b, maker_side), qty, limit, taker_id, ts);
    let moved = with_side(b, maker_side, r.0);
    (
        BookState {
            bids: moved.bids,
            asks: moved.asks,
            last_price: if r.1.len() > 0 {
                Some(r.1.last().price)
            } else {
                b.last_price
            },
        },
        r.1,
    )
}

/// All orders of a side in priority order: best level first, oldest first within a level.
pub open spec fn queue_of(levels: Seq<LevelState>) -> Seq<BookOrder>
    decreases levels.len(),
{
    if levels.len() == 0 {
        Seq::empty()
    } else {
        levels[0].orders + queue_of(levels.drop_first())
    }
}

/// Sum of the quantities of some trades.
pub open spec fn traded_qty(trades: Seq<Trade>) -> nat
    decreases trades.len(),
{
    if trades.len() == 0 {
        0
    } else {
        traded_qty(trades.drop_last()) + trades.last().qty@ as nat
    }
}

/// The number of runs of one price in some trades, read in order.
pub open spec fn price_runs(trades: Seq<Trade>) -> nat
    decreases trades.len(),
{
    if trades.len() == 0 {
        0
    } else if trades.len() == 1 {
        1
    } else {
        price_runs(trades.drop_first()) + if trades[0].price == trades[1].price {
            0nat
        } else {
            1nat
        }
    }
}

/// The number of distinct prices among some trades.
pub open spec fn distinct_prices(trades: Seq<Trade>) -> nat {
    trades.map_values(|t: Trade| t.price@).to_set().len()
}

/// Sum of price times quantity of some trades.
pub open spec fn traded_notional(trades: Seq<Trade>) -> nat
    decreases trades.len(),
{
    if trades.len() == 0 {
        0
    } else {
        traded_notional(trades.drop_last()) + (trades.last().price@ as nat) * (
            trades.last().qty@ as nat)
    }
}

// ---------------------------------------------------------------- market data

/// Sum of the quantities of the orders of a level.
pub open spec fn qty_total(orders: Seq<BookOrder>) -> nat
    decreases orders.len(),
{
    if orders.len() == 0 {
        0
    } else {
        qty_total(orders.drop_last()) + orders.last().qty@ as nat
    }
}

/// The aggregated levels, those with a total of zero left out.
pub open spec fn visible_levels(levels: Seq<LevelState>) -> Seq<Level>
    decreases levels.len(),
{
    if levels.len() == 0 {
        Seq::empty()
    } else {
        let t = qty_total(levels.last().orders);
        visible_levels(levels.drop_last()) + if t > 0 {
            seq![Level { price: levels.last().price, qty: Quantity::spec_from(t as u64) }]
        } else {
            Seq::empty()
        }
    }
}

pub open spec fn depth_of(levels: Seq<LevelState>, depth: nat) -> int {
    if depth < levels.len() {
        depth as int
    } else {
        levels.len() as int
    }
}

/// The first `depth` levels of a side, aggregated.
pub open spec fn top_levels(levels: Seq<LevelState>, depth: nat) -> Seq<Level> {
    visible_levels(levels.take(depth_of(levels, depth)))
}

/// The totals of the first `depth` levels fit in a `u64`.
pub open spec fn depth_fits(levels: Seq<LevelState>, depth: nat) -> bool {
    forall|i: int| 0 <= i < depth_of(levels, depth) ==> qty_total(#[trigger] levels[i].orders) <= u64::MAX
}

pub open spec fn best_price(levels: Seq<LevelState>) -> Option<Price> {
    if levels.len() > 0 {
        Some(levels[0].price)
    } else {
        None
    }
}

/// Every order of a side rests with a positive quantity.
pub open spec fn positive_side(levels: Seq<LevelState>) -> bool {
    forall|i: int, k: int|
        0 <= i < levels.len() && 0 <= k < levels[i].orders.len() ==> (#[trigger] levels[i].orders[k]).qty@
            > 0
}

/// Every resting order of a book has a positive quantity.
pub open spec fn positive_book(b: BookState) -> bool {
    positive_side(b.bids) && positive_side(b.asks)
}

/// `o` rests in one of the levels of a side.
pub open spec fn side_holds(levels: Seq<LevelState>, o: BookOrder) -> bool {
    exists|k: int, j: int|
        0 <= k < levels.len() && 0 <= j < levels[k].orders.len() && #[trigger] levels[k].orders[j]
            == o
}

/// `o` rests in a book, on either side.
pub open spec fn book_holds(b: BookState, o: BookOrder) -> bool {
    side_holds(b.bids, o) || side_holds(b.asks, o)
}

/// `o` is what is left of `before`: the same order, with no more quantity than it had.
pub open spec fn left_of(o: BookOrder, before: BookOrder) -> bool {
    &&& o.id == before.id
    &&& o.user_id == before.user_id
    &&& o.side == before.side
    &&& o.price == before.price
    &&& o.ts == before.ts
    &&& o.qty@ <= before.qty@
}

/// Every order resting in `after` is what is left of an order that rested in `before`.
pub open spec fn side_traced(after: Seq<LevelState>, before: Seq<LevelState>) -> bool {
    forall|o: BookOrder|
        #[trigger] side_holds(after, o) ==> exists|p: BookOrder| #[trigger]
            side_holds(before, p) && left_of(o, p)
}

/// The best bid is below the best ask, when both exist.
pub open spec fn uncrossed(b: BookState) -> bool {
    match (best_price(b.bids), best_price(b.asks)) {
        (Some(x), Some(y)) => x@ < y@,
        _ => true,
    }
}

/// The midpoint of the best bid and the best ask, rounded down.
pub open spec fn mid_of(bid: Option<Price>, ask: Option<Price>) -> Option<Price> {
    match (bid, ask) {
        (Some(b), Some(a)) => Some(Price::spec_from(((b@ + a@) / 2) as u64)),
        _ => None,
    }
}

/// The sum of the best bid and the best ask fits in a `u64`.
pub open spec fn mid_fits(b: BookState) -> bool {
    match (best_price(b.bids), best_price(b.asks)) {
        (Some(x), Some(y)) => x@ + y@ <= u64::MAX,
        _ => true,
    }
}

// ---------------------------------------------------------------- estimates

/// A market order of `remaining` walked over `levels` without touching them: the quantity it
/// would fill, its notional, and the number of levels it would take from.
pub open spec fn sweep(levels: Seq<LevelState>, remaining: nat) -> (nat, nat, nat)
    decreases levels.len(),
{
    if levels.len() == 0 || remaining == 0 {
        (0, 0, 0)
    } else {
        let taken = min_nat(qty_total(levels[0].orders), remaining);
        let r = sweep(levels.drop_first(), (remaining - taken) as nat);
        if taken == 0 {
            r
        } else {
            (r.0 + taken, r.1 + (levels[0].price@ as nat) * taken, r.2 + 1)
        }
    }
}

/// The totals of the levels that such a walk reaches fit in a `u64`.
pub open spec fn sweep_fits(levels: Seq<LevelState>, remaining: nat) -> bool
    decreases levels.len(),
{
    if levels.len() == 0 || remaining == 0 {
        true
    } else {
        let taken = min_nat(qty_total(levels[0].orders), remaining);
        qty_total(levels[0].orders) <= u64::MAX && sweep_fits(
            levels.drop_first(),
            (remaining - taken) as nat,
        )
    }
}

// ---------------------------------------------------------------- lemmas

/// The levels before `level_index` are strictly better than `p`, the one at it is not.
pub proof fn lemma_level_index_bounds(side: Side, levels: Seq<LevelState>, p: u64)
    ensures
        level_index(side, levels, p) <= levels.len(),
        forall|i: int|
            0 <= i < level_index(side, levels, p) ==> better(side, #[trigger] levels[i].price@, p),
        level_index(side, levels, p) < levels.len() ==> !better(
            side,
            levels[level_index(side, levels, p) as int].price@,
            p,
        ),
    decreases levels.len(),
{
    if levels.len() > 0 && better(side, levels[0].price@, p) {
        let rest = levels.drop_first();
        lemma_level_index_bounds(side, rest, p);
        assert forall|i: int| 0 <= i < level_index(side, levels, p) implies better(
            side,
            #[trigger] levels[i].price@,
            p,
        ) by {
            if i > 0 {
                assert(levels[i] == rest[i - 1]);
            }
        }
    }
}

/// Resting an order on its own side keeps that side well formed.
pub proof fn lemma_rest_keeps_wf(side: Side, levels: Seq<LevelState>, o: BookOrder)
    requires
        side_wf(side, levels),
        o.side == side,
    ensures
        side_wf(side, rest_in_side(side, levels, o)),
{
    let k = level_index(side, levels, o.price@) as int;
    lemma_level_index_bounds(side, levels, o.price@);
    let r = rest_in_side(side, levels, o);
    if k < levels.len() && levels[k].price == o.price {
        let lv = LevelState { price: o.price, orders: levels[k].orders.push(o) };
        assert(level_wf(side, lv)) by {
            assert forall|j: int| 0 <= j < lv.orders.len() implies (#[trigger] lv.orders[j]).price
                == lv.price && lv.orders[j].side == side by {
                if j < levels[k].orders.len() {
                    assert(level_wf(side, levels[k]));
                }
            }
        }
        assert forall|i: int| 0 <= i < r.len() implies level_wf(side, #[trigger] r[i]) by {
            if i != k {
                assert(level_wf(side, levels[i]));
            }
        }
    } else {
        let lv = LevelState { price: o.price, orders: seq![o] };
        assert(level_wf(side, lv));
        // every level from k on is strictly worse than the new price
        assert forall|j: int| k <= j < levels.len() implies better(side, o.price@, #[trigger] levels[j].price@) by {
            if j > k {
                assert(better(side, levels[k].price@, levels[j].price@));
            }
            assert(Price::spec_from(levels[k].price@) == levels[k].price);
            assert(Price::spec_from(o.price@) == o.price);
        }
        assert forall|i: int, j: int| 0 <= i < j < r.len() implies better(
            side,
            #[trigger] r[i].price@,
            #[trigger] r[j].price@,
        ) by {
            if j < k {
            } else if j == k {
            } else if i < k {
                assert(better(side, levels[i].price@, levels[j - 1].price@));
            } else if i == k {
            } else {
                assert(better(side, levels[i - 1].price@, levels[j - 1].price@));
            }
        }
        assert forall|i: int| 0 <= i < r.len() implies level_wf(side, #[trigger] r[i]) by {
            if i < k {
                assert(level_wf(side, levels[i]));
            } else if i > k {
                assert(level_wf(side, levels[i - 1]));
            }
        }
    }
}

/// One fill keeps the side it takes from well formed.
pub proof fn lemma_step_keeps_wf(
    side: Side,
    taker_side: Side,
    levels: Seq<LevelState>,
    remaining: nat,
    limit: Option<Price>,
    taker_id: OrderId,
    ts: Timestamp,
)
    requires
        side_wf(side, levels),
        match_step(taker_side, levels, remaining, limit, taker_id, ts) is Some,
    ensures
        side_wf(side, match_step(taker_side, levels, remaining, limit, taker_id, ts).unwrap().0),
{
    let r = match_step(taker_side, levels, remaining, limit, taker_id, ts).unwrap().0;
    let level = levels[0];
    assert(level_wf(side, level));
    if r.len() == levels.len() {
        assert forall|i: int| 0 <= i < r.len() implies level_wf(side, #[trigger] r[i]) by {
            if i == 0 {
                assert forall|k: int| 0 <= k < r[0].orders.len() implies (#[trigger] r[0].orders[k]).price
                    == r[0].price && r[0].orders[k].side == side by {
                    if k > 0 || r[0].orders.len() < level.orders.len() {
                        if r[0].orders.len() < level.orders.len() {
                            assert(r[0].orders[k] == level.orders[k + 1]);
                        } else {
                            assert(r[0].orders[k] == level.orders[k]);
                        }
                    }
                }
            } else {
                assert(level_wf(side, levels[i]));
            }
        }
        assert forall|i: int, j: int| 0 <= i < j < r.len() implies better(
            side,
            #[trigger] r[i].price@,
            #[trigger] r[j].price@,
        ) by {
            assert(better(side, levels[i].price@, levels[j].price@));
        }
    } else {
        assert forall|i: int| 0 <= i < r.len() implies level_wf(side, #[trigger] r[i]) by {
            assert(level_wf(side, levels[i + 1]));
        }
        assert forall|i: int, j: int| 0 <= i < j < r.len() implies better(
            side,
            #[trigger] r[i].price@,
            #[trigger] r[j].price@,
        ) by {
            assert(better(side, levels[i + 1].price@, levels[j + 1].price@));
        }
    }
}

/// A prefix of a level never holds more than the whole level.
pub proof fn lemma_qty_total_prefix(orders: Seq<BookOrder>, i: int)
    requires
        0 <= i <= orders.len(),
    ensures
        qty_total(orders.take(i)) <= qty_total(orders),
    decreases orders.len(),
{
    if i < orders.len() {
        let shorter = orders.drop_last();
        assert(shorter.take(i) =~= orders.take(i));
        lemma_qty_total_prefix(shorter, i);
    } else {
        assert(orders.take(i) =~= orders);
    }
}

/// The quantity of two runs of trades adds up.
pub proof fn lemma_traded_qty_concat(a: Seq<Trade>, b: Seq<Trade>)
    ensures
        traded_qty(a + b) == traded_qty(a) + traded_qty(b),
    decreases b.len(),
{
    if b.len() == 0 {
        assert(a + b =~= a);
    } else {
        lemma_traded_qty_concat(a, b.drop_last());
        assert((a + b).drop_last() =~= a + b.drop_last());
    }
}

/// A prefix of some trades never holds more quantity than all of them.
pub proof fn lemma_traded_qty_prefix(trades: Seq<Trade>, i: int)
    requires
        0 <= i <= trades.len(),
    ensures
        traded_qty(trades.take(i)) <= traded_qty(trades),
    decreases trades.len(),
{
    if i < trades.len() {
        let shorter = trades.drop_last();
        assert(shorter.take(i) =~= trades.take(i));
        lemma_traded_qty_prefix(shorter, i);
    } else {
        assert(trades.take(i) =~= trades);
    }
}

/// A taker never trades more than it asked for.
pub proof fn lemma_fill_traded(
    taker_side: Side,
    levels: Seq<LevelState>,
    qty: nat,
    limit: Option<Price>,
    taker_id: OrderId,
    ts: Timestamp,
)
    ensures
        traded_qty(fill(taker_side, levels, qty, limit, taker_id, ts).1) <= qty,
    decreases levels.len(), front_len(levels), qty,
{
    if qty > 0 {
        match match_step(taker_side, levels, qty, limit, taker_id, ts) {
            None => {},
            Some(step) => {
                let rest_qty = (qty - step.2) as nat;
                lemma_fill_traded(taker_side, step.0, rest_qty, limit, taker_id, ts);
                let next = fill(taker_side, step.0, rest_qty, limit, taker_id, ts);
                let one = seq![step.1];
                lemma_traded_qty_concat(one, next.1);
                assert(one.drop_last() =~= Seq::<Trade>::empty());
                assert(traded_qty(one.drop_last()) == 0);
                assert(one.last() == step.1);
                assert(traded_qty(one) == step.1.qty@);
            },
        }
    }
}

/// A whole sweep keeps the side it takes from well formed.
pub proof fn lemma_fill_keeps_wf(
    side: Side,
    taker_side: Side,
    levels: Seq<LevelState>,
    qty: nat,
    limit: Option<Price>,
    taker_id: OrderId,
    ts: Timestamp,
)
    requires
        side_wf(side, levels),
    ensures
        side_wf(side, fill(taker_side, levels, qty, limit, taker_id, ts).0),
    decreases levels.len(), front_len(levels), qty,
{
    if qty > 0 {
        match match_step(taker_side, levels, qty, limit, taker_id, ts) {
            None => {},
            Some(step) => {
                lemma_step_keeps_wf(side, taker_side, levels, qty, limit, taker_id, ts);
                lemma_fill_keeps_wf(side, taker_side, step.0, (qty - step.2) as nat, limit, taker_id, ts);
            },
        }
    }
}

/// A prefix of some trades never holds more notional than all of them.
pub proof fn lemma_traded_notional_prefix(trades: Seq<Trade>, i: int)
    requires
        0 <= i <= trades.len(),
    ensures
        traded_notional(trades.take(i)) <= traded_notional(trades),
    decreases trades.len(),
{
    if i < trades.len() {
        let shorter = trades.drop_last();
        assert(shorter.take(i) =~= trades.take(i));
        lemma_traded_notional_prefix(shorter, i);
    } else {
        assert(trades.take(i) =~= trades);
    }
}

} // verus!
