use crate::book_model::{
    best_price, book_wf, depth_fits, empty_book, fill, front_len, lemma_qty_total_prefix,
    lemma_rest_keeps_wf, lemma_step_keeps_wf, level_index, match_book, match_step, mid_fits, mid_of,
    opposite, qty_total, rest_in_side, rest_order, side_levels, side_wf, sweep, sweep_fits,
    top_levels, visible_levels, BookState, LevelState,
};
use crate::errors::{EngineError, EngineResult};
use crate::types::{
    BookOrder, ExecutionEstimate, Level, OrderBookSnapshot, OrderId, Price, Quantity, Side,
    Timestamp, Trade,
};
use std::collections::VecDeque;
use vstd::prelude::*;

verus! {

broadcast use crate::types::group_value_views;

/// The orders resting at one price, oldest first.
#[derive(Debug, Clone)]
struct PriceLevel {
    price: Price,
    orders: VecDeque<BookOrder>,
}

impl PriceLevel {
    spec fn state(&self) -> LevelState {
        LevelState { price: self.price, orders: self.orders@ }
    }
}

spec fn states(levels: Seq<PriceLevel>) -> Seq<LevelState> {
    levels.map_values(|l: PriceLevel| l.state())
}

/// The limit order book of one market: bids best (highest) first, asks best (lowest) first,
/// each level a queue in arrival order.
#[derive(Debug, Clone)]
pub struct OrderBook {
    bids: Vec<PriceLevel>,
    asks: Vec<PriceLevel>,
    pub last_price: Option<Price>,
}

impl View for OrderBook {
    type V = BookState;

    closed spec fn view(&self) -> BookState {
        BookState {
            bids: states(self.bids@),
            asks: states(self.asks@),
            last_price: self.last_price,
        }
    }
}

/// Takes one fill from the best level of `levels` for a taker on `taker_side`.
fn take_best(
    levels: &mut Vec<PriceLevel>,
    taker_side: Side,
    remaining: u64,
    limit_price: Option<Price>,
    taker_order_id: OrderId,
    ts: Timestamp,
) -> (r: Option<(Trade, u64)>)
    ensures
        match match_step(
            taker_side,
            states(old(levels)@),
            remaining as nat,
            limit_price,
            taker_order_id,
            ts,
        ) {
            None => r is None && final(levels)@ == old(levels)@,
            Some(s) => r == Some((s.1, s.2 as u64)) && states(final(levels)@) == s.0,
        },
{
    if levels.len() == 0 {
        return None;
    }
    let best = levels[0].price;
    if let Some(limit) = limit_price {
        let accepted = match taker_side {
            Side::Bid => best.as_u64() <= limit.as_u64(),
            Side::Ask => best.as_u64() >= limit.as_u64(),
        };
        if !accepted {
            return None;
        }
    }
    if levels[0].orders.len() == 0 {
        return None;
    }
    let ghost old_states = states(levels@);
    let mut level = levels.remove(0);
    assert(level.state() == old_states[0]);
    let maker = level.orders.pop_front().unwrap();
    let maker_qty = maker.qty.as_u64();
    let traded = if remaining < maker_qty {
        remaining
    } else {
        maker_qty
    };
    let new_maker_qty = maker_qty - traded;
    let trade = Trade {
        price: best,
        qty: Quantity::from_raw(traded),
        maker_order_id: maker.id,
        taker_order_id,
        ts,
    };
    if new_maker_qty != 0 {
        level.orders.push_front(
            BookOrder {
                id: maker.id,
                user_id: maker.user_id,
                side: maker.side,
                price: maker.price,
                qty: Quantity::from_raw(new_maker_qty),
                ts: maker.ts,
            },
        );
    }
    let ghost orders = level.orders@;
    if level.orders.len() > 0 {
        levels.insert(0, level);
        proof {
            let s = match_step(
                taker_side,
                old_states,
                remaining as nat,
                limit_price,
                taker_order_id,
                ts,
            ).unwrap();
            assert(orders =~= s.0[0].orders);
            assert(states(levels@) =~= s.0);
        }
    } else {
        proof {
            let s = match_step(
                taker_side,
                old_states,
                remaining as nat,
                limit_price,
                taker_order_id,
                ts,
            ).unwrap();
            assert(states(levels@) =~= s.0);
        }
    }
    Some((trade, traded))
}

/// Whether a level at price `a` stays ahead of one at price `b` on `side`.
fn outranks(side: Side, a: u64, b: u64) -> (r: bool)
    ensures
        r == crate::book_model::better(side, a, b),
{
    match side {
        Side::Bid => a > b,
        Side::Ask => a < b,
    }
}

/// Adds `order` at the back of the level of its price, creating the level where needed.
fn insert_order(levels: &mut Vec<PriceLevel>, side: Side, order: BookOrder)
    requires
        side_wf(side, states(old(levels)@)),
        order.side == side,
    ensures
        states(final(levels)@) == rest_in_side(side, states(old(levels)@), order),
        side_wf(side, states(final(levels)@)),
{
    let ghost s0 = states(levels@);
    let p = order.price.as_u64();
    let mut k: usize = 0;
    assert(s0.subrange(0, s0.len() as int) =~= s0);
    while k < levels.len() && outranks(side, levels[k].price.as_u64(), p)
        invariant
            levels@ == old(levels)@,
            s0 == states(levels@),
            k <= levels.len(),
            level_index(side, s0, p) == k + level_index(side, s0.subrange(k as int, s0.len() as int), p),
        decreases levels.len() - k,
    {
        proof {
            let sub = s0.subrange(k as int, s0.len() as int);
            assert(sub.drop_first() =~= s0.subrange(k + 1, s0.len() as int));
        }
        k = k + 1;
    }
    proof {
        let sub = s0.subrange(k as int, s0.len() as int);
        if k < s0.len() {
            assert(sub[0] == s0[k as int]);
        }
        assert(level_index(side, s0, p) == k);
        lemma_rest_keeps_wf(side, s0, order);
    }
    if k < levels.len() && levels[k].price.as_u64() == p {
        proof {
            assert(Price::spec_from(levels[k as int].price@) == levels[k as int].price);
            assert(Price::spec_from(order.price@) == order.price);
        }
        let mut level = levels.remove(k);
        level.orders.push_back(order);
        levels.insert(k, level);
        assert(states(levels@) =~= rest_in_side(side, s0, order));
    } else {
        let mut orders = VecDeque::new();
        orders.push_back(order);
        levels.insert(k, PriceLevel { price: order.price, orders });
        assert(states(levels@) =~= rest_in_side(side, s0, order));
    }
}

impl Default for OrderBook {
    fn default() -> (b: Self)
        ensures
            b@ == empty_book(),
            book_wf(b@),
    {
        Self::new()
    }
}

impl OrderBook {
    pub fn new() -> (b: Self)
        ensures
            b@ == empty_book(),
            book_wf(b@),
    {
        let b = OrderBook { bids: Vec::new(), asks: Vec::new(), last_price: None };
        assert(b@.bids =~= Seq::<LevelState>::empty());
        assert(b@.asks =~= Seq::<LevelState>::empty());
        b
    }

    /// The price of the most recent trade in this book, if any.
    pub fn last_price(&self) -> (p: Option<Price>)
        ensures
            p == self@.last_price,
    {
        self.last_price
    }

    /// The highest bid, if any.
    pub fn best_bid(&self) -> (p: Option<Price>)
        ensures
            p == best_price(self@.bids),
    {
        if self.bids.len() > 0 {
            Some(self.bids[0].price)
        } else {
            None
        }
    }

    /// The lowest ask, if any.
    pub fn best_ask(&self) -> (p: Option<Price>)
        ensures
            p == best_price(self@.asks),
    {
        if self.asks.len() > 0 {
            Some(self.asks[0].price)
        } else {
            None
        }
    }

    /// The midpoint of the best bid and the best ask, rounded down.
    pub fn mid_price(&self) -> (p: Option<Price>)
        requires
            mid_fits(self@),
        ensures
            p == mid_of(best_price(self@.bids), best_price(self@.asks)),
    {
        match (self.best_bid(), self.best_ask()) {
            (Some(bid), Some(ask)) => Some(Price::from_raw((bid.as_u64() + ask.as_u64()) / 2)),
            _ => None,
        }
    }

    /// Rests `order` on the side it names.
    pub fn add_resting_order(&mut self, order: BookOrder)
        requires
            book_wf(old(self)@),
        ensures
            final(self)@ == rest_order(old(self)@, order),
            book_wf(final(self)@),
    {
        match order.side {
            Side::Bid => insert_order(&mut self.bids, Side::Bid, order),
            Side::Ask => insert_order(&mut self.asks, Side::Ask, order),
        }
    }
    /// Matches a taker order of `qty` on `taker_side` against the other side, best price
    /// first and oldest first within a price, as long as the price crosses `limit_price`.
    pub fn match_order(
        &mut self,
        taker_order_id: OrderId,
        taker_side: Side,
        qty: u64,
        limit_price: Option<Price>,
        ts: Timestamp,
    ) -> (trades: Vec<Trade>)
        requires
            book_wf(old(self)@),
        ensures
            (final(self)@, trades@) == match_book(
                old(self)@,
                taker_side,
                qty as nat,
                limit_price,
                taker_order_id,
                ts,
            ),
            book_wf(final(self)@),
    {
        let ghost maker_side = opposite(taker_side);
        let ghost start = self@;
        let ghost target = fill(
            taker_side,
            side_levels(start, maker_side),
            qty as nat,
            limit_price,
            taker_order_id,
            ts,
        );
        let mut remaining = qty;
        let mut trades: Vec<Trade> = Vec::new();
        let mut done = false;
        while remaining > 0 && !done
            invariant
                maker_side == opposite(taker_side),
                book_wf(self@),
                side_levels(self@, taker_side) == side_levels(start, taker_side),
                fill(
                    taker_side,
                    side_levels(self@, maker_side),
                    remaining as nat,
                    limit_price,
                    taker_order_id,
                    ts,
                ).0 == target.0,
                trades@ + fill(
                    taker_side,
                    side_levels(self@, maker_side),
                    remaining as nat,
                    limit_price,
                    taker_order_id,
                    ts,
                ).1 == target.1,
                self@.last_price == if trades@.len() > 0 {
                    Some(trades@.last().price)
                } else {
                    start.last_price
                },
                done ==> match_step(
                    taker_side,
                    side_levels(self@, maker_side),
                    remaining as nat,
                    limit_price,
                    taker_order_id,
                    ts,
                ) is None,
            decreases
                side_levels(self@, maker_side).len(),
                front_len(side_levels(self@, maker_side)),
                remaining,
                if done { 0int } else { 1int },
        {
            let ghost before = self@;
            let step = match taker_side {
                Side::Bid => self.match_against_asks(taker_order_id, remaining, limit_price, ts),
                Side::Ask => self.match_against_bids(taker_order_id, remaining, limit_price, ts),
            };
            match step {
                Some((trade, consumed)) => {
                    proof {
                        let levels = side_levels(before, maker_side);
                        let s = match_step(
                            taker_side,
                            levels,
                            remaining as nat,
                            limit_price,
                            taker_order_id,
                            ts,
                        ).unwrap();
                        lemma_step_keeps_wf(
                            maker_side,
                            taker_side,
                            levels,
                            remaining as nat,
                            limit_price,
                            taker_order_id,
                            ts,
                        );
                        let rest = fill(
                            taker_side,
                            s.0,
                            (remaining - consumed) as nat,
                            limit_price,
                            taker_order_id,
                            ts,
                        );
                        assert(trades@.push(trade) + rest.1 =~= trades@ + (seq![trade] + rest.1));
                    }
                    remaining = remaining - consumed;
                    self.last_price = Some(trade.price);
                    trades.push(trade);
                },
                None => {
                    done = true;
                },
            }
        }
        proof {
            let rest = fill(
                taker_side,
                side_levels(self@, maker_side),
                remaining as nat,
                limit_price,
                taker_order_id,
                ts,
            );
            assert(rest.1 =~= Seq::<Trade>::empty());
            assert(trades@ + rest.1 =~= trades@);
        }
        trades
    }

    /// One fill of a buying taker against the best ask.
    fn match_against_asks(
        &mut self,
        taker_order_id: OrderId,
        remaining: u64,
        limit_price: Option<Price>,
        ts: Timestamp,
    ) -> (r: Option<(Trade, u64)>)
        ensures
            match match_step(
                Side::Bid,
                old(self)@.asks,
                remaining as nat,
                limit_price,
                taker_order_id,
                ts,
            ) {
                None => r is None && final(self)@ == old(self)@,
                Some(s) => r == Some((s.1, s.2 as u64)) && final(self)@ == BookState {
                    asks: s.0,
                    ..old(self)@
                },
            },
    {
        take_best(&mut self.asks, Side::Bid, remaining, limit_price, taker_order_id, ts)
    }

    /// One fill of a selling taker against the best bid.
    fn match_against_bids(
        &mut self,
        taker_order_id: OrderId,
        remaining: u64,
        limit_price: Option<Price>,
        ts: Timestamp,
    ) -> (r: Option<(Trade, u64)>)
        ensures
            match match_step(
                Side::Ask,
                old(self)@.bids,
                remaining as nat,
                limit_price,
                taker_order_id,
                ts,
            ) {
                None => r is None && final(self)@ == old(self)@,
                Some(s) => r == Some((s.1, s.2 as u64)) && final(self)@ == BookState {
                    bids: s.0,
                    ..old(self)@
                },
            },
    {
        take_best(&mut self.bids, Side::Ask, remaining, limit_price, taker_order_id, ts)
    }
}

/// The total quantity of the orders of one level.
fn sum_level(orders: &VecDeque<BookOrder>) -> (total: u64)
    requires
        qty_total(orders@) <= u64::MAX,
    ensures
        total == qty_total(orders@),
{
    let mut total: u64 = 0;
    let mut i: usize = 0;
    assert(orders@.take(0) =~= Seq::<BookOrder>::empty());
    while i < orders.len()
        invariant
            i <= orders@.len(),
            total == qty_total(orders@.take(i as int)),
            qty_total(orders@) <= u64::MAX,
        decreases orders@.len() - i,
    {
        proof {
            assert(orders@.take(i + 1).drop_last() =~= orders@.take(i as int));
            lemma_qty_total_prefix(orders@, i + 1);
        }
        total = total + orders[i].qty.as_u64();
        i = i + 1;
    }
    assert(orders@.take(i as int) =~= orders@);
    total
}

impl OrderBook {
    /// The levels of one side, best first.
    fn side_ref(&self, side: Side) -> (levels: &Vec<PriceLevel>)
        ensures
            states(levels@) == side_levels(self@, side),
    {
        match side {
            Side::Bid => &self.bids,
            Side::Ask => &self.asks,
        }
    }

    /// The first `depth` levels of `side`, aggregated; levels whose orders add up to zero are
    /// counted towards `depth` but not shown.
    pub fn top_n(&self, side: Side, depth: usize) -> (r: Vec<Level>)
        requires
            depth_fits(side_levels(self@, side), depth as nat),
        ensures
            r@ == top_levels(side_levels(self@, side), depth as nat),
    {
        let ghost s = side_levels(self@, side);
        let levels = self.side_ref(side);
        let n = if depth < levels.len() {
            depth
        } else {
            levels.len()
        };
        let mut result: Vec<Level> = Vec::new();
        let mut i: usize = 0;
        assert(s.take(0) =~= Seq::<LevelState>::empty());
        while i < n
            invariant
                states(levels@) == s,
                n as int == crate::book_model::depth_of(s, depth as nat),
                i <= n,
                result@ == visible_levels(s.take(i as int)),
                depth_fits(s, depth as nat),
            decreases n - i,
        {
            proof {
                assert(s.take(i + 1).drop_last() =~= s.take(i as int));
                assert(s.take(i + 1).last() == s[i as int]);
                assert(qty_total(s[i as int].orders) <= u64::MAX);
            }
            let total = sum_level(&levels[i].orders);
            if total > 0 {
                result.push(Level { price: levels[i].price, qty: Quantity::from_raw(total) });
            }
            i = i + 1;
        }
        result
    }

    /// Best prices, mid price and the first `depth` levels of each side.
    pub fn snapshot(&self, depth: usize) -> (snap: OrderBookSnapshot)
        requires
            depth_fits(self@.bids, depth as nat),
            depth_fits(self@.asks, depth as nat),
            mid_fits(self@),
        ensures
            snapshot_matches(snap, self@, depth as nat),
    {
        let bids = self.top_n(Side::Bid, depth);
        let asks = self.top_n(Side::Ask, depth);
        OrderBookSnapshot {
            bids,
            asks,
            best_bid: self.best_bid(),
            best_ask: self.best_ask(),
            mid_price: self.mid_price(),
        }
    }

    /// What a market order of `qty` on `side` would fill against the current book, without
    /// changing it: the fillable quantity, its notional, the average price (rounded down)
    /// and the number of levels it would take from.
    pub fn estimate_market(&self, side: Side, qty: Quantity) -> (r: EngineResult<ExecutionEstimate>)
        requires
            sweep_fits(side_levels(self@, opposite(side)), qty@ as nat),
        ensures
            estimated(self@, side, qty, r),
    {
        let ghost all = side_levels(self@, opposite(side));
        let levels = self.side_ref(opposite_side(side));
        let mut remaining = qty.as_u64();
        let mut fillable: u64 = 0;
        let mut total_notional: u128 = 0;
        let mut consumed_levels: usize = 0;
        let mut i: usize = 0;
        assert(all.subrange(0, all.len() as int) =~= all);
        while i < levels.len() && remaining > 0
            invariant
                states(levels@) == all,
                all == side_levels(self@, opposite(side)),
                i <= levels@.len(),
                consumed_levels <= i,
                fillable + remaining == qty@,
                sweep_fits(all.subrange(i as int, all.len() as int), remaining as nat),
                ({
                    let rest = sweep(all.subrange(i as int, all.len() as int), remaining as nat);
                    &&& sweep(all, qty@ as nat).0 == fillable + rest.0
                    &&& sweep(all, qty@ as nat).1 == total_notional + rest.1
                    &&& sweep(all, qty@ as nat).2 == consumed_levels + rest.2
                }),
            decreases levels@.len() - i,
        {
            let ghost sub = all.subrange(i as int, all.len() as int);
            proof {
                assert(sub.drop_first() =~= all.subrange(i + 1, all.len() as int));
                assert(sub[0] == all[i as int]);
            }
            let available = sum_level(&levels[i].orders);
            let taken = if available < remaining {
                available
            } else {
                remaining
            };
            if taken > 0 {
                let price = levels[i].price.as_u64();
                proof {
                    assert((price as nat) * (taken as nat) <= u128::MAX) by (nonlinear_arith)
                        requires
                            price <= u64::MAX,
                            taken <= u64::MAX,
                    ;
                }
                let cost = (price as u128) * (taken as u128);
                match total_notional.checked_add(cost) {
                    Some(t) => {
                        total_notional = t;
                    },
                    None => {
                        proof {
                            let rest = sweep(sub.drop_first(), (remaining - taken) as nat);
                            assert(sweep(sub, remaining as nat).1 == rest.1 + (price as nat) * (
                            taken as nat));
                        }
                        return Err(EngineError::ArithmeticOverflow);
                    },
                }
                consumed_levels = consumed_levels + 1;
                fillable = fillable + taken;
                remaining = remaining - taken;
            }
            i = i + 1;
        }
        let avg_price = if fillable > 0 {
            Some(Price::from_raw(#[verifier::truncate] ((total_notional / fillable as u128) as u64)))
        } else {
            None
        };
        Ok(
            ExecutionEstimate {
                requested_qty: qty,
                fillable_qty: Quantity::from_raw(fillable),
                avg_price,
                total_cost_or_proceeds: total_notional,
                levels_consumed: consumed_levels,
            },
        )
    }
}

/// A snapshot of book `b` to `depth` levels a side.
pub open spec fn snapshot_matches(snap: OrderBookSnapshot, b: BookState, depth: nat) -> bool {
    &&& snap.bids@ == top_levels(b.bids, depth)
    &&& snap.asks@ == top_levels(b.asks, depth)
    &&& snap.best_bid == best_price(b.bids)
    &&& snap.best_ask == best_price(b.asks)
    &&& snap.mid_price == mid_of(best_price(b.bids), best_price(b.asks))
}

/// The outcome of estimating a market order of `qty` on `side` against book `b`: an
/// overflow of the notional exactly when it exceeds `u128`, else the walk over the other side.
pub open spec fn estimated(b: BookState, side: Side, qty: Quantity, r: EngineResult<ExecutionEstimate>) -> bool {
    let s = sweep(side_levels(b, opposite(side)), qty@ as nat);
    &&& (r is Err) <==> s.1 > u128::MAX
    &&& r is Err ==> r == Err::<ExecutionEstimate, EngineError>(EngineError::ArithmeticOverflow)
    &&& r matches Ok(e) ==> estimate_matches(e, qty, s)
}

/// An estimate reports the walk `s` of a market order of `qty`.
pub open spec fn estimate_matches(e: ExecutionEstimate, qty: Quantity, s: (nat, nat, nat)) -> bool {
    &&& e.requested_qty == qty
    &&& e.fillable_qty@ == s.0
    &&& e.total_cost_or_proceeds == s.1
    &&& e.levels_consumed == s.2
    &&& e.avg_price == if s.0 > 0 {
        Some(Price::spec_from(#[verifier::truncate] ((s.1 / s.0) as u64)))
    } else {
        None
    }
}

/// The side a taker on `side` trades against.
fn opposite_side(side: Side) -> (r: Side)
    ensures
        r == opposite(side),
{
    match side {
        Side::Bid => Side::Ask,
        Side::Ask => Side::Bid,
    }
}

/// The total quantity of the orders of one level, or `None` when it exceeds `u64`.
fn checked_level_total(orders: &VecDeque<BookOrder>) -> (r: Option<u64>)
    ensures
        match r {
            Some(t) => t == qty_total(orders@),
            None => qty_total(orders@) > u64::MAX,
        },
{
    let mut total: u64 = 0;
    let mut i: usize = 0;
    assert(orders@.take(0) =~= Seq::<BookOrder>::empty());
    while i < orders.len()
        invariant
            i <= orders@.len(),
            total == qty_total(orders@.take(i as int)),
        decreases orders@.len() - i,
    {
        proof {
            assert(orders@.take(i + 1).drop_last() =~= orders@.take(i as int));
            lemma_qty_total_prefix(orders@, i + 1);
        }
        match total.checked_add(orders[i].qty.as_u64()) {
            Some(t) => {
                total = t;
            },
            None => {
                return None;
            },
        }
        i = i + 1;
    }
    assert(orders@.take(i as int) =~= orders@);
    Some(total)
}

impl OrderBook {
    /// Whether the first `depth` levels of `side` have totals that fit in a `u64`.
    fn depth_fits_side(&self, side: Side, depth: usize) -> (r: bool)
        ensures
            r == depth_fits(side_levels(self@, side), depth as nat),
    {
        let ghost s = side_levels(self@, side);
        let levels = self.side_ref(side);
        let n = if depth < levels.len() {
            depth
        } else {
            levels.len()
        };
        let mut i: usize = 0;
        while i < n
            invariant
                states(levels@) == s,
                s == side_levels(self@, side),
                n as int == crate::book_model::depth_of(s, depth as nat),
                i <= n,
                forall|j: int| 0 <= j < i ==> qty_total(#[trigger] s[j].orders) <= u64::MAX,
            decreases n - i,
        {
            proof {
                assert(s[i as int].orders == levels@[i as int].orders@);
            }
            match checked_level_total(&levels[i].orders) {
                Some(_) => {},
                None => {
                    return false;
                },
            }
            i = i + 1;
        }
        true
    }

    /// Whether `estimate_market(side, qty)` can be taken: the totals of the levels its walk
    /// reaches fit in a `u64`.
    pub fn estimate_fits(&self, side: Side, qty: Quantity) -> (r: bool)
        ensures
            r == sweep_fits(side_levels(self@, opposite(side)), qty@ as nat),
    {
        let ghost all = side_levels(self@, opposite(side));
        let levels = self.side_ref(opposite_side(side));
        let mut remaining = qty.as_u64();
        let mut i: usize = 0;
        assert(all.subrange(0, all.len() as int) =~= all);
        while i < levels.len() && remaining > 0
            invariant
                states(levels@) == all,
                all == side_levels(self@, opposite(side)),
                i <= levels@.len(),
                sweep_fits(all, qty@ as nat) == sweep_fits(
                    all.subrange(i as int, all.len() as int),
                    remaining as nat,
                ),
            decreases levels@.len() - i,
        {
            let ghost sub = all.subrange(i as int, all.len() as int);
            proof {
                assert(sub.drop_first() =~= all.subrange(i + 1, all.len() as int));
                assert(sub[0] == all[i as int]);
                assert(all[i as int].orders == levels@[i as int].orders@);
            }
            match checked_level_total(&levels[i].orders) {
                Some(t) => {
                    let taken = if t < remaining {
                        t
                    } else {
                        remaining
                    };
                    remaining = remaining - taken;
                },
                None => {
                    return false;
                },
            }
            i = i + 1;
        }
        proof {
            let sub = all.subrange(i as int, all.len() as int);
            assert(sub.len() == 0 || remaining == 0);
        }
        true
    }

    /// Whether `snapshot(depth)` can be taken: the level totals it shows and the sum of the
    /// best prices fit in a `u64`.
    pub fn snapshot_fits(&self, depth: usize) -> (r: bool)
        ensures
            r == (depth_fits(self@.bids, depth as nat) && depth_fits(self@.asks, depth as nat)
                && mid_fits(self@)),
    {
        let mid_ok = match (self.best_bid(), self.best_ask()) {
            (Some(bid), Some(ask)) => bid.as_u64().checked_add(ask.as_u64()).is_some(),
            _ => true,
        };
        mid_ok && self.depth_fits_side(Side::Bid, depth) && self.depth_fits_side(Side::Ask, depth)
    }
}

} // verus!
