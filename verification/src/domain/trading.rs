use std::collections::VecDeque;
use vstd::prelude::*;

verus! {

/// A market of the single-market engine, named as `BASE/QUOTE`.
#[derive(Debug, Clone, PartialEq, Eq, Hash)]
pub struct MarketId(pub String);

#[derive(Debug, Clone, Copy, PartialEq, Eq)]
pub enum Side {
    Buy,
    Sell,
}

#[derive(Debug, Clone, PartialEq, Eq)]
pub struct LimitOrder {
    pub id: String,
    pub market: MarketId,
    pub user_id: String,
    pub side: Side,
    pub price: u64,
    pub qty: u64,
}

#[derive(Debug, Clone, PartialEq, Eq)]
pub struct Trade {
    pub market: MarketId,
    pub taker_order_id: String,
    pub maker_order_id: String,
    pub price: u64,
    pub qty: u64,
}

#[derive(Debug, Clone, PartialEq, Eq)]
pub enum DomainError {
    InvalidOrder(&'static str),
    UnsupportedMarket(String),
}

#[derive(Debug, Clone, PartialEq, Eq)]
pub struct MatchResult {
    pub trades: Vec<Trade>,
    pub remaining: Option<LimitOrder>,
}

// ---------------------------------------------------------------- model

/// One price level as the contracts see it: its price and its orders, oldest first.
pub struct OrderLevel {
    pub price: u64,
    pub orders: Seq<LimitOrder>,
}

/// The engine as the contracts see it: its market and its two sides, best price first.
pub struct TradingState {
    pub market: MarketId,
    pub bids: Seq<OrderLevel>,
    pub asks: Seq<OrderLevel>,
}

/// Whether a resting price `a` has strict priority over a resting price `b` on `side`.
pub open spec fn outranks(side: Side, a: u64, b: u64) -> bool {
    match side {
        Side::Buy => a > b,
        Side::Sell => a < b,
    }
}

/// Levels are sorted best first, one per price, none empty, each order on its side and at
/// its level's price.
pub open spec fn levels_wf(side: Side, levels: Seq<OrderLevel>) -> bool {
    &&& forall|i: int, j: int|
        0 <= i < j < levels.len() ==> outranks(side, #[trigger] levels[i].price, #[trigger] levels[j].price)
    &&& forall|i: int|
        0 <= i < levels.len() ==> (#[trigger] levels[i]).orders.len() > 0 && forall|k: int|
            0 <= k < levels[i].orders.len() ==> (#[trigger] levels[i].orders[k]).price
                == levels[i].price && levels[i].orders[k].side == side
}

pub open spec fn state_wf(s: TradingState) -> bool {
    levels_wf(Side::Buy, s.bids) && levels_wf(Side::Sell, s.asks)
}

/// How many levels at the front of `levels` have a price strictly better than `p`.
pub open spec fn rank_of(side: Side, levels: Seq<OrderLevel>, p: u64) -> nat
    decreases levels.len(),
{
    if levels.len() == 0 {
        0
    } else if outranks(side, levels[0].price, p) {
        1 + rank_of(side, levels.drop_first(), p)
    } else {
        0
    }
}

/// The side after `o` joins it at the back of the level of its price.
pub open spec fn rest_in(side: Side, levels: Seq<OrderLevel>, o: LimitOrder) -> Seq<OrderLevel> {
    let k = rank_of(side, levels, o.price) as int;
    if k < levels.len() && levels[k].price == o.price {
        levels.update(k, OrderLevel { price: o.price, orders: levels[k].orders.push(o) })
    } else {
        levels.insert(k, OrderLevel { price: o.price, orders: seq![o] })
    }
}

/// Whether a taker on `side` with limit `limit` accepts a resting price `p`.
pub open spec fn accepts(side: Side, p: u64, limit: u64) -> bool {
    match side {
        Side::Buy => p <= limit,
        Side::Sell => p >= limit,
    }
}

pub open spec fn smaller(a: nat, b: nat) -> nat {
    if a <= b {
        a
    } else {
        b
    }
}

pub open spec fn with_qty(o: LimitOrder, qty: u64) -> LimitOrder {
    LimitOrder {
        id: o.id,
        market: o.market,
        user_id: o.user_id,
        side: o.side,
        price: o.price,
        qty,
    }
}

/// One fill of `taker` against the oldest order of the best level, if that level crosses.
pub open spec fn fill_once(taker: LimitOrder, levels: Seq<OrderLevel>) -> Option<
    (Seq<OrderLevel>, Trade, nat),
> {
    if levels.len() == 0 || levels[0].orders.len() == 0 || !accepts(
        taker.side,
        levels[0].price,
        taker.price,
    ) {
        None
    } else {
        let level = levels[0];
        let maker = level.orders[0];
        let traded = smaller(taker.qty as nat, maker.qty as nat);
        let trade = Trade {
            market: taker.market,
            taker_order_id: taker.id,
            maker_order_id: maker.id,
            price: level.price,
            qty: traded as u64,
        };
        let orders = if traded == maker.qty {
            level.orders.drop_first()
        } else {
            level.orders.update(0, with_qty(maker, (maker.qty - traded) as u64))
        };
        let rest = if orders.len() == 0 {
            levels.drop_first()
        } else {
            levels.update(0, OrderLevel { price: level.price, orders })
        };
        Some((rest, trade, traded))
    }
}

pub open spec fn front_size(levels: Seq<OrderLevel>) -> nat {
    if levels.len() > 0 {
        levels[0].orders.len()
    } else {
        0
    }
}

/// `taker` sweeping `levels` in price-time priority: the levels left, the trades in the order
/// they happened, and the taker's quantity left.
pub open spec fn sweep_orders(taker: LimitOrder, levels: Seq<OrderLevel>) -> (
    Seq<OrderLevel>,
    Seq<Trade>,
    u64,
)
    decreases levels.len(), front_size(levels), taker.qty,
{
    if taker.qty == 0 {
        (levels, Seq::empty(), taker.qty)
    } else {
        match fill_once(taker, levels) {
            None => (levels, Seq::empty(), taker.qty),
            Some(step) => {
                let next = sweep_orders(with_qty(taker, (taker.qty - step.2) as u64), step.0);
                (next.0, seq![step.1] + next.1, next.2)
            },
        }
    }
}

/// Why `o` is refused by the engine of `market`, if it is.
pub open spec fn order_problem(market: MarketId, o: LimitOrder) -> Option<DomainError> {
    if o.market.0@ != market.0@ {
        Some(DomainError::UnsupportedMarket(o.market.0))
    } else if o.id@.len() == 0 || o.user_id@.len() == 0 {
        Some(DomainError::InvalidOrder("id and user_id are required"))
    } else if o.price == 0 || o.qty == 0 {
        Some(DomainError::InvalidOrder("price and qty must be > 0"))
    } else {
        None
    }
}

/// The state after a valid order `o` was submitted, the trades it made, and what rests of it.
pub open spec fn after_submit(s: TradingState, o: LimitOrder) -> (
    TradingState,
    Seq<Trade>,
    Option<LimitOrder>,
) {
    match o.side {
        Side::Buy => {
            let r = sweep_orders(o, s.asks);
            let left = with_qty(o, r.2);
            if r.2 > 0 {
                (
                    TradingState { market: s.market, bids: rest_in(Side::Buy, s.bids, left), asks: r.0 },
                    r.1,
                    Some(left),
                )
            } else {
                (TradingState { market: s.market, bids: s.bids, asks: r.0 }, r.1, None)
            }
        },
        Side::Sell => {
            let r = sweep_orders(o, s.bids);
            let left = with_qty(o, r.2);
            if r.2 > 0 {
                (
                    TradingState { market: s.market, bids: r.0, asks: rest_in(Side::Sell, s.asks, left) },
                    r.1,
                    Some(left),
                )
            } else {
                (TradingState { market: s.market, bids: r.0, asks: s.asks }, r.1, None)
            }
        },
    }
}

/// The state after submitting `o`, and what the engine answers: an error and no change when
/// `o` is refused, else the trades made and what rests of `o`.
pub open spec fn submit_outcome(s: TradingState, o: LimitOrder) -> (
    TradingState,
    Result<(Seq<Trade>, Option<LimitOrder>), DomainError>,
) {
    match order_problem(s.market, o) {
        Some(e) => (s, Err(e)),
        None => {
            let a = after_submit(s, o);
            (a.0, Ok((a.1, a.2)))
        },
    }
}

/// What an answer of `submit` says, as values.
pub open spec fn answer_of(r: Result<MatchResult, DomainError>) -> Result<
    (Seq<Trade>, Option<LimitOrder>),
    DomainError,
> {
    match r {
        Ok(m) => Ok((m.trades@, m.remaining)),
        Err(e) => Err(e),
    }
}

/// The state after submitting `orders` one after the other, starting from `s`.
pub open spec fn replay(s: TradingState, orders: Seq<LimitOrder>) -> TradingState
    decreases orders.len(),
{
    if orders.len() == 0 {
        s
    } else {
        submit_outcome(replay(s, orders.drop_last()), orders.last()).0
    }
}

/// `states` and `answers` are what an engine went through and answered when it was handed
/// `orders` one after the other.
pub open spec fn history(
    states: Seq<TradingState>,
    orders: Seq<LimitOrder>,
    answers: Seq<Result<(Seq<Trade>, Option<LimitOrder>), DomainError>>,
) -> bool {
    &&& states.len() == orders.len() + 1
    &&& answers.len() == orders.len()
    &&& forall|i: int|
        #![trigger orders[i]]
        0 <= i < orders.len() ==> (states[i + 1], answers[i]) == submit_outcome(
            states[i],
            orders[i],
        )
}

// ---------------------------------------------------------------- lemmas

proof fn lemma_rank_bounds(side: Side, levels: Seq<OrderLevel>, p: u64)
    ensures
        rank_of(side, levels, p) <= levels.len(),
        forall|i: int| 0 <= i < rank_of(side, levels, p) ==> outranks(side, #[trigger] levels[i].price, p),
        rank_of(side, levels, p) < levels.len() ==> !outranks(
            side,
            levels[rank_of(side, levels, p) as int].price,
            p,
        ),
    decreases levels.len(),
{
    if levels.len() > 0 && outranks(side, levels[0].price, p) {
        let rest = levels.drop_first();
        lemma_rank_bounds(side, rest, p);
        assert forall|i: int| 0 <= i < rank_of(side, levels, p) implies outranks(
            side,
            #[trigger] levels[i].price,
            p,
        ) by {
            if i > 0 {
                assert(levels[i] == rest[i - 1]);
            }
        }
    }
}

/// Resting an order on its own side keeps that side well formed.
pub proof fn lemma_rest_in_keeps_wf(side: Side, levels: Seq<OrderLevel>, o: LimitOrder)
    requires
        levels_wf(side, levels),
        o.side == side,
    ensures
        levels_wf(side, rest_in(side, levels, o)),
{
    let k = rank_of(side, levels, o.price) as int;
    lemma_rank_bounds(side, levels, o.price);
    let r = rest_in(side, levels, o);
    if k < levels.len() && levels[k].price == o.price {
        assert forall|i: int| 0 <= i < r.len() implies (#[trigger] r[i]).orders.len() > 0 && forall|
            j: int,
        |
            0 <= j < r[i].orders.len() ==> (#[trigger] r[i].orders[j]).price == r[i].price
                && r[i].orders[j].side == side by {
            if i == k {
                assert forall|j: int| 0 <= j < r[i].orders.len() implies (#[trigger] r[i].orders[j]).price
                    == r[i].price && r[i].orders[j].side == side by {
                    if j < levels[k].orders.len() {
                        assert(r[i].orders[j] == levels[k].orders[j]);
                    }
                }
            }
        }
    } else {
        assert forall|j: int| k <= j < levels.len() implies outranks(
            side,
            o.price,
            #[trigger] levels[j].price,
        ) by {
            if j > k {
                assert(outranks(side, levels[k].price, levels[j].price));
            }
        }
        assert forall|i: int, j: int| 0 <= i < j < r.len() implies outranks(
            side,
            #[trigger] r[i].price,
            #[trigger] r[j].price,
        ) by {
            if j < k {
            } else if j == k {
            } else if i < k {
                assert(outranks(side, levels[i].price, levels[j - 1].price));
            } else if i == k {
            } else {
                assert(outranks(side, levels[i - 1].price, levels[j - 1].price));
            }
        }
        assert forall|i: int| 0 <= i < r.len() implies (#[trigger] r[i]).orders.len() > 0 && forall|
            j: int,
        |
            0 <= j < r[i].orders.len() ==> (#[trigger] r[i].orders[j]).price == r[i].price
                && r[i].orders[j].side == side by {
            if i < k {
                assert(r[i] == levels[i]);
            } else if i > k {
                assert(r[i] == levels[i - 1]);
            }
        }
    }
}

/// One fill keeps the side it takes from well formed.
pub proof fn lemma_fill_once_keeps_wf(side: Side, taker: LimitOrder, levels: Seq<OrderLevel>)
    requires
        levels_wf(side, levels),
        fill_once(taker, levels) is Some,
    ensures
        levels_wf(side, fill_once(taker, levels).unwrap().0),
{
    let r = fill_once(taker, levels).unwrap().0;
    let level = levels[0];
    if r.len() == levels.len() {
        assert forall|i: int| 0 <= i < r.len() implies (#[trigger] r[i]).orders.len() > 0 && forall|
            j: int,
        |
            0 <= j < r[i].orders.len() ==> (#[trigger] r[i].orders[j]).price == r[i].price
                && r[i].orders[j].side == side by {
            if i == 0 {
                assert forall|k: int| 0 <= k < r[0].orders.len() implies (#[trigger] r[0].orders[k]).price
                    == r[0].price && r[0].orders[k].side == side by {
                    if r[0].orders.len() < level.orders.len() {
                        assert(r[0].orders[k] == level.orders[k + 1]);
                    } else if k > 0 {
                        assert(r[0].orders[k] == level.orders[k]);
                    } else {
                        assert(level.orders[0].price == level.price);
                    }
                }
            }
        }
        assert forall|i: int, j: int| 0 <= i < j < r.len() implies outranks(
            side,
            #[trigger] r[i].price,
            #[trigger] r[j].price,
        ) by {
            assert(outranks(side, levels[i].price, levels[j].price));
        }
    } else {
        assert forall|i: int| 0 <= i < r.len() implies (#[trigger] r[i]).orders.len() > 0 && forall|
            j: int,
        |
            0 <= j < r[i].orders.len() ==> (#[trigger] r[i].orders[j]).price == r[i].price
                && r[i].orders[j].side == side by {
            assert(r[i] == levels[i + 1]);
        }
        assert forall|i: int, j: int| 0 <= i < j < r.len() implies outranks(
            side,
            #[trigger] r[i].price,
            #[trigger] r[j].price,
        ) by {
            assert(outranks(side, levels[i + 1].price, levels[j + 1].price));
        }
    }
}

// ---------------------------------------------------------------- engine

/// The orders resting at one price, oldest first.
#[derive(Debug)]
struct PriceQueue {
    price: u64,
    orders: VecDeque<LimitOrder>,
}

impl PriceQueue {
    spec fn state(&self) -> OrderLevel {
        OrderLevel { price: self.price, orders: self.orders@ }
    }
}

spec fn queue_states(levels: Seq<PriceQueue>) -> Seq<OrderLevel> {
    levels.map_values(|l: PriceQueue| l.state())
}

/// A matching engine for one market of limit orders, in price-time priority.
#[derive(Debug)]
pub struct MatchingEngine {
    market: MarketId,
    bids: Vec<PriceQueue>,
    asks: Vec<PriceQueue>,
}

impl View for MatchingEngine {
    type V = TradingState;

    closed spec fn view(&self) -> TradingState {
        TradingState {
            market: self.market,
            bids: queue_states(self.bids@),
            asks: queue_states(self.asks@),
        }
    }
}

fn copy_market(m: &MarketId) -> (r: MarketId)
    ensures
        r == *m,
{
    MarketId(m.0.clone())
}

fn copy_order(o: &LimitOrder) -> (r: LimitOrder)
    ensures
        r == *o,
{
    LimitOrder {
        id: o.id.clone(),
        market: copy_market(&o.market),
        user_id: o.user_id.clone(),
        side: o.side,
        price: o.price,
        qty: o.qty,
    }
}

/// Whether a level at price `a` stays ahead of one at price `b` on `side`.
fn ranks_ahead(side: Side, a: u64, b: u64) -> (r: bool)
    ensures
        r == outranks(side, a, b),
{
    match side {
        Side::Buy => a > b,
        Side::Sell => a < b,
    }
}

/// Adds `o` at the back of the level of its price, creating the level where needed.
fn rest_order(levels: &mut Vec<PriceQueue>, side: Side, o: LimitOrder)
    requires
        levels_wf(side, queue_states(old(levels)@)),
        o.side == side,
    ensures
        queue_states(final(levels)@) == rest_in(side, queue_states(old(levels)@), o),
        levels_wf(side, queue_states(final(levels)@)),
{
    let ghost s0 = queue_states(levels@);
    let p = o.price;
    let mut k: usize = 0;
    assert(s0.subrange(0, s0.len() as int) =~= s0);
    while k < levels.len() && ranks_ahead(side, levels[k].price, p)
        invariant
            levels@ == old(levels)@,
            s0 == queue_states(levels@),
            k <= levels.len(),
            rank_of(side, s0, p) == k + rank_of(side, s0.subrange(k as int, s0.len() as int), p),
        decreases levels.len() - k,
    {
        proof {
            let sub = s0.subrange(k as int, s0.len() as int);
            assert(sub.drop_first() =~= s0.subrange(k + 1, s0.len() as int));
        }
        k = k + 1;
    }
    proof {
        let sub = s0.subrange(k as int, s0.len() as int);
        if k < s0.len() {
            assert(sub[0] == s0[k as int]);
        }
        assert(rank_of(side, s0, p) == k);
        lemma_rest_in_keeps_wf(side, s0, o);
    }
    let ghost go = o;
    if k < levels.len() && levels[k].price == p {
        let mut level = levels.remove(k);
        level.orders.push_back(o);
        levels.insert(k, level);
        assert(queue_states(levels@) =~= rest_in(side, s0, go));
    } else {
        let mut orders = VecDeque::new();
        orders.push_back(o);
        levels.insert(k, PriceQueue { price: p, orders });
        assert(queue_states(levels@) =~= rest_in(side, s0, go));
    }
}

/// Takes one fill for `taker` from the best level of `levels`.
fn fill_front(levels: &mut Vec<PriceQueue>, taker: &LimitOrder) -> (r: Option<Trade>)
    ensures
        match fill_once(*taker, queue_states(old(levels)@)) {
            None => r is None && final(levels)@ == old(levels)@,
            Some(s) => r == Some(s.1) && queue_states(final(levels)@) == s.0,
        },
{
    if levels.len() == 0 {
        return None;
    }
    let best = levels[0].price;
    let crosses = match taker.side {
        Side::Buy => best <= taker.price,
        Side::Sell => best >= taker.price,
    };
    if !crosses {
        return None;
    }
    if levels[0].orders.len() == 0 {
        return None;
    }
    let ghost old_states = queue_states(levels@);
    let mut level = levels.remove(0);
    assert(level.state() == old_states[0]);
    let maker = level.orders.pop_front().unwrap();
    let traded = if taker.qty < maker.qty {
        taker.qty
    } else {
        maker.qty
    };
    let trade = Trade {
        market: copy_market(&taker.market),
        taker_order_id: taker.id.clone(),
        maker_order_id: maker.id.clone(),
        price: best,
        qty: traded,
    };
    if maker.qty - traded != 0 {
        let left = maker.qty - traded;
        level.orders.push_front(
            LimitOrder {
                id: maker.id,
                market: maker.market,
                user_id: maker.user_id,
                side: maker.side,
                price: maker.price,
                qty: left,
            },
        );
    }
    let ghost orders = level.orders@;
    if level.orders.len() > 0 {
        levels.insert(0, level);
        proof {
            let s = fill_once(*taker, old_states).unwrap();
            assert(orders =~= s.0[0].orders);
            assert(queue_states(levels@) =~= s.0);
        }
    } else {
        proof {
            let s = fill_once(*taker, old_states).unwrap();
            assert(queue_states(levels@) =~= s.0);
        }
    }
    Some(trade)
}

/// Sweeps `levels` with `taker` until it is filled or the best level no longer crosses.
fn sweep(levels: &mut Vec<PriceQueue>, taker: &mut LimitOrder, trades: &mut Vec<Trade>)
    requires
        levels_wf(opposite(old(taker).side), queue_states(old(levels)@)),
    ensures
        ({
            let r = sweep_orders(*old(taker), queue_states(old(levels)@));
            &&& queue_states(final(levels)@) == r.0
            &&& final(trades)@ == old(trades)@ + r.1
            &&& *final(taker) == with_qty(*old(taker), r.2)
        }),
        levels_wf(opposite(old(taker).side), queue_states(final(levels)@)),
{
    let ghost side = opposite(taker.side);
    let ghost target = sweep_orders(*taker, queue_states(levels@));
    let ghost start_taker = *taker;
    let ghost start_trades = trades@;
    let mut done = false;
    while taker.qty > 0 && !done
        invariant
            side == opposite(start_taker.side),
            levels_wf(side, queue_states(levels@)),
            *taker == with_qty(start_taker, taker.qty),
            sweep_orders(*taker, queue_states(levels@)).0 == target.0,
            sweep_orders(*taker, queue_states(levels@)).2 == target.2,
            start_trades + target.1 == trades@ + sweep_orders(*taker, queue_states(levels@)).1,
            done ==> fill_once(*taker, queue_states(levels@)) is None,
        decreases
            queue_states(levels@).len(),
            front_size(queue_states(levels@)),
            taker.qty,
            if done { 0int } else { 1int },
    {
        let ghost before = queue_states(levels@);
        let ghost t0 = *taker;
        match fill_front(levels, taker) {
            Some(trade) => {
                proof {
                    let s = fill_once(t0, before).unwrap();
                    lemma_fill_once_keeps_wf(side, t0, before);
                    let next = sweep_orders(with_qty(t0, (t0.qty - s.2) as u64), s.0);
                    assert(trades@.push(trade) + next.1 =~= trades@ + (seq![trade] + next.1));
                }
                taker.qty = taker.qty - trade.qty;
                trades.push(trade);
            },
            None => {
                done = true;
            },
        }
    }
    proof {
        let rest = sweep_orders(*taker, queue_states(levels@));
        assert(rest.1 =~= Seq::<Trade>::empty());
        assert(trades@ + rest.1 =~= trades@);
    }
}

pub open spec fn opposite(side: Side) -> Side {
    match side {
        Side::Buy => Side::Sell,
        Side::Sell => Side::Buy,
    }
}

impl MatchingEngine {
    /// An engine for `market` with an empty book.
    pub fn new(market: MarketId) -> (e: Self)
        ensures
            e@ == (TradingState { market, bids: Seq::empty(), asks: Seq::empty() }),
            state_wf(e@),
    {
        let e = MatchingEngine { market, bids: Vec::new(), asks: Vec::new() };
        assert(e@.bids =~= Seq::<OrderLevel>::empty());
        assert(e@.asks =~= Seq::<OrderLevel>::empty());
        e
    }

    /// Refuses an order of another market, one without an id or a user, and one with a zero
    /// price or quantity.
    fn validate_order(&self, order: &LimitOrder) -> (r: Result<(), DomainError>)
        ensures
            r == match order_problem(self@.market, *order) {
                Some(e) => Err::<(), DomainError>(e),
                None => Ok(()),
            },
    {
        if !(order.market.0 == self.market.0) {
            return Err(DomainError::UnsupportedMarket(order.market.0.clone()));
        }
        if order.id.as_str().is_empty() || order.user_id.as_str().is_empty() {
            return Err(DomainError::InvalidOrder("id and user_id are required"));
        }
        if order.price == 0 || order.qty == 0 {
            return Err(DomainError::InvalidOrder("price and qty must be > 0"));
        }
        Ok(())
    }

    /// Matches a buying taker against the asks.
    fn match_buy(&mut self, taker: &mut LimitOrder, trades: &mut Vec<Trade>)
        requires
            state_wf(old(self)@),
            old(taker).side == Side::Buy,
        ensures
            ({
                let r = sweep_orders(*old(taker), old(self)@.asks);
                &&& final(self)@ == TradingState { asks: r.0, ..old(self)@ }
                &&& final(trades)@ == old(trades)@ + r.1
                &&& *final(taker) == with_qty(*old(taker), r.2)
            }),
            state_wf(final(self)@),
    {
        sweep(&mut self.asks, taker, trades);
    }

    /// Matches a selling taker against the bids.
    fn match_sell(&mut self, taker: &mut LimitOrder, trades: &mut Vec<Trade>)
        requires
            state_wf(old(self)@),
            old(taker).side == Side::Sell,
        ensures
            ({
                let r = sweep_orders(*old(taker), old(self)@.bids);
                &&& final(self)@ == TradingState { bids: r.0, ..old(self)@ }
                &&& final(trades)@ == old(trades)@ + r.1
                &&& *final(taker) == with_qty(*old(taker), r.2)
            }),
            state_wf(final(self)@),
    {
        sweep(&mut self.bids, taker, trades);
    }

    /// Submits a limit order: it is validated, matched against the other side in price-time
    /// priority, and what is left of it rests at the back of its price level.
    pub fn submit(&mut self, order: LimitOrder) -> (r: Result<MatchResult, DomainError>)
        requires
            state_wf(old(self)@),
        ensures
            state_wf(final(self)@),
            match order_problem(old(self)@.market, order) {
                Some(e) => r == Err::<MatchResult, DomainError>(e) && final(self)@ == old(self)@,
                None => {
                    let a = after_submit(old(self)@, order);
                    &&& final(self)@ == a.0
                    &&& r matches Ok(m) && m.trades@ == a.1 && m.remaining == a.2
                },
            },
            (final(self)@, answer_of(r)) == submit_outcome(old(self)@, order),
    {
        match self.validate_order(&order) {
            Err(e) => {
                return Err(e);
            },
            Ok(()) => {},
        }
        let mut taker = order;
        let mut trades: Vec<Trade> = Vec::new();
        match taker.side {
            Side::Buy => self.match_buy(&mut taker, &mut trades),
            Side::Sell => self.match_sell(&mut taker, &mut trades),
        }
        assert(Seq::<Trade>::empty() + trades@ =~= trades@);
        let remaining = if taker.qty > 0 {
            let resting = copy_order(&taker);
            match taker.side {
                Side::Buy => rest_order(&mut self.bids, Side::Buy, resting),
                Side::Sell => rest_order(&mut self.asks, Side::Sell, resting),
            }
            Some(taker)
        } else {
            None
        };
        Ok(MatchResult { trades, remaining })
    }
}

// ---------------------------------------------------------------- laws

/// All resting orders of a side in priority order: best level first, oldest first within it.
pub open spec fn order_queue(levels: Seq<OrderLevel>) -> Seq<LimitOrder>
    decreases levels.len(),
{
    if levels.len() == 0 {
        Seq::empty()
    } else {
        levels[0].orders + order_queue(levels.drop_first())
    }
}

/// The best bid is below the best ask, when both exist.
pub open spec fn uncrossed(s: TradingState) -> bool {
    s.bids.len() > 0 && s.asks.len() > 0 ==> s.bids[0].price < s.asks[0].price
}

proof fn lemma_fill_once_pops_queue(taker: LimitOrder, levels: Seq<OrderLevel>)
    requires
        fill_once(taker, levels) is Some,
    ensures
        ({
            let s = fill_once(taker, levels).unwrap();
            &&& order_queue(levels).len() > 0
            &&& order_queue(levels)[0] == levels[0].orders[0]
            &&& s.2 == levels[0].orders[0].qty ==> order_queue(s.0) =~= order_queue(levels).drop_first()
        }),
{
    let s = fill_once(taker, levels).unwrap();
    let o = levels[0].orders;
    assert(order_queue(levels) == o + order_queue(levels.drop_first()));
    if s.2 == o[0].qty {
        if o.len() > 1 {
            assert(s.0.drop_first() =~= levels.drop_first());
            assert(order_queue(s.0) == o.drop_first() + order_queue(s.0.drop_first()));
        } else {
            assert(o.drop_first() =~= Seq::<LimitOrder>::empty());
        }
    }
}

/// Price-time priority: a taker trades with the resting orders exactly in queue order, at
/// each maker's price, never beyond its own limit, each trade naming the taker and its market.
pub proof fn law_sweep_follows_queue(taker: LimitOrder, levels: Seq<OrderLevel>)
    requires
        levels_wf(opposite(taker.side), levels),
    ensures
        ({
            let trades = sweep_orders(taker, levels).1;
            let queue = order_queue(levels);
            &&& trades.len() <= queue.len()
            &&& forall|i: int|
                0 <= i < trades.len() ==> {
                    &&& (#[trigger] trades[i]).maker_order_id == queue[i].id
                    &&& trades[i].price == queue[i].price
                    &&& trades[i].taker_order_id == taker.id
                    &&& trades[i].market == taker.market
                    &&& accepts(taker.side, trades[i].price, taker.price)
                }
        }),
    decreases levels.len(), front_size(levels), taker.qty,
{
    if taker.qty > 0 {
        match fill_once(taker, levels) {
            None => {},
            Some(step) => {
                let t2 = with_qty(taker, (taker.qty - step.2) as u64);
                lemma_fill_once_pops_queue(taker, levels);
                lemma_fill_once_keeps_wf(opposite(taker.side), taker, levels);
                law_sweep_follows_queue(t2, step.0);
                let next = sweep_orders(t2, step.0);
                let trades = sweep_orders(taker, levels).1;
                let queue = order_queue(levels);
                assert(trades == seq![step.1] + next.1);
                assert(levels[0].orders[0].price == levels[0].price);
                if step.2 == levels[0].orders[0].qty {
                    assert forall|i: int| 0 <= i < trades.len() implies {
                        &&& (#[trigger] trades[i]).maker_order_id == queue[i].id
                        &&& trades[i].price == queue[i].price
                        &&& trades[i].taker_order_id == taker.id
                        &&& trades[i].market == taker.market
                        &&& accepts(taker.side, trades[i].price, taker.price)
                    } by {
                        if i > 0 {
                            assert(trades[i] == next.1[i - 1]);
                            assert(order_queue(step.0)[i - 1] == queue[i]);
                        }
                    }
                } else {
                    assert(t2.qty == 0);
                    assert(next.1 =~= Seq::<Trade>::empty());
                }
            },
        }
    }
}

/// A sweep keeps its side well formed, never leaves a better level at the front than there
/// was, and, when it leaves part of the taker, stops at a level its limit does not accept.
pub proof fn lemma_sweep_outcome(taker: LimitOrder, levels: Seq<OrderLevel>)
    requires
        levels_wf(opposite(taker.side), levels),
    ensures
        ({
            let r = sweep_orders(taker, levels);
            &&& levels_wf(opposite(taker.side), r.0)
            &&& r.0.len() > 0 ==> levels.len() > 0 && !outranks(
                opposite(taker.side),
                r.0[0].price,
                levels[0].price,
            )
            &&& r.2 > 0 ==> r.0.len() == 0 || !accepts(taker.side, r.0[0].price, taker.price)
            &&& r.2 <= taker.qty
        }),
    decreases levels.len(), front_size(levels), taker.qty,
{
    let ms = opposite(taker.side);
    if taker.qty > 0 {
        match fill_once(taker, levels) {
            None => {},
            Some(step) => {
                let t2 = with_qty(taker, (taker.qty - step.2) as u64);
                lemma_fill_once_keeps_wf(ms, taker, levels);
                lemma_sweep_outcome(t2, step.0);
                let r = sweep_orders(taker, levels);
                if r.0.len() > 0 && step.0.len() < levels.len() && step.0.len() > 0 {
                    assert(step.0[0] == levels[1]);
                    assert(outranks(ms, levels[0].price, levels[1].price));
                }
            },
        }
    }
}

/// The best price after an order rests on its side: its own, unless a better level exists.
proof fn lemma_rest_in_best(side: Side, levels: Seq<OrderLevel>, o: LimitOrder)
    requires
        levels_wf(side, levels),
        o.side == side,
    ensures
        rest_in(side, levels, o).len() > 0,
        rest_in(side, levels, o)[0].price == if levels.len() > 0 && outranks(
            side,
            levels[0].price,
            o.price,
        ) {
            levels[0].price
        } else {
            o.price
        },
{
    lemma_rank_bounds(side, levels, o.price);
    if levels.len() > 0 && outranks(side, levels[0].price, o.price) {
        assert(rank_of(side, levels, o.price) > 0);
    } else {
        assert(rank_of(side, levels, o.price) == 0);
    }
}

/// Submitting a valid order keeps the book well formed, and a book whose best bid is below
/// its best ask stays so.
pub proof fn law_submit_keeps_book_uncrossed(s: TradingState, o: LimitOrder)
    requires
        state_wf(s),
        uncrossed(s),
        order_problem(s.market, o) is None,
    ensures
        state_wf(after_submit(s, o).0),
        uncrossed(after_submit(s, o).0),
{
    match o.side {
        Side::Buy => {
            let r = sweep_orders(o, s.asks);
            lemma_sweep_outcome(o, s.asks);
            if r.2 > 0 {
                let left = with_qty(o, r.2);
                lemma_rest_in_keeps_wf(Side::Buy, s.bids, left);
                lemma_rest_in_best(Side::Buy, s.bids, left);
            }
        },
        Side::Sell => {
            let r = sweep_orders(o, s.bids);
            lemma_sweep_outcome(o, s.bids);
            if r.2 > 0 {
                let left = with_qty(o, r.2);
                lemma_rest_in_keeps_wf(Side::Sell, s.asks, left);
                lemma_rest_in_best(Side::Sell, s.asks, left);
            }
        },
    }
}

/// What is left of an order rests only when something is left, and never more than the
/// order asked for.
pub proof fn law_remaining_is_what_was_not_traded(s: TradingState, o: LimitOrder)
    requires
        state_wf(s),
        order_problem(s.market, o) is None,
    ensures
        ({
            let a = after_submit(s, o);
            &&& a.2 matches Some(left) ==> 0 < left.qty <= o.qty && left == with_qty(o, left.qty)
        }),
{
    match o.side {
        Side::Buy => lemma_sweep_outcome(o, s.asks),
        Side::Sell => lemma_sweep_outcome(o, s.bids),
    }
}

/// Every order of a side rests with a positive quantity.
pub open spec fn positive_levels(levels: Seq<OrderLevel>) -> bool {
    forall|i: int, k: int|
        0 <= i < levels.len() && 0 <= k < levels[i].orders.len() ==> (#[trigger] levels[i].orders[k]).qty
            > 0
}

pub open spec fn positive_state(s: TradingState) -> bool {
    positive_levels(s.bids) && positive_levels(s.asks)
}

proof fn lemma_fill_once_keeps_positive(taker: LimitOrder, levels: Seq<OrderLevel>)
    requires
        positive_levels(levels),
        fill_once(taker, levels) is Some,
    ensures
        positive_levels(fill_once(taker, levels).unwrap().0),
{
    let r = fill_once(taker, levels).unwrap().0;
    let o = levels[0].orders;
    assert forall|i: int, k: int| 0 <= i < r.len() && 0 <= k < r[i].orders.len() implies (
    #[trigger] r[i].orders[k]).qty > 0 by {
        if r.len() < levels.len() {
            assert(r[i] == levels[i + 1]);
        } else if i > 0 {
            assert(r[i] == levels[i]);
        } else if r[0].orders.len() < o.len() {
            assert(r[0].orders[k] == o[k + 1]);
        } else if k > 0 {
            assert(r[0].orders[k] == o[k]);
        } else {
            assert(o[0].qty > 0);
        }
    }
}

proof fn lemma_sweep_keeps_positive(taker: LimitOrder, levels: Seq<OrderLevel>)
    requires
        positive_levels(levels),
    ensures
        positive_levels(sweep_orders(taker, levels).0),
    decreases levels.len(), front_size(levels), taker.qty,
{
    if taker.qty > 0 {
        match fill_once(taker, levels) {
            None => {},
            Some(step) => {
                lemma_fill_once_keeps_positive(taker, levels);
                lemma_sweep_keeps_positive(with_qty(taker, (taker.qty - step.2) as u64), step.0);
            },
        }
    }
}

proof fn lemma_rest_in_keeps_positive(side: Side, levels: Seq<OrderLevel>, o: LimitOrder)
    requires
        positive_levels(levels),
        o.qty > 0,
    ensures
        positive_levels(rest_in(side, levels, o)),
{
    let k = rank_of(side, levels, o.price) as int;
    lemma_rank_bounds(side, levels, o.price);
    let r = rest_in(side, levels, o);
    assert forall|i: int, j: int| 0 <= i < r.len() && 0 <= j < r[i].orders.len() implies (
    #[trigger] r[i].orders[j]).qty > 0 by {
        if k < levels.len() && levels[k].price == o.price {
            if i == k && j < levels[k].orders.len() {
                assert(r[i].orders[j] == levels[k].orders[j]);
            } else if i != k {
                assert(r[i] == levels[i]);
            }
        } else {
            if i < k {
                assert(r[i] == levels[i]);
            } else if i > k {
                assert(r[i] == levels[i - 1]);
            }
        }
    }
}

/// Submitting an order keeps every resting quantity positive: fills only shrink or remove
/// makers, and only a positive remainder rests.
pub proof fn law_submit_keeps_quantities_positive(s: TradingState, o: LimitOrder)
    requires
        positive_state(s),
    ensures
        positive_state(after_submit(s, o).0),
{
    match o.side {
        Side::Buy => {
            let r = sweep_orders(o, s.asks);
            lemma_sweep_keeps_positive(o, s.asks);
            if r.2 > 0 {
                lemma_rest_in_keeps_positive(Side::Buy, s.bids, with_qty(o, r.2));
            }
        },
        Side::Sell => {
            let r = sweep_orders(o, s.bids);
            lemma_sweep_keeps_positive(o, s.bids);
            if r.2 > 0 {
                lemma_rest_in_keeps_positive(Side::Sell, s.asks, with_qty(o, r.2));
            }
        },
    }
}

/// Matching is deterministic and can be replayed: after a history of orders, the state is the
/// replay of those orders from the first state, and each answer is what submitting that order
/// to the replay of the orders before it gives.
pub proof fn law_history_replays(
    states: Seq<TradingState>,
    orders: Seq<LimitOrder>,
    answers: Seq<Result<(Seq<Trade>, Option<LimitOrder>), DomainError>>,
)
    requires
        history(states, orders, answers),
    ensures
        forall|i: int| 0 <= i <= orders.len() ==> #[trigger] states[i] == replay(states[0], orders.take(i)),
        forall|i: int|
            0 <= i < orders.len() ==> #[trigger] answers[i] == submit_outcome(
                replay(states[0], orders.take(i)),
                orders[i],
            ).1,
    decreases orders.len(),
{
    let n = orders.len();
    if n > 0 {
        let k = n - 1;
        let st = states.take(n as int);
        let os = orders.take(k);
        let an = answers.take(k);
        assert forall|i: int| #![trigger os[i]] 0 <= i < os.len() implies (st[i + 1], an[i])
            == submit_outcome(st[i], os[i]) by {
            assert(orders[i] == os[i]);
        }
        law_history_replays(st, os, an);
        assert forall|i: int| 0 <= i <= n implies #[trigger] states[i] == replay(
            states[0],
            orders.take(i),
        ) by {
            if i < n {
                assert(st[i] == states[i]);
                assert(os.take(i) =~= orders.take(i));
            } else {
                assert(st[k] == states[k]);
                assert(os.take(k) =~= orders.take(k));
                assert(orders.take(n as int).drop_last() =~= orders.take(k));
                assert(orders.take(n as int).last() == orders[k]);
                assert(orders[k] == orders[k]);
            }
        }
        assert forall|i: int| 0 <= i < n implies #[trigger] answers[i] == submit_outcome(
            replay(states[0], orders.take(i)),
            orders[i],
        ).1 by {
            assert(orders[i] == orders[i]);
        }
    }
}

/// Two engines that start from the same state and are handed the same orders go through the
/// same states and give the same answers.
pub proof fn law_equal_histories_agree(
    states1: Seq<TradingState>,
    answers1: Seq<Result<(Seq<Trade>, Option<LimitOrder>), DomainError>>,
    states2: Seq<TradingState>,
    answers2: Seq<Result<(Seq<Trade>, Option<LimitOrder>), DomainError>>,
    orders: Seq<LimitOrder>,
)
    requires
        history(states1, orders, answers1),
        history(states2, orders, answers2),
        states1[0] == states2[0],
    ensures
        states1 == states2,
        answers1 == answers2,
{
    law_history_replays(states1, orders, answers1);
    law_history_replays(states2, orders, answers2);
    assert forall|i: int| 0 <= i < states1.len() implies states1[i] == states2[i] by {
        assert(states1[i] == replay(states1[0], orders.take(i)));
        assert(states2[i] == replay(states2[0], orders.take(i)));
    }
    assert forall|i: int| 0 <= i < answers1.len() implies answers1[i] == answers2[i] by {
        assert(answers1[i] == submit_outcome(replay(states1[0], orders.take(i)), orders[i]).1);
        assert(answers2[i] == submit_outcome(replay(states2[0], orders.take(i)), orders[i]).1);
    }
    assert(states1 =~= states2);
    assert(answers1 =~= answers2);
}

/// The queue of a side after a sweep that made `trades` against the queue `q`: the makers used
/// up are gone from its head, and a maker only partly filled stays first, with its quantity
/// reduced by exactly the trade.
pub open spec fn queue_after_trades(q: Seq<LimitOrder>, trades: Seq<Trade>) -> Seq<LimitOrder> {
    let n = trades.len() as int;
    if n == 0 {
        q
    } else if trades[n - 1].qty == q[n - 1].qty {
        q.skip(n)
    } else {
        q.skip(n - 1).update(0, with_qty(q[n - 1], (q[n - 1].qty - trades[n - 1].qty) as u64))
    }
}

/// A sweep takes from the queue it matches against in order, and quantity is conserved: every
/// maker before the last one it trades with is used up by its trade, the last one gives at
/// most what it had, and the queue afterwards is the old queue without the makers used up, the
/// last maker, if only partly filled, staying first with its quantity reduced by the trade.
pub proof fn law_sweep_consumes_queue_in_order(taker: LimitOrder, levels: Seq<OrderLevel>)
    ensures
        ({
            let r = sweep_orders(taker, levels);
            let q = order_queue(levels);
            let trades = r.1;
            &&& trades.len() <= q.len()
            &&& forall|i: int| 0 <= i < trades.len() - 1 ==> (#[trigger] trades[i]).qty == q[i].qty
            &&& trades.len() > 0 ==> trades[trades.len() - 1].qty <= q[trades.len() - 1].qty
            &&& order_queue(r.0) == queue_after_trades(q, trades)
        }),
    decreases levels.len(), front_size(levels), taker.qty,
{
    let r = sweep_orders(taker, levels);
    let q = order_queue(levels);
    if taker.qty > 0 {
        match fill_once(taker, levels) {
            None => {},
            Some(step) => {
                let next_taker = with_qty(taker, (taker.qty - step.2) as u64);
                lemma_fill_once_pops_queue(taker, levels);
                law_sweep_consumes_queue_in_order(next_taker, step.0);
                let next = sweep_orders(next_taker, step.0);
                let trades = r.1;
                assert(trades == seq![step.1] + next.1);
                let maker = levels[0].orders[0];
                assert(q[0] == maker);
                if step.2 == maker.qty {
                    let q1 = order_queue(step.0);
                    assert(q1 =~= q.drop_first());
                    assert forall|i: int| 0 <= i < trades.len() - 1 implies (#[trigger] trades[i]).qty
                        == q[i].qty by {
                        if i > 0 {
                            assert(trades[i] == next.1[i - 1]);
                            assert(q[i] == q1[i - 1]);
                        }
                    }
                    if next.1.len() == 0 {
                        assert(q1 =~= q.skip(1));
                    } else {
                        let m = next.1.len() as int;
                        assert(trades[m] == next.1[m - 1]);
                        assert(q[m] == q1[m - 1]);
                        assert(q1.skip(m) =~= q.skip(m + 1));
                        assert(q1.skip(m - 1) =~= q.skip(m));
                    }
                } else {
                    assert(next_taker.qty == 0);
                    assert(next.1 =~= Seq::<Trade>::empty());
                    let o = levels[0].orders;
                    let orders = o.update(0, with_qty(maker, (maker.qty - step.2) as u64));
                    assert(step.0 =~= levels.update(0, OrderLevel { price: levels[0].price, orders }));
                    assert(step.0.drop_first() =~= levels.drop_first());
                    assert(order_queue(step.0) == orders + order_queue(step.0.drop_first()));
                    assert(q == o + order_queue(levels.drop_first()));
                    assert(q.skip(0) =~= q);
                    assert(order_queue(step.0) =~= q.update(
                        0,
                        with_qty(maker, (maker.qty - step.2) as u64),
                    ));
                }
            },
        }
    }
}

/// The total quantity of some trades.
pub open spec fn traded_sum(trades: Seq<Trade>) -> nat
    decreases trades.len(),
{
    if trades.len() == 0 {
        0
    } else {
        trades[0].qty as nat + traded_sum(trades.drop_first())
    }
}

/// The levels of `side` in a state.
pub open spec fn levels_on(s: TradingState, side: Side) -> Seq<OrderLevel> {
    match side {
        Side::Buy => s.bids,
        Side::Sell => s.asks,
    }
}

/// A sweep trades what the taker gives up: what it has left and what it traded add up to
/// what it came with.
pub proof fn lemma_sweep_conserves_taker(taker: LimitOrder, levels: Seq<OrderLevel>)
    ensures
        sweep_orders(taker, levels).2 + traded_sum(sweep_orders(taker, levels).1) == taker.qty,
    decreases levels.len(), front_size(levels), taker.qty,
{
    if taker.qty > 0 {
        match fill_once(taker, levels) {
            None => {},
            Some(step) => {
                let t2 = with_qty(taker, (taker.qty - step.2) as u64);
                lemma_sweep_conserves_taker(t2, step.0);
                let next = sweep_orders(t2, step.0);
                let trades = seq![step.1] + next.1;
                assert(trades.drop_first() =~= next.1);
                assert(trades[0] == step.1);
            },
        }
    }
}

/// Adding `x` at the back of one level adds `x` to the orders of the side.
proof fn lemma_queue_push_at(levels: Seq<OrderLevel>, k: int, lv: OrderLevel, x: LimitOrder)
    requires
        0 <= k < levels.len(),
        lv.orders == levels[k].orders.push(x),
    ensures
        order_queue(levels.update(k, lv)).to_multiset() == order_queue(levels).to_multiset().insert(
            x,
        ),
    decreases k,
{
    broadcast use vstd::seq_lib::group_to_multiset_ensures;
    broadcast use vstd::seq_lib::lemma_multiset_commutative;

    let u = levels.update(k, lv);
    let rest = levels.drop_first();
    assert(order_queue(levels) == levels[0].orders + order_queue(rest));
    assert(order_queue(u) == u[0].orders + order_queue(u.drop_first()));
    if k == 0 {
        assert(u.drop_first() =~= rest);
        assert(lv.orders.to_multiset() =~= levels[0].orders.to_multiset().insert(x));
    } else {
        assert(u.drop_first() =~= rest.update(k - 1, lv));
        lemma_queue_push_at(rest, k - 1, lv, x);
    }
    assert(order_queue(u).to_multiset() =~= order_queue(levels).to_multiset().insert(x));
}

/// Adding a level that holds only `x` adds `x` to the orders of the side.
proof fn lemma_queue_insert_at(levels: Seq<OrderLevel>, k: int, lv: OrderLevel, x: LimitOrder)
    requires
        0 <= k <= levels.len(),
        lv.orders == seq![x],
    ensures
        order_queue(levels.insert(k, lv)).to_multiset() == order_queue(levels).to_multiset().insert(
            x,
        ),
    decreases k,
{
    broadcast use vstd::seq_lib::group_to_multiset_ensures;
    broadcast use vstd::seq_lib::lemma_multiset_commutative;

    let u = levels.insert(k, lv);
    assert(order_queue(u) == u[0].orders + order_queue(u.drop_first()));
    if k == 0 {
        assert(u.drop_first() =~= levels);
        assert(seq![x] =~= Seq::<LimitOrder>::empty().push(x));
        assert(lv.orders.to_multiset() =~= vstd::multiset::Multiset::<LimitOrder>::empty().insert(x));
    } else {
        let rest = levels.drop_first();
        assert(order_queue(levels) == levels[0].orders + order_queue(rest));
        assert(u.drop_first() =~= rest.insert(k - 1, lv));
        lemma_queue_insert_at(rest, k - 1, lv, x);
    }
    assert(order_queue(u).to_multiset() =~= order_queue(levels).to_multiset().insert(x));
}

/// Resting `x` adds exactly `x` to the orders of its side.
pub proof fn lemma_rest_in_adds_order(side: Side, levels: Seq<OrderLevel>, x: LimitOrder)
    ensures
        order_queue(rest_in(side, levels, x)).to_multiset() == order_queue(levels).to_multiset().insert(
            x,
        ),
{
    let k = rank_of(side, levels, x.price) as int;
    lemma_rank_bounds(side, levels, x.price);
    if k < levels.len() && levels[k].price == x.price {
        lemma_queue_push_at(
            levels,
            k,
            OrderLevel { price: x.price, orders: levels[k].orders.push(x) },
            x,
        );
    } else {
        lemma_queue_insert_at(levels, k, OrderLevel { price: x.price, orders: seq![x] }, x);
    }
}

/// What rests of a submitted order is exactly the reported remainder: the order with its
/// quantity reduced by what it traded, added to the orders of its side, which otherwise keeps
/// the orders it had; an order that rests nothing traded all it asked for and leaves its side
/// as it was.
pub proof fn law_submit_rests_the_remainder(s: TradingState, o: LimitOrder)
    requires
        order_problem(s.market, o) is None,
    ensures
        ({
            let a = after_submit(s, o);
            let before = levels_on(s, o.side);
            let after = levels_on(a.0, o.side);
            &&& a.2 matches Some(rem) ==> {
                &&& rem == with_qty(o, rem.qty)
                &&& rem.qty > 0
                &&& rem.qty + traded_sum(a.1) == o.qty
                &&& order_queue(after).to_multiset() == order_queue(before).to_multiset().insert(rem)
            }
            &&& a.2 is None ==> traded_sum(a.1) == o.qty && after == before
        }),
{
    let a = after_submit(s, o);
    match o.side {
        Side::Buy => {
            lemma_sweep_conserves_taker(o, s.asks);
            let r = sweep_orders(o, s.asks);
            if r.2 > 0 {
                lemma_rest_in_adds_order(Side::Buy, s.bids, with_qty(o, r.2));
            }
        },
        Side::Sell => {
            lemma_sweep_conserves_taker(o, s.bids);
            let r = sweep_orders(o, s.bids);
            if r.2 > 0 {
                lemma_rest_in_adds_order(Side::Sell, s.asks, with_qty(o, r.2));
            }
        },
    }
}

} // verus!
