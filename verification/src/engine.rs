use crate::book_model::{
    book_wf, depth_fits, empty_book, lemma_fill_traded, lemma_traded_notional_prefix,
    lemma_traded_qty_prefix, match_book, mid_fits, opposite, rest_order, side_levels, sweep_fits,
    traded_notional, traded_qty, BookState,
};
use crate::clock::now_millis;
use crate::errors::{EngineError, EngineResult};
use crate::order_book::{estimated, snapshot_matches, OrderBook};
use crate::types::{
    BookOrder, ExecutionEstimate, ExecutionReport, ExecutionStatus, MarketId, OrderBookSnapshot,
    OrderId, OrderRequest, OrderType, Price, Quantity, Side, TimeInForce, Timestamp, Trade,
};
use vstd::prelude::*;

verus! {

broadcast use crate::types::group_value_views;

/// The key of a market in the engine's map: its base and quote names.
pub type MarketKey = (Seq<char>, Seq<char>);

/// The engine as the contracts see it: one book per market, and the id the next order gets.
pub struct EngineState {
    pub markets: Map<MarketKey, BookState>,
    pub next_order_id: OrderId,
}

/// Every book of the engine is well formed.
pub open spec fn engine_wf(s: EngineState) -> bool {
    forall|k: MarketKey| #[trigger] s.markets.contains_key(k) ==> book_wf(s.markets[k])
}

/// The markets after `key` was opened: a new, empty book unless it is open already.
pub open spec fn with_market(markets: Map<MarketKey, BookState>, key: MarketKey) -> Map<
    MarketKey,
    BookState,
> {
    if markets.contains_key(key) {
        markets
    } else {
        markets.insert(key, empty_book())
    }
}

/// Why a request is refused before any market is looked at, if it is.
pub open spec fn order_error(r: OrderRequest) -> Option<EngineError> {
    if r.qty@ == 0 {
        Some(EngineError::InvalidQuantity)
    } else {
        match r.order_type {
            OrderType::Limit => if r.price is None {
                Some(EngineError::InvalidPriceForLimit)
            } else {
                None
            },
            OrderType::Market => if r.price is Some {
                Some(EngineError::PriceNotAllowedForMarket)
            } else if r.time_in_force matches Some(t) && t != TimeInForce::Ioc {
                Some(EngineError::PriceNotAllowedForMarket)
            } else {
                None
            },
        }
    }
}

/// The price a request may trade at: its own for a limit order, any for a market order.
pub open spec fn limit_of(r: OrderRequest) -> Option<Price> {
    match r.order_type {
        OrderType::Limit => r.price,
        OrderType::Market => None,
    }
}

/// The id after `id`; it stays at the maximum once reached.
pub open spec fn next_id(id: OrderId) -> OrderId {
    if id < u64::MAX {
        (id + 1) as u64
    } else {
        id
    }
}

/// The status of a request of which `filled` was filled.
pub open spec fn status_of(r: OrderRequest, filled: nat) -> ExecutionStatus {
    if filled == r.qty@ {
        ExecutionStatus::Filled
    } else if filled > 0 {
        ExecutionStatus::PartiallyFilled
    } else if r.order_type == OrderType::Limit {
        ExecutionStatus::Open
    } else {
        ExecutionStatus::Rejected
    }
}

/// The book after request `r`, with id `id` at time `ts`, has matched and, if it is a limit
/// order, rested what is left of it; and the trades it made.
pub open spec fn book_after_order(b: BookState, r: OrderRequest, id: OrderId, ts: Timestamp) -> (
    BookState,
    Seq<Trade>,
) {
    let m = match_book(b, r.side, r.qty@ as nat, limit_of(r), id, ts);
    let remaining = r.qty@ - traded_qty(m.1);
    if r.order_type == OrderType::Limit && remaining > 0 {
        (
            rest_order(
                m.0,
                BookOrder {
                    id,
                    user_id: r.user_id,
                    side: r.side,
                    price: r.price.unwrap(),
                    qty: Quantity::spec_from(remaining as u64),
                    ts,
                },
            ),
            m.1,
        )
    } else {
        m
    }
}

/// The report of request `r` that made `trades` and left its book as `after`.
pub open spec fn report_matches(
    rep: ExecutionReport,
    r: OrderRequest,
    trades: Seq<Trade>,
    after: BookState,
) -> bool {
    &&& rep.accepted
    &&& rep.trades@ == trades
    &&& rep.filled_qty@ == traded_qty(trades)
    &&& rep.remaining_qty@ == r.qty@ - traded_qty(trades)
    &&& rep.status == status_of(r, traded_qty(trades))
    &&& rep.last_price_after == after.last_price
}

/// The engine went from `pre` to `post` and answered `res` when it took request `r` at time
/// `ts`.
pub open spec fn submitted(
    pre: EngineState,
    post: EngineState,
    r: OrderRequest,
    ts: Timestamp,
    res: EngineResult<ExecutionReport>,
) -> bool {
    match order_error(r) {
        Some(e) => res == Err::<ExecutionReport, EngineError>(e) && post == pre,
        None => {
            let id = pre.next_order_id;
            &&& post.next_order_id == next_id(id)
            &&& if pre.markets.contains_key(r.market@) {
                let after = book_after_order(pre.markets[r.market@], r, id, ts);
                &&& post.markets == pre.markets.insert(r.market@, after.0)
                &&& res matches Ok(rep) && report_matches(rep, r, after.1, after.0)
            } else {
                &&& res == Err::<ExecutionReport, EngineError>(EngineError::UnknownMarket)
                &&& post.markets == pre.markets
            }
        },
    }
}

/// The volume-weighted average price of some trades, rounded down: none for no trades or no
/// quantity, an overflow when the notional exceeds `u128`.
pub open spec fn vwap_of(trades: Seq<Trade>) -> EngineResult<Option<Price>> {
    if trades.len() == 0 {
        Ok(None)
    } else if traded_notional(trades) > u128::MAX {
        Err(EngineError::ArithmeticOverflow)
    } else if traded_qty(trades) == 0 {
        Ok(None)
    } else {
        Ok(
            Some(
                Price::spec_from(
                    #[verifier::truncate] ((traded_notional(trades) / traded_qty(trades)) as u64),
                ),
            ),
        )
    }
}

#[derive(Debug)]
struct MarketEntry {
    market: MarketId,
    book: OrderBook,
}

spec fn markets_map(entries: Seq<MarketEntry>) -> Map<MarketKey, BookState>
    decreases entries.len(),
{
    if entries.len() == 0 {
        Map::empty()
    } else {
        markets_map(entries.drop_last()).insert(entries.last().market@, entries.last().book@)
    }
}

spec fn distinct_markets(entries: Seq<MarketEntry>) -> bool {
    forall|i: int, j: int|
        0 <= i < j < entries.len() ==> (#[trigger] entries[i]).market@ != (#[trigger] entries[j]).market@
}

proof fn lemma_markets_map(entries: Seq<MarketEntry>)
    requires
        distinct_markets(entries),
    ensures
        forall|i: int|
            0 <= i < entries.len() ==> markets_map(entries).contains_key(
                (#[trigger] entries[i]).market@,
            ) && markets_map(entries)[entries[i].market@] == entries[i].book@,
        forall|k: MarketKey|
            #[trigger] markets_map(entries).contains_key(k) ==> exists|i: int|
                0 <= i < entries.len() && (#[trigger] entries[i]).market@ == k,
    decreases entries.len(),
{
    if entries.len() > 0 {
        let prefix = entries.drop_last();
        lemma_markets_map(prefix);
        assert forall|i: int| 0 <= i < entries.len() implies markets_map(entries).contains_key(
            (#[trigger] entries[i]).market@,
        ) && markets_map(entries)[entries[i].market@] == entries[i].book@ by {
            if i < entries.len() - 1 {
                assert(prefix[i] == entries[i]);
            }
        }
        assert forall|k: MarketKey| #[trigger]
            markets_map(entries).contains_key(k) implies exists|i: int|
            0 <= i < entries.len() && (#[trigger] entries[i]).market@ == k by {
            if k != entries.last().market@ {
                assert(markets_map(prefix).contains_key(k));
                let i = choose|i: int| 0 <= i < prefix.len() && (#[trigger] prefix[i]).market@ == k;
                assert(entries[i] == prefix[i]);
                assert(entries[i].market@ == k);
            } else {
                assert(entries[entries.len() - 1].market@ == k);
            }
        }
    }
}

proof fn lemma_markets_map_update(entries: Seq<MarketEntry>, i: int, e: MarketEntry)
    requires
        distinct_markets(entries),
        0 <= i < entries.len(),
        e.market@ == entries[i].market@,
    ensures
        markets_map(entries.update(i, e)) == markets_map(entries).insert(e.market@, e.book@),
        distinct_markets(entries.update(i, e)),
    decreases entries.len(),
{
    let u = entries.update(i, e);
    assert(distinct_markets(u)) by {
        assert forall|a: int, b: int| 0 <= a < b < u.len() implies (#[trigger] u[a]).market@
            != (#[trigger] u[b]).market@ by {
            assert(entries[a].market@ != entries[b].market@);
        }
    }
    let prefix = entries.drop_last();
    if i == entries.len() - 1 {
        assert(u.drop_last() =~= prefix);
        assert(markets_map(u) =~= markets_map(entries).insert(e.market@, e.book@));
    } else {
        assert(u.drop_last() =~= prefix.update(i, e));
        lemma_markets_map_update(prefix, i, e);
        assert(entries.last().market@ != entries[i].market@);
        assert(markets_map(u) =~= markets_map(entries).insert(e.market@, e.book@));
    }
}

/// Matching engine for many markets: each market has its own order book, and order ids are
/// shared by all of them.
#[derive(Debug)]
pub struct MatchingEngine {
    markets: Vec<MarketEntry>,
    next_order_id: OrderId,
}

impl View for MatchingEngine {
    type V = EngineState;

    closed spec fn view(&self) -> EngineState {
        EngineState { markets: markets_map(self.markets@), next_order_id: self.next_order_id }
    }
}

impl Default for MatchingEngine {
    /// No markets, and ids that start at zero.
    fn default() -> (e: Self)
        ensures
            e@ == (EngineState { markets: Map::empty(), next_order_id: 0 }),
            e.wf(),
    {
        let e = MatchingEngine { markets: Vec::new(), next_order_id: 0 };
        assert(e@.markets =~= Map::<MarketKey, BookState>::empty());
        e
    }
}

impl MatchingEngine {
    /// The markets are distinct and every book is well formed.
    pub closed spec fn wf(&self) -> bool {
        &&& distinct_markets(self.markets@)
        &&& forall|i: int| 0 <= i < self.markets@.len() ==> book_wf(#[trigger] self.markets@[i].book@)
    }

    /// A well-formed engine has well-formed books only.
    pub proof fn lemma_wf_books(&self)
        requires
            self.wf(),
        ensures
            engine_wf(self@),
    {
        lemma_markets_map(self.markets@);
        assert forall|k: MarketKey| #[trigger] self@.markets.contains_key(k) implies book_wf(
            self@.markets[k],
        ) by {
            let i = choose|i: int|
                0 <= i < self.markets@.len() && (#[trigger] self.markets@[i]).market@ == k;
            assert(book_wf(self.markets@[i].book@));
        }
    }

    /// No markets, and ids that start at one.
    pub fn new() -> (e: Self)
        ensures
            e@ == (EngineState { markets: Map::empty(), next_order_id: 1 }),
            e.wf(),
    {
        let e = MatchingEngine { markets: Vec::new(), next_order_id: 1 };
        assert(e@.markets =~= Map::<MarketKey, BookState>::empty());
        e
    }

    /// The index of `market` among the entries, if it is there.
    fn find_market(&self, market: &MarketId) -> (r: Option<usize>)
        requires
            self.wf(),
        ensures
            match r {
                Some(i) => i < self.markets@.len() && self@.markets.contains_key(market@)
                    && self@.markets[market@] == self.markets@[i as int].book@
                    && self.markets@[i as int].market@ == market@,
                None => !self@.markets.contains_key(market@),
            },
    {
        proof {
            lemma_markets_map(self.markets@);
        }
        let mut i: usize = 0;
        while i < self.markets.len()
            invariant
                self.wf(),
                i <= self.markets@.len(),
                forall|j: int| 0 <= j < i ==> (#[trigger] self.markets@[j]).market@ != market@,
            decreases self.markets@.len() - i,
        {
            if self.markets[i].market.same_as(market) {
                proof {
                    lemma_markets_map(self.markets@);
                }
                return Some(i);
            }
            i = i + 1;
        }
        None
    }

    /// Opens the market `base`/`quote` with an empty book, unless it is open already; returns
    /// its id.
    pub fn create_market(&mut self, base: &str, quote: &str) -> (m: MarketId)
        requires
            old(self).wf(),
        ensures
            final(self).wf(),
            m@ == (base@, quote@),
            final(self)@.next_order_id == old(self)@.next_order_id,
            final(self)@.markets == with_market(old(self)@.markets, m@),
    {
        let market = MarketId::new(base, quote);
        match self.find_market(&market) {
            Some(_) => {},
            None => {
                let entry = MarketEntry { market: MarketId::new(base, quote), book: OrderBook::new() };
                let ghost old_entries = self.markets@;
                self.markets.push(entry);
                proof {
                    lemma_markets_map(old_entries);
                    assert(self.markets@.drop_last() =~= old_entries);
                    assert(distinct_markets(self.markets@)) by {
                        assert forall|a: int, b: int|
                            0 <= a < b < self.markets@.len() implies (#[trigger] self.markets@[a]).market@
                            != (#[trigger] self.markets@[b]).market@ by {
                            if b < old_entries.len() {
                                assert(old_entries[a].market@ != old_entries[b].market@);
                            } else {
                                assert(old_entries[a] == self.markets@[a]);
                            }
                        }
                    }
                    assert forall|i: int| 0 <= i < self.markets@.len() implies book_wf(
                        #[trigger] self.markets@[i].book@,
                    ) by {
                        if i < old_entries.len() {
                            assert(old_entries[i] == self.markets@[i]);
                        }
                    }
                }
            },
        }
        market
    }

    /// Refuses a request whose quantity is zero, a limit order without a price, and a market
    /// order with a price or with a time in force other than immediate-or-cancel.
    fn validate_order(&self, request: &OrderRequest) -> (r: EngineResult<()>)
        ensures
            r == match order_error(*request) {
                Some(e) => Err::<(), EngineError>(e),
                None => Ok(()),
            },
    {
        if request.qty.as_u64() == 0 {
            return Err(EngineError::InvalidQuantity);
        }
        match request.order_type {
            OrderType::Limit => {
                if request.price.is_none() {
                    return Err(EngineError::InvalidPriceForLimit);
                }
            },
            OrderType::Market => {
                if request.price.is_some() {
                    return Err(EngineError::PriceNotAllowedForMarket);
                }
                match request.time_in_force {
                    Some(TimeInForce::Gtc) => {
                        return Err(EngineError::PriceNotAllowedForMarket);
                    },
                    _ => {},
                }
            },
        }
        Ok(())
    }

    /// Hands out the next order id.
    fn allocate_order_id(&mut self) -> (id: OrderId)
        ensures
            id == old(self)@.next_order_id,
            final(self)@.next_order_id == next_id(id),
            final(self).markets == old(self).markets,
    {
        let id = self.next_order_id;
        self.next_order_id = self.next_order_id.saturating_add(1);
        id
    }

    /// Takes request `r` as of time `ts`: validates it, gives it the next id, matches it
    /// against its market's book in price-time priority and, for a limit order, rests what
    /// is left of it.
    pub fn submit_order_at(&mut self, request: OrderRequest, ts: Timestamp) -> (r: EngineResult<
        ExecutionReport,
    >)
        requires
            old(self).wf(),
        ensures
            final(self).wf(),
            submitted(old(self)@, final(self)@, request, ts, r),
    {
        match self.validate_order(&request) {
            Err(e) => {
                return Err(e);
            },
            Ok(()) => {},
        }
        let order_id = self.allocate_order_id();
        let idx = match self.find_market(&request.market) {
            Some(i) => i,
            None => {
                return Err(EngineError::UnknownMarket);
            },
        };
        let ghost entries = self.markets@;
        let mut entry = self.markets.remove(idx);
        proof {
            assert(entry == entries[idx as int]);
            assert(book_wf(entry.book@));
        }
        let is_limit = match request.order_type {
            OrderType::Limit => true,
            OrderType::Market => false,
        };
        let limit_price = if is_limit {
            request.price
        } else {
            None
        };
        let requested_qty = request.qty.as_u64();
        let ghost before = entry.book@;
        let trades = entry.book.match_order(order_id, request.side, requested_qty, limit_price, ts);
        proof {
            lemma_fill_traded(
                request.side,
                side_levels(before, opposite(request.side)),
                requested_qty as nat,
                limit_price,
                order_id,
                ts,
            );
        }
        let filled_qty = total_traded(&trades);
        let remaining_qty = requested_qty - filled_qty;
        if is_limit && remaining_qty > 0 {
            let price = request.price.unwrap();
            let resting = BookOrder {
                id: order_id,
                user_id: request.user_id,
                side: request.side,
                price,
                qty: Quantity::from_raw(remaining_qty),
                ts,
            };
            entry.book.add_resting_order(resting);
        }
        let status = if filled_qty == requested_qty {
            ExecutionStatus::Filled
        } else if filled_qty > 0 {
            ExecutionStatus::PartiallyFilled
        } else if is_limit {
            ExecutionStatus::Open
        } else {
            ExecutionStatus::Rejected
        };
        let last_price_after = entry.book.last_price();
        let ghost new_entry = entry;
        self.markets.insert(idx, entry);
        proof {
            assert(self.markets@ =~= entries.update(idx as int, new_entry));
            lemma_markets_map_update(entries, idx as int, new_entry);
            assert forall|i: int| 0 <= i < self.markets@.len() implies book_wf(
                #[trigger] self.markets@[i].book@,
            ) by {
                if i != idx {
                    assert(self.markets@[i] == entries[i]);
                }
            }
        }
        Ok(
            ExecutionReport {
                accepted: true,
                trades,
                filled_qty: Quantity::from_raw(filled_qty),
                remaining_qty: Quantity::from_raw(remaining_qty),
                status,
                last_price_after,
            },
        )
    }

    /// Takes request `r` as of the current time (see `submit_order_at`).
    pub fn submit_order(&mut self, request: OrderRequest) -> (r: EngineResult<ExecutionReport>)
        requires
            old(self).wf(),
        ensures
            final(self).wf(),
            exists|ts: Timestamp| submitted(old(self)@, final(self)@, request, ts, r),
    {
        let ts = now_millis();
        self.submit_order_at(request, ts)
    }

    /// The snapshot of `market` to `depth` levels a side.
    pub fn order_book_snapshot(&self, market: &MarketId, depth: usize) -> (r: EngineResult<
        OrderBookSnapshot,
    >)
        requires
            self.wf(),
            self@.markets.contains_key(market@) ==> {
                let b = self@.markets[market@];
                depth_fits(b.bids, depth as nat) && depth_fits(b.asks, depth as nat) && mid_fits(b)
            },
        ensures
            !self@.markets.contains_key(market@) ==> r == Err::<OrderBookSnapshot, EngineError>(
                EngineError::UnknownMarket,
            ),
            self@.markets.contains_key(market@) ==> (r matches Ok(snap) && snapshot_matches(
                snap,
                self@.markets[market@],
                depth as nat,
            )),
    {
        match self.find_market(market) {
            Some(i) => Ok(self.markets[i].book.snapshot(depth)),
            None => Err(EngineError::UnknownMarket),
        }
    }

    /// The snapshot of `market` to `depth` levels a side, or `None` where a level total or
    /// the sum of the best prices would overflow a `u64`.
    pub fn try_order_book_snapshot(&self, market: &MarketId, depth: usize) -> (r: Option<
        EngineResult<OrderBookSnapshot>,
    >)
        requires
            self.wf(),
        ensures
            !self@.markets.contains_key(market@) ==> r == Some(
                Err::<OrderBookSnapshot, EngineError>(EngineError::UnknownMarket),
            ),
            self@.markets.contains_key(market@) ==> {
                let b = self@.markets[market@];
                let fits = depth_fits(b.bids, depth as nat) && depth_fits(b.asks, depth as nat)
                    && mid_fits(b);
                &&& fits ==> (r matches Some(Ok(snap)) && snapshot_matches(snap, b, depth as nat))
                &&& !fits ==> r is None
            },
    {
        match self.find_market(market) {
            Some(i) => {
                if self.markets[i].book.snapshot_fits(depth) {
                    Some(Ok(self.markets[i].book.snapshot(depth)))
                } else {
                    None
                }
            },
            None => Some(Err(EngineError::UnknownMarket)),
        }
    }

    /// The price of the last trade in `market`, if any.
    pub fn last_price(&self, market: &MarketId) -> (r: EngineResult<Option<Price>>)
        requires
            self.wf(),
        ensures
            r == if self@.markets.contains_key(market@) {
                Ok::<Option<Price>, EngineError>(self@.markets[market@].last_price)
            } else {
                Err::<Option<Price>, EngineError>(EngineError::UnknownMarket)
            },
    {
        match self.find_market(market) {
            Some(i) => Ok(self.markets[i].book.last_price()),
            None => Err(EngineError::UnknownMarket),
        }
    }

    /// What a market buy of `qty` in `market` would fill against its asks.
    pub fn estimate_market_buy(&self, market: &MarketId, qty: Quantity) -> (r: EngineResult<
        ExecutionEstimate,
    >)
        requires
            self.wf(),
            self@.markets.contains_key(market@) ==> sweep_fits(
                self@.markets[market@].asks,
                qty@ as nat,
            ),
        ensures
            !self@.markets.contains_key(market@) ==> r == Err::<ExecutionEstimate, EngineError>(
                EngineError::UnknownMarket,
            ),
            self@.markets.contains_key(market@) ==> estimated(
                self@.markets[market@],
                Side::Bid,
                qty,
                r,
            ),
    {
        match self.find_market(market) {
            Some(i) => self.markets[i].book.estimate_market(Side::Bid, qty),
            None => Err(EngineError::UnknownMarket),
        }
    }

    /// What a market sell of `qty` in `market` would fill against its bids.
    pub fn estimate_market_sell(&self, market: &MarketId, qty: Quantity) -> (r: EngineResult<
        ExecutionEstimate,
    >)
        requires
            self.wf(),
            self@.markets.contains_key(market@) ==> sweep_fits(
                self@.markets[market@].bids,
                qty@ as nat,
            ),
        ensures
            !self@.markets.contains_key(market@) ==> r == Err::<ExecutionEstimate, EngineError>(
                EngineError::UnknownMarket,
            ),
            self@.markets.contains_key(market@) ==> estimated(
                self@.markets[market@],
                Side::Ask,
                qty,
                r,
            ),
    {
        match self.find_market(market) {
            Some(i) => self.markets[i].book.estimate_market(Side::Ask, qty),
            None => Err(EngineError::UnknownMarket),
        }
    }

    /// What a market buy of `qty` in `market` would fill against its asks, or `None` where a
    /// level total that the walk reaches would overflow a `u64`.
    pub fn try_estimate_market_buy(&self, market: &MarketId, qty: Quantity) -> (r: Option<
        EngineResult<ExecutionEstimate>,
    >)
        requires
            self.wf(),
        ensures
            !self@.markets.contains_key(market@) ==> r == Some(
                Err::<ExecutionEstimate, EngineError>(EngineError::UnknownMarket),
            ),
            self@.markets.contains_key(market@) ==> {
                let b = self@.markets[market@];
                &&& sweep_fits(b.asks, qty@ as nat) ==> (r matches Some(e) && estimated(
                    b,
                    Side::Bid,
                    qty,
                    e,
                ))
                &&& !sweep_fits(b.asks, qty@ as nat) ==> r is None
            },
    {
        match self.find_market(market) {
            Some(i) => {
                if self.markets[i].book.estimate_fits(Side::Bid, qty) {
                    Some(self.markets[i].book.estimate_market(Side::Bid, qty))
                } else {
                    None
                }
            },
            None => Some(Err(EngineError::UnknownMarket)),
        }
    }

    /// What a market sell of `qty` in `market` would fill against its bids, or `None` where a
    /// level total that the walk reaches would overflow a `u64`.
    pub fn try_estimate_market_sell(&self, market: &MarketId, qty: Quantity) -> (r: Option<
        EngineResult<ExecutionEstimate>,
    >)
        requires
            self.wf(),
        ensures
            !self@.markets.contains_key(market@) ==> r == Some(
                Err::<ExecutionEstimate, EngineError>(EngineError::UnknownMarket),
            ),
            self@.markets.contains_key(market@) ==> {
                let b = self@.markets[market@];
                &&& sweep_fits(b.bids, qty@ as nat) ==> (r matches Some(e) && estimated(
                    b,
                    Side::Ask,
                    qty,
                    e,
                ))
                &&& !sweep_fits(b.bids, qty@ as nat) ==> r is None
            },
    {
        match self.find_market(market) {
            Some(i) => {
                if self.markets[i].book.estimate_fits(Side::Ask, qty) {
                    Some(self.markets[i].book.estimate_market(Side::Ask, qty))
                } else {
                    None
                }
            },
            None => Some(Err(EngineError::UnknownMarket)),
        }
    }

    /// The volume-weighted average price of `trades`, rounded down.
    pub fn vwap(trades: &[Trade]) -> (r: EngineResult<Option<Price>>)
        ensures
            r == vwap_of(trades@),
    {
        if trades.len() == 0 {
            return Ok(None);
        }
        let mut notional: u128 = 0;
        let mut qty_total: u128 = 0;
        let mut i: usize = 0;
        assert(trades@.take(0) =~= Seq::<Trade>::empty());
        while i < trades.len()
            invariant
                i <= trades@.len(),
                notional == traded_notional(trades@.take(i as int)),
                qty_total == traded_qty(trades@.take(i as int)),
                qty_total <= i * 18446744073709551615,
            decreases trades@.len() - i,
        {
            let t = trades[i];
            let ghost step = trades@.take(i + 1);
            proof {
                assert(step.drop_last() =~= trades@.take(i as int));
                assert(step.last() == t);
                lemma_traded_notional_prefix(trades@, i + 1);
            }
            let price = t.price.as_u64();
            let qty = t.qty.as_u64();
            proof {
                assert((price as nat) * (qty as nat) <= u128::MAX) by (nonlinear_arith)
                    requires
                        price <= u64::MAX,
                        qty <= u64::MAX,
                ;
            }
            match notional.checked_add((price as u128) * (qty as u128)) {
                Some(n) => {
                    notional = n;
                },
                None => {
                    return Err(EngineError::ArithmeticOverflow);
                },
            }
            proof {
                assert(i + 1 <= usize::MAX);
                assert((i + 1) * 18446744073709551615 <= u128::MAX) by (nonlinear_arith)
                    requires
                        i + 1 <= 18446744073709551615,
                ;
                assert(i * 18446744073709551615 + qty <= (i + 1) * 18446744073709551615) by (nonlinear_arith)
                    requires
                        qty <= 18446744073709551615,
                ;
            }
            match qty_total.checked_add(qty as u128) {
                Some(q) => {
                    qty_total = q;
                },
                None => {
                    return Err(EngineError::ArithmeticOverflow);
                },
            }
            i = i + 1;
        }
        assert(trades@.take(i as int) =~= trades@);
        if qty_total == 0 {
            return Ok(None);
        }
        Ok(Some(Price::from_raw(#[verifier::truncate] ((notional / qty_total) as u64))))
    }
}

/// The total quantity of some trades.
fn total_traded(trades: &Vec<Trade>) -> (total: u64)
    requires
        traded_qty(trades@) <= u64::MAX,
    ensures
        total == traded_qty(trades@),
{
    let mut total: u64 = 0;
    let mut i: usize = 0;
    assert(trades@.take(0) =~= Seq::<Trade>::empty());
    while i < trades.len()
        invariant
            i <= trades@.len(),
            total == traded_qty(trades@.take(i as int)),
            traded_qty(trades@) <= u64::MAX,
        decreases trades@.len() - i,
    {
        proof {
            assert(trades@.take(i + 1).drop_last() =~= trades@.take(i as int));
            lemma_traded_qty_prefix(trades@, i + 1);
        }
        total = total + trades[i].qty.as_u64();
        i = i + 1;
    }
    assert(trades@.take(i as int) =~= trades@);
    total
}

} // verus!
