pub use crate::bid_price::BidPrice;
use crate::errors::{EngineError, EngineResult};
use vstd::prelude::*;

verus! {

pub type OrderId = u64;

pub type UserId = u64;

pub type Timestamp = u64;

/// A market, named by its base and quote assets (for example `BTC`/`USDT`).
#[derive(Debug, Clone, PartialEq, Eq, Hash)]
pub struct MarketId {
    pub base: String,
    pub quote: String,
}

impl View for MarketId {
    type V = (Seq<char>, Seq<char>);

    open spec fn view(&self) -> (Seq<char>, Seq<char>) {
        (self.base@, self.quote@)
    }
}

impl MarketId {
    pub fn new(base: &str, quote: &str) -> (m: Self)
        ensures
            m.base@ == base@,
            m.quote@ == quote@,
    {
        MarketId { base: base.to_owned(), quote: quote.to_owned() }
    }

    /// Whether both assets are named alike.
    pub fn same_as(&self, other: &MarketId) -> (b: bool)
        ensures
            b == (self@ == other@),
    {
        self.base == other.base && self.quote == other.quote
    }
}

/// A price in integer ticks of the quote asset.
#[derive(Debug, Clone, Copy, PartialEq, Eq, PartialOrd, Ord, Hash)]
pub struct Price(u64);

impl View for Price {
    type V = u64;

    closed spec fn view(&self) -> u64 {
        self.0
    }
}

impl Price {
    /// The price of the given number of ticks.
    pub closed spec fn spec_from(value: u64) -> Price {
        Price(value)
    }

    /// A price for a limit order: zero is refused.
    pub fn new(value: u64) -> (r: EngineResult<Self>)
        ensures
            value == 0 ==> r == Err::<Price, EngineError>(EngineError::InvalidPriceForLimit),
            value != 0 ==> r == Ok::<Price, EngineError>(Price::spec_from(value)),
    {
        if value == 0 {
            return Err(EngineError::InvalidPriceForLimit);
        }
        Ok(Price(value))
    }

    pub fn from_raw(value: u64) -> (p: Self)
        ensures
            p == Price::spec_from(value),
    {
        Price(value)
    }

    pub fn as_u64(self) -> (v: u64)
        ensures
            v == self@,
    {
        self.0
    }
}

/// An amount of the base asset in integer lots.
#[derive(Debug, Clone, Copy, PartialEq, Eq, PartialOrd, Ord)]
pub struct Quantity(u64);

impl View for Quantity {
    type V = u64;

    closed spec fn view(&self) -> u64 {
        self.0
    }
}

impl Quantity {
    /// The quantity of the given number of lots.
    pub closed spec fn spec_from(value: u64) -> Quantity {
        Quantity(value)
    }

    /// A quantity for an order: zero is refused.
    pub fn new(value: u64) -> (r: EngineResult<Self>)
        ensures
            value == 0 ==> r == Err::<Quantity, EngineError>(EngineError::InvalidQuantity),
            value != 0 ==> r == Ok::<Quantity, EngineError>(Quantity::spec_from(value)),
    {
        if value == 0 {
            return Err(EngineError::InvalidQuantity);
        }
        Ok(Quantity(value))
    }

    pub fn from_raw(value: u64) -> (q: Self)
        ensures
            q == Quantity::spec_from(value),
    {
        Quantity(value)
    }

    pub fn as_u64(self) -> (v: u64)
        ensures
            v == self@,
    {
        self.0
    }
}

pub broadcast proof fn lemma_price_from_view(value: u64)
    ensures
        #[trigger] Price::spec_from(value)@ == value,
{
}

pub broadcast proof fn lemma_price_view_from(p: Price)
    ensures
        #[trigger] Price::spec_from(p@) == p,
{
}

pub broadcast proof fn lemma_quantity_from_view(value: u64)
    ensures
        #[trigger] Quantity::spec_from(value)@ == value,
{
}

pub broadcast proof fn lemma_quantity_view_from(q: Quantity)
    ensures
        #[trigger] Quantity::spec_from(q@) == q,
{
}

pub broadcast group group_value_views {
    lemma_price_from_view,
    lemma_price_view_from,
    lemma_quantity_from_view,
    lemma_quantity_view_from,
}

#[derive(Debug, Clone, Copy, PartialEq, Eq)]
pub enum Side {
    Bid,
    Ask,
}

#[derive(Debug, Clone, Copy, PartialEq, Eq)]
pub enum OrderType {
    Limit,
    Market,
}

#[derive(Debug, Clone, Copy, PartialEq, Eq)]
pub enum TimeInForce {
    Gtc,
    Ioc,
}

#[derive(Debug, Clone)]
pub struct OrderRequest {
    pub market: MarketId,
    pub user_id: UserId,
    pub side: Side,
    pub order_type: OrderType,
    pub price: Option<Price>,
    pub qty: Quantity,
    pub time_in_force: Option<TimeInForce>,
}

#[derive(Debug, Clone, Copy)]
pub struct Trade {
    pub price: Price,
    pub qty: Quantity,
    pub maker_order_id: OrderId,
    pub taker_order_id: OrderId,
    pub ts: Timestamp,
}

#[derive(Debug, Clone, Copy, PartialEq, Eq)]
pub enum ExecutionStatus {
    Filled,
    PartiallyFilled,
    Open,
    Rejected,
}

impl ExecutionStatus {
    /// The status's name, as the API reports it.
    pub fn name(&self) -> (s: &'static str)
        ensures
            s@ == status_name(*self),
    {
        match self {
            ExecutionStatus::Filled => "Filled",
            ExecutionStatus::PartiallyFilled => "PartiallyFilled",
            ExecutionStatus::Open => "Open",
            ExecutionStatus::Rejected => "Rejected",
        }
    }
}

pub open spec fn status_name(s: ExecutionStatus) -> Seq<char> {
    match s {
        ExecutionStatus::Filled => "Filled"@,
        ExecutionStatus::PartiallyFilled => "PartiallyFilled"@,
        ExecutionStatus::Open => "Open"@,
        ExecutionStatus::Rejected => "Rejected"@,
    }
}

#[derive(Debug, Clone)]
pub struct ExecutionReport {
    pub accepted: bool,
    pub trades: Vec<Trade>,
    pub filled_qty: Quantity,
    pub remaining_qty: Quantity,
    pub status: ExecutionStatus,
    pub last_price_after: Option<Price>,
}

/// One aggregated price level of a book side.
#[derive(Debug, Clone, Copy, PartialEq, Eq)]
pub struct Level {
    pub price: Price,
    pub qty: Quantity,
}

#[derive(Debug, Clone)]
pub struct OrderBookSnapshot {
    pub bids: Vec<Level>,
    pub asks: Vec<Level>,
    pub best_bid: Option<Price>,
    pub best_ask: Option<Price>,
    pub mid_price: Option<Price>,
}

#[derive(Debug, Clone)]
pub struct ExecutionEstimate {
    pub requested_qty: Quantity,
    pub fillable_qty: Quantity,
    pub avg_price: Option<Price>,
    pub total_cost_or_proceeds: u128,
    pub levels_consumed: usize,
}

/// An order resting in a book.
#[derive(Debug, Clone, Copy, PartialEq, Eq)]
pub struct BookOrder {
    pub id: OrderId,
    pub user_id: UserId,
    pub side: Side,
    pub price: Price,
    pub qty: Quantity,
    pub ts: Timestamp,
}

} // verus!
