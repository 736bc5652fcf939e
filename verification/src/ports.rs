use crate::domain::trading::MarketId;
use vstd::prelude::*;

verus! {

/// A source of wall-clock time.
pub trait Clock: Send + Sync {
    fn now_unix_ms(&self) -> i64;
}

/// A sink for events published on topics.
pub trait EventPublisher: Send + Sync {
    fn publish(&self, topic: &str, payload: &[u8]) -> Result<(), String>;
}

/// Which markets take orders.
pub trait MarketCatalog: Send + Sync {
    /// Whether the market named `market` is enabled.
    spec fn enabled(&self, market: Seq<char>) -> bool;

    fn is_enabled(&self, market: &MarketId) -> (r: bool)
        ensures
            r == self.enabled(market.0@),
    ;
}

} // verus!
