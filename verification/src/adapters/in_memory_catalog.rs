use crate::domain::trading::MarketId;
use crate::ports::MarketCatalog;
use vstd::prelude::*;

verus! {

/// A catalog that holds the names of the enabled markets in memory.
pub struct InMemoryMarketCatalog {
    enabled: Vec<String>,
}

impl View for InMemoryMarketCatalog {
    type V = Set<Seq<char>>;

    closed spec fn view(&self) -> Set<Seq<char>> {
        self.enabled@.map_values(|s: String| s@).to_set()
    }
}

impl InMemoryMarketCatalog {
    /// A catalog in which exactly the given markets are enabled.
    pub fn new(markets: Vec<String>) -> (c: Self)
        ensures
            c@ == markets@.map_values(|s: String| s@).to_set(),
    {
        InMemoryMarketCatalog { enabled: markets }
    }
}

impl MarketCatalog for InMemoryMarketCatalog {
    open spec fn enabled(&self, market: Seq<char>) -> bool {
        self@.contains(market)
    }

    fn is_enabled(&self, market: &MarketId) -> (r: bool) {
        let ghost names = self.enabled@.map_values(|s: String| s@);
        let mut i: usize = 0;
        while i < self.enabled.len()
            invariant
                names == self.enabled@.map_values(|s: String| s@),
                i <= self.enabled@.len(),
                forall|j: int| 0 <= j < i ==> (#[trigger] self.enabled@[j])@ != market.0@,
            decreases self.enabled@.len() - i,
        {
            if self.enabled[i] == market.0 {
                proof {
                    assert(names[i as int] == market.0@);
                    assert(names.contains(market.0@));
                }
                return true;
            }
            i = i + 1;
        }
        proof {
            if names.contains(market.0@) {
                let j = choose|j: int| 0 <= j < names.len() && names[j] == market.0@;
                assert(self.enabled@[j]@ == market.0@);
            }
        }
        false
    }
}

} // verus!
