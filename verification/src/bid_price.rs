use crate::types::Price;
use std::cmp::Ordering;
use vstd::prelude::*;
use vstd::std_specs::cmp::PartialOrdSpecImpl;

verus! {

/// A bid price, ordered so that the highest bid comes first.
#[derive(Debug, Clone, Copy, PartialEq, Eq, Hash)]
pub struct BidPrice(pub Price);

/// The order of two bid prices: the higher price is the lesser bid.
pub open spec fn bid_order(a: BidPrice, b: BidPrice) -> Ordering {
    if b.0@ < a.0@ {
        Ordering::Less
    } else if b.0@ == a.0@ {
        Ordering::Equal
    } else {
        Ordering::Greater
    }
}

impl BidPrice {
    /// Compares two bids, highest price first.
    pub fn cmp(&self, other: &Self) -> (o: Ordering)
        ensures
            o == bid_order(*self, *other),
    {
        let a = self.0.as_u64();
        let b = other.0.as_u64();
        if b < a {
            Ordering::Less
        } else if b == a {
            Ordering::Equal
        } else {
            Ordering::Greater
        }
    }
}

impl PartialOrd for BidPrice {
    fn partial_cmp(&self, other: &Self) -> (o: Option<Ordering>) {
        Some(self.cmp(other))
    }
}

impl PartialOrdSpecImpl for BidPrice {
    open spec fn obeys_partial_cmp_spec() -> bool {
        true
    }

    open spec fn partial_cmp_spec(&self, other: &Self) -> Option<Ordering> {
        Some(bid_order(*self, *other))
    }
}

} // verus!
