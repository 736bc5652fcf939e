use crate::domain::trading::MarketId;
use crate::ports::MarketCatalog;
use vstd::prelude::*;

verus! {

/// Admits orders only for the markets that a catalog has enabled.
pub struct PlaceOrderUseCase<C: MarketCatalog> {
    catalog: C,
}

impl<C: MarketCatalog> PlaceOrderUseCase<C> {
    /// The catalog the use case consults.
    pub closed spec fn catalog(&self) -> C {
        self.catalog
    }

    pub fn new(catalog: C) -> (u: Self)
        ensures
            u.catalog() == catalog,
    {
        PlaceOrderUseCase { catalog }
    }

    /// Accepts an order for `market` exactly when the catalog enables it.
    pub fn execute(&self, market: &MarketId) -> (r: Result<(), String>)
        ensures
            r is Ok <==> self.catalog().enabled(market.0@),
            r matches Err(msg) ==> msg@ == "market is disabled"@,
    {
        if !self.catalog.is_enabled(market) {
            return Err("market is disabled".to_owned());
        }
        Ok(())
    }
}

} // verus!
