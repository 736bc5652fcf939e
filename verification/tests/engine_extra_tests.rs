use exchange_engine::bid_price::BidPrice;
use exchange_engine::order_book::OrderBook;
use exchange_engine::types::BookOrder;
use exchange_engine::{
    EngineError, ExecutionStatus, MarketId, MatchingEngine, OrderRequest, OrderType, Price,
    Quantity, Side, TimeInForce, Trade,
};

fn req(
    market: &MarketId,
    user: u64,
    side: Side,
    order_type: OrderType,
    price: Option<u64>,
    qty: u64,
) -> OrderRequest {
    OrderRequest {
        market: market.clone(),
        user_id: user,
        side,
        order_type,
        price: price.map(Price::from_raw),
        qty: Quantity::from_raw(qty),
        time_in_force: None,
    }
}

fn resting(id: u64, side: Side, price: u64, qty: u64) -> BookOrder {
    BookOrder {
        id,
        user_id: 1,
        side,
        price: Price::from_raw(price),
        qty: Quantity::from_raw(qty),
        ts: 0,
    }
}

#[test]
fn price_and_quantity_constructors_reject_zero() {
    assert_eq!(Price::new(0), Err(EngineError::InvalidPriceForLimit));
    assert_eq!(Price::new(7).unwrap().as_u64(), 7);
    assert_eq!(Quantity::new(0), Err(EngineError::InvalidQuantity));
    assert_eq!(Quantity::new(3).unwrap().as_u64(), 3);
    assert_eq!(Price::from_raw(0).as_u64(), 0);
}

#[test]
fn error_messages_and_status_names() {
    assert_eq!(EngineError::UnknownMarket.message(), "unknown market");
    assert_eq!(EngineError::InvalidQuantity.message(), "invalid quantity");
    assert_eq!(EngineError::InvalidPriceForLimit.message(), "invalid price for limit order");
    assert_eq!(
        EngineError::PriceNotAllowedForMarket.message(),
        "price must not be set for market order"
    );
    assert_eq!(EngineError::ArithmeticOverflow.message(), "arithmetic overflow");
    assert_eq!(ExecutionStatus::PartiallyFilled.name(), "PartiallyFilled");
    assert_eq!(ExecutionStatus::Rejected.name(), "Rejected");
}

#[test]
fn invalid_requests_are_refused_with_their_error() {
    let mut engine = MatchingEngine::new();
    let market = engine.create_market("BTC", "USDT");
    let r = engine.submit_order(req(&market, 1, Side::Bid, OrderType::Limit, Some(100), 0));
    assert_eq!(r.unwrap_err(), EngineError::InvalidQuantity);
    let r = engine.submit_order(req(&market, 1, Side::Bid, OrderType::Limit, None, 1));
    assert_eq!(r.unwrap_err(), EngineError::InvalidPriceForLimit);
    let r = engine.submit_order(req(&market, 1, Side::Bid, OrderType::Market, Some(100), 1));
    assert_eq!(r.unwrap_err(), EngineError::PriceNotAllowedForMarket);
    let mut gtc = req(&market, 1, Side::Bid, OrderType::Market, None, 1);
    gtc.time_in_force = Some(TimeInForce::Gtc);
    assert_eq!(engine.submit_order(gtc).unwrap_err(), EngineError::PriceNotAllowedForMarket);
    let mut ioc = req(&market, 1, Side::Bid, OrderType::Market, None, 1);
    ioc.time_in_force = Some(TimeInForce::Ioc);
    assert_eq!(engine.submit_order(ioc).unwrap().status, ExecutionStatus::Rejected);
    let other = MarketId::new("ETH", "USDT");
    let r = engine.submit_order(req(&other, 1, Side::Bid, OrderType::Limit, Some(100), 1));
    assert_eq!(r.unwrap_err(), EngineError::UnknownMarket);
    assert_eq!(engine.last_price(&other), Err(EngineError::UnknownMarket));
    assert!(engine.order_book_snapshot(&other, 5).is_err());
    assert!(engine.estimate_market_buy(&other, Quantity::from_raw(1)).is_err());
    assert!(engine.estimate_market_sell(&other, Quantity::from_raw(1)).is_err());
}

#[test]
fn ids_advance_only_for_validated_orders() {
    let mut engine = MatchingEngine::new();
    let market = engine.create_market("BTC", "USDT");
    let unknown = MarketId::new("X", "Y");
    // invalid: takes no id
    let _ = engine.submit_order(req(&market, 1, Side::Ask, OrderType::Limit, Some(100), 0));
    // valid but unknown market: takes id 1
    let _ = engine.submit_order(req(&unknown, 1, Side::Ask, OrderType::Limit, Some(100), 1));
    // rests with id 2
    let _ = engine.submit_order(req(&market, 1, Side::Ask, OrderType::Limit, Some(100), 1));
    let report = engine.submit_order(req(&market, 2, Side::Bid, OrderType::Market, None, 1)).unwrap();
    assert_eq!(report.trades[0].maker_order_id, 2);
    assert_eq!(report.trades[0].taker_order_id, 3);
    assert!(report.trades[0].ts > 1_600_000_000_000);
}

#[test]
fn default_engine_starts_ids_at_zero() {
    let mut engine = MatchingEngine::default();
    let market = engine.create_market("BTC", "USDT");
    let _ = engine.submit_order(req(&market, 1, Side::Ask, OrderType::Limit, Some(10), 1));
    let report = engine.submit_order(req(&market, 2, Side::Bid, OrderType::Limit, Some(10), 1)).unwrap();
    assert_eq!(report.trades[0].maker_order_id, 0);
    assert_eq!(report.trades[0].taker_order_id, 1);
}

#[test]
fn statuses_for_open_rejected_and_sell_side() {
    let mut engine = MatchingEngine::new();
    let market = engine.create_market("BTC", "USDT");
    let open = engine.submit_order(req(&market, 1, Side::Ask, OrderType::Limit, Some(105), 4)).unwrap();
    assert_eq!(open.status, ExecutionStatus::Open);
    assert!(open.accepted);
    assert_eq!(open.remaining_qty.as_u64(), 4);
    assert!(open.last_price_after.is_none());
    let rejected = engine.submit_order(req(&market, 2, Side::Ask, OrderType::Market, None, 3)).unwrap();
    assert_eq!(rejected.status, ExecutionStatus::Rejected);
    assert_eq!(rejected.filled_qty.as_u64(), 0);
    assert_eq!(rejected.remaining_qty.as_u64(), 3);
    let _ = engine.submit_order(req(&market, 3, Side::Bid, OrderType::Limit, Some(99), 2)).unwrap();
    let _ = engine.submit_order(req(&market, 4, Side::Bid, OrderType::Limit, Some(98), 2)).unwrap();
    // a sell limit at 98 takes the best bid first, then the next one
    let sell = engine.submit_order(req(&market, 5, Side::Ask, OrderType::Limit, Some(98), 3)).unwrap();
    assert_eq!(sell.status, ExecutionStatus::Filled);
    assert_eq!(sell.trades.len(), 2);
    assert_eq!(sell.trades[0].price.as_u64(), 99);
    assert_eq!(sell.trades[1].price.as_u64(), 98);
    assert_eq!(sell.trades[1].qty.as_u64(), 1);
    assert_eq!(sell.last_price_after.unwrap().as_u64(), 98);
    // a sell limit above the best bid does not trade
    let above = engine.submit_order(req(&market, 6, Side::Ask, OrderType::Limit, Some(104), 1)).unwrap();
    assert_eq!(above.status, ExecutionStatus::Open);
    let snap = engine.order_book_snapshot(&market, 10).unwrap();
    assert_eq!(snap.best_ask.unwrap().as_u64(), 104);
    assert_eq!(snap.asks.len(), 2);
    assert_eq!(snap.bids[0].qty.as_u64(), 1);
}

#[test]
fn create_market_twice_keeps_the_book() {
    let mut engine = MatchingEngine::new();
    let m1 = engine.create_market("BTC", "USDT");
    let _ = engine.submit_order(req(&m1, 1, Side::Ask, OrderType::Limit, Some(100), 1)).unwrap();
    let m2 = engine.create_market("BTC", "USDT");
    assert_eq!(m1, m2);
    let snap = engine.order_book_snapshot(&m2, 5).unwrap();
    assert_eq!(snap.asks.len(), 1);
}

#[test]
fn snapshot_depth_limits_levels_and_mid_rounds_down() {
    let mut engine = MatchingEngine::new();
    let market = engine.create_market("BTC", "USDT");
    for (i, p) in [100u64, 101, 102].iter().enumerate() {
        let _ = engine.submit_order(req(&market, i as u64, Side::Ask, OrderType::Limit, Some(*p), 1)).unwrap();
    }
    let _ = engine.submit_order(req(&market, 9, Side::Bid, OrderType::Limit, Some(97), 1)).unwrap();
    let snap = engine.order_book_snapshot(&market, 2).unwrap();
    assert_eq!(snap.asks.len(), 2);
    assert_eq!(snap.asks[1].price.as_u64(), 101);
    assert_eq!(snap.mid_price.unwrap().as_u64(), 98);
    let empty = engine.order_book_snapshot(&market, 0).unwrap();
    assert!(empty.asks.is_empty() && empty.bids.is_empty());
    assert_eq!(empty.best_ask.unwrap().as_u64(), 100);
    let checked = engine.try_order_book_snapshot(&market, 2).unwrap().unwrap();
    assert_eq!(checked.asks.len(), 2);
}

#[test]
fn snapshot_overflow_is_reported_by_checked_snapshot() {
    let mut book = OrderBook::new();
    book.add_resting_order(resting(1, Side::Ask, 10, u64::MAX));
    book.add_resting_order(resting(2, Side::Ask, 10, 1));
    assert!(!book.snapshot_fits(1));
    assert!(book.snapshot_fits(0));
    let mut b2 = OrderBook::new();
    b2.add_resting_order(resting(1, Side::Ask, u64::MAX, 1));
    b2.add_resting_order(resting(2, Side::Bid, 1, 1));
    assert!(!b2.snapshot_fits(1));
}

#[test]
fn estimates_for_sells_and_empty_books() {
    let mut engine = MatchingEngine::new();
    let market = engine.create_market("BTC", "USDT");
    let est = engine.estimate_market_sell(&market, Quantity::from_raw(5)).unwrap();
    assert_eq!(est.fillable_qty.as_u64(), 0);
    assert!(est.avg_price.is_none());
    assert_eq!(est.levels_consumed, 0);
    let _ = engine.submit_order(req(&market, 1, Side::Bid, OrderType::Limit, Some(99), 2)).unwrap();
    let _ = engine.submit_order(req(&market, 2, Side::Bid, OrderType::Limit, Some(96), 2)).unwrap();
    let est = engine.estimate_market_sell(&market, Quantity::from_raw(3)).unwrap();
    assert_eq!(est.requested_qty.as_u64(), 3);
    assert_eq!(est.fillable_qty.as_u64(), 3);
    assert_eq!(est.total_cost_or_proceeds, 99 * 2 + 96);
    assert_eq!(est.avg_price.unwrap().as_u64(), 98);
    assert_eq!(est.levels_consumed, 2);
}

#[test]
fn vwap_edge_cases() {
    let t = |p: u64, q: u64| Trade {
        price: Price::from_raw(p),
        qty: Quantity::from_raw(q),
        maker_order_id: 1,
        taker_order_id: 2,
        ts: 0,
    };
    assert_eq!(MatchingEngine::vwap(&[]).unwrap(), None);
    assert_eq!(MatchingEngine::vwap(&[t(10, 0)]).unwrap(), None);
    assert_eq!(MatchingEngine::vwap(&[t(10, 1), t(13, 2)]).unwrap().unwrap().as_u64(), 12);
    let big = t(u64::MAX, u64::MAX);
    assert_eq!(
        MatchingEngine::vwap(&[big, big, big]).unwrap_err(),
        EngineError::ArithmeticOverflow
    );
}

#[test]
fn book_level_operations() {
    let mut book = OrderBook::default();
    assert!(book.best_bid().is_none() && book.mid_price().is_none());
    book.add_resting_order(resting(1, Side::Bid, 50, 2));
    book.add_resting_order(resting(2, Side::Bid, 52, 3));
    book.add_resting_order(resting(3, Side::Bid, 50, 4));
    book.add_resting_order(resting(4, Side::Ask, 60, 0));
    book.add_resting_order(resting(5, Side::Ask, 61, 1));
    assert_eq!(book.best_bid().unwrap().as_u64(), 52);
    assert_eq!(book.best_ask().unwrap().as_u64(), 60);
    assert_eq!(book.mid_price().unwrap().as_u64(), 56);
    let bids = book.top_n(Side::Bid, 5);
    assert_eq!(bids.len(), 2);
    assert_eq!(bids[1].qty.as_u64(), 6);
    // the level of zero quantity counts towards the depth but is not shown
    let asks = book.top_n(Side::Ask, 1);
    assert!(asks.is_empty());
    assert_eq!(book.top_n(Side::Ask, 2).len(), 1);
    // a zero-quantity maker gives a zero-quantity trade
    let trades = book.match_order(9, Side::Bid, 1, None, 77);
    assert_eq!(trades.len(), 2);
    assert_eq!(trades[0].qty.as_u64(), 0);
    assert_eq!(trades[0].maker_order_id, 4);
    assert_eq!(trades[1].maker_order_id, 5);
    assert_eq!(trades[1].ts, 77);
    assert_eq!(book.last_price.unwrap().as_u64(), 61);
    // a sell with a limit above the best bid trades nothing
    assert!(book.match_order(10, Side::Ask, 5, Some(Price::from_raw(53)), 0).is_empty());
    let trades = book.match_order(11, Side::Ask, 6, Some(Price::from_raw(50)), 0);
    assert_eq!(trades.iter().map(|t| t.maker_order_id).collect::<Vec<_>>(), vec![2, 1, 3]);
    assert_eq!(trades[2].qty.as_u64(), 1);
    let est = book.estimate_market(Side::Ask, Quantity::from_raw(10)).unwrap();
    assert_eq!(est.fillable_qty.as_u64(), 3);
}

#[test]
fn bid_prices_order_highest_first() {
    let high = BidPrice(Price::from_raw(10));
    let low = BidPrice(Price::from_raw(5));
    assert_eq!(high.partial_cmp(&low), Some(std::cmp::Ordering::Less));
    assert_eq!(low.partial_cmp(&high), Some(std::cmp::Ordering::Greater));
    assert!(high < low);
    assert_eq!(high.cmp(&high), std::cmp::Ordering::Equal);
}
