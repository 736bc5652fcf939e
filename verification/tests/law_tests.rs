use exchange_engine::{
    ExecutionStatus, MarketId, MatchingEngine, OrderRequest, OrderType, Price, Quantity, Side, Trade,
};

fn req(
    market: &MarketId,
    user: u64,
    side: Side,
    order_type: OrderType,
    price: Option<u64>,
    qty: u64,
) -> OrderRequest {
    OrderRequest {
        market: market.clone(),
        user_id: user,
        side,
        order_type,
        price: price.map(Price::from_raw),
        qty: Quantity::from_raw(qty),
        time_in_force: None,
    }
}

fn seeded() -> (MatchingEngine, MarketId) {
    let mut engine = MatchingEngine::new();
    let market = engine.create_market("BTC", "USDT");
    // ids 1..=5
    let _ = engine.submit_order(req(&market, 1, Side::Ask, OrderType::Limit, Some(102), 2)).unwrap();
    let _ = engine.submit_order(req(&market, 2, Side::Ask, OrderType::Limit, Some(100), 1)).unwrap();
    let _ = engine.submit_order(req(&market, 3, Side::Ask, OrderType::Limit, Some(101), 3)).unwrap();
    let _ = engine.submit_order(req(&market, 4, Side::Ask, OrderType::Limit, Some(100), 2)).unwrap();
    let _ = engine.submit_order(req(&market, 5, Side::Bid, OrderType::Limit, Some(95), 4)).unwrap();
    (engine, market)
}

#[test]
fn law_trades_follow_price_then_time_priority() {
    let (mut engine, market) = seeded();
    let report = engine.submit_order(req(&market, 9, Side::Bid, OrderType::Market, None, 7)).unwrap();
    let makers: Vec<u64> = report.trades.iter().map(|t| t.maker_order_id).collect();
    assert_eq!(makers, vec![2, 4, 3, 1]);
    let prices: Vec<u64> = report.trades.iter().map(|t| t.price.as_u64()).collect();
    assert_eq!(prices, vec![100, 100, 101, 102]);
    assert!(report.trades.iter().all(|t| t.taker_order_id == 6));
}

#[test]
fn law_limit_is_never_crossed_and_book_stays_uncrossed() {
    let (mut engine, market) = seeded();
    let report = engine.submit_order(req(&market, 9, Side::Bid, OrderType::Limit, Some(101), 10)).unwrap();
    assert!(report.trades.iter().all(|t| t.price.as_u64() <= 101));
    assert_eq!(report.filled_qty.as_u64(), 6);
    let snap = engine.order_book_snapshot(&market, 5).unwrap();
    assert_eq!(snap.best_bid.unwrap().as_u64(), 101);
    assert_eq!(snap.best_ask.unwrap().as_u64(), 102);
    assert!(snap.best_bid.unwrap().as_u64() < snap.best_ask.unwrap().as_u64());
    let sell = engine.submit_order(req(&market, 9, Side::Ask, OrderType::Limit, Some(90), 20)).unwrap();
    assert!(sell.trades.iter().all(|t| t.price.as_u64() >= 90));
    let snap = engine.order_book_snapshot(&market, 5).unwrap();
    assert!(snap.best_bid.is_none());
    assert_eq!(snap.best_ask.unwrap().as_u64(), 90);
}

#[test]
fn law_report_accounts_for_the_whole_order() {
    let (mut engine, market) = seeded();
    for (qty, ty) in [(3u64, OrderType::Market), (50, OrderType::Market), (2, OrderType::Limit)] {
        let price = if ty == OrderType::Limit { Some(99) } else { None };
        let r = engine.submit_order(req(&market, 9, Side::Bid, ty, price, qty)).unwrap();
        assert_eq!(r.filled_qty.as_u64() + r.remaining_qty.as_u64(), qty);
        assert_eq!(r.status == ExecutionStatus::Filled, r.remaining_qty.as_u64() == 0);
        let traded: u64 = r.trades.iter().map(|t| t.qty.as_u64()).sum();
        assert_eq!(traded, r.filled_qty.as_u64());
    }
}

#[test]
fn law_estimate_matches_a_market_order_run_right_after() {
    let (mut engine, market) = seeded();
    let est = engine.estimate_market_buy(&market, Quantity::from_raw(5)).unwrap();
    let report = engine.submit_order(req(&market, 9, Side::Bid, OrderType::Market, None, 5)).unwrap();
    assert_eq!(est.fillable_qty.as_u64(), report.filled_qty.as_u64());
    let notional: u128 = report
        .trades
        .iter()
        .map(|t| t.price.as_u64() as u128 * t.qty.as_u64() as u128)
        .sum();
    assert_eq!(est.total_cost_or_proceeds, notional);
    assert_eq!(est.total_cost_or_proceeds, 100 * 3 + 101 * 2);
}

#[test]
fn law_other_markets_are_untouched() {
    let (mut engine, btc) = seeded();
    let eth = engine.create_market("ETH", "USDT");
    let _ = engine.submit_order(req(&eth, 1, Side::Ask, OrderType::Limit, Some(10), 1)).unwrap();
    let before = engine.order_book_snapshot(&btc, 10).unwrap();
    let _ = engine.submit_order(req(&eth, 2, Side::Bid, OrderType::Market, None, 1)).unwrap();
    let after = engine.order_book_snapshot(&btc, 10).unwrap();
    assert_eq!(before.asks, after.asks);
    assert_eq!(before.bids, after.bids);
    assert!(engine.last_price(&btc).unwrap().is_none());
    assert_eq!(engine.last_price(&eth).unwrap().unwrap().as_u64(), 10);
}

#[test]
fn law_snapshot_levels_are_sorted_best_first() {
    let (engine, market) = seeded();
    let snap = engine.order_book_snapshot(&market, 10).unwrap();
    let asks: Vec<u64> = snap.asks.iter().map(|l| l.price.as_u64()).collect();
    assert_eq!(asks, vec![100, 101, 102]);
    assert_eq!(snap.asks[0].qty.as_u64(), 3);
    assert_eq!(snap.mid_price.unwrap().as_u64(), 97);
    assert!(snap.best_bid.unwrap().as_u64() <= snap.mid_price.unwrap().as_u64());
    assert!(snap.mid_price.unwrap().as_u64() < snap.best_ask.unwrap().as_u64());
}

#[test]
fn law_makers_were_resting_earlier_orders() {
    let (mut engine, market) = seeded();
    let report = engine.submit_order(req(&market, 9, Side::Bid, OrderType::Limit, Some(101), 5)).unwrap();
    // resting asks before: id 2 (100, 1), id 4 (100, 2), id 3 (101, 3), id 1 (102, 2)
    let resting_asks = [(2u64, 100u64), (4, 100), (3, 101), (1, 102)];
    for t in &report.trades {
        assert!(t.maker_order_id < t.taker_order_id);
        assert!(resting_asks.iter().any(|&(id, p)| id == t.maker_order_id && p == t.price.as_u64()));
    }
    assert_eq!(report.trades.len(), 3);
    // what rests afterwards: what was left of order 3 and nothing of the taker
    let snap = engine.order_book_snapshot(&market, 5).unwrap();
    let asks: Vec<(u64, u64)> = snap.asks.iter().map(|l| (l.price.as_u64(), l.qty.as_u64())).collect();
    assert_eq!(asks, vec![(101, 1), (102, 2)]);
}

#[test]
fn law_resting_quantities_stay_positive() {
    let (mut engine, market) = seeded();
    let _ = engine.submit_order(req(&market, 9, Side::Bid, OrderType::Market, None, 3)).unwrap();
    let _ = engine.submit_order(req(&market, 9, Side::Ask, OrderType::Limit, Some(95), 4)).unwrap();
    let snap = engine.order_book_snapshot(&market, 10).unwrap();
    assert!(snap.bids.iter().all(|l| l.qty.as_u64() > 0));
    assert!(snap.asks.iter().all(|l| l.qty.as_u64() > 0));
    assert!(snap.bids.is_empty());
    let asks: Vec<(u64, u64)> = snap.asks.iter().map(|l| (l.price.as_u64(), l.qty.as_u64())).collect();
    assert_eq!(asks, vec![(101, 3), (102, 2)]);
}

#[test]
fn law_vwap_ignores_trade_order_and_zero_quantities() {
    let t = |p: u64, q: u64| Trade {
        price: Price::from_raw(p),
        qty: Quantity::from_raw(q),
        maker_order_id: 1,
        taker_order_id: 2,
        ts: 0,
    };
    let a = [t(10, 1), t(13, 2), t(1000, 0)];
    let b = [t(1000, 0), t(13, 2), t(10, 1)];
    let va = MatchingEngine::vwap(&a).unwrap().unwrap().as_u64();
    let vb = MatchingEngine::vwap(&b).unwrap().unwrap().as_u64();
    assert_eq!(va, 12);
    assert_eq!(va, vb);
    assert!(10 <= va && va <= 13);
}

#[test]
fn law_orders_are_numbered_in_submission_order() {
    let mut engine = MatchingEngine::new();
    let market = engine.create_market("ETH", "USDT");
    for (n, p) in [(1u64, 105u64), (2, 104), (3, 104)] {
        let r = engine.submit_order(req(&market, n, Side::Ask, OrderType::Limit, Some(p), 1)).unwrap();
        assert!(r.trades.is_empty());
    }
    let r = engine.submit_order(req(&market, 9, Side::Bid, OrderType::Limit, Some(105), 4)).unwrap();
    let makers: Vec<u64> = r.trades.iter().map(|t| t.maker_order_id).collect();
    assert_eq!(makers, vec![2, 3, 1]);
    assert!(r.trades.iter().all(|t| t.taker_order_id == 4 && t.ts == r.trades[0].ts));
    assert_eq!(r.remaining_qty.as_u64(), 1);
    // the remainder rests as order 4: a sell now takes from it
    let s = engine.submit_order(req(&market, 7, Side::Ask, OrderType::Market, None, 1)).unwrap();
    assert_eq!(s.trades.len(), 1);
    assert_eq!(s.trades[0].maker_order_id, 4);
    assert_eq!(s.trades[0].taker_order_id, 5);
}

#[test]
fn law_checked_estimates_agree_with_plain_ones() {
    let (engine, market) = seeded();
    let buy = engine.try_estimate_market_buy(&market, Quantity::from_raw(4)).unwrap().unwrap();
    let plain = engine.estimate_market_buy(&market, Quantity::from_raw(4)).unwrap();
    assert_eq!(buy.fillable_qty.as_u64(), plain.fillable_qty.as_u64());
    assert_eq!(buy.total_cost_or_proceeds, plain.total_cost_or_proceeds);
    assert_eq!(buy.total_cost_or_proceeds, 100 + 200 + 101);
    assert_eq!(buy.levels_consumed, 2);
    let sell = engine.try_estimate_market_sell(&market, Quantity::from_raw(10)).unwrap().unwrap();
    assert_eq!(sell.fillable_qty.as_u64(), 4);
    assert_eq!(sell.total_cost_or_proceeds, 380);
    let unknown = MarketId::new("X", "Y");
    assert!(engine.try_estimate_market_buy(&unknown, Quantity::from_raw(1)).unwrap().is_err());
}

#[test]
fn law_checked_estimate_refuses_overflowing_level() {
    let mut engine = MatchingEngine::new();
    let market = engine.create_market("BTC", "USDT");
    let _ = engine.submit_order(req(&market, 1, Side::Bid, OrderType::Limit, Some(10), u64::MAX)).unwrap();
    let _ = engine.submit_order(req(&market, 2, Side::Bid, OrderType::Limit, Some(10), 5)).unwrap();
    assert!(engine.try_estimate_market_sell(&market, Quantity::from_raw(1)).is_none());
    assert!(engine.try_estimate_market_buy(&market, Quantity::from_raw(1)).unwrap().is_ok());
}
