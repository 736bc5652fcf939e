use exchange_engine::domain::trading::{LimitOrder, MarketId, MatchingEngine, Side};

fn buy(id: &str, price: u64, qty: u64) -> LimitOrder {
    LimitOrder {
        id: id.to_string(),
        market: MarketId("BTC/USDT".to_string()),
        user_id: "u1".to_string(),
        side: Side::Buy,
        price,
        qty,
    }
}

fn sell(id: &str, price: u64, qty: u64) -> LimitOrder {
    LimitOrder {
        id: id.to_string(),
        market: MarketId("BTC/USDT".to_string()),
        user_id: "u2".to_string(),
        side: Side::Sell,
        price,
        qty,
    }
}

#[test]
fn partially_fills_and_leaves_resting_order() {
    let mut engine = MatchingEngine::new(MarketId("BTC/USDT".to_string()));
    engine.submit(sell("s1", 62_000, 5)).expect("seed sell");

    let result = engine.submit(buy("b1", 62_500, 8)).expect("buy");

    assert_eq!(result.trades.len(), 1);
    assert_eq!(result.trades[0].qty, 5);
    assert_eq!(result.trades[0].price, 62_000);
    assert_eq!(result.remaining.expect("remaining order").qty, 3);
}

#[test]
fn honors_price_time_priority_on_same_level() {
    let mut engine = MatchingEngine::new(MarketId("BTC/USDT".to_string()));
    engine.submit(sell("s1", 62_000, 2)).expect("s1");
    engine.submit(sell("s2", 62_000, 3)).expect("s2");

    let result = engine.submit(buy("b1", 62_000, 4)).expect("buy");

    assert_eq!(result.trades.len(), 2);
    assert_eq!(result.trades[0].maker_order_id, "s1");
    assert_eq!(result.trades[0].qty, 2);
    assert_eq!(result.trades[1].maker_order_id, "s2");
    assert_eq!(result.trades[1].qty, 2);
}

#[test]
fn law_replaying_the_same_orders_gives_the_same_answers() {
    let orders = vec![
        sell("s1", 100, 3),
        sell("s2", 101, 2),
        buy("b1", 99, 4),
        buy("b2", 101, 4),
        sell("s3", 98, 6),
        buy("b3", 0, 1),
    ];
    let mut e1 = MatchingEngine::new(MarketId("BTC/USDT".to_string()));
    let mut e2 = MatchingEngine::new(MarketId("BTC/USDT".to_string()));
    for o in orders {
        let r1 = e1.submit(o.clone());
        let r2 = e2.submit(o);
        match (r1, r2) {
            (Ok(a), Ok(b)) => {
                assert_eq!(a.trades, b.trades);
                assert_eq!(a.remaining, b.remaining);
            }
            (Err(a), Err(b)) => assert_eq!(a, b),
            _ => panic!("the two engines answered differently"),
        }
    }
    let probe = buy("b9", 1_000, 100);
    let a = e1.submit(probe.clone()).unwrap();
    let b = e2.submit(probe).unwrap();
    assert_eq!(a.trades, b.trades);
    assert_eq!(a.remaining, b.remaining);
}
