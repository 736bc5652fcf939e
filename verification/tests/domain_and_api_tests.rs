use exchange_engine::adapters::in_memory_catalog::InMemoryMarketCatalog;
use exchange_engine::api::{
    map_engine_error, order_request, parse_market_path, parse_order_type, parse_query,
    parse_side, parse_usize, query_value, route, snapshot_depth, HttpMethod, Route,
};
use exchange_engine::application::trading_app::PlaceOrderUseCase;
use exchange_engine::domain::trading::{
    DomainError, LimitOrder, MarketId as DomainMarket, MatchingEngine as DomainEngine,
    Side as DomainSide,
};
use exchange_engine::ports::MarketCatalog;
use exchange_engine::{EngineError, MarketId, OrderType, Side, TimeInForce};

fn order(id: &str, market: &str, side: DomainSide, price: u64, qty: u64) -> LimitOrder {
    LimitOrder {
        id: id.to_string(),
        market: DomainMarket(market.to_string()),
        user_id: "u".to_string(),
        side,
        price,
        qty,
    }
}

#[test]
fn domain_engine_refuses_invalid_orders() {
    let mut engine = DomainEngine::new(DomainMarket("BTC/USDT".to_string()));
    assert_eq!(
        engine.submit(order("a", "ETH/USDT", DomainSide::Buy, 1, 1)),
        Err(DomainError::UnsupportedMarket("ETH/USDT".to_string()))
    );
    assert_eq!(
        engine.submit(order("", "BTC/USDT", DomainSide::Buy, 1, 1)),
        Err(DomainError::InvalidOrder("id and user_id are required"))
    );
    let mut no_user = order("b", "BTC/USDT", DomainSide::Buy, 1, 1);
    no_user.user_id = String::new();
    assert_eq!(engine.submit(no_user), Err(DomainError::InvalidOrder("id and user_id are required")));
    assert_eq!(
        engine.submit(order("c", "BTC/USDT", DomainSide::Buy, 0, 1)),
        Err(DomainError::InvalidOrder("price and qty must be > 0"))
    );
    assert_eq!(
        engine.submit(order("d", "BTC/USDT", DomainSide::Sell, 1, 0)),
        Err(DomainError::InvalidOrder("price and qty must be > 0"))
    );
}

#[test]
fn domain_sell_takes_best_bids_and_fills_completely() {
    let mut engine = DomainEngine::new(DomainMarket("BTC/USDT".to_string()));
    engine.submit(order("b1", "BTC/USDT", DomainSide::Buy, 100, 2)).unwrap();
    engine.submit(order("b2", "BTC/USDT", DomainSide::Buy, 101, 1)).unwrap();
    engine.submit(order("b3", "BTC/USDT", DomainSide::Buy, 99, 5)).unwrap();
    let result = engine.submit(order("s1", "BTC/USDT", DomainSide::Sell, 100, 3)).unwrap();
    assert!(result.remaining.is_none());
    assert_eq!(result.trades.len(), 2);
    assert_eq!(result.trades[0].maker_order_id, "b2");
    assert_eq!(result.trades[0].price, 101);
    assert_eq!(result.trades[1].maker_order_id, "b1");
    assert_eq!(result.trades[1].qty, 2);
    assert_eq!(result.trades[1].taker_order_id, "s1");
    assert_eq!(result.trades[1].market, DomainMarket("BTC/USDT".to_string()));
    // the 99 bid does not cross a sell at 100
    let rest = engine.submit(order("s2", "BTC/USDT", DomainSide::Sell, 100, 1)).unwrap();
    assert!(rest.trades.is_empty());
    assert_eq!(rest.remaining.unwrap().qty, 1);
    let cross = engine.submit(order("b4", "BTC/USDT", DomainSide::Buy, 100, 1)).unwrap();
    assert_eq!(cross.trades[0].maker_order_id, "s2");
}

#[test]
fn catalog_enables_its_markets_only() {
    let catalog = InMemoryMarketCatalog::new(vec!["BTC/USDT".to_string()]);
    assert!(catalog.is_enabled(&DomainMarket("BTC/USDT".to_string())));
    assert!(!catalog.is_enabled(&DomainMarket("ETH/USDT".to_string())));
    let use_case = PlaceOrderUseCase::new(catalog);
    assert_eq!(use_case.execute(&DomainMarket("BTC/USDT".to_string())), Ok(()));
    assert_eq!(
        use_case.execute(&DomainMarket("SOL/USDT".to_string())),
        Err("market is disabled".to_string())
    );
}

#[test]
fn routes_of_requests() {
    assert_eq!(route(HttpMethod::Get, "/health"), Route::Health);
    assert_eq!(route(HttpMethod::Get, "/health?x=1"), Route::NotFound);
    assert_eq!(route(HttpMethod::Post, "/markets"), Route::CreateMarket);
    assert_eq!(route(HttpMethod::Post, "/orders"), Route::CreateOrder);
    assert_eq!(route(HttpMethod::Get, "/markets/BTC/USDT/snapshot?depth=2"), Route::Snapshot);
    assert_eq!(route(HttpMethod::Get, "/markets/BTC/USDT/last-price"), Route::LastPrice);
    assert_eq!(route(HttpMethod::Post, "/markets/BTC/USDT/snapshot"), Route::NotFound);
    assert_eq!(route(HttpMethod::Get, "/market/BTC/USDT/snapshot"), Route::NotFound);
    assert_eq!(route(HttpMethod::Other, "/health"), Route::NotFound);
}

#[test]
fn sides_and_order_types_by_name() {
    assert_eq!(parse_side("bid"), Some(Side::Bid));
    assert_eq!(parse_side("BUY"), Some(Side::Bid));
    assert_eq!(parse_side("Ask"), Some(Side::Ask));
    assert_eq!(parse_side("sElL"), Some(Side::Ask));
    assert_eq!(parse_side("buyer"), None);
    assert_eq!(parse_order_type("LIMIT"), Some(OrderType::Limit));
    assert_eq!(parse_order_type("market"), Some(OrderType::Market));
    assert_eq!(parse_order_type("stop"), None);
}

#[test]
fn market_paths_split_into_base_quote_and_query() {
    assert_eq!(
        parse_market_path("/markets/BTC/USDT/snapshot?depth=3", "/snapshot"),
        Some(("BTC", "USDT", Some("depth=3")))
    );
    assert_eq!(
        parse_market_path("/markets/ETH/USDT/last-price", "/last-price"),
        Some(("ETH", "USDT", None))
    );
    assert_eq!(
        parse_market_path("/markets/markets/BTC/USDT/snapshot", "/snapshot"),
        None
    );
    assert_eq!(
        parse_market_path("/markets//markets/BTC/USDT/snapshot", "/snapshot"),
        Some(("BTC", "USDT", None))
    );
    assert_eq!(
        parse_market_path("/markets/BTC/USDT/snapshot?a?b", "/snapshot"),
        Some(("BTC", "USDT", Some("a?b")))
    );
    assert_eq!(parse_market_path("/markets/BTC/snapshot", "/snapshot"), None);
    assert_eq!(parse_market_path("/markets/BTC/USDT/X/snapshot", "/snapshot"), None);
    assert_eq!(parse_market_path("/markets//USDT/snapshot", "/snapshot"), None);
    assert_eq!(parse_market_path("/markets/BTC//snapshot", "/snapshot"), None);
    assert_eq!(parse_market_path("/markets/BTC/USDT/snapshot", "/last-price"), None);
    assert_eq!(
        parse_market_path("/markets/markets/markets/A/B/snapshot", "/snapshot"),
        None
    );
}

#[test]
fn query_strings_and_depths() {
    let pairs = parse_query("a=1&b=&c&depth=3&depth=7");
    assert_eq!(
        pairs,
        vec![
            ("a".to_string(), "1".to_string()),
            ("b".to_string(), "".to_string()),
            ("depth".to_string(), "3".to_string()),
            ("depth".to_string(), "7".to_string()),
        ]
    );
    assert_eq!(query_value(&pairs, "depth"), Some(&"7".to_string()));
    assert_eq!(query_value(&pairs, "c"), None);
    assert!(parse_query("").is_empty());
    assert_eq!(parse_query("k=v=w"), vec![("k".to_string(), "v=w".to_string())]);
    assert_eq!(parse_usize("+12"), Some(12));
    assert_eq!(parse_usize("0"), Some(0));
    assert_eq!(parse_usize(""), None);
    assert_eq!(parse_usize("+"), None);
    assert_eq!(parse_usize("-1"), None);
    assert_eq!(parse_usize("12a"), None);
    assert_eq!(parse_usize("99999999999999999999999"), None);
    assert_eq!(snapshot_depth(None), 5);
    assert_eq!(snapshot_depth(Some("depth=2")), 2);
    assert_eq!(snapshot_depth(Some("depth=x")), 5);
    assert_eq!(snapshot_depth(Some("other=1")), 5);
    assert_eq!(snapshot_depth(Some("depth=1&depth=9")), 9);
}

#[test]
fn errors_map_to_http_statuses() {
    assert_eq!(map_engine_error(EngineError::UnknownMarket), (404, "unknown market"));
    assert_eq!(map_engine_error(EngineError::InvalidQuantity).0, 400);
    assert_eq!(map_engine_error(EngineError::InvalidPriceForLimit).0, 400);
    assert_eq!(map_engine_error(EngineError::PriceNotAllowedForMarket).0, 400);
    assert_eq!(map_engine_error(EngineError::ArithmeticOverflow), (500, "arithmetic overflow"));
}

#[test]
fn api_order_requests_carry_a_time_in_force() {
    let m = MarketId::new("BTC", "USDT");
    let market = order_request(m.clone(), 7, Side::Bid, OrderType::Market, None, 3);
    assert_eq!(market.time_in_force, Some(TimeInForce::Ioc));
    assert!(market.price.is_none());
    assert_eq!(market.qty.as_u64(), 3);
    let limit = order_request(m, 7, Side::Ask, OrderType::Limit, Some(100), 3);
    assert_eq!(limit.time_in_force, Some(TimeInForce::Gtc));
    assert_eq!(limit.price.unwrap().as_u64(), 100);
    assert_eq!(limit.user_id, 7);
}
