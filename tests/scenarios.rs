use rust_hft_trading_engine::{
    Decimal, MatchingEngine, Order, OrderBook, OrderSide, OrderStatus, OrderType, RiskLimits, RiskManager,
};

fn dec(num: i128, scale: u32) -> Decimal {
    Decimal::new(num, scale)
}

fn limit(side: OrderSide, quantity: i128, price: Decimal) -> Order {
    Order::new("AAPL".to_string(), side, OrderType::Limit, dec(quantity, 0), Some(price), None, "u".to_string())
}

#[test]
fn full_cross() {
    let mut engine = MatchingEngine::new();
    let sell = limit(OrderSide::Sell, 100, dec(15000, 2));
    let buy = limit(OrderSide::Buy, 100, dec(15000, 2));
    let (sid, bid) = (sell.id, buy.id);
    engine.submit_order(sell).unwrap();
    let trades = engine.submit_order(buy).unwrap();
    assert_eq!(trades.len(), 1);
    assert_eq!(trades[0].quantity, dec(100, 0));
    assert_eq!(trades[0].price, dec(15000, 2));
    assert_eq!(trades[0].buyer_order_id, bid);
    assert_eq!(trades[0].seller_order_id, sid);
    assert_eq!(engine.get_order(sid).unwrap().status, OrderStatus::Filled);
    assert_eq!(engine.get_order(bid).unwrap().status, OrderStatus::Filled);
    let book = engine.get_orderbook("AAPL").unwrap();
    assert!(book.bids.is_empty() && book.asks.is_empty());
}

#[test]
fn partial_fill_rests_remainder() {
    let mut engine = MatchingEngine::new();
    engine.submit_order(limit(OrderSide::Sell, 50, dec(15000, 2))).unwrap();
    let buy = limit(OrderSide::Buy, 100, dec(15000, 2));
    let bid = buy.id;
    let trades = engine.submit_order(buy).unwrap();
    assert_eq!(trades.len(), 1);
    assert_eq!(trades[0].quantity, dec(50, 0));
    assert_eq!(trades[0].price, dec(15000, 2));
    let stored = engine.get_order(bid).unwrap();
    assert_eq!(stored.status, OrderStatus::PartiallyFilled);
    assert_eq!(stored.filled_quantity, dec(50, 0));
    let book = engine.get_orderbook("AAPL").unwrap();
    assert_eq!(book.best_bid(), Some(dec(15000, 2)));
    assert_eq!(book.bids[0].total_quantity, dec(50, 0));
    assert_eq!(book.bids[0].orders, vec![bid]);
}

#[test]
fn no_cross_limit_rests() {
    let mut engine = MatchingEngine::new();
    engine.submit_order(limit(OrderSide::Sell, 100, dec(15000, 2))).unwrap();
    let buy = limit(OrderSide::Buy, 100, dec(14900, 2));
    let bid = buy.id;
    let trades = engine.submit_order(buy).unwrap();
    assert!(trades.is_empty());
    let stored = engine.get_order(bid).unwrap();
    assert_eq!(stored.filled_quantity, dec(0, 0));
    assert_eq!(stored.status, OrderStatus::Pending);
    let book = engine.get_orderbook("AAPL").unwrap();
    assert_eq!(book.best_bid(), Some(dec(14900, 2)));
    assert_eq!(book.best_ask(), Some(dec(15000, 2)));
}

#[test]
fn market_sweep_and_rejection() {
    let mut engine = MatchingEngine::new();
    engine.submit_order(limit(OrderSide::Sell, 100, dec(15000, 2))).unwrap();
    engine.submit_order(limit(OrderSide::Sell, 100, dec(15010, 2))).unwrap();
    let buy = Order::new("AAPL".to_string(), OrderSide::Buy, OrderType::Market, dec(250, 0), None, None, "b".to_string());
    let bid = buy.id;
    let err = engine.submit_order(buy).unwrap_err();
    assert_eq!(err, "Market order could not be fully filled");
    let stored = engine.get_order(bid).unwrap();
    assert_eq!(stored.status, OrderStatus::Rejected);
    assert_eq!(stored.filled_quantity, dec(200, 0));
    let book = engine.get_orderbook("AAPL").unwrap();
    assert!(book.asks.is_empty());
    assert!(book.bids.is_empty());
}

#[test]
fn market_order_filled_in_full() {
    let mut engine = MatchingEngine::new();
    engine.submit_order(limit(OrderSide::Sell, 100, dec(15000, 2))).unwrap();
    engine.submit_order(limit(OrderSide::Sell, 100, dec(15010, 2))).unwrap();
    let buy = Order::new("AAPL".to_string(), OrderSide::Buy, OrderType::Market, dec(150, 0), None, None, "b".to_string());
    let trades = engine.submit_order(buy).unwrap();
    assert_eq!(trades.len(), 2);
    assert_eq!((trades[0].price, trades[0].quantity), (dec(15000, 2), dec(100, 0)));
    assert_eq!((trades[1].price, trades[1].quantity), (dec(15010, 2), dec(50, 0)));
}

#[test]
fn cancellation_clears_best_bid() {
    let mut engine = MatchingEngine::new();
    let buy = limit(OrderSide::Buy, 100, dec(15000, 2));
    let id = buy.id;
    engine.submit_order(buy).unwrap();
    engine.cancel_order(id).unwrap();
    assert_eq!(engine.get_orderbook("AAPL").unwrap().best_bid(), None);
    assert_eq!(engine.get_order(id).unwrap().status, OrderStatus::Cancelled);
}

#[test]
fn multi_level_depth() {
    let mut book = OrderBook::new("AAPL".to_string());
    book.add_order(&limit(OrderSide::Buy, 100, dec(15000, 2)));
    book.add_order(&limit(OrderSide::Buy, 200, dec(14900, 2)));
    book.add_order(&limit(OrderSide::Sell, 150, dec(15100, 2)));
    book.add_order(&limit(OrderSide::Sell, 250, dec(15200, 2)));
    assert_eq!(book.depth(OrderSide::Buy, 2), vec![(dec(15000, 2), dec(100, 0)), (dec(14900, 2), dec(200, 0))]);
    assert_eq!(book.depth(OrderSide::Sell, 2), vec![(dec(15100, 2), dec(150, 0)), (dec(15200, 2), dec(250, 0))]);
    assert_eq!(book.spread(), Some(dec(100, 2)));
    assert_eq!(book.mid_price(), Some(dec(15050, 2).widen()));
}

#[test]
fn risk_gate_value_limit() {
    let limits = RiskLimits { max_order_value: dec(100000, 0), ..Default::default() };
    let gate = RiskManager::new(limits);
    let big = limit(OrderSide::Buy, 1000, dec(100000, 2));
    let check = gate.check_order(&big);
    assert!(!check.passed);
    assert_eq!(check.reason.unwrap(), "Order value 1000000 exceeds maximum 100000");
    let small = limit(OrderSide::Buy, 500, dec(15000, 2));
    let check = gate.check_order(&small);
    assert!(check.passed);
    assert!(check.reason.is_none());
}
