use rust_hft_trading_engine::{Decimal, MatchingEngine, Order, OrderSide, OrderStatus, OrderType};

fn dec(num: i128, scale: u32) -> Decimal {
    Decimal::new(num, scale)
}

fn order(side: OrderSide, order_type: OrderType, quantity: Decimal, price: Option<Decimal>, user: &str) -> Order {
    Order::new("AAPL".to_string(), side, order_type, quantity, price, None, user.to_string())
}

#[test]
fn test_limit_order_matching() {
    let mut engine = MatchingEngine::new();

    let sell_order = order(OrderSide::Sell, OrderType::Limit, dec(100, 0), Some(dec(15000, 2)), "seller");
    let buy_order = order(OrderSide::Buy, OrderType::Limit, dec(100, 0), Some(dec(15000, 2)), "buyer");

    engine.submit_order(sell_order).unwrap();
    let trades = engine.submit_order(buy_order).unwrap();

    assert_eq!(trades.len(), 1);
    assert_eq!(trades[0].quantity, dec(100, 0));
    assert_eq!(trades[0].price, dec(15000, 2));
}

#[test]
fn test_partial_fill() {
    let mut engine = MatchingEngine::new();

    let sell_order = order(OrderSide::Sell, OrderType::Limit, dec(50, 0), Some(dec(15000, 2)), "seller");
    let buy_order = order(OrderSide::Buy, OrderType::Limit, dec(100, 0), Some(dec(15000, 2)), "buyer");

    engine.submit_order(sell_order).unwrap();
    let trades = engine.submit_order(buy_order.clone()).unwrap();

    assert_eq!(trades.len(), 1);
    assert_eq!(trades[0].quantity, dec(50, 0));

    let stored_order = engine.get_order(buy_order.id).unwrap();
    assert_eq!(stored_order.filled_quantity, dec(50, 0));
    assert_eq!(stored_order.status, OrderStatus::PartiallyFilled);
}

#[test]
fn test_order_cancellation() {
    let mut engine = MatchingEngine::new();

    let o = order(OrderSide::Buy, OrderType::Limit, dec(100, 0), Some(dec(15000, 2)), "buyer");
    let order_id = o.id;
    engine.submit_order(o).unwrap();

    assert!(engine.cancel_order(order_id).is_ok());

    let cancelled_order = engine.get_order(order_id).unwrap();
    assert_eq!(cancelled_order.status, OrderStatus::Cancelled);
}

#[test]
fn invalid_order_is_not_stored() {
    let mut engine = MatchingEngine::new();
    let o = order(OrderSide::Buy, OrderType::Limit, dec(0, 0), Some(dec(1, 0)), "u");
    let id = o.id;
    assert_eq!(engine.submit_order(o).unwrap_err(), "Quantity must be positive");
    assert!(engine.get_order(id).is_none());
    assert!(engine.get_orderbook("AAPL").is_none());
}

#[test]
fn duplicate_id_is_refused() {
    let mut engine = MatchingEngine::new();
    let o = order(OrderSide::Buy, OrderType::Limit, dec(1, 0), Some(dec(1, 0)), "u");
    engine.submit_order(o.clone()).unwrap();
    assert_eq!(engine.submit_order(o).unwrap_err(), "Duplicate order id");
}

#[test]
fn cancel_errors() {
    let mut engine = MatchingEngine::new();
    assert_eq!(engine.cancel_order(42).unwrap_err(), "Order not found");

    let s = order(OrderSide::Sell, OrderType::Limit, dec(10, 0), Some(dec(5, 0)), "s");
    let b = order(OrderSide::Buy, OrderType::Limit, dec(10, 0), Some(dec(5, 0)), "b");
    let sid = s.id;
    engine.submit_order(s).unwrap();
    engine.submit_order(b).unwrap();
    assert_eq!(engine.cancel_order(sid).unwrap_err(), "Cannot cancel filled order");
    assert_eq!(engine.get_order(sid).unwrap().status, OrderStatus::Filled);
}

#[test]
fn cancel_partially_filled_removes_rest() {
    let mut engine = MatchingEngine::new();
    let s = order(OrderSide::Sell, OrderType::Limit, dec(100, 0), Some(dec(10, 0)), "s");
    let sid = s.id;
    engine.submit_order(s).unwrap();
    engine.submit_order(order(OrderSide::Buy, OrderType::Limit, dec(30, 0), Some(dec(10, 0)), "b")).unwrap();
    let book = engine.get_orderbook("AAPL").unwrap();
    assert_eq!(book.asks[0].total_quantity, dec(70, 0));
    engine.cancel_order(sid).unwrap();
    let after = engine.get_orderbook("AAPL").unwrap();
    assert!(after.asks.is_empty());
    let stored = engine.get_order(sid).unwrap();
    assert_eq!(stored.status, OrderStatus::Cancelled);
    assert_eq!(stored.filled_quantity, dec(30, 0));
}

#[test]
fn rejected_order_stays_rejected_on_cancel() {
    let mut engine = MatchingEngine::new();
    let m = order(OrderSide::Buy, OrderType::Market, dec(5, 0), None, "b");
    let id = m.id;
    assert!(engine.submit_order(m).is_err());
    assert!(engine.cancel_order(id).is_ok());
    assert_eq!(engine.get_order(id).unwrap().status, OrderStatus::Rejected);
}

#[test]
fn time_priority_within_level() {
    let mut engine = MatchingEngine::new();
    let first = order(OrderSide::Sell, OrderType::Limit, dec(10, 0), Some(dec(100, 0)), "a");
    let second = order(OrderSide::Sell, OrderType::Limit, dec(10, 0), Some(dec(100, 0)), "b");
    let (fid, sid) = (first.id, second.id);
    engine.submit_order(first).unwrap();
    engine.submit_order(second).unwrap();
    let trades = engine
        .submit_order(order(OrderSide::Buy, OrderType::Limit, dec(15, 0), Some(dec(100, 0)), "c"))
        .unwrap();
    assert_eq!(trades.len(), 2);
    assert_eq!(trades[0].seller_order_id, fid);
    assert_eq!(trades[0].quantity, dec(10, 0));
    assert_eq!(trades[1].seller_order_id, sid);
    assert_eq!(trades[1].quantity, dec(5, 0));
    let book = engine.get_orderbook("AAPL").unwrap();
    assert_eq!(book.asks[0].orders, vec![sid]);
    assert_eq!(book.asks[0].total_quantity, dec(5, 0));
}

#[test]
fn price_priority_and_maker_price() {
    let mut engine = MatchingEngine::new();
    engine.submit_order(order(OrderSide::Buy, OrderType::Limit, dec(10, 0), Some(dec(99, 0)), "a")).unwrap();
    engine.submit_order(order(OrderSide::Buy, OrderType::Limit, dec(10, 0), Some(dec(101, 0)), "b")).unwrap();
    engine.submit_order(order(OrderSide::Buy, OrderType::Limit, dec(10, 0), Some(dec(100, 0)), "c")).unwrap();
    let trades = engine
        .submit_order(order(OrderSide::Sell, OrderType::Limit, dec(25, 0), Some(dec(95, 0)), "d"))
        .unwrap();
    let prices: Vec<Decimal> = trades.iter().map(|t| t.price).collect();
    assert_eq!(prices, vec![dec(101, 0), dec(100, 0), dec(99, 0)]);
    let total: i128 = trades.iter().map(|t| t.quantity.units).sum();
    assert_eq!(total, dec(25, 0).units);
    assert!(trades.iter().all(|t| t.side == OrderSide::Sell));
    let book = engine.get_orderbook("AAPL").unwrap();
    assert_eq!(book.bids[0].total_quantity, dec(5, 0));
}

#[test]
fn conservation_of_quantity() {
    let mut engine = MatchingEngine::new();
    engine.submit_order(order(OrderSide::Sell, OrderType::Limit, dec(30, 0), Some(dec(10, 0)), "a")).unwrap();
    engine.submit_order(order(OrderSide::Sell, OrderType::Limit, dec(40, 0), Some(dec(11, 0)), "b")).unwrap();
    let before: i128 = engine.get_orderbook("AAPL").unwrap().asks.iter().map(|l| l.total_quantity.units).sum();
    let taker = order(OrderSide::Buy, OrderType::Limit, dec(50, 0), Some(dec(11, 0)), "c");
    let tid = taker.id;
    let trades = engine.submit_order(taker).unwrap();
    let traded: i128 = trades.iter().map(|t| t.quantity.units).sum();
    let after: i128 = engine.get_orderbook("AAPL").unwrap().asks.iter().map(|l| l.total_quantity.units).sum();
    assert_eq!(traded, engine.get_order(tid).unwrap().filled_quantity.units);
    assert_eq!(before - after, traded);
}

#[test]
fn cross_free_after_every_submit() {
    let mut engine = MatchingEngine::new();
    let prices = [100, 103, 98, 101, 99, 102, 100];
    for (i, p) in prices.iter().enumerate() {
        let side = if i % 2 == 0 { OrderSide::Buy } else { OrderSide::Sell };
        engine.submit_order(order(side, OrderType::Limit, dec(7, 0), Some(dec(*p, 0)), "u")).unwrap();
        let book = engine.get_orderbook("AAPL").unwrap();
        if let (Some(b), Some(a)) = (book.best_bid(), book.best_ask()) {
            assert!(b.units < a.units);
        }
        for l in book.bids.iter().chain(book.asks.iter()) {
            assert!(!l.orders.is_empty());
            let sum: i128 = l.orders.iter().map(|id| engine.get_order(*id).unwrap().remaining_quantity().units).sum();
            assert_eq!(sum, l.total_quantity.units);
        }
    }
}

#[test]
fn stop_loss_is_stored_dormant() {
    let mut engine = MatchingEngine::new();
    engine.submit_order(order(OrderSide::Buy, OrderType::Limit, dec(10, 0), Some(dec(100, 0)), "a")).unwrap();
    let mut stop = order(OrderSide::Sell, OrderType::StopLoss, dec(10, 0), None, "b");
    stop.stop_price = Some(dec(90, 0));
    let id = stop.id;
    let trades = engine.submit_order(stop).unwrap();
    assert!(trades.is_empty());
    assert_eq!(engine.get_order(id).unwrap().status, OrderStatus::Pending);
    assert_eq!(engine.get_orderbook("AAPL").unwrap().best_bid(), Some(dec(100, 0)));
}

#[test]
fn stop_limit_matches_as_limit() {
    let mut engine = MatchingEngine::new();
    engine.submit_order(order(OrderSide::Sell, OrderType::Limit, dec(10, 0), Some(dec(100, 0)), "a")).unwrap();
    let mut sl = order(OrderSide::Buy, OrderType::StopLimit, dec(4, 0), Some(dec(100, 0)), "b");
    sl.stop_price = Some(dec(95, 0));
    let trades = engine.submit_order(sl).unwrap();
    assert_eq!(trades.len(), 1);
    assert_eq!(trades[0].quantity, dec(4, 0));
}

#[test]
fn symbols_are_independent() {
    let mut engine = MatchingEngine::default();
    engine.submit_order(order(OrderSide::Sell, OrderType::Limit, dec(10, 0), Some(dec(100, 0)), "a")).unwrap();
    let other = Order::new(
        "MSFT".to_string(),
        OrderSide::Buy,
        OrderType::Limit,
        dec(10, 0),
        Some(dec(200, 0)),
        None,
        "b".to_string(),
    );
    assert!(engine.submit_order(other).unwrap().is_empty());
    assert_eq!(engine.get_orderbook("MSFT").unwrap().best_bid(), Some(dec(200, 0)));
    assert_eq!(engine.get_orderbook("AAPL").unwrap().best_ask(), Some(dec(100, 0)));
}
