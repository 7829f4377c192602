use rust_hft_trading_engine::{
    Decimal, MarketData, Order, OrderSide, OrderStatus, OrderType, Quote, Trade, WideDecimal,
};

fn dec(num: i128, scale: u32) -> Decimal {
    Decimal::new(num, scale)
}

fn limit_order(side: OrderSide, quantity: Decimal, price: Decimal) -> Order {
    Order::new(
        "AAPL".to_string(),
        side,
        OrderType::Limit,
        quantity,
        Some(price),
        None,
        "user123".to_string(),
    )
}

#[test]
fn test_order_creation() {
    let order = limit_order(OrderSide::Buy, dec(100, 0), dec(15050, 2));
    assert_eq!(order.symbol, "AAPL");
    assert_eq!(order.side, OrderSide::Buy);
    assert_eq!(order.quantity, dec(100, 0));
    assert_eq!(order.status, OrderStatus::Pending);
}

#[test]
fn test_order_fill() {
    let mut order = limit_order(OrderSide::Buy, dec(100, 0), dec(15050, 2));

    order.fill(dec(50, 0));
    assert_eq!(order.filled_quantity, dec(50, 0));
    assert_eq!(order.status, OrderStatus::PartiallyFilled);
    assert_eq!(order.remaining_quantity(), dec(50, 0));

    order.fill(dec(50, 0));
    assert_eq!(order.filled_quantity, dec(100, 0));
    assert_eq!(order.status, OrderStatus::Filled);
    assert!(order.is_fully_filled());
}

#[test]
fn test_order_validation() {
    let valid_order = limit_order(OrderSide::Buy, dec(100, 0), dec(15050, 2));
    assert!(valid_order.validate().is_ok());

    let invalid_order = limit_order(OrderSide::Buy, dec(-100, 0), dec(15050, 2));
    assert!(invalid_order.validate().is_err());
}

#[test]
fn test_trade_creation() {
    let trade = Trade::new(
        "AAPL".to_string(),
        uuid::Uuid::new_v4().as_u128(),
        uuid::Uuid::new_v4().as_u128(),
        dec(15050, 2),
        dec(100, 0),
        OrderSide::Buy,
    );

    assert_eq!(trade.symbol, "AAPL");
    assert_eq!(trade.price, dec(15050, 2));
    assert_eq!(trade.quantity, dec(100, 0));
}

#[test]
fn test_notional_value() {
    let trade = Trade::new(
        "AAPL".to_string(),
        uuid::Uuid::new_v4().as_u128(),
        uuid::Uuid::new_v4().as_u128(),
        dec(15050, 2),
        dec(100, 0),
        OrderSide::Buy,
    );

    assert_eq!(trade.notional_value(), dec(1505000, 2).widen());
}

#[test]
fn test_quote_calculations() {
    let quote = Quote {
        symbol: "AAPL".to_string(),
        bid_price: dec(15000, 2),
        bid_size: dec(100, 0),
        ask_price: dec(15100, 2),
        ask_size: dec(100, 0),
        timestamp: chrono::Utc::now().timestamp_micros(),
    };

    assert_eq!(quote.spread(), dec(100, 2));
    assert_eq!(quote.mid_price(), dec(15050, 2).widen());
}

#[test]
fn decimal_new_scales_to_units() {
    assert_eq!(dec(15050, 2).units, 15_050_000_000);
    assert_eq!(dec(1, 8).units, 1);
    assert_eq!(Decimal::from_int(3).units, 300_000_000);
    assert_eq!(dec(150, 0), dec(15000, 2));
}

#[test]
fn decimal_arithmetic_is_exact() {
    assert_eq!(dec(1, 1).add(dec(2, 1)), dec(3, 1));
    assert_eq!(dec(15100, 2).sub(dec(15000, 2)), dec(1, 0));
    assert_eq!(dec(-5, 0).abs(), dec(5, 0));
    assert_eq!(dec(3, 0).min(dec(2, 0)), dec(2, 0));
    assert_eq!(dec(-2, 0).times(dec(15, 1)), dec(-3, 0).widen());
    assert_eq!(dec(1, 8).times(dec(1, 8)), WideDecimal { units: 1 });
    assert_eq!(dec(3, 8).mean(dec(0, 0)).units, 150_000_000);
}

#[test]
fn notional_of_fractional_prices() {
    let trade = Trade::new("X".to_string(), 1, 2, dec(12345, 3), dec(3, 0), OrderSide::Sell);
    assert_eq!(trade.notional_value(), dec(37035, 3).widen());
    let tiny = Trade::new("X".to_string(), 1, 2, dec(1, 8), dec(1, 8), OrderSide::Buy);
    assert_eq!(tiny.notional_value().units, 1);
}

#[test]
fn validation_messages_in_order() {
    let mut o = limit_order(OrderSide::Buy, dec(0, 0), dec(1, 0));
    assert_eq!(o.validate().unwrap_err(), "Quantity must be positive");
    o.quantity = dec(1, 0);
    o.price = None;
    assert_eq!(o.validate().unwrap_err(), "Limit orders must have a positive price");
    o.price = Some(dec(-1, 0));
    assert_eq!(o.validate().unwrap_err(), "Limit orders must have a positive price");
    o.order_type = OrderType::StopLimit;
    o.price = Some(dec(1, 0));
    assert_eq!(o.validate().unwrap_err(), "Stop orders must have a positive stop price");
    o.stop_price = Some(dec(1, 0));
    assert!(o.validate().is_ok());
    o.order_type = OrderType::StopLoss;
    o.stop_price = Some(dec(0, 0));
    assert_eq!(o.validate().unwrap_err(), "Stop orders must have a positive stop price");
    o.order_type = OrderType::Market;
    o.price = None;
    assert!(o.validate().is_ok());
}

#[test]
fn terminal_status_is_kept() {
    let mut o = limit_order(OrderSide::Sell, dec(10, 0), dec(1, 0));
    o.fill(dec(10, 0));
    assert_eq!(o.status, OrderStatus::Filled);
    o.cancel();
    assert_eq!(o.status, OrderStatus::Filled);
    o.reject();
    assert_eq!(o.status, OrderStatus::Filled);

    let mut p = limit_order(OrderSide::Sell, dec(10, 0), dec(1, 0));
    p.reject();
    assert_eq!(p.status, OrderStatus::Rejected);
    p.cancel();
    assert_eq!(p.status, OrderStatus::Rejected);
}

#[test]
fn fresh_ids_differ() {
    let a = limit_order(OrderSide::Buy, dec(1, 0), dec(1, 0));
    let b = limit_order(OrderSide::Buy, dec(1, 0), dec(1, 0));
    assert_ne!(a.id, b.id);
    assert!(a.timestamp > 0);
    assert_eq!(a.timestamp, a.updated_at);
}

#[test]
fn market_data_builders() {
    let m = MarketData::new();
    assert!(m.ticker.is_none() && m.quote.is_none());
    let d = MarketData::default();
    assert!(d.ticker.is_none() && d.quote.is_none());
    let q = Quote {
        symbol: "A".to_string(),
        bid_price: dec(1, 0),
        bid_size: dec(1, 0),
        ask_price: dec(2, 0),
        ask_size: dec(1, 0),
        timestamp: 0,
    };
    let w = MarketData::with_quote(q);
    assert!(w.ticker.is_none());
    assert_eq!(w.quote.unwrap().ask_price, dec(2, 0));
}
