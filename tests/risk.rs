use rust_hft_trading_engine::{join_reason, Decimal, Order, OrderSide, OrderType, RiskCheck, RiskLimits, RiskManager, Trade};

fn dec(num: i128, scale: u32) -> Decimal {
    Decimal::new(num, scale)
}

fn create_test_order(quantity: Decimal, price: Decimal) -> Order {
    Order::new(
        "AAPL".to_string(),
        OrderSide::Buy,
        OrderType::Limit,
        quantity,
        Some(price),
        None,
        "user123".to_string(),
    )
}

#[test]
fn test_order_size_check() {
    let limits = RiskLimits { max_order_size: dec(1000, 0), ..Default::default() };
    let risk_manager = RiskManager::new(limits);

    let valid_order = create_test_order(dec(500, 0), dec(15000, 2));
    let check = risk_manager.check_order(&valid_order);
    assert!(check.passed);

    let invalid_order = create_test_order(dec(2000, 0), dec(15000, 2));
    let check = risk_manager.check_order(&invalid_order);
    assert!(!check.passed);
}

#[test]
fn test_order_value_check() {
    let limits = RiskLimits { max_order_value: dec(100000, 0), ..Default::default() };
    let risk_manager = RiskManager::new(limits);

    let valid_order = create_test_order(dec(500, 0), dec(15000, 2));
    let check = risk_manager.check_order(&valid_order);
    assert!(check.passed);

    let invalid_order = create_test_order(dec(1000, 0), dec(100000, 2));
    let check = risk_manager.check_order(&invalid_order);
    assert!(!check.passed);
}

#[test]
fn test_position_tracking() {
    let mut risk_manager = RiskManager::new(RiskLimits::default());

    let trade = Trade::new(
        "AAPL".to_string(),
        uuid::Uuid::new_v4().as_u128(),
        uuid::Uuid::new_v4().as_u128(),
        dec(15000, 2),
        dec(100, 0),
        OrderSide::Buy,
    );

    risk_manager.update_position("user123", &trade);
    assert_eq!(risk_manager.get_position("user123"), dec(100, 0));
}

#[test]
fn test_pnl_tracking() {
    let mut risk_manager = RiskManager::new(RiskLimits::default());

    risk_manager.update_pnl("user123", dec(1000, 0));
    risk_manager.update_pnl("user123", dec(-500, 0));

    assert_eq!(risk_manager.get_daily_pnl("user123"), dec(500, 0));
}

#[test]
fn default_limits() {
    let l = RiskLimits::default();
    assert_eq!(l.max_order_size, dec(10000, 0));
    assert_eq!(l.max_position_size, dec(100000, 0));
    assert_eq!(l.max_daily_loss, dec(50000, 0));
    assert_eq!(l.max_order_value, dec(1000000, 0));
}

#[test]
fn size_reason_text() {
    let gate = RiskManager::new(RiskLimits { max_order_size: dec(1000, 0), ..Default::default() });
    let check = gate.check_order(&create_test_order(dec(20005, 1), dec(1, 0)));
    assert_eq!(check.reason.unwrap(), "Order size 2000.5 exceeds maximum 1000");
}

#[test]
fn position_reason_and_sell_side() {
    let mut gate = RiskManager::new(RiskLimits { max_position_size: dec(150, 0), ..Default::default() });
    let trade = Trade::new("AAPL".to_string(), 1, 2, dec(1, 0), dec(100, 0), OrderSide::Buy);
    gate.update_position("user123", &trade);
    let check = gate.check_order(&create_test_order(dec(60, 0), dec(1, 0)));
    assert_eq!(check.reason.unwrap(), "New position 160 would exceed maximum 150");
    let sell = Trade::new("AAPL".to_string(), 1, 2, dec(1, 0), dec(30, 0), OrderSide::Sell);
    gate.update_position("user123", &sell);
    assert_eq!(gate.get_position("user123"), dec(70, 0));
    assert_eq!(gate.get_position("nobody"), dec(0, 0));
}

#[test]
fn daily_loss_reason_and_reset() {
    let mut gate = RiskManager::new(RiskLimits { max_daily_loss: dec(100, 0), ..Default::default() });
    gate.update_pnl("user123", dec(-1505, 1));
    let check = gate.check_order(&create_test_order(dec(1, 0), dec(1, 0)));
    assert!(!check.passed);
    assert_eq!(check.reason.unwrap(), "Daily loss -150.5 exceeds maximum 100");
    gate.reset_daily_pnl();
    assert_eq!(gate.get_daily_pnl("user123"), dec(0, 0));
    assert!(gate.check_order(&create_test_order(dec(1, 0), dec(1, 0))).passed);
}

#[test]
fn risk_check_builders() {
    let p = RiskCheck::pass();
    assert!(p.passed && p.reason.is_none());
    let f = RiskCheck::fail("no".to_string());
    assert!(!f.passed);
    assert_eq!(f.reason.unwrap(), "no");
}

#[test]
fn market_order_skips_value_check() {
    let gate = RiskManager::new(RiskLimits { max_order_value: dec(1, 0), ..Default::default() });
    let o = Order::new("AAPL".to_string(), OrderSide::Sell, OrderType::Market, dec(10, 0), None, None, "u".to_string());
    assert!(gate.check_order(&o).passed);
}

#[test]
fn reason_joins_parts_in_order() {
    assert_eq!(join_reason("Daily loss ", "-7", " exceeds maximum ", "5"), "Daily loss -7 exceeds maximum 5");
}
