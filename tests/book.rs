use rust_hft_trading_engine::{Decimal, Order, OrderBook, OrderSide, OrderStatus, OrderType, PriceLevel};

fn dec(num: i128, scale: u32) -> Decimal {
    Decimal::new(num, scale)
}

fn create_test_order(side: OrderSide, price: Decimal, quantity: Decimal) -> Order {
    let now = chrono::Utc::now().timestamp_micros();
    Order {
        id: uuid::Uuid::new_v4().as_u128(),
        symbol: "AAPL".to_string(),
        side,
        order_type: OrderType::Limit,
        quantity,
        filled_quantity: Decimal::zero(),
        price: Some(price),
        stop_price: None,
        status: OrderStatus::Pending,
        user_id: "test_user".to_string(),
        timestamp: now,
        updated_at: now,
    }
}

#[test]
fn test_orderbook_creation() {
    let book = OrderBook::new("AAPL".to_string());
    assert_eq!(book.symbol, "AAPL");
    assert!(book.bids.is_empty());
    assert!(book.asks.is_empty());
}

#[test]
fn test_add_orders() {
    let mut book = OrderBook::new("AAPL".to_string());

    let buy_order = create_test_order(OrderSide::Buy, dec(15000, 2), dec(100, 0));
    let sell_order = create_test_order(OrderSide::Sell, dec(15100, 2), dec(100, 0));

    book.add_order(&buy_order);
    book.add_order(&sell_order);

    assert_eq!(book.best_bid(), Some(dec(15000, 2)));
    assert_eq!(book.best_ask(), Some(dec(15100, 2)));
}

#[test]
fn test_spread_calculation() {
    let mut book = OrderBook::new("AAPL".to_string());

    let buy_order = create_test_order(OrderSide::Buy, dec(15000, 2), dec(100, 0));
    let sell_order = create_test_order(OrderSide::Sell, dec(15100, 2), dec(100, 0));

    book.add_order(&buy_order);
    book.add_order(&sell_order);

    assert_eq!(book.spread(), Some(dec(100, 2)));
    assert_eq!(book.mid_price(), Some(dec(15050, 2).widen()));
}

#[test]
fn test_depth() {
    let mut book = OrderBook::new("AAPL".to_string());

    book.add_order(&create_test_order(OrderSide::Buy, dec(15000, 2), dec(100, 0)));
    book.add_order(&create_test_order(OrderSide::Buy, dec(14900, 2), dec(200, 0)));
    book.add_order(&create_test_order(OrderSide::Sell, dec(15100, 2), dec(150, 0)));
    book.add_order(&create_test_order(OrderSide::Sell, dec(15200, 2), dec(250, 0)));

    let bid_depth = book.depth(OrderSide::Buy, 2);
    assert_eq!(bid_depth.len(), 2);
    assert_eq!(bid_depth[0], (dec(15000, 2), dec(100, 0)));
    assert_eq!(bid_depth[1], (dec(14900, 2), dec(200, 0)));

    let ask_depth = book.depth(OrderSide::Sell, 2);
    assert_eq!(ask_depth.len(), 2);
    assert_eq!(ask_depth[0], (dec(15100, 2), dec(150, 0)));
    assert_eq!(ask_depth[1], (dec(15200, 2), dec(250, 0)));
}

#[test]
fn levels_stay_in_price_order() {
    let mut book = OrderBook::new("AAPL".to_string());
    for p in [149, 151, 150, 148] {
        book.add_order(&create_test_order(OrderSide::Buy, dec(p, 0), dec(1, 0)));
        book.add_order(&create_test_order(OrderSide::Sell, dec(p + 10, 0), dec(1, 0)));
    }
    let bids: Vec<Decimal> = book.bids.iter().map(|l| l.price).collect();
    let asks: Vec<Decimal> = book.asks.iter().map(|l| l.price).collect();
    assert_eq!(bids, vec![dec(151, 0), dec(150, 0), dec(149, 0), dec(148, 0)]);
    assert_eq!(asks, vec![dec(158, 0), dec(159, 0), dec(160, 0), dec(161, 0)]);
    assert_eq!(book.depth(OrderSide::Buy, 10).len(), 4);
    assert_eq!(book.depth(OrderSide::Sell, 0).len(), 0);
}

#[test]
fn same_price_queues_in_arrival_order() {
    let mut book = OrderBook::new("AAPL".to_string());
    let a = create_test_order(OrderSide::Sell, dec(150, 0), dec(10, 0));
    let b = create_test_order(OrderSide::Sell, dec(150, 0), dec(20, 0));
    book.add_order(&a);
    book.add_order(&b);
    assert_eq!(book.asks.len(), 1);
    assert_eq!(book.asks[0].orders, vec![a.id, b.id]);
    assert_eq!(book.asks[0].total_quantity, dec(30, 0));
    assert_eq!(book.best_front(OrderSide::Sell), Some((dec(150, 0), a.id)));
}

#[test]
fn removing_last_order_evicts_level() {
    let mut book = OrderBook::new("AAPL".to_string());
    let a = create_test_order(OrderSide::Buy, dec(150, 0), dec(10, 0));
    let b = create_test_order(OrderSide::Buy, dec(150, 0), dec(20, 0));
    book.add_order(&a);
    book.add_order(&b);
    book.remove_order(&a);
    assert_eq!(book.bids[0].orders, vec![b.id]);
    assert_eq!(book.bids[0].total_quantity, dec(20, 0));
    book.remove_order(&a);
    assert_eq!(book.bids[0].total_quantity, dec(20, 0));
    book.remove_order(&b);
    assert!(book.bids.is_empty());
    assert_eq!(book.best_bid(), None);
    assert_eq!(book.spread(), None);
    assert_eq!(book.mid_price(), None);
}

#[test]
fn price_level_queue_operations() {
    let mut level = PriceLevel::new(dec(10, 0));
    level.add_order(1, dec(5, 0));
    level.add_order(2, dec(7, 0));
    level.add_order(1, dec(3, 0));
    assert_eq!(level.total_quantity, dec(15, 0));
    level.remove_order(1, dec(5, 0));
    assert_eq!(level.orders, vec![2, 1]);
    assert_eq!(level.total_quantity, dec(10, 0));
    level.remove_order(9, dec(0, 0));
    assert_eq!(level.orders, vec![2, 1]);
}

#[test]
fn best_level_reduce_and_pop() {
    let mut book = OrderBook::new("AAPL".to_string());
    let a = create_test_order(OrderSide::Sell, dec(150, 0), dec(10, 0));
    let b = create_test_order(OrderSide::Sell, dec(151, 0), dec(20, 0));
    book.add_order(&a);
    book.add_order(&b);
    book.reduce_best(OrderSide::Sell, dec(4, 0));
    assert_eq!(book.asks[0].total_quantity, dec(6, 0));
    book.pop_best(OrderSide::Sell);
    assert_eq!(book.best_ask(), Some(dec(151, 0)));
    assert!(book.has_room(OrderSide::Sell, dec(151, 0), dec(1, 0)));
}
