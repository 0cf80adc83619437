use rotala::exchange::uist_v2::{Order, OrderBook};
use rotala::source::hyperliquid::{DateDepth, DateTrade, Depth, Level, Side, Trade};

fn trades() -> DateTrade {
    let bid_trade = Trade {
        coin: "ABC".to_string(),
        side: Side::Bid,
        px: 100,
        sz: 100,
        time: 100,
        exchange: "exchange".to_string(),
    };
    let ask_trade = Trade {
        coin: "ABC".to_string(),
        side: Side::Ask,
        px: 102,
        sz: 100,
        time: 100,
        exchange: "exchange".to_string(),
    };

    let mut trades: DateTrade = DateTrade::new();
    trades.insert(100, vec![bid_trade, ask_trade]);

    trades
}

fn quotes() -> DateDepth {
    let bid_level = Level {
        price: 100,
        size: 100,
    };

    let ask_level = Level {
        price: 102,
        size: 100,
    };

    let mut depth = Depth::new(100, "ABC", "exchange");
    depth.add_level(bid_level, Side::Bid);
    depth.add_level(ask_level, Side::Ask);

    let mut quotes: DateDepth = DateDepth::new();
    quotes.insert(depth);
    quotes
}

fn trades1() -> DateTrade {
    let bid_trade = Trade {
        coin: "ABC".to_string(),
        side: Side::Bid,
        px: 98,
        sz: 20,
        time: 100,
        exchange: "exchange".to_string(),
    };
    let ask_trade = Trade {
        coin: "ABC".to_string(),
        side: Side::Ask,
        px: 102,
        sz: 20,
        time: 100,
        exchange: "exchange".to_string(),
    };

    let mut trades: DateTrade = DateTrade::new();
    trades.insert(100, vec![bid_trade, ask_trade]);

    trades
}

fn quotes1() -> DateDepth {
    let bid_level = Level {
        price: 98,
        size: 20,
    };

    let ask_level = Level {
        price: 102,
        size: 20,
    };

    let mut depth = Depth::new(100, "ABC", "exchange");
    depth.add_level(bid_level, Side::Bid);
    depth.add_level(ask_level, Side::Ask);

    let mut quotes: DateDepth = DateDepth::new();
    quotes.insert(depth);
    quotes
}

#[test]
fn test_that_nonexistent_buy_order_cancel_produces_empty_result() {
    let quotes = quotes();
    let trades = trades();
    let mut orderbook = OrderBook::new();
    orderbook.insert_order(Order::cancel_order("ABC", 10, "exchange"), 100);
    let res = orderbook.execute_orders(&quotes, &trades, 100);
    assert!(res.is_empty())
}

#[test]
fn test_that_nonexistent_buy_order_modify_throws_error() {
    let quotes = quotes();
    let trades = trades();
    let mut orderbook = OrderBook::new();
    orderbook.insert_order(Order::modify_order("ABC", 10, 100, "exchange"), 100);
    let res = orderbook.execute_orders(&quotes, &trades, 100);
    assert!(res.is_empty())
}

#[test]
fn test_that_buy_order_can_be_cancelled_and_modified() {
    let quotes = quotes();
    let trades = trades();

    let mut orderbook = OrderBook::new();
    let oid = orderbook
        .insert_order(Order::limit_buy("ABC", 100, 1, "exchange"), 100)
        .order_id;

    orderbook.insert_order(Order::cancel_order("ABC", oid, "exchange"), 100);
    let res = orderbook.execute_orders(&quotes, &trades, 100);
    println!("{:?}", res);
    assert!(res.len() == 1);

    let oid1 = orderbook
        .insert_order(Order::limit_buy("ABC", 200, 1, "exchange"), 100)
        .order_id;
    orderbook.insert_order(Order::modify_order("ABC", oid1, 100, "exchange"), 100);
    let res = orderbook.execute_orders(&quotes, &trades, 100);
    assert!(res.len() == 1);
}

#[test]
fn test_that_buy_order_will_lift_all_volume_when_order_is_equal_to_depth_size() {
    let quotes = quotes();
    let trades = trades();

    let mut orderbook = OrderBook::new();
    let order = Order::market_buy("ABC", 100, "exchange");
    orderbook.insert_order(order, 100);

    let res = orderbook.execute_orders(&quotes, &trades, 100);
    assert!(res.len() == 1);
    let trade = res.first().unwrap();
    assert!(trade.quantity as f64 == 100.00);
    assert!(trade.value as f64 / trade.quantity as f64 == 102.00);
}

#[test]
fn test_that_sell_order_will_lift_all_volume_when_order_is_equal_to_depth_size() {
    let quotes = quotes();
    let trades = trades();

    let mut orderbook = OrderBook::new();
    let order = Order::market_sell("ABC", 100, "exchange");
    orderbook.insert_order(order, 100);

    let res = orderbook.execute_orders(&quotes, &trades, 100);
    assert!(res.len() == 1);
    let trade = res.first().unwrap();
    assert!(trade.quantity as f64 == 100.00);
    assert!(trade.value as f64 / trade.quantity as f64 == 100.00);
}

#[test]
fn test_that_order_will_lift_order_qty_when_order_is_less_than_depth_size() {
    let quotes = quotes();
    let trades = trades();
    let mut orderbook = OrderBook::new();
    let order = Order::market_buy("ABC", 50, "exchange");
    orderbook.insert_order(order, 100);

    let res = orderbook.execute_orders(&quotes, &trades, 100);
    assert!(res.len() == 1);
    let trade = res.first().unwrap();
    assert!(trade.quantity as f64 == 50.00);
    assert!(trade.value as f64 / trade.quantity as f64 == 102.00);
}

#[test]
fn test_that_order_will_lift_qty_from_other_levels_when_price_is_good() {
    let bid_level = Level {
        price: 100,
        size: 100,
    };

    let ask_level = Level {
        price: 102,
        size: 80,
    };

    let ask_level_1 = Level {
        price: 103,
        size: 20,
    };

    let mut depth = Depth::new(100, "ABC", "exchange");
    depth.add_level(bid_level, Side::Bid);
    depth.add_level(ask_level, Side::Ask);
    depth.add_level(ask_level_1, Side::Ask);

    let mut quotes: DateDepth = DateDepth::new();
    quotes.insert(depth);

    let bid_trade = Trade {
        coin: "ABC".to_string(),
        side: Side::Bid,
        px: 100,
        sz: 100,
        time: 100,
        exchange: "exchange".to_string(),
    };
    let ask_trade = Trade {
        coin: "ABC".to_string(),
        side: Side::Ask,
        px: 102,
        sz: 80,
        time: 100,
        exchange: "exchange".to_string(),
    };

    let mut trades: DateTrade = DateTrade::new();
    trades.insert(100, vec![bid_trade, ask_trade]);

    let mut orderbook = OrderBook::new();
    let order = Order::market_buy("ABC", 100, "exchange");
    orderbook.insert_order(order, 100);

    let res = orderbook.execute_orders(&quotes, &trades, 100);
    assert!(res.len() == 2);
    let first_trade = res.first().unwrap();
    let second_trade = res.get(1).unwrap();

    println!("{:?}", first_trade);
    println!("{:?}", second_trade);
    assert!(first_trade.quantity as f64 == 80.0);
    assert!(second_trade.quantity as f64 == 20.0);
}

#[test]
fn test_that_limit_buy_order_lifts_all_volume_when_price_is_good() {
    let bid_level = Level {
        price: 100,
        size: 100,
    };

    let ask_level = Level {
        price: 102,
        size: 80,
    };

    let ask_level_1 = Level {
        price: 103,
        size: 20,
    };

    let ask_level_2 = Level {
        price: 104,
        size: 20,
    };

    let mut depth = Depth::new(100, "ABC", "exchange");
    depth.add_level(bid_level, Side::Bid);
    depth.add_level(ask_level, Side::Ask);
    depth.add_level(ask_level_1, Side::Ask);
    depth.add_level(ask_level_2, Side::Ask);

    let mut quotes: DateDepth = DateDepth::new();
    quotes.insert(depth);

    let bid_trade = Trade {
        coin: "ABC".to_string(),
        side: Side::Bid,
        px: 100,
        sz: 100,
        time: 100,
        exchange: "exchange".to_string(),
    };
    let ask_trade = Trade {
        coin: "ABC".to_string(),
        side: Side::Ask,
        px: 102,
        sz: 80,
        time: 100,
        exchange: "exchange".to_string(),
    };

    let mut trades: DateTrade = DateTrade::new();
    trades.insert(100, vec![bid_trade, ask_trade]);

    let mut orderbook = OrderBook::new();
    let order = Order::limit_buy("ABC", 120, 103, "exchange");
    orderbook.insert_order(order, 100);

    let res = orderbook.execute_orders(&quotes, &trades, 100);
    println!("{:?}", res);
    assert!(res.len() == 2);
    let first_trade = res.first().unwrap();
    let second_trade = res.get(1).unwrap();

    println!("{:?}", first_trade);
    println!("{:?}", second_trade);
    assert!(first_trade.quantity as f64 == 80.0);
    assert!(second_trade.quantity as f64 == 20.0);
}

#[test]
fn test_that_limit_sell_order_lifts_all_volume_when_price_is_good() {
    let bid_level_0 = Level {
        price: 98,
        size: 20,
    };

    let bid_level_1 = Level {
        price: 99,
        size: 20,
    };

    let bid_level_2 = Level {
        price: 100,
        size: 80,
    };

    let ask_level = Level {
        price: 102,
        size: 80,
    };

    let mut depth = Depth::new(100, "ABC", "exchange");
    depth.add_level(bid_level_0, Side::Bid);
    depth.add_level(bid_level_1, Side::Bid);
    depth.add_level(bid_level_2, Side::Bid);
    depth.add_level(ask_level, Side::Ask);

    let mut quotes: DateDepth = DateDepth::new();
    quotes.insert(depth);

    let bid_trade = Trade {
        coin: "ABC".to_string(),
        side: Side::Bid,
        px: 100,
        sz: 80,
        time: 100,
        exchange: "exchange".to_string(),
    };
    let ask_trade = Trade {
        coin: "ABC".to_string(),
        side: Side::Ask,
        px: 102,
        sz: 80,
        time: 100,
        exchange: "exchange".to_string(),
    };

    let mut trades: DateTrade = DateTrade::new();
    trades.insert(100, vec![bid_trade, ask_trade]);

    let mut orderbook = OrderBook::new();
    let order = Order::limit_sell("ABC", 120, 99, "exchange");
    orderbook.insert_order(order, 100);

    let res = orderbook.execute_orders(&quotes, &trades, 100);
    println!("{:?}", res);
    assert!(res.len() == 2);
    let first_trade = res.first().unwrap();
    let second_trade = res.get(1).unwrap();

    println!("{:?}", first_trade);
    println!("{:?}", second_trade);
    assert!(first_trade.quantity as f64 == 80.0);
    assert!(second_trade.quantity as f64 == 20.0);
}

#[test]
fn test_that_repeated_orders_do_not_use_same_liquidty() {
    let quotes = quotes1();
    let trades = trades1();
    let mut orderbook = OrderBook::new();
    let first_order = Order::limit_buy("ABC", 20, 103, "exchange");
    orderbook.insert_order(first_order, 100);
    let second_order = Order::limit_buy("ABC", 20, 103, "exchange");
    orderbook.insert_order(second_order, 100);

    let res = orderbook.execute_orders(&quotes, &trades, 100);
    println!("{:?}", res);
    assert!(res.len() == 1);
}

#[test]
fn test_that_latency_model_filters_orders() {
    let bid_level = Level {
        price: 98,
        size: 20,
    };

    let ask_level = Level {
        price: 102,
        size: 20,
    };

    let mut depth = Depth::new(100, "ABC", "exchange");
    depth.add_level(bid_level.clone(), Side::Bid);
    depth.add_level(ask_level.clone(), Side::Ask);

    let mut depth_101 = Depth::new(101, "ABC", "exchange");
    depth_101.add_level(bid_level.clone(), Side::Bid);
    depth_101.add_level(ask_level.clone(), Side::Ask);

    let mut depth_102 = Depth::new(102, "ABC", "exchange");
    depth_102.add_level(bid_level, Side::Bid);
    depth_102.add_level(ask_level, Side::Ask);

    let mut quotes: DateDepth = DateDepth::new();
    quotes.insert(depth);
    quotes.insert(depth_101);
    quotes.insert(depth_102);

    let bid_trade = Trade {
        coin: "ABC".to_string(),
        side: Side::Bid,
        px: 98,
        sz: 20,
        time: 100,
        exchange: "exchange".to_string(),
    };
    let ask_trade = Trade {
        coin: "ABC".to_string(),
        side: Side::Ask,
        px: 102,
        sz: 20,
        time: 100,
        exchange: "exchange".to_string(),
    };

    let mut trades: DateTrade = DateTrade::new();
    trades.insert(100, vec![bid_trade, ask_trade]);

    let mut orderbook = OrderBook::with_latency(1);
    let order = Order::limit_buy("ABC", 20, 103, "exchange");
    orderbook.insert_order(order, 100);

    let trades_100 = orderbook.execute_orders(&quotes, &trades, 100);
    let trades_101 = orderbook.execute_orders(&quotes, &trades, 101);
    let trades_102 = orderbook.execute_orders(&quotes, &trades, 102);

    println!("{:?}", trades_101);

    assert!(trades_100.is_empty());
    assert!(trades_101.is_empty());
    assert!(trades_102.len() == 1);
}

#[test]
fn test_that_orderbook_clears_after_execution() {
    let quotes = quotes1();
    let trades = trades1();
    let mut orderbook = OrderBook::new();
    let order = Order::market_buy("ABC", 20, "exchange");
    orderbook.insert_order(order, 100);

    let completed_trades = orderbook.execute_orders(&quotes, &trades, 100);
    let completed_trades1 = orderbook.execute_orders(&quotes, &trades, 101);

    assert!(completed_trades.len() == 1);
    assert!(completed_trades1.is_empty());
}

#[test]
fn test_that_order_id_is_incrementing_and_unique() {
    let bid_level = Level {
        price: 98,
        size: 20,
    };

    let ask_level = Level {
        price: 102,
        size: 20,
    };

    let mut depth = Depth::new(100, "ABC", "exchange");
    depth.add_level(bid_level.clone(), Side::Bid);
    depth.add_level(ask_level.clone(), Side::Ask);

    let mut depth_101 = Depth::new(101, "ABC", "exchange");
    depth_101.add_level(bid_level.clone(), Side::Bid);
    depth_101.add_level(ask_level.clone(), Side::Ask);

    let mut depth_102 = Depth::new(102, "ABC", "exchange");
    depth_102.add_level(bid_level, Side::Bid);
    depth_102.add_level(ask_level, Side::Ask);

    let mut quotes: DateDepth = DateDepth::new();
    quotes.insert(depth);
    quotes.insert(depth_101);
    quotes.insert(depth_102);

    let bid_trade = Trade {
        coin: "ABC".to_string(),
        side: Side::Bid,
        px: 98,
        sz: 20,
        time: 100,
        exchange: "exchange".to_string(),
    };
    let ask_trade = Trade {
        coin: "ABC".to_string(),
        side: Side::Ask,
        px: 102,
        sz: 20,
        time: 100,
        exchange: "exchange".to_string(),
    };

    let mut trades: DateTrade = DateTrade::new();
    trades.insert(100, vec![bid_trade, ask_trade]);

    let mut orderbook = OrderBook::new();
    let order = Order::limit_buy("ABC", 20, 103, "exchange");
    let order1 = Order::limit_buy("ABC", 20, 103, "exchange");
    let order2 = Order::limit_buy("ABC", 20, 103, "exchange");

    let res = orderbook.insert_order(order, 100);
    let res1 = orderbook.insert_order(order1, 100);
    let _ = orderbook.execute_orders(&quotes, &trades, 100);

    let res2 = orderbook.insert_order(order2, 101);
    let _ = orderbook.execute_orders(&quotes, &trades, 101);

    assert!(res.order_id == 0);
    assert!(res1.order_id == 1);
    assert!(res2.order_id == 2);
}

#[test]
fn test_that_volume_lifts_with_trades_inside() {
    let bid_level = Level {
        price: 98,
        size: 100,
    };

    let ask_level = Level {
        price: 102,
        size: 100,
    };

    let mut depth = Depth::new(100, "ABC", "exchange");
    depth.add_level(bid_level.clone(), Side::Bid);
    depth.add_level(ask_level.clone(), Side::Ask);

    let mut quotes: DateDepth = DateDepth::new();
    quotes.insert(depth);

    // A sell that hit the bid at 98 is reported on the ask side, a buy that
    // lifted the ask at 102 on the bid side.
    let bid_trade = Trade {
        coin: "ABC".to_string(),
        side: Side::Ask,
        px: 98,
        sz: 20,
        time: 100,
        exchange: "exchange".to_string(),
    };
    let ask_trade = Trade {
        coin: "ABC".to_string(),
        side: Side::Bid,
        px: 102,
        sz: 20,
        time: 100,
        exchange: "exchange".to_string(),
    };

    let mut trades: DateTrade = DateTrade::new();
    trades.insert(100, vec![bid_trade, ask_trade]);

    let mut orderbook = OrderBook::new();
    let buy_order = Order::limit_buy("ABC", 10, 98, "exchange");
    orderbook.insert_order(buy_order, 99);
    let sell_order = Order::limit_sell("ABC", 10, 102, "exchange");
    orderbook.insert_order(sell_order, 99);

    let res = orderbook.execute_orders(&quotes, &trades, 100);
    assert!(res.len() == 2);
}

#[test]
fn test_that_fills_only_traded_volume_on_inside() {
    let bid_level = Level {
        price: 98,
        size: 100,
    };

    let ask_level = Level {
        price: 102,
        size: 100,
    };

    let mut depth = Depth::new(100, "ABC", "exchange");
    depth.add_level(bid_level.clone(), Side::Bid);
    depth.add_level(ask_level.clone(), Side::Ask);

    let mut quotes: DateDepth = DateDepth::new();
    quotes.insert(depth);

    // A sell that hit the bid at 98 is reported on the ask side, a buy that
    // lifted the ask at 102 on the bid side.
    let bid_trade = Trade {
        coin: "ABC".to_string(),
        side: Side::Ask,
        px: 98,
        sz: 20,
        time: 100,
        exchange: "exchange".to_string(),
    };
    let ask_trade = Trade {
        coin: "ABC".to_string(),
        side: Side::Bid,
        px: 102,
        sz: 20,
        time: 100,
        exchange: "exchange".to_string(),
    };

    let mut trades: DateTrade = DateTrade::new();
    trades.insert(100, vec![bid_trade, ask_trade]);

    let mut orderbook = OrderBook::new();
    let buy_order = Order::limit_buy("ABC", 40, 98, "exchange");
    orderbook.insert_order(buy_order, 99);
    let sell_order = Order::limit_sell("ABC", 40, 102, "exchange");
    orderbook.insert_order(sell_order, 99);

    let res = orderbook.execute_orders(&quotes, &trades, 100);
    assert!(res.len() == 2);
    assert!(res.first().unwrap().quantity as f64 == 20.0);
    assert!(res.get(1).unwrap().quantity as f64 == 20.0);
}
