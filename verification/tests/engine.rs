use rotala::exchange::fill::{fill_order, FillTracker, TakerVolumes, Volume};
use rotala::exchange::uist_v2::{
    InnerOrder, LatencyModel, Order, OrderBook, OrderBookError, OrderBookOrderPriority,
    OrderResult, OrderResultType, OrderType, UistV2,
};
use rotala::source::hyperliquid::{DateDepth, DateTrade, Depth, Level, Side, Trade};

fn print(side: Side, px: i64, sz: i64) -> Trade {
    Trade {
        coin: "ABC".to_string(),
        side,
        px,
        sz,
        time: 100,
        exchange: "exchange".to_string(),
    }
}

fn book_of(bids: &[(i64, i64)], asks: &[(i64, i64)]) -> Depth {
    let mut depth = Depth::new(100, "ABC", "exchange");
    for (price, size) in bids {
        depth.add_level(Level { price: *price, size: *size }, Side::Bid);
    }
    for (price, size) in asks {
        depth.add_level(Level { price: *price, size: *size }, Side::Ask);
    }
    depth
}

fn quotes_of(depth: Depth) -> DateDepth {
    let mut quotes = DateDepth::new();
    quotes.insert(depth);
    quotes
}

fn trades_of(prints: Vec<Trade>) -> DateTrade {
    let mut trades = DateTrade::new();
    trades.insert(100, prints);
    trades
}

fn fills(results: &[OrderResult]) -> Vec<&OrderResult> {
    results
        .iter()
        .filter(|result| {
            result.typ == OrderResultType::Buy || result.typ == OrderResultType::Sell
        })
        .collect()
}

fn inner(order_type: OrderType, qty: i64, price: Option<i64>, id: u64) -> InnerOrder {
    InnerOrder {
        order_type,
        symbol: "ABC".to_string(),
        qty,
        price,
        recieved_timestamp: 99,
        order_id: id,
        order_id_ref: None,
        exchange: "exchange".to_string(),
    }
}

#[test]
fn walk_goes_through_the_levels_in_order() {
    let quotes = quotes_of(book_of(&[], &[(102, 80), (103, 20)]));
    let trades = trades_of(vec![print(Side::Ask, 102, 80)]);
    let mut engine = UistV2::new();
    engine.insert_order(Order::limit_buy("ABC", 120, 103, "exchange"));
    let (results, admitted) = engine.tick(&quotes, &trades, 99);
    assert!(results.is_empty());
    assert_eq!(admitted.len(), 1);

    let (results, admitted) = engine.tick(&quotes, &trades, 100);
    assert!(admitted.is_empty());
    assert_eq!(results.len(), 2);
    assert_eq!(results[0].typ, OrderResultType::Buy);
    assert_eq!(results[0].quantity, 80);
    assert_eq!(results[0].value, 102 * 80);
    assert_eq!(results[1].quantity, 20);
    assert_eq!(results[1].value, 103 * 20);
    assert_eq!(results[0].order_id, 0);
    assert_eq!(results[1].order_id, 0);
    assert_eq!(results[0].order_id_ref, None);
    assert_eq!(results[0].symbol, "ABC");
    assert_eq!(results[0].exchange, "exchange");
    assert_eq!(results[0].date, 100);
    // The order asked for 120: it got 100 and has left the book.
    assert!(engine.is_empty());
}

#[test]
fn displayed_size_is_taken_once_per_tick() {
    let quotes = quotes_of(book_of(&[(98, 20)], &[(102, 20)]));
    let trades = trades_of(vec![print(Side::Bid, 98, 20), print(Side::Ask, 102, 20)]);
    let mut engine = UistV2::new();
    engine.insert_order(Order::limit_buy("ABC", 20, 103, "exchange"));
    engine.insert_order(Order::limit_buy("ABC", 20, 103, "exchange"));
    engine.tick(&quotes, &trades, 99);

    let (results, _) = engine.tick(&quotes, &trades, 100);
    assert_eq!(results.len(), 1);
    assert_eq!(results[0].order_id, 0);
    assert_eq!(results[0].quantity, 20);
    // The second order found nothing left and stays.
    assert!(!engine.is_empty());
}

#[test]
fn fills_at_one_level_stay_within_its_size() {
    let quotes = quotes_of(book_of(&[], &[(102, 50)]));
    let trades = DateTrade::new();
    let mut orderbook = OrderBook::new();
    for _ in 0..4 {
        orderbook.insert_order(Order::market_buy("ABC", 20, "exchange"), 99);
    }
    let results = orderbook.execute_orders(&quotes, &trades, 100);
    let filled: Vec<i64> = results.iter().map(|result| result.quantity).collect();
    assert_eq!(filled, vec![20, 20, 10]);
    let total: i64 = filled.iter().sum();
    assert!(total <= 50);
    for result in &results {
        assert_eq!(result.value, 102 * result.quantity as i128);
    }
    // The fourth order filled nothing and is the only one left.
    assert_eq!(orderbook.get_total_order_qty_by_symbol("ABC"), 20);
}

#[test]
fn latency_holds_an_order_back_until_the_period_has_passed() {
    let quotes = quotes_of(book_of(&[(98, 20)], &[(102, 20)]));
    let trades = trades_of(vec![print(Side::Bid, 98, 20), print(Side::Ask, 102, 20)]);
    let mut engine = UistV2::with_orderbook(OrderBook::with_latency(1));
    engine.insert_order(Order::limit_buy("ABC", 20, 103, "exchange"));

    let (at_100, admitted) = engine.tick(&quotes, &trades, 100);
    assert_eq!(admitted[0].recieved_timestamp, 100);
    let (at_101, _) = engine.tick(&quotes, &trades, 101);
    let (at_102, _) = engine.tick(&quotes, &trades, 102);
    assert!(at_100.is_empty());
    assert!(at_101.is_empty());
    assert_eq!(at_102.len(), 1);
    assert_eq!(at_102[0].typ, OrderResultType::Buy);
}

#[test]
fn latency_is_strict_and_safe_at_the_ends_of_the_range() {
    let order = inner(OrderType::MarketBuy, 1, None, 0);
    // Received at 99.
    assert!(LatencyModel::NoLatency.is_eligible(99, &order));
    assert!(LatencyModel::NoLatency.is_eligible(0, &order));
    assert!(!LatencyModel::FixedPeriod(0).is_eligible(99, &order));
    assert!(LatencyModel::FixedPeriod(0).is_eligible(100, &order));
    assert!(!LatencyModel::FixedPeriod(5).is_eligible(104, &order));
    assert!(LatencyModel::FixedPeriod(5).is_eligible(105, &order));
    assert!(!LatencyModel::FixedPeriod(i64::MAX).is_eligible(i64::MAX, &order));
    assert!(LatencyModel::FixedPeriod(i64::MIN).is_eligible(i64::MIN + 100, &order));
}

#[test]
fn cancel_comes_before_matching() {
    let quotes = quotes_of(book_of(&[(98, 20)], &[(102, 20)]));
    let trades = DateTrade::new();
    let mut orderbook = OrderBook::new();
    let id = orderbook
        .insert_order(Order::limit_buy("ABC", 20, 103, "exchange"), 99)
        .order_id;
    let cancel = orderbook.insert_order(Order::cancel_order("ABC", id, "exchange"), 99);

    let results = orderbook.execute_orders(&quotes, &trades, 100);
    assert_eq!(results.len(), 1);
    assert_eq!(results[0].typ, OrderResultType::Cancel);
    assert_eq!(results[0].value, 0);
    assert_eq!(results[0].quantity, 0);
    assert_eq!(results[0].date, 100);
    assert_eq!(results[0].order_id, cancel.order_id);
    assert_eq!(results[0].order_id_ref, Some(id));
    assert!(fills(&results).is_empty());
    assert!(orderbook.is_empty());
}

#[test]
fn cancelled_id_never_fills_and_is_never_given_again() {
    let quotes = quotes_of(book_of(&[(98, 20)], &[(102, 100)]));
    let trades = DateTrade::new();
    let mut orderbook = OrderBook::new();
    let id = orderbook
        .insert_order(Order::limit_buy("ABC", 20, 103, "exchange"), 99)
        .order_id;
    orderbook.insert_order(Order::cancel_order("ABC", id, "exchange"), 99);
    orderbook.execute_orders(&quotes, &trades, 100);

    let next = orderbook.insert_order(Order::market_buy("ABC", 5, "exchange"), 100);
    assert!(next.order_id > id);
    assert_eq!(next.order_id, 2);
    let results = orderbook.execute_orders(&quotes, &trades, 101);
    assert_eq!(results.len(), 1);
    assert!(results.iter().all(|result| result.order_id != id));
}

#[test]
fn cancel_without_a_reference_does_nothing() {
    let quotes = quotes_of(book_of(&[], &[(102, 100)]));
    let trades = DateTrade::new();
    let mut orderbook = OrderBook::new();
    orderbook.insert_order(Order::limit_buy("ABC", 20, 1, "exchange"), 99);
    let mut cancel = Order::cancel_order("ABC", 0, "exchange");
    cancel.order_id_ref = None;
    assert!(cancel.is_well_formed());
    orderbook.insert_order(cancel, 99);
    let results = orderbook.execute_orders(&quotes, &trades, 100);
    assert!(results.is_empty());
    assert_eq!(orderbook.get_total_order_qty_by_symbol("ABC"), 20);
}

#[test]
fn modify_raises_and_cuts_the_quantity() {
    let quotes = quotes_of(book_of(&[(98, 20)], &[(102, 20)]));
    let trades = DateTrade::new();
    let mut orderbook = OrderBook::new();
    let id = orderbook
        .insert_order(Order::limit_buy("ABC", 200, 1, "exchange"), 99)
        .order_id;
    let modify = orderbook.insert_order(Order::modify_order("ABC", id, 100, "exchange"), 99);

    let results = orderbook.execute_orders(&quotes, &trades, 100);
    assert_eq!(results.len(), 1);
    assert_eq!(results[0].typ, OrderResultType::Modify);
    assert_eq!(results[0].value, 0);
    assert_eq!(results[0].quantity, 0);
    assert_eq!(results[0].date, 100);
    assert_eq!(results[0].order_id, modify.order_id);
    assert_eq!(results[0].order_id_ref, Some(id));
    assert_eq!(orderbook.get_total_order_qty_by_symbol("ABC"), 300);

    orderbook.insert_order(Order::modify_order("ABC", id, -250, "exchange"), 100);
    let results = orderbook.execute_orders(&quotes, &trades, 101);
    assert_eq!(results.len(), 1);
    assert_eq!(orderbook.get_total_order_qty_by_symbol("ABC"), 50);
}

#[test]
fn modify_that_leaves_nothing_takes_the_target_out() {
    let quotes = quotes_of(book_of(&[(98, 20)], &[(102, 20)]));
    let trades = DateTrade::new();
    let mut orderbook = OrderBook::new();
    let id = orderbook
        .insert_order(Order::limit_buy("ABC", 200, 103, "exchange"), 99)
        .order_id;
    orderbook.insert_order(Order::modify_order("ABC", id, -200, "exchange"), 99);

    let results = orderbook.execute_orders(&quotes, &trades, 100);
    // The modify is reported; the order it named is gone and fills nothing.
    assert_eq!(results.len(), 1);
    assert_eq!(results[0].typ, OrderResultType::Modify);
    assert_eq!(results[0].order_id_ref, Some(id));
    assert!(orderbook.is_empty());
}

#[test]
fn modified_quantity_is_what_the_order_fills() {
    let quotes = quotes_of(book_of(&[], &[(102, 100)]));
    let trades = DateTrade::new();
    let mut orderbook = OrderBook::new();
    let id = orderbook
        .insert_order(Order::market_buy("ABC", 10, "exchange"), 99)
        .order_id;
    orderbook.insert_order(Order::modify_order("ABC", id, 30, "exchange"), 99);
    let results = orderbook.execute_orders(&quotes, &trades, 100);
    assert_eq!(results.len(), 2);
    assert_eq!(results[0].typ, OrderResultType::Modify);
    assert_eq!(results[1].typ, OrderResultType::Buy);
    assert_eq!(results[1].quantity, 40);
    assert_eq!(results[1].order_id, id);
}

#[test]
fn modify_raise_is_held_within_the_range() {
    let quotes = DateDepth::new();
    let trades = DateTrade::new();
    let mut orderbook = OrderBook::new();
    let id = orderbook
        .insert_order(Order::limit_buy("ABC", i64::MAX - 1, 1, "exchange"), 99)
        .order_id;
    orderbook.insert_order(Order::modify_order("ABC", id, 10, "exchange"), 99);
    let results = orderbook.execute_orders(&quotes, &trades, 100);
    assert_eq!(results.len(), 1);
    assert_eq!(orderbook.get_total_order_qty_by_symbol("ABC"), i64::MAX as i128);
}

#[test]
fn staged_sells_are_admitted_before_the_others() {
    let quotes = DateDepth::new();
    let trades = DateTrade::new();
    let mut engine = UistV2::new();
    engine.insert_order(Order::market_buy("ABC", 1, "exchange"));
    engine.insert_order(Order::limit_sell("ABC", 2, 105, "exchange"));
    engine.insert_order(Order::cancel_order("ABC", 7, "exchange"));
    engine.insert_order(Order::market_sell("ABC", 3, "exchange"));
    engine.insert_order(Order::limit_buy("ABC", 4, 95, "exchange"));

    let (results, admitted) = engine.tick(&quotes, &trades, 100);
    assert!(results.is_empty());
    let quantities: Vec<i64> = admitted.iter().map(|order| order.qty).collect();
    assert_eq!(quantities, vec![2, 3, 1, 0, 4]);
    let ids: Vec<u64> = admitted.iter().map(|order| order.order_id).collect();
    assert_eq!(ids, vec![0, 1, 2, 3, 4]);
    assert!(admitted.iter().all(|order| order.recieved_timestamp == 100));
}

#[test]
fn staged_order_cannot_trade_in_the_tick_that_admits_it() {
    let quotes = quotes_of(book_of(&[(98, 20)], &[(102, 20)]));
    let trades = DateTrade::new();
    let mut engine = UistV2::new();
    engine.insert_order(Order::market_buy("ABC", 10, "exchange"));
    let (results, admitted) = engine.tick(&quotes, &trades, 100);
    assert!(results.is_empty());
    assert_eq!(admitted.len(), 1);
    assert!(!engine.is_empty());

    let (results, admitted) = engine.tick(&quotes, &trades, 101);
    assert!(admitted.is_empty());
    assert_eq!(results.len(), 1);
    assert_eq!(results[0].order_id, 0);
    assert!(engine.is_empty());
}

#[test]
fn tick_on_an_empty_engine_changes_nothing() {
    let quotes = quotes_of(book_of(&[(98, 20)], &[(102, 20)]));
    let trades = trades_of(vec![print(Side::Ask, 102, 20)]);
    let mut engine = UistV2::new();
    for now in 100..103 {
        let (results, admitted) = engine.tick(&quotes, &trades, now);
        assert!(results.is_empty());
        assert!(admitted.is_empty());
        assert!(engine.is_empty());
    }
    // The ids start where they would have started without the ticks.
    engine.insert_order(Order::market_buy("ABC", 10, "exchange"));
    let (_, admitted) = engine.tick(&quotes, &trades, 103);
    assert_eq!(admitted[0].order_id, 0);
}

#[test]
fn order_without_a_snapshot_stays_in_the_book() {
    let quotes = quotes_of(book_of(&[(98, 20)], &[(102, 20)]));
    let trades = DateTrade::new();
    let mut orderbook = OrderBook::new();
    // The venue is known, the symbol is not.
    orderbook.insert_order(Order::market_buy("XYZ", 10, "exchange"), 99);
    // The symbol is known, the venue is not.
    orderbook.insert_order(Order::market_buy("ABC", 20, "elsewhere"), 99);
    let results = orderbook.execute_orders(&quotes, &trades, 100);
    assert!(results.is_empty());
    assert_eq!(orderbook.get_total_order_qty_by_symbol("XYZ"), 10);
    assert_eq!(orderbook.get_total_order_qty_by_symbol("ABC"), 20);
}

#[test]
fn order_at_the_touch_claims_taker_volume_only_with_priority() {
    let depth = book_of(&[(98, 100)], &[(102, 100)]);
    // Sells that hit the bid are reported on the ask side, buys that lifted
    // the ask on the bid side.
    let trades = trades_of(vec![print(Side::Ask, 98, 20), print(Side::Bid, 102, 30)]);

    let mut first = OrderBook::new();
    first.insert_order(Order::limit_buy("ABC", 40, 98, "exchange"), 99);
    first.insert_order(Order::limit_sell("ABC", 40, 102, "exchange"), 99);
    let results = first.execute_orders(&quotes_of(depth.clone()), &trades, 100);
    assert_eq!(results.len(), 2);
    assert_eq!(results[0].typ, OrderResultType::Buy);
    assert_eq!(results[0].quantity, 20);
    assert_eq!(results[0].value, 98 * 20);
    assert_eq!(results[1].typ, OrderResultType::Sell);
    assert_eq!(results[1].quantity, 30);
    assert_eq!(results[1].value, 102 * 30);
    // Both were filled in part and have left the book.
    assert!(first.is_empty());

    let mut through = OrderBook::with_priority(OrderBookOrderPriority::TradeThrough);
    through.insert_order(Order::limit_buy("ABC", 40, 98, "exchange"), 99);
    through.insert_order(Order::limit_sell("ABC", 40, 102, "exchange"), 99);
    let results = through.execute_orders(&quotes_of(depth), &trades, 100);
    assert!(results.is_empty());
    assert_eq!(through.get_total_order_qty_by_symbol("ABC"), 80);
}

#[test]
fn taker_volume_at_the_touch_is_shared_by_the_orders_of_a_tick() {
    let depth = book_of(&[(98, 100)], &[(102, 100)]);
    let trades = trades_of(vec![print(Side::Ask, 98, 25)]);
    let mut orderbook = OrderBook::new();
    orderbook.insert_order(Order::limit_buy("ABC", 20, 98, "exchange"), 99);
    orderbook.insert_order(Order::limit_buy("ABC", 20, 98, "exchange"), 99);
    orderbook.insert_order(Order::limit_buy("ABC", 20, 98, "exchange"), 99);
    let results = orderbook.execute_orders(&quotes_of(depth), &trades, 100);
    let filled: Vec<i64> = results.iter().map(|result| result.quantity).collect();
    assert_eq!(filled, vec![20, 5]);
    assert_eq!(orderbook.get_total_order_qty_by_symbol("ABC"), 20);
}

#[test]
fn limit_order_stops_at_its_price() {
    let depth = book_of(&[(100, 10), (99, 10), (98, 10)], &[(102, 10), (103, 10), (104, 10)]);
    let trades = DateTrade::new();
    let mut orderbook = OrderBook::new();
    orderbook.insert_order(Order::limit_buy("ABC", 100, 103, "exchange"), 99);
    orderbook.insert_order(Order::limit_sell("ABC", 100, 99, "exchange"), 99);
    let results = orderbook.execute_orders(&quotes_of(depth), &trades, 100);
    let seen: Vec<(OrderResultType, i128, i64)> =
        results.iter().map(|result| (result.typ, result.value, result.quantity)).collect();
    assert_eq!(
        seen,
        vec![
            (OrderResultType::Buy, 1020, 10),
            (OrderResultType::Buy, 1030, 10),
            (OrderResultType::Sell, 1000, 10),
            (OrderResultType::Sell, 990, 10),
        ]
    );
}

#[test]
fn market_order_takes_what_is_there() {
    let depth = book_of(&[(100, 10), (99, 5)], &[(102, 10)]);
    let trades = DateTrade::new();
    let mut orderbook = OrderBook::new();
    orderbook.insert_order(Order::market_sell("ABC", 100, "exchange"), 99);
    let results = orderbook.execute_orders(&quotes_of(depth), &trades, 100);
    let filled: i64 = results.iter().map(|result| result.quantity).sum();
    assert_eq!(results.len(), 2);
    assert_eq!(filled, 15);
    assert!(filled <= 100);
    assert!(orderbook.is_empty());
}

#[test]
fn order_without_quantity_fills_nothing() {
    let depth = book_of(&[(100, 10)], &[(102, 10)]);
    let trades = DateTrade::new();
    let mut orderbook = OrderBook::new();
    orderbook.insert_order(Order::market_buy("ABC", 0, "exchange"), 99);
    orderbook.insert_order(Order::market_sell("ABC", -5, "exchange"), 99);
    let results = orderbook.execute_orders(&quotes_of(depth), &trades, 100);
    assert!(results.is_empty());
    assert!(!orderbook.is_empty());
}

#[test]
fn fill_carries_the_date_of_the_snapshot() {
    let mut depth = Depth::new(77, "ABC", "exchange");
    depth.add_level(Level { price: 102, size: 10 }, Side::Ask);
    let trades = DateTrade::new();
    let mut orderbook = OrderBook::new();
    orderbook.insert_order(Order::market_buy("ABC", 1, "exchange"), 99);
    let results = orderbook.execute_orders(&quotes_of(depth), &trades, 100);
    assert_eq!(results[0].date, 77);
}

#[test]
fn walk_of_one_order_records_what_it_takes() {
    let depth = book_of(&[(98, 100)], &[(102, 30), (103, 30)]);
    let volumes = TakerVolumes::from_trades(&trades_of(vec![print(Side::Bid, 98, 20)]));
    let mut filled = FillTracker::new();
    filled.insert_fill("ABC", &102, 10);

    let order = inner(OrderType::MarketBuy, 50, None, 4);
    let trades =
        fill_order(&depth, &order, &mut filled, &volumes, &OrderBookOrderPriority::AlwaysFirst);
    let seen: Vec<(i128, i64)> = trades.iter().map(|trade| (trade.value, trade.quantity)).collect();
    assert_eq!(seen, vec![(102 * 20, 20), (103 * 30, 30)]);
    assert!(trades.iter().all(|trade| trade.order_id == 4));
    assert_eq!(filled.get_fill("ABC", &102), 30);
    assert_eq!(filled.get_fill("ABC", &103), 30);
    assert_eq!(filled.get_fill("ABC", &98), 0);
    assert_eq!(filled.get_fill("BCD", &102), 0);

    // Levels with nothing left are passed: the next order fills behind them.
    let late = inner(OrderType::MarketBuy, 50, None, 5);
    let more = book_of(&[], &[(102, 30), (103, 30), (104, 30)]);
    let trades =
        fill_order(&more, &late, &mut filled, &volumes, &OrderBookOrderPriority::AlwaysFirst);
    let seen: Vec<(i128, i64)> = trades.iter().map(|trade| (trade.value, trade.quantity)).collect();
    assert_eq!(seen, vec![(104 * 30, 30)]);
    assert_eq!(filled.get_fill("ABC", &102), 30);
    assert_eq!(filled.get_fill("ABC", &103), 30);
    assert_eq!(filled.get_fill("ABC", &104), 30);
}

#[test]
fn order_is_filled_from_the_level_behind_one_that_is_used_up() {
    let depth = book_of(&[], &[(102, 20), (103, 20)]);
    let volumes = TakerVolumes::new();
    let mut filled = FillTracker::new();
    filled.insert_fill("ABC", &102, 20);

    let order = inner(OrderType::LimitBuy, 20, Some(103), 1);
    let trades =
        fill_order(&depth, &order, &mut filled, &volumes, &OrderBookOrderPriority::AlwaysFirst);
    assert_eq!(trades.len(), 1);
    assert_eq!(trades[0].typ, OrderResultType::Buy);
    assert_eq!(trades[0].quantity, 20);
    assert_eq!(trades[0].value, 2060);
    assert_eq!(filled.get_fill("ABC", &102), 20);
    assert_eq!(filled.get_fill("ABC", &103), 20);
}

#[test]
fn second_order_of_a_tick_is_filled_from_the_next_level() {
    let quotes = quotes_of(book_of(&[(98, 20)], &[(102, 20), (103, 20)]));
    let trades = DateTrade::new();
    let mut orderbook = OrderBook::new();
    orderbook.insert_order(Order::limit_buy("ABC", 20, 103, "exchange"), 99);
    orderbook.insert_order(Order::limit_buy("ABC", 20, 103, "exchange"), 99);
    orderbook.insert_order(Order::limit_buy("ABC", 20, 102, "exchange"), 99);
    let results = orderbook.execute_orders(&quotes, &trades, 100);
    let seen: Vec<(u64, i128, i64)> =
        results.iter().map(|result| (result.order_id, result.value, result.quantity)).collect();
    assert_eq!(seen, vec![(0, 102 * 20, 20), (1, 103 * 20, 20)]);
    // The third order accepts 102 only, where nothing is left: it stays.
    assert_eq!(orderbook.get_total_order_qty_by_symbol("ABC"), 20);
}

#[test]
fn buy_at_the_touch_claims_the_prints_of_the_ask_side() {
    let depth = book_of(&[(98, 100)], &[]);
    let mut orderbook = OrderBook::new();
    orderbook.insert_order(Order::limit_buy("ABC", 40, 98, "exchange"), 99);
    let results = orderbook.execute_orders(
        &quotes_of(depth.clone()),
        &trades_of(vec![print(Side::Ask, 98, 20)]),
        100,
    );
    assert_eq!(results.len(), 1);
    assert_eq!(results[0].typ, OrderResultType::Buy);
    assert_eq!(results[0].quantity, 20);
    assert_eq!(results[0].value, 98 * 20);

    // Prints of the bid side at its price give a buy nothing.
    let mut other = OrderBook::new();
    other.insert_order(Order::limit_buy("ABC", 40, 98, "exchange"), 99);
    let results =
        other.execute_orders(&quotes_of(depth), &trades_of(vec![print(Side::Bid, 98, 20)]), 100);
    assert!(results.is_empty());
    assert!(!other.is_empty());
}

#[test]
fn sell_at_the_touch_claims_the_prints_of_the_bid_side() {
    let depth = book_of(&[], &[(102, 100)]);
    let mut orderbook = OrderBook::new();
    orderbook.insert_order(Order::limit_sell("ABC", 40, 102, "exchange"), 99);
    let results = orderbook.execute_orders(
        &quotes_of(depth.clone()),
        &trades_of(vec![print(Side::Bid, 102, 30)]),
        100,
    );
    assert_eq!(results.len(), 1);
    assert_eq!(results[0].typ, OrderResultType::Sell);
    assert_eq!(results[0].quantity, 30);
    assert_eq!(results[0].value, 102 * 30);

    let mut other = OrderBook::new();
    other.insert_order(Order::limit_sell("ABC", 40, 102, "exchange"), 99);
    let results =
        other.execute_orders(&quotes_of(depth), &trades_of(vec![print(Side::Ask, 102, 30)]), 100);
    assert!(results.is_empty());
}

#[test]
fn fill_tracker_adds_up_by_symbol_and_price() {
    let mut filled = FillTracker::new();
    assert_eq!(filled.get_fill("ABC", &100), 0);
    filled.insert_fill("ABC", &100, 5);
    filled.insert_fill("ABC", &100, 7);
    filled.insert_fill("ABC", &101, 1);
    filled.insert_fill("BCD", &100, 2);
    assert_eq!(filled.get_fill("ABC", &100), 12);
    assert_eq!(filled.get_fill("ABC", &101), 1);
    assert_eq!(filled.get_fill("BCD", &100), 2);
    assert_eq!(filled.get_fill("BCD", &101), 0);
}

#[test]
fn taker_volume_is_summed_by_price_and_side() {
    let mut trades = DateTrade::new();
    trades.insert(100, vec![print(Side::Bid, 98, 20), print(Side::Ask, 102, 30)]);
    trades.insert(101, vec![print(Side::Bid, 98, 5), print(Side::Ask, 98, 1)]);
    let volumes = TakerVolumes::from_trades(&trades);
    assert_eq!(volumes.get(98), Some(Volume { ask: 1, bid: 25 }));
    assert_eq!(volumes.get(102), Some(Volume { ask: 30, bid: 0 }));
    assert_eq!(volumes.get(100), None);

    // Prints filed under a timestamp replace those filed under it before.
    trades.insert(100, vec![print(Side::Bid, 98, 2)]);
    let volumes = TakerVolumes::from_trades(&trades);
    assert_eq!(volumes.get(98), Some(Volume { ask: 1, bid: 7 }));
    assert_eq!(volumes.get(102), None);
    assert_eq!(trades.len(), 2);
}

#[test]
fn taker_volume_is_held_within_the_range() {
    let mut volumes = TakerVolumes::new();
    volumes.record(&print(Side::Ask, 98, i64::MAX));
    volumes.record(&print(Side::Ask, 98, 10));
    volumes.record(&print(Side::Bid, 98, i64::MIN));
    volumes.record(&print(Side::Bid, 98, -10));
    assert_eq!(volumes.get(98), Some(Volume { ask: i64::MAX, bid: i64::MIN }));
}

#[test]
fn levels_are_kept_best_first() {
    let mut depth = Depth::new(100, "ABC", "exchange");
    for (price, size) in [(99, 1), (101, 2), (100, 3), (101, 4)] {
        depth.add_level(Level { price, size }, Side::Bid);
        depth.add_level(Level { price, size }, Side::Ask);
    }
    let bids: Vec<(i64, i64)> = depth.bids.iter().map(|level| (level.price, level.size)).collect();
    let asks: Vec<(i64, i64)> = depth.asks.iter().map(|level| (level.price, level.size)).collect();
    assert_eq!(bids, vec![(101, 2), (101, 4), (100, 3), (99, 1)]);
    assert_eq!(asks, vec![(99, 1), (100, 3), (101, 2), (101, 4)]);
    assert_eq!(depth.date, 100);
    assert_eq!(depth.symbol, "ABC");
    assert_eq!(depth.exchange, "exchange");
}

#[test]
fn snapshot_is_checked_against_the_shape_of_a_book() {
    assert!(Depth::new(100, "ABC", "exchange").is_valid());
    assert!(book_of(&[(100, 10), (99, 0)], &[(102, 10), (103, 5)]).is_valid());
    assert!(book_of(&[(100, 10)], &[]).is_valid());
    // A price twice on one side.
    assert!(!book_of(&[(100, 10), (100, 5)], &[(102, 10)]).is_valid());
    // A negative size.
    assert!(!book_of(&[(100, 10)], &[(102, -1)]).is_valid());
    // A crossed book, and one whose touch is locked.
    assert!(!book_of(&[(103, 10)], &[(102, 10)]).is_valid());
    assert!(!book_of(&[(102, 10)], &[(102, 10)]).is_valid());
    // Levels out of order, put there by hand.
    let mut depth = Depth::new(100, "ABC", "exchange");
    depth.asks.push(Level { price: 103, size: 1 });
    depth.asks.push(Level { price: 102, size: 1 });
    assert!(!depth.is_valid());
}

#[test]
fn snapshot_is_found_by_venue_and_symbol() {
    let mut quotes = DateDepth::new();
    assert!(quotes.get("exchange", "ABC").is_none());
    quotes.insert(Depth::new(100, "ABC", "exchange"));
    quotes.insert(Depth::new(101, "BCD", "exchange"));
    quotes.insert(Depth::new(102, "ABC", "elsewhere"));
    quotes.insert(Depth::new(103, "ABC", "exchange"));
    assert_eq!(quotes.get("exchange", "ABC").unwrap().date, 103);
    assert_eq!(quotes.get("exchange", "BCD").unwrap().date, 101);
    assert_eq!(quotes.get("elsewhere", "ABC").unwrap().date, 102);
    assert!(quotes.get("elsewhere", "BCD").is_none());
}

#[test]
fn total_quantity_counts_the_orders_of_one_symbol() {
    let mut orderbook = OrderBook::new();
    assert_eq!(orderbook.get_total_order_qty_by_symbol("ABC"), 0);
    orderbook.insert_order(Order::limit_buy("ABC", 10, 1, "exchange"), 99);
    orderbook.insert_order(Order::limit_sell("BCD", 20, 1, "exchange"), 99);
    orderbook.insert_order(Order::limit_sell("ABC", 30, 1000, "elsewhere"), 99);
    assert_eq!(orderbook.get_total_order_qty_by_symbol("ABC"), 40);
    assert_eq!(orderbook.get_total_order_qty_by_symbol("BCD"), 20);
    assert_eq!(orderbook.get_total_order_qty_by_symbol("XYZ"), 0);
    assert_eq!(orderbook.last_order_id(), 3);
}

#[test]
fn builders_make_well_formed_orders() {
    let buy = Order::market_buy("ABC", 1, "exchange");
    assert_eq!(buy.order_type, OrderType::MarketBuy);
    assert_eq!(buy.price, None);
    assert_eq!(buy.order_id_ref, None);
    let sell = Order::limit_sell("ABC", 2, 105, "exchange");
    assert_eq!(sell.order_type, OrderType::LimitSell);
    assert_eq!(sell.price, Some(105));
    assert_eq!(sell.qty, 2);
    let modify = Order::modify_order("ABC", 9, -3, "exchange");
    assert_eq!(modify.order_type, OrderType::Modify);
    assert_eq!(modify.qty, -3);
    assert_eq!(modify.order_id_ref, Some(9));
    let cancel = Order::cancel_order("ABC", 9, "exchange");
    assert_eq!(cancel.order_type, OrderType::Cancel);
    assert_eq!(cancel.qty, 0);
    assert_eq!(cancel.order_id_ref, Some(9));
    for order in [&buy, &sell, &modify, &cancel] {
        assert!(order.is_well_formed());
        assert_eq!(order.symbol, "ABC");
        assert_eq!(order.exchange, "exchange");
    }

    let mut limit = Order::limit_buy("ABC", 1, 100, "exchange");
    limit.price = None;
    assert!(!limit.is_well_formed());
    let mut nameless = Order::modify_order("ABC", 9, 1, "exchange");
    nameless.order_id_ref = None;
    assert!(!nameless.is_well_formed());

    assert!(OrderType::LimitBuy.is_buy() && !OrderType::LimitBuy.is_sell());
    assert!(OrderType::MarketSell.is_sell() && !OrderType::MarketSell.is_control());
    assert!(OrderType::Cancel.is_control() && OrderType::Modify.is_control());
}

#[test]
fn engine_stages_many_orders_at_once() {
    let quotes = DateDepth::new();
    let trades = DateTrade::new();
    let mut engine = UistV2::new();
    assert!(engine.has_room());
    engine.insert_orders(vec![
        Order::market_buy("ABC", 1, "exchange"),
        Order::market_sell("ABC", 2, "exchange"),
    ]);
    let (_, admitted) = engine.tick(&quotes, &trades, 100);
    let quantities: Vec<i64> = admitted.iter().map(|order| order.qty).collect();
    assert_eq!(quantities, vec![2, 1]);
}

#[test]
fn error_has_its_text() {
    assert_eq!(OrderBookError::OrderIdNotFound.to_string(), "OrderBookError");
}
