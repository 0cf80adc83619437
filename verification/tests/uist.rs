use rotala::clock::ClockBuilder;
use rotala::exchange::uist::{random_uist_generator, Frequency, UistOrder, UistV1};
use rotala::input::penelope::Penelope;
use rotala::orderbook::diana::DianaTradeType;

fn exchange() -> UistV1 {
    let clock = ClockBuilder::from_length_seconds(&100, 3).every_second();
    let mut source = Penelope::new();
    source.add_quotes(101, 102, 100, "ABC");
    source.add_quotes(102, 103, 101, "ABC");
    source.add_quotes(105, 106, 102, "ABC");
    source.add_quotes(10, 11, 102, "BCD");
    UistV1::new(clock, source, "fixture", Frequency::Second)
}

#[test]
fn market_buy_fills_at_the_ask_of_the_next_tick() {
    let mut exchange = exchange();
    exchange.insert_order(UistOrder::market_buy("ABC", 100));
    let (has_next, trades, admitted) = exchange.tick();
    assert!(has_next);
    assert_eq!(admitted.len(), 1);
    assert_eq!(admitted[0].0, 0);
    assert_eq!(trades.len(), 1);
    assert_eq!(trades[0].typ, DianaTradeType::Buy);
    assert_eq!(trades[0].quantity, 100);
    // Submitted at 100, the order trades on the quote of 101.
    assert_eq!(trades[0].date, 101);
    assert_eq!(trades[0].value, 103 * 100);
}

#[test]
fn limit_ladder_leaves_the_order_that_does_not_cross() {
    let mut exchange = exchange();
    exchange.insert_order(UistOrder::limit_buy("ABC", 100, 95));
    exchange.insert_order(UistOrder::limit_buy("ABC", 100, 105));
    let (_, trades, admitted) = exchange.tick();
    assert_eq!(admitted.len(), 2);
    assert_eq!(trades.len(), 1);
    assert_eq!(trades[0].value, 103 * 100);
    // The order at 95 stays and does not cross later either.
    let (_, trades, admitted) = exchange.tick();
    assert!(trades.is_empty());
    assert!(admitted.is_empty());
}

#[test]
fn exchange_admits_sells_first() {
    let mut exchange = exchange();
    exchange.insert_order(UistOrder::market_buy("ABC", 1));
    exchange.insert_order(UistOrder::stop_sell("ABC", 2, 200));
    exchange.insert_order(UistOrder::market_sell("ABC", 3));
    let (_, trades, admitted) = exchange.tick();
    let order: Vec<(u64, i64)> = admitted.iter().map(|entry| (entry.0, entry.1.shares)).collect();
    assert_eq!(order, vec![(0, 2), (1, 3), (2, 1)]);
    let quantities: Vec<i64> = trades.iter().map(|trade| trade.quantity).collect();
    assert_eq!(quantities, vec![2, 3, 1]);
}

#[test]
fn deleted_order_does_not_trade() {
    let mut exchange = exchange();
    exchange.insert_order(UistOrder::market_buy("XYZ", 5));
    exchange.insert_order(UistOrder::market_buy("BCD", 7));
    let (_, trades, admitted) = exchange.tick();
    assert!(trades.is_empty());
    exchange.delete_order(admitted[0].0);
    let (has_next, trades, _) = exchange.tick();
    assert!(has_next);
    assert_eq!(trades.len(), 1);
    assert_eq!(trades[0].quantity, 7);
    assert_eq!(trades[0].value, 11 * 7);
    assert_eq!(trades[0].date, 102);
}

#[test]
fn exchange_without_orders_only_moves_its_clock() {
    let mut exchange = exchange();
    let mut ticks = 0;
    while exchange.has_next() {
        let (has_next, trades, admitted) = exchange.tick();
        assert!(trades.is_empty());
        assert!(admitted.is_empty());
        assert_eq!(has_next, exchange.has_next());
        ticks += 1;
    }
    assert_eq!(ticks, 3);
}

#[test]
fn exchange_reports_its_start_and_the_quotes_of_now() {
    let mut exchange = exchange();
    let init = exchange.init();
    assert_eq!(init.start, 100);
    assert_eq!(init.frequency, 0);
    assert_eq!(Frequency::Daily.code(), 1);
    let info = exchange.info();
    assert_eq!(info.dataset, "fixture");
    assert_eq!(info.version, "v1");

    assert_eq!(exchange.fetch_quotes().len(), 1);
    exchange.tick();
    exchange.tick();
    let mut symbols: Vec<String> =
        exchange.fetch_quotes().iter().map(|quote| quote.get_symbol()).collect();
    symbols.sort();
    assert_eq!(symbols, vec!["ABC".to_string(), "BCD".to_string()]);
    exchange.tick();
    assert!(exchange.fetch_quotes().is_empty());
    // The start does not move with the clock.
    assert_eq!(exchange.init().start, 100);
}

#[test]
fn random_exchange_trades_one_order_per_tick() {
    let (mut exchange, clock) = random_uist_generator(3000);
    assert_eq!(clock.peek().len(), 3001);
    assert_eq!(exchange.init().frequency, 0);
    assert_eq!(exchange.init().start, 100);
    assert_eq!(exchange.fetch_quotes().len(), 2);
    exchange.tick();
    assert!(exchange.has_room());
    exchange.insert_order(UistOrder::market_buy("ABC", 100));
    let (has_next, trades, _) = exchange.tick();
    assert!(has_next);
    assert_eq!(trades.len(), 1);
    assert_eq!(trades[0].symbol, "ABC");
    assert_eq!(trades[0].date, 102);
    assert!(90 * 100 <= trades[0].value && trades[0].value < 100 * 100);
}
