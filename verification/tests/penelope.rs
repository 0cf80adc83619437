use rotala::input::penelope::{random_penelope_generator, Penelope};
use rotala::input::penelope::{RANDOM_PRICE_HIGH, RANDOM_PRICE_LOW, RANDOM_START};

#[test]
fn quote_is_found_by_date_and_symbol() {
    let mut source = Penelope::new();
    source.add_quotes(101, 102, 100, "ABC");
    source.add_quotes(10, 11, 100, "BCD");
    source.add_quotes(103, 104, 101, "ABC");

    let quote = source.get_quote(&100, "ABC").unwrap();
    assert_eq!(quote.get_bid(), 101);
    assert_eq!(quote.get_ask(), 102);
    assert_eq!(quote.get_date(), 100);
    assert_eq!(quote.get_symbol(), "ABC");
    assert!(source.get_quote(&101, "BCD").is_none());
    assert!(source.get_quote(&99, "ABC").is_none());
}

#[test]
fn later_quote_replaces_the_earlier_one() {
    let mut source = Penelope::new();
    source.add_quotes(101, 102, 100, "ABC");
    source.add_quotes(90, 91, 100, "ABC");
    let quote = source.get_quote(&100, "ABC").unwrap();
    assert_eq!(quote.bid, 90);
    assert_eq!(quote.ask, 91);
    assert_eq!(source.get_quotes(&100).unwrap().len(), 1);
}

#[test]
fn quotes_of_a_date_hold_one_quote_per_symbol() {
    let mut source = Penelope::new();
    source.add_quotes(101, 102, 100, "ABC");
    source.add_quotes(10, 11, 100, "BCD");
    source.add_quotes(103, 104, 101, "ABC");

    let mut symbols: Vec<String> =
        source.get_quotes(&100).unwrap().iter().map(|quote| quote.get_symbol()).collect();
    symbols.sort();
    assert_eq!(symbols, vec!["ABC".to_string(), "BCD".to_string()]);
    assert_eq!(source.get_quotes(&101).unwrap().len(), 1);
    assert!(source.get_quotes(&102).is_none());
}

#[test]
fn random_source_quotes_both_symbols_on_every_date() {
    let (source, clock) = random_penelope_generator(200);
    let dates = clock.peek();
    assert_eq!(dates.len(), 201);
    assert_eq!(dates[0], RANDOM_START);
    assert_eq!(dates[200], RANDOM_START + 200);

    let mut prices: Vec<i64> = Vec::new();
    for date in dates {
        for symbol in ["ABC", "BCD"] {
            let quote = source.get_quote(&date, symbol).unwrap();
            assert_eq!(quote.date, date);
            assert_eq!(quote.symbol, symbol);
            assert!(RANDOM_PRICE_LOW <= quote.bid && quote.bid < RANDOM_PRICE_HIGH);
            assert!(RANDOM_PRICE_LOW <= quote.ask && quote.ask < RANDOM_PRICE_HIGH);
            prices.push(quote.bid);
            prices.push(quote.ask);
        }
        assert_eq!(source.get_quotes(&date).unwrap().len(), 2);
    }
    assert!(source.get_quote(&(RANDOM_START + 201), "ABC").is_none());
    // The prices are drawn, not copied from a bound.
    assert!(prices.iter().any(|price| *price != RANDOM_PRICE_LOW));
    assert!(prices.iter().any(|price| *price != prices[0]));
}
