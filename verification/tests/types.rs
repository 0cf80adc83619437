use std::cmp::Ordering;

use rotala::exchange::types::{
    ExchangeNotificationMessage, ExchangeOrder, ExchangeOrderMessage, ExchangeTrade, OrderType,
    TradeType,
};
use rotala::exchange::uist_v2::Quote;
use rotala::source::hyperliquid::BBO;

#[test]
fn exchange_order_builders_set_every_field() {
    let buy = ExchangeOrder::market_buy(1, "ABC", 10);
    assert_eq!(*buy.get_subscriber_id(), 1);
    assert_eq!(buy.get_symbol(), "ABC");
    assert_eq!(*buy.get_shares(), 10);
    assert_eq!(*buy.get_price(), None);
    assert_eq!(*buy.get_order_type(), OrderType::MarketBuy);

    let sell = ExchangeOrder::market_sell(2, "ABC", 11);
    assert_eq!(*sell.get_order_type(), OrderType::MarketSell);
    assert_eq!(*sell.get_price(), None);

    let cases = [
        (ExchangeOrder::stop_buy(3, "BCD", 12, 100), OrderType::StopBuy),
        (ExchangeOrder::stop_sell(3, "BCD", 12, 100), OrderType::StopSell),
        (ExchangeOrder::limit_buy(3, "BCD", 12, 100), OrderType::LimitBuy),
        (ExchangeOrder::limit_sell(3, "BCD", 12, 100), OrderType::LimitSell),
        (ExchangeOrder::delayed(3, OrderType::LimitBuy, "BCD", 12, 100), OrderType::LimitBuy),
    ];
    for (order, order_type) in cases {
        assert_eq!(order.subscriber_id, 3);
        assert_eq!(order.symbol, "BCD");
        assert_eq!(order.shares, 12);
        assert_eq!(order.price, Some(100));
        assert_eq!(order.order_type, order_type);
    }
    let plain = ExchangeOrder::market(4, OrderType::MarketSell, "ABC", 1);
    assert_eq!(plain.order_type, OrderType::MarketSell);
    assert_eq!(plain.price, None);
}

#[test]
fn exchange_orders_are_equal_by_symbol_type_and_shares() {
    let a = ExchangeOrder::limit_buy(1, "ABC", 10, 95);
    let b = ExchangeOrder::limit_buy(2, "ABC", 10, 105);
    assert!(a == b);
    assert!(a != ExchangeOrder::limit_buy(1, "ABC", 11, 95));
    assert!(a != ExchangeOrder::limit_sell(1, "ABC", 10, 95));
    assert!(a != ExchangeOrder::limit_buy(1, "BCD", 10, 95));
    assert!(a.clone() == a);
}

#[test]
fn exchange_trades_are_ordered_by_date() {
    let early = ExchangeTrade::new(1, "ABC", 1000, 10, 100, TradeType::Buy);
    let late = ExchangeTrade::new(1, "ABC", 2000, 20, 101, TradeType::Sell);
    let other = ExchangeTrade::new(2, "BCD", 5, 1, 100, TradeType::Sell);
    assert_eq!(early.value, 1000);
    assert_eq!(early.quantity, 10);
    assert_eq!(early.typ, TradeType::Buy);
    assert!(early < late);
    assert!(late > early);
    assert_eq!(early.partial_cmp(&other), Some(Ordering::Equal));
    assert_eq!(late.partial_cmp(&early), Some(Ordering::Greater));
    // Equal means the same date and the same symbol.
    assert!(early != other);
    assert!(early != late);
    assert!(early == ExchangeTrade::new(9, "ABC", 0, 0, 100, TradeType::Sell));
}

#[test]
fn order_messages_carry_the_order() {
    let messages = [
        (ExchangeOrderMessage::market_buy(1, "ABC", 10), OrderType::MarketBuy, None),
        (ExchangeOrderMessage::market_sell(1, "ABC", 10), OrderType::MarketSell, None),
        (ExchangeOrderMessage::stop_buy(1, "ABC", 10, 7), OrderType::StopBuy, Some(7)),
        (ExchangeOrderMessage::stop_sell(1, "ABC", 10, 7), OrderType::StopSell, Some(7)),
        (ExchangeOrderMessage::limit_buy(1, "ABC", 10, 7), OrderType::LimitBuy, Some(7)),
        (ExchangeOrderMessage::limit_sell(1, "ABC", 10, 7), OrderType::LimitSell, Some(7)),
    ];
    for (message, order_type, price) in messages {
        match message {
            ExchangeOrderMessage::CreateOrder(order) => {
                assert_eq!(order.subscriber_id, 1);
                assert_eq!(order.symbol, "ABC");
                assert_eq!(order.shares, 10);
                assert_eq!(order.order_type, order_type);
                assert_eq!(order.price, price);
            }
            _ => panic!("a builder makes a request to book an order"),
        }
    }
    let booked = ExchangeNotificationMessage::OrderBooked(5, ExchangeOrder::market_buy(1, "A", 1));
    assert!(matches!(booked, ExchangeNotificationMessage::OrderBooked(5, _)));
}

#[test]
fn quote_is_made_from_best_bid_and_offer() {
    let bbo = BBO {
        bid: 99,
        bid_volume: 10,
        ask: 101,
        ask_volume: 20,
        date: 100,
        symbol: "ABC".to_string(),
    };
    let quote: Quote = bbo.into();
    assert_eq!(quote.bid, 99);
    assert_eq!(quote.bid_volume, 10);
    assert_eq!(quote.ask, 101);
    assert_eq!(quote.ask_volume, 20);
    assert_eq!(quote.date, 100);
    assert_eq!(quote.symbol, "ABC");
}
