//! Orders, trades and messages of an exchange that serves several
//! subscribers over channels.

use vstd::prelude::*;
use vstd::std_specs::cmp::{PartialEqSpecImpl, PartialOrdSpecImpl};
use core::cmp::Ordering;
use crate::clock::DateTime;

verus! {

/// Identifier that the exchange assigns to an order.
pub type DefaultExchangeOrderId = u32;

/// Identifier of a subscriber of the exchange.
pub type DefaultSubscriberId = u8;

/// The order types that the exchange supports.
#[derive(Clone, Copy, Debug, PartialEq, Eq, Structural)]
pub enum OrderType {
    MarketSell,
    MarketBuy,
    LimitSell,
    LimitBuy,
    StopSell,
    StopBuy,
}

/// An order of one subscriber.
#[derive(Debug)]
pub struct ExchangeOrder {
    pub subscriber_id: DefaultSubscriberId,
    pub order_type: OrderType,
    pub symbol: String,
    pub shares: i64,
    pub price: Option<i64>,
}

impl Clone for ExchangeOrder {
    fn clone(&self) -> (copy: Self)
        ensures
            copy == *self,
    {
        Self {
            subscriber_id: self.subscriber_id,
            order_type: self.order_type,
            symbol: self.symbol.clone(),
            shares: self.shares,
            price: self.price,
        }
    }
}

impl ExchangeOrder {
    /// The subscriber who sent the order.
    pub fn get_subscriber_id(&self) -> (id: &DefaultSubscriberId)
        ensures
            *id == self.subscriber_id,
    {
        &self.subscriber_id
    }

    /// The symbol to trade.
    pub fn get_symbol(&self) -> (symbol: &String)
        ensures
            *symbol == self.symbol,
    {
        &self.symbol
    }

    /// The quantity to trade.
    pub fn get_shares(&self) -> (shares: &i64)
        ensures
            *shares == self.shares,
    {
        &self.shares
    }

    /// The limit or stop price, if the order has one.
    pub fn get_price(&self) -> (price: &Option<i64>)
        ensures
            *price == self.price,
    {
        &self.price
    }

    /// The type of the order.
    pub fn get_order_type(&self) -> (order_type: &OrderType)
        ensures
            *order_type == self.order_type,
    {
        &self.order_type
    }

    /// An order without a price.
    pub fn market(
        subscriber_id: DefaultSubscriberId,
        order_type: OrderType,
        symbol: &str,
        shares: i64,
    ) -> (order: Self)
        ensures
            order.subscriber_id == subscriber_id,
            order.order_type == order_type,
            order.symbol@ == symbol@,
            order.shares == shares,
            order.price is None,
    {
        Self { subscriber_id, order_type, symbol: symbol.to_owned(), shares, price: None }
    }

    /// Buy `shares` of `symbol` at the ask.
    pub fn market_buy(subscriber_id: DefaultSubscriberId, symbol: &str, shares: i64) -> (order: Self)
        ensures
            order.subscriber_id == subscriber_id,
            order.order_type == OrderType::MarketBuy,
            order.symbol@ == symbol@,
            order.shares == shares,
            order.price is None,
    {
        ExchangeOrder::market(subscriber_id, OrderType::MarketBuy, symbol, shares)
    }

    /// Sell `shares` of `symbol` at the bid.
    pub fn market_sell(subscriber_id: DefaultSubscriberId, symbol: &str, shares: i64) -> (order:
        Self)
        ensures
            order.subscriber_id == subscriber_id,
            order.order_type == OrderType::MarketSell,
            order.symbol@ == symbol@,
            order.shares == shares,
            order.price is None,
    {
        ExchangeOrder::market(subscriber_id, OrderType::MarketSell, symbol, shares)
    }

    /// An order with a price.
    pub fn delayed(
        subscriber_id: DefaultSubscriberId,
        order_type: OrderType,
        symbol: &str,
        shares: i64,
        price: i64,
    ) -> (order: Self)
        ensures
            order.subscriber_id == subscriber_id,
            order.order_type == order_type,
            order.symbol@ == symbol@,
            order.shares == shares,
            order.price == Some(price),
    {
        Self { subscriber_id, order_type, symbol: symbol.to_owned(), shares, price: Some(price) }
    }

    /// Buy `shares` of `symbol` once the ask has risen to `price`.
    pub fn stop_buy(subscriber_id: DefaultSubscriberId, symbol: &str, shares: i64, price: i64) -> (order:
        Self)
        ensures
            order.subscriber_id == subscriber_id,
            order.order_type == OrderType::StopBuy,
            order.symbol@ == symbol@,
            order.shares == shares,
            order.price == Some(price),
    {
        ExchangeOrder::delayed(subscriber_id, OrderType::StopBuy, symbol, shares, price)
    }

    /// Sell `shares` of `symbol` once the bid has fallen to `price`.
    pub fn stop_sell(subscriber_id: DefaultSubscriberId, symbol: &str, shares: i64, price: i64) -> (order:
        Self)
        ensures
            order.subscriber_id == subscriber_id,
            order.order_type == OrderType::StopSell,
            order.symbol@ == symbol@,
            order.shares == shares,
            order.price == Some(price),
    {
        ExchangeOrder::delayed(subscriber_id, OrderType::StopSell, symbol, shares, price)
    }

    /// Buy `shares` of `symbol` once the ask is at `price` or lower.
    pub fn limit_buy(subscriber_id: DefaultSubscriberId, symbol: &str, shares: i64, price: i64) -> (order:
        Self)
        ensures
            order.subscriber_id == subscriber_id,
            order.order_type == OrderType::LimitBuy,
            order.symbol@ == symbol@,
            order.shares == shares,
            order.price == Some(price),
    {
        ExchangeOrder::delayed(subscriber_id, OrderType::LimitBuy, symbol, shares, price)
    }

    /// Sell `shares` of `symbol` once the bid is at `price` or higher.
    pub fn limit_sell(subscriber_id: DefaultSubscriberId, symbol: &str, shares: i64, price: i64) -> (order:
        Self)
        ensures
            order.subscriber_id == subscriber_id,
            order.order_type == OrderType::LimitSell,
            order.symbol@ == symbol@,
            order.shares == shares,
            order.price == Some(price),
    {
        ExchangeOrder::delayed(subscriber_id, OrderType::LimitSell, symbol, shares, price)
    }
}

impl Eq for ExchangeOrder {

}

impl PartialEq for ExchangeOrder {
    fn eq(&self, other: &Self) -> (same: bool) {
        self.symbol == other.symbol && self.order_type == other.order_type && self.shares
            == other.shares
    }
}

impl PartialEqSpecImpl for ExchangeOrder {
    open spec fn obeys_eq_spec() -> bool {
        true
    }

    open spec fn eq_spec(&self, other: &Self) -> bool {
        self.symbol@ == other.symbol@ && self.order_type == other.order_type && self.shares
            == other.shares
    }
}

/// The side of a trade.
#[derive(Clone, Copy, Debug, PartialEq, Eq, Structural)]
pub enum TradeType {
    Buy,
    Sell,
}

/// A trade that the exchange has made for one subscriber. `value` is price
/// times quantity.
#[derive(Debug)]
pub struct ExchangeTrade {
    pub subscriber_id: DefaultSubscriberId,
    pub symbol: String,
    pub value: i128,
    pub quantity: i64,
    pub date: DateTime,
    pub typ: TradeType,
}

impl Clone for ExchangeTrade {
    fn clone(&self) -> (copy: Self)
        ensures
            copy == *self,
    {
        Self {
            subscriber_id: self.subscriber_id,
            symbol: self.symbol.clone(),
            value: self.value,
            quantity: self.quantity,
            date: self.date,
            typ: self.typ,
        }
    }
}

impl ExchangeTrade {
    /// A trade with the given fields.
    pub fn new(
        subscriber_id: DefaultSubscriberId,
        symbol: &str,
        value: i128,
        quantity: i64,
        date: DateTime,
        typ: TradeType,
    ) -> (trade: Self)
        ensures
            trade.subscriber_id == subscriber_id,
            trade.symbol@ == symbol@,
            trade.value == value,
            trade.quantity == quantity,
            trade.date == date,
            trade.typ == typ,
    {
        Self { subscriber_id, symbol: symbol.to_owned(), value, quantity, date, typ }
    }
}

impl Eq for ExchangeTrade {

}

impl PartialEq for ExchangeTrade {
    fn eq(&self, other: &Self) -> (same: bool) {
        self.date == other.date && self.symbol == other.symbol
    }
}

impl PartialEqSpecImpl for ExchangeTrade {
    open spec fn obeys_eq_spec() -> bool {
        true
    }

    open spec fn eq_spec(&self, other: &Self) -> bool {
        self.date == other.date && self.symbol@ == other.symbol@
    }
}

impl PartialOrd for ExchangeTrade {
    fn partial_cmp(&self, other: &Self) -> (order: Option<Ordering>) {
        if self.date < other.date {
            Some(Ordering::Less)
        } else if self.date > other.date {
            Some(Ordering::Greater)
        } else {
            Some(Ordering::Equal)
        }
    }
}

impl PartialOrdSpecImpl for ExchangeTrade {
    open spec fn obeys_partial_cmp_spec() -> bool {
        true
    }

    open spec fn partial_cmp_spec(&self, other: &Self) -> Option<Ordering> {
        if self.date < other.date {
            Some(Ordering::Less)
        } else if self.date > other.date {
            Some(Ordering::Greater)
        } else {
            Some(Ordering::Equal)
        }
    }
}

/// What the exchange tells its subscribers.
pub enum ExchangeNotificationMessage {
    TradeCompleted(ExchangeTrade),
    OrderBooked(DefaultExchangeOrderId, ExchangeOrder),
    OrderDeleted(DefaultExchangeOrderId),
}

/// What a subscriber asks of the exchange.
pub enum ExchangeOrderMessage {
    CreateOrder(ExchangeOrder),
    DeleteOrder(DefaultSubscriberId, DefaultExchangeOrderId),
    ClearOrdersBySymbol(DefaultSubscriberId, String),
}

impl ExchangeOrderMessage {
    /// The request to book the order, if the message is one.
    pub open spec fn created(&self) -> Option<ExchangeOrder> {
        match self {
            ExchangeOrderMessage::CreateOrder(order) => Some(*order),
            _ => None,
        }
    }

    /// The request to book a market buy.
    pub fn market_buy(subscriber_id: DefaultSubscriberId, symbol: &str, shares: i64) -> (message:
        Self)
        ensures
            message.created() matches Some(order) && order.subscriber_id == subscriber_id
                && order.order_type == OrderType::MarketBuy && order.symbol@ == symbol@
                && order.shares == shares && order.price is None,
    {
        ExchangeOrderMessage::CreateOrder(ExchangeOrder::market_buy(subscriber_id, symbol, shares))
    }

    /// The request to book a market sell.
    pub fn market_sell(subscriber_id: DefaultSubscriberId, symbol: &str, shares: i64) -> (message:
        Self)
        ensures
            message.created() matches Some(order) && order.subscriber_id == subscriber_id
                && order.order_type == OrderType::MarketSell && order.symbol@ == symbol@
                && order.shares == shares && order.price is None,
    {
        ExchangeOrderMessage::CreateOrder(ExchangeOrder::market_sell(subscriber_id, symbol, shares))
    }

    /// The request to book a stop buy.
    pub fn stop_buy(subscriber_id: DefaultSubscriberId, symbol: &str, shares: i64, price: i64) -> (message:
        Self)
        ensures
            message.created() matches Some(order) && order.subscriber_id == subscriber_id
                && order.order_type == OrderType::StopBuy && order.symbol@ == symbol@
                && order.shares == shares && order.price == Some(price),
    {
        ExchangeOrderMessage::CreateOrder(
            ExchangeOrder::stop_buy(subscriber_id, symbol, shares, price),
        )
    }

    /// The request to book a stop sell.
    pub fn stop_sell(subscriber_id: DefaultSubscriberId, symbol: &str, shares: i64, price: i64) -> (message:
        Self)
        ensures
            message.created() matches Some(order) && order.subscriber_id == subscriber_id
                && order.order_type == OrderType::StopSell && order.symbol@ == symbol@
                && order.shares == shares && order.price == Some(price),
    {
        ExchangeOrderMessage::CreateOrder(
            ExchangeOrder::stop_sell(subscriber_id, symbol, shares, price),
        )
    }

    /// The request to book a limit buy.
    pub fn limit_buy(subscriber_id: DefaultSubscriberId, symbol: &str, shares: i64, price: i64) -> (message:
        Self)
        ensures
            message.created() matches Some(order) && order.subscriber_id == subscriber_id
                && order.order_type == OrderType::LimitBuy && order.symbol@ == symbol@
                && order.shares == shares && order.price == Some(price),
    {
        ExchangeOrderMessage::CreateOrder(
            ExchangeOrder::limit_buy(subscriber_id, symbol, shares, price),
        )
    }

    /// The request to book a limit sell.
    pub fn limit_sell(subscriber_id: DefaultSubscriberId, symbol: &str, shares: i64, price: i64) -> (message:
        Self)
        ensures
            message.created() matches Some(order) && order.subscriber_id == subscriber_id
                && order.order_type == OrderType::LimitSell && order.symbol@ == symbol@
                && order.shares == shares && order.price == Some(price),
    {
        ExchangeOrderMessage::CreateOrder(
            ExchangeOrder::limit_sell(subscriber_id, symbol, shares, price),
        )
    }
}

} // verus!
