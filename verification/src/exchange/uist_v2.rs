//! Orders, results and the resting book of the depth engine.

use vstd::prelude::*;
use std::collections::BTreeMap;
use crate::exchange::book::{
    by_id,
    drain,
    empty_book,
    file,
    holds_none,
    keys_below,
    listed,
    refill,
};
use crate::exchange::fill::{
    FillMap,
    FillTracker,
    TakerVolumes,
    VolumeMap,
    capped_sum,
    fill_order,
    fill_walk,
    lemma_idle_walk_takes_nothing,
    volumes_of,
};
use crate::exchange::laws::{
    after_controls,
    law_empty_book_executes_nothing,
    law_results_carry_book_ids,
    lemma_drawn_keeps_bounds,
    lemma_execute_keeps_book,
    lemma_execute_sound,
    lemma_trading_only,
};
use crate::source::hyperliquid::{BBO, DateDepth, DateTrade, Depth, Trade};
use vstd::std_specs::convert::FromSpecImpl;

verus! {

/// Identifier that the book assigns to an order on admission.
pub type OrderId = u64;

/// Top of book of one symbol at one timestamp, with the size displayed on
/// each side.
#[derive(Clone, Debug)]
pub struct Quote {
    pub bid: i64,
    pub bid_volume: i64,
    pub ask: i64,
    pub ask_volume: i64,
    pub date: i64,
    pub symbol: String,
}

impl From<BBO> for Quote {
    fn from(value: BBO) -> (quote: Self) {
        Self {
            bid: value.bid,
            bid_volume: value.bid_volume,
            ask: value.ask,
            ask_volume: value.ask_volume,
            date: value.date,
            symbol: value.symbol,
        }
    }
}

impl FromSpecImpl<BBO> for Quote {
    open spec fn obeys_from_spec() -> bool {
        true
    }

    open spec fn from_spec(value: BBO) -> Self {
        Quote {
            bid: value.bid,
            bid_volume: value.bid_volume,
            ask: value.ask,
            ask_volume: value.ask_volume,
            date: value.date,
            symbol: value.symbol,
        }
    }
}

/// What a client asks the book to do.
#[derive(Clone, Copy, Debug, PartialEq, Eq, Structural)]
pub enum OrderType {
    MarketSell,
    MarketBuy,
    LimitBuy,
    LimitSell,
    Cancel,
    Modify,
}

impl OrderType {
    /// The order takes liquidity from the ask side.
    pub open spec fn spec_is_buy(self) -> bool {
        self == OrderType::MarketBuy || self == OrderType::LimitBuy
    }

    /// The order takes liquidity from the bid side.
    pub open spec fn spec_is_sell(self) -> bool {
        self == OrderType::MarketSell || self == OrderType::LimitSell
    }

    /// The order acts on another order instead of trading.
    pub open spec fn spec_is_control(self) -> bool {
        self == OrderType::Cancel || self == OrderType::Modify
    }

    /// Whether the order takes liquidity from the ask side.
    #[verifier::when_used_as_spec(spec_is_buy)]
    pub fn is_buy(self) -> (buy: bool)
        ensures
            buy == self.spec_is_buy(),
    {
        match self {
            OrderType::MarketBuy | OrderType::LimitBuy => true,
            _ => false,
        }
    }

    /// Whether the order takes liquidity from the bid side.
    #[verifier::when_used_as_spec(spec_is_sell)]
    pub fn is_sell(self) -> (sell: bool)
        ensures
            sell == self.spec_is_sell(),
    {
        match self {
            OrderType::MarketSell | OrderType::LimitSell => true,
            _ => false,
        }
    }

    /// Whether the order acts on another order instead of trading.
    #[verifier::when_used_as_spec(spec_is_control)]
    pub fn is_control(self) -> (control: bool)
        ensures
            control == self.spec_is_control(),
    {
        match self {
            OrderType::Cancel | OrderType::Modify => true,
            _ => false,
        }
    }
}

/// An order as a client submits it. `qty` is the quantity to trade, or for a
/// modify the change of the referenced order's quantity.
#[derive(Debug)]
pub struct Order {
    pub order_type: OrderType,
    pub symbol: String,
    pub qty: i64,
    pub price: Option<i64>,
    pub order_id_ref: Option<OrderId>,
    pub exchange: String,
}

impl Clone for Order {
    fn clone(&self) -> (copy: Self)
        ensures
            copy == *self,
    {
        Self {
            order_type: self.order_type,
            symbol: self.symbol.clone(),
            qty: self.qty,
            price: self.price,
            order_id_ref: self.order_id_ref,
            exchange: self.exchange.clone(),
        }
    }
}

impl Order {
    /// A limit order names its price and a modify names the order it changes.
    pub open spec fn wf(&self) -> bool {
        &&& (self.order_type == OrderType::LimitBuy || self.order_type == OrderType::LimitSell)
            ==> self.price is Some
        &&& self.order_type == OrderType::Modify ==> self.order_id_ref is Some
    }

    /// Whether the order is well formed.
    pub fn is_well_formed(&self) -> (ok: bool)
        ensures
            ok == self.wf(),
    {
        match self.order_type {
            OrderType::LimitBuy | OrderType::LimitSell => self.price.is_some(),
            OrderType::Modify => self.order_id_ref.is_some(),
            _ => true,
        }
    }

    fn market(order_type: OrderType, symbol: &str, shares: i64, exchange: &str) -> (order: Self)
        ensures
            order.order_type == order_type,
            order.symbol@ == symbol@,
            order.qty == shares,
            order.price is None,
            order.order_id_ref is None,
            order.exchange@ == exchange@,
    {
        Self {
            order_type,
            symbol: symbol.to_owned(),
            qty: shares,
            price: None,
            order_id_ref: None,
            exchange: exchange.to_owned(),
        }
    }

    fn delayed(order_type: OrderType, symbol: &str, shares: i64, price: i64, exchange: &str) -> (order:
        Self)
        ensures
            order.order_type == order_type,
            order.symbol@ == symbol@,
            order.qty == shares,
            order.price == Some(price),
            order.order_id_ref is None,
            order.exchange@ == exchange@,
    {
        Self {
            order_type,
            symbol: symbol.to_owned(),
            qty: shares,
            price: Some(price),
            order_id_ref: None,
            exchange: exchange.to_owned(),
        }
    }

    /// Buy `shares` of `symbol` on `exchange` at whatever the book offers.
    pub fn market_buy(symbol: &str, shares: i64, exchange: &str) -> (order: Self)
        ensures
            order.order_type == OrderType::MarketBuy,
            order.symbol@ == symbol@,
            order.qty == shares,
            order.price is None,
            order.order_id_ref is None,
            order.exchange@ == exchange@,
            order.wf(),
    {
        Order::market(OrderType::MarketBuy, symbol, shares, exchange)
    }

    /// Sell `shares` of `symbol` on `exchange` at whatever the book bids.
    pub fn market_sell(symbol: &str, shares: i64, exchange: &str) -> (order: Self)
        ensures
            order.order_type == OrderType::MarketSell,
            order.symbol@ == symbol@,
            order.qty == shares,
            order.price is None,
            order.order_id_ref is None,
            order.exchange@ == exchange@,
            order.wf(),
    {
        Order::market(OrderType::MarketSell, symbol, shares, exchange)
    }

    /// Buy `shares` of `symbol` on `exchange` at `price` or lower.
    pub fn limit_buy(symbol: &str, shares: i64, price: i64, exchange: &str) -> (order: Self)
        ensures
            order.order_type == OrderType::LimitBuy,
            order.symbol@ == symbol@,
            order.qty == shares,
            order.price == Some(price),
            order.order_id_ref is None,
            order.exchange@ == exchange@,
            order.wf(),
    {
        Order::delayed(OrderType::LimitBuy, symbol, shares, price, exchange)
    }

    /// Sell `shares` of `symbol` on `exchange` at `price` or higher.
    pub fn limit_sell(symbol: &str, shares: i64, price: i64, exchange: &str) -> (order: Self)
        ensures
            order.order_type == OrderType::LimitSell,
            order.symbol@ == symbol@,
            order.qty == shares,
            order.price == Some(price),
            order.order_id_ref is None,
            order.exchange@ == exchange@,
            order.wf(),
    {
        Order::delayed(OrderType::LimitSell, symbol, shares, price, exchange)
    }

    /// Change the quantity of the resting order `order_id` by `qty_change`.
    pub fn modify_order(symbol: &str, order_id: OrderId, qty_change: i64, exchange: &str) -> (order:
        Self)
        ensures
            order.order_type == OrderType::Modify,
            order.symbol@ == symbol@,
            order.qty == qty_change,
            order.price is None,
            order.order_id_ref == Some(order_id),
            order.exchange@ == exchange@,
            order.wf(),
    {
        Self {
            order_id_ref: Some(order_id),
            order_type: OrderType::Modify,
            symbol: symbol.to_owned(),
            price: None,
            qty: qty_change,
            exchange: exchange.to_owned(),
        }
    }

    /// Take the resting order `order_id` out of the book.
    pub fn cancel_order(symbol: &str, order_id: OrderId, exchange: &str) -> (order: Self)
        ensures
            order.order_type == OrderType::Cancel,
            order.symbol@ == symbol@,
            order.qty == 0,
            order.price is None,
            order.order_id_ref == Some(order_id),
            order.exchange@ == exchange@,
            order.wf(),
    {
        Self {
            order_id_ref: Some(order_id),
            order_type: OrderType::Cancel,
            symbol: symbol.to_owned(),
            price: None,
            qty: 0,
            exchange: exchange.to_owned(),
        }
    }
}

/// What a result reports: a fill on one side, or a control order applied.
#[derive(Clone, Copy, Debug, PartialEq, Eq, Structural)]
pub enum OrderResultType {
    Buy,
    Sell,
    Modify,
    Cancel,
}

/// One fill, or one applied cancel or modify. `value` is price times
/// quantity; both are zero for a cancel or a modify.
#[derive(Debug)]
pub struct OrderResult {
    pub symbol: String,
    pub value: i128,
    pub quantity: i64,
    pub date: i64,
    pub typ: OrderResultType,
    pub order_id: OrderId,
    pub order_id_ref: Option<OrderId>,
    pub exchange: String,
}

impl Clone for OrderResult {
    fn clone(&self) -> (copy: Self)
        ensures
            copy == *self,
    {
        Self {
            symbol: self.symbol.clone(),
            value: self.value,
            quantity: self.quantity,
            date: self.date,
            typ: self.typ,
            order_id: self.order_id,
            order_id_ref: self.order_id_ref,
            exchange: self.exchange.clone(),
        }
    }
}

impl OrderResult {
    /// The result reports a trade, not a cancel or a modify.
    pub open spec fn is_fill(&self) -> bool {
        self.typ == OrderResultType::Buy || self.typ == OrderResultType::Sell
    }
}

/// When a resting order may first match.
#[derive(Clone, Copy, Debug, PartialEq, Eq, Structural)]
pub enum LatencyModel {
    NoLatency,
    FixedPeriod(i64),
}

impl LatencyModel {
    /// An order received at `received` may match at `now`: always without
    /// latency, else once the period has passed in full.
    pub open spec fn admits(self, now: i64, received: i64) -> bool {
        match self {
            LatencyModel::NoLatency => true,
            LatencyModel::FixedPeriod(period) => received + period < now,
        }
    }

    /// Whether `order` may match at `now`.
    pub fn is_eligible(&self, now: i64, order: &InnerOrder) -> (eligible: bool)
        ensures
            eligible == self.admits(now, order.recieved_timestamp),
    {
        match self {
            LatencyModel::NoLatency => true,
            LatencyModel::FixedPeriod(period) => {
                let due: i128 = order.recieved_timestamp as i128 + *period as i128;
                due < now as i128
            },
        }
    }
}

/// An order in the book: the client's order with the id and the timestamp
/// that admission gave it.
#[derive(Debug)]
pub struct InnerOrder {
    pub order_type: OrderType,
    pub symbol: String,
    pub qty: i64,
    pub price: Option<i64>,
    pub recieved_timestamp: i64,
    pub order_id: OrderId,
    pub order_id_ref: Option<OrderId>,
    pub exchange: String,
}

impl Clone for InnerOrder {
    fn clone(&self) -> (copy: Self)
        ensures
            copy == *self,
    {
        Self {
            order_type: self.order_type,
            symbol: self.symbol.clone(),
            qty: self.qty,
            price: self.price,
            recieved_timestamp: self.recieved_timestamp,
            order_id: self.order_id,
            order_id_ref: self.order_id_ref,
            exchange: self.exchange.clone(),
        }
    }
}

impl InnerOrder {
    /// A limit order names its price and a modify names the order it changes.
    pub open spec fn wf(&self) -> bool {
        &&& (self.order_type == OrderType::LimitBuy || self.order_type == OrderType::LimitSell)
            ==> self.price is Some
        &&& self.order_type == OrderType::Modify ==> self.order_id_ref is Some
    }
}

/// Whether a client order at the touch is served from taker volume before
/// the displayed size.
#[derive(Clone, Copy, Debug, PartialEq, Eq, Structural)]
pub enum OrderBookOrderPriority {
    AlwaysFirst,
    TradeThrough,
}

/// What the book can report as an error.
#[derive(Clone, Copy, Debug, PartialEq, Eq, Structural)]
pub enum OrderBookError {
    OrderIdNotFound,
}

impl OrderBookError {
    /// The error as text.
    pub fn to_string(&self) -> (text: String)
        ensures
            text@ == "OrderBookError"@,
    {
        "OrderBookError".to_owned()
    }
}

/// Index of the first order at or after `from` with the id `id`, or the number
/// of orders if there is none.
pub open spec fn find_order(orders: Seq<InnerOrder>, id: OrderId, from: int) -> int
    decreases orders.len() - from,
{
    if from < 0 || from >= orders.len() {
        orders.len() as int
    } else if orders[from].order_id == id {
        from
    } else {
        find_order(orders, id, from + 1)
    }
}

/// The same order with another quantity.
pub open spec fn with_qty(order: InnerOrder, qty: i64) -> InnerOrder {
    InnerOrder { qty, ..order }
}

/// The result that reports that a cancel or a modify was applied at `now`.
pub open spec fn control_result(now: i64, control: InnerOrder, typ: OrderResultType) -> OrderResult {
    OrderResult {
        symbol: control.symbol,
        value: 0,
        quantity: 0,
        date: now,
        typ,
        order_id: control.order_id,
        order_id_ref: control.order_id_ref,
        exchange: control.exchange,
    }
}

/// The trading orders of a book and the results emitted so far, while the
/// cancels and modifies of a tick are applied.
pub struct Applied {
    pub orders: Seq<InnerOrder>,
    pub results: Seq<OrderResult>,
}

/// A cancel takes the order it names out of the book and reports it. Where
/// the book holds no such order, nothing changes and nothing is reported.
pub open spec fn apply_cancel(now: i64, cancel: InnerOrder, orders: Seq<InnerOrder>) -> Applied {
    match cancel.order_id_ref {
        Some(id) => {
            let at = find_order(orders, id, 0);
            if at < orders.len() {
                Applied {
                    orders: orders.remove(at),
                    results: seq![control_result(now, cancel, OrderResultType::Cancel)],
                }
            } else {
                Applied { orders, results: Seq::empty() }
            }
        },
        None => Applied { orders, results: Seq::empty() },
    }
}

/// The quantity of an order with `qty` after a modify by `change`: a rise is
/// added, held within the range of a quantity; a cut is taken off as long as
/// something is left. `None` where nothing would be left.
pub open spec fn modified_qty(qty: i64, change: i64) -> Option<i64> {
    if change > 0 {
        Some(capped_sum(qty, change))
    } else if qty + change > 0 {
        Some((qty + change) as i64)
    } else {
        None
    }
}

/// A modify changes the quantity of the order it names, or takes that order
/// out of the book where the change leaves nothing of it, and reports it.
/// Where the book holds no such order, nothing changes and nothing is
/// reported.
pub open spec fn apply_modify(now: i64, modify: InnerOrder, orders: Seq<InnerOrder>) -> Applied {
    match modify.order_id_ref {
        Some(id) => {
            let at = find_order(orders, id, 0);
            if at < orders.len() {
                Applied {
                    orders: match modified_qty(orders[at].qty, modify.qty) {
                        Some(qty) => orders.update(at, with_qty(orders[at], qty)),
                        None => orders.remove(at),
                    },
                    results: seq![control_result(now, modify, OrderResultType::Modify)],
                }
            } else {
                Applied { orders, results: Seq::empty() }
            }
        },
        None => Applied { orders, results: Seq::empty() },
    }
}

/// One cancel or modify applied to the book, its report behind the earlier
/// ones.
pub open spec fn apply_control(now: i64, control: InnerOrder, so_far: Applied) -> Applied {
    let step = match control.order_type {
        OrderType::Cancel => apply_cancel(now, control, so_far.orders),
        OrderType::Modify => apply_modify(now, control, so_far.orders),
        _ => Applied { orders: so_far.orders, results: Seq::empty() },
    };
    Applied { orders: step.orders, results: so_far.results + step.results }
}

/// The cancels and modifies from `from` on applied one after the other.
pub open spec fn apply_controls(
    controls: Seq<InnerOrder>,
    from: int,
    now: i64,
    so_far: Applied,
) -> Applied
    decreases controls.len() - from,
{
    if from < 0 || from >= controls.len() {
        so_far
    } else {
        apply_controls(controls, from + 1, now, apply_control(now, controls[from], so_far))
    }
}

/// The matching pass in progress: liquidity taken so far, results emitted so
/// far, and the orders that stay in the book.
pub struct Matching {
    pub filled: FillMap,
    pub results: Seq<OrderResult>,
    pub resting: Seq<InnerOrder>,
}

/// One order of the matching pass. It stays in the book untouched where the
/// latency model does not admit it yet, where there is no snapshot for its
/// venue and symbol, and where its walk through the snapshot fills nothing.
/// Else its fills are emitted and it leaves the book.
pub open spec fn match_order(
    order: InnerOrder,
    latency: LatencyModel,
    priority: OrderBookOrderPriority,
    quotes: Map<(Seq<char>, Seq<char>), Depth>,
    volumes: VolumeMap,
    now: i64,
    so_far: Matching,
) -> Matching {
    let key = (order.exchange@, order.symbol@);
    if !latency.admits(now, order.recieved_timestamp) || !quotes.contains_key(key) {
        Matching { resting: so_far.resting.push(order), ..so_far }
    } else {
        let walk = fill_walk(quotes[key], order, so_far.filled, volumes, priority);
        if walk.trades.len() == 0 {
            Matching { resting: so_far.resting.push(order), ..so_far }
        } else {
            Matching {
                filled: walk.filled,
                results: so_far.results + walk.trades,
                resting: so_far.resting,
            }
        }
    }
}

/// The matching pass over the orders from `from` on, in the order of the
/// book.
pub open spec fn match_from(
    orders: Seq<InnerOrder>,
    from: int,
    latency: LatencyModel,
    priority: OrderBookOrderPriority,
    quotes: Map<(Seq<char>, Seq<char>), Depth>,
    volumes: VolumeMap,
    now: i64,
    so_far: Matching,
) -> Matching
    decreases orders.len() - from,
{
    if from < 0 || from >= orders.len() {
        so_far
    } else {
        match_from(
            orders,
            from + 1,
            latency,
            priority,
            quotes,
            volumes,
            now,
            match_order(orders[from], latency, priority, quotes, volumes, now, so_far),
        )
    }
}

/// The cancels and modifies of a book.
pub open spec fn controls_of(book: Seq<InnerOrder>) -> Seq<InnerOrder> {
    book.filter(|order: InnerOrder| order.order_type.spec_is_control())
}

/// The trading orders of a book.
pub open spec fn trading_of(book: Seq<InnerOrder>) -> Seq<InnerOrder> {
    book.filter(|order: InnerOrder| !order.order_type.spec_is_control())
}

/// One execution cycle of the book at `now`. First the cancels and modifies
/// are applied, in the order of their ids, to the trading orders. Then each
/// trading order that is left is matched, in the order of the ids, against
/// the snapshot of its venue and symbol; what one order takes at a level is
/// gone for those behind it. The cancels and modifies leave the book, applied
/// or not.
pub open spec fn execute(
    book: Seq<InnerOrder>,
    latency: LatencyModel,
    priority: OrderBookOrderPriority,
    quotes: Map<(Seq<char>, Seq<char>), Depth>,
    prints: Seq<Trade>,
    now: i64,
) -> Matching {
    let applied = apply_controls(
        controls_of(book),
        0,
        now,
        Applied { orders: trading_of(book), results: Seq::empty() },
    );
    match_from(
        applied.orders,
        0,
        latency,
        priority,
        quotes,
        volumes_of(prints),
        now,
        Matching { filled: Map::empty(), results: applied.results, resting: Seq::empty() },
    )
}

/// Ids rise strictly along the sequence.
pub open spec fn ids_ascending(orders: Seq<InnerOrder>) -> bool {
    forall|i: int, j: int| 0 <= i < j < orders.len() ==> orders[i].order_id < orders[j].order_id
}

/// Every id is below `bound`.
pub open spec fn ids_below(orders: Seq<InnerOrder>, bound: OrderId) -> bool {
    forall|i: int| 0 <= i < orders.len() ==> orders[i].order_id < bound
}

/// Every order is well formed.
pub open spec fn all_wf(orders: Seq<InnerOrder>) -> bool {
    forall|i: int| 0 <= i < orders.len() ==> (#[trigger] orders[i]).wf()
}

/// The order that admission makes of a client's order.
pub open spec fn admitted(order: Order, id: OrderId, now: i64) -> InnerOrder {
    InnerOrder {
        recieved_timestamp: now,
        order_id: id,
        order_type: order.order_type,
        symbol: order.symbol,
        qty: order.qty,
        price: order.price,
        order_id_ref: order.order_id_ref,
        exchange: order.exchange,
    }
}

/// The quantities of the orders for `symbol`, added up.
pub open spec fn total_qty(orders: Seq<InnerOrder>, symbol: Seq<char>) -> int
    decreases orders.len(),
{
    if orders.len() == 0 {
        0
    } else if orders.last().symbol@ == symbol {
        total_qty(orders.drop_last(), symbol) + orders.last().qty
    } else {
        total_qty(orders.drop_last(), symbol)
    }
}

/// The resting orders of the depth engine, in the order of their admission.
#[derive(Debug)]
pub struct OrderBook {
    inner: BTreeMap<OrderId, InnerOrder>,
    latency: LatencyModel,
    last_order_id: u64,
    priority_setting: OrderBookOrderPriority,
}

impl OrderBook {
    /// The resting orders, lowest id first.
    pub closed spec fn orders(&self) -> Seq<InnerOrder> {
        by_id(self.inner@)
    }

    /// Every resting order is filed under an id below the id that comes
    /// next.
    pub closed spec fn filed(&self) -> bool {
        keys_below(self.inner@, self.last_order_id)
    }

    /// The id that the next admitted order gets.
    pub closed spec fn next_id(&self) -> OrderId {
        self.last_order_id
    }

    /// The latency model of the book.
    pub closed spec fn latency(&self) -> LatencyModel {
        self.latency
    }

    /// The priority setting of the book.
    pub closed spec fn priority(&self) -> OrderBookOrderPriority {
        self.priority_setting
    }

    /// The resting orders are well formed and their ids rise strictly, all
    /// below the id that comes next.
    pub open spec fn wf(&self) -> bool {
        &&& ids_ascending(self.orders())
        &&& ids_below(self.orders(), self.next_id())
        &&& all_wf(self.orders())
        &&& self.filed()
    }

    /// An empty book without latency, with priority at the touch.
    pub fn new() -> (book: Self)
        ensures
            book.wf(),
            book.orders() == Seq::<InnerOrder>::empty(),
            book.next_id() == 0,
            book.latency() == LatencyModel::NoLatency,
            book.priority() == OrderBookOrderPriority::AlwaysFirst,
    {
        Self {
            inner: empty_book(),
            latency: LatencyModel::NoLatency,
            last_order_id: 0,
            priority_setting: OrderBookOrderPriority::AlwaysFirst,
        }
    }

    /// An empty book whose orders may match once `latency` has passed in
    /// full after their admission.
    pub fn with_latency(latency: i64) -> (book: Self)
        ensures
            book.wf(),
            book.orders() == Seq::<InnerOrder>::empty(),
            book.next_id() == 0,
            book.latency() == LatencyModel::FixedPeriod(latency),
            book.priority() == OrderBookOrderPriority::AlwaysFirst,
    {
        Self {
            inner: empty_book(),
            latency: LatencyModel::FixedPeriod(latency),
            last_order_id: 0,
            priority_setting: OrderBookOrderPriority::AlwaysFirst,
        }
    }

    /// An empty book without latency, with the given priority setting.
    pub fn with_priority(priority: OrderBookOrderPriority) -> (book: Self)
        ensures
            book.wf(),
            book.orders() == Seq::<InnerOrder>::empty(),
            book.next_id() == 0,
            book.latency() == LatencyModel::NoLatency,
            book.priority() == priority,
    {
        Self {
            inner: empty_book(),
            latency: LatencyModel::NoLatency,
            last_order_id: 0,
            priority_setting: priority,
        }
    }

    /// The id that the next admitted order gets.
    pub fn last_order_id(&self) -> (id: OrderId)
        ensures
            id == self.next_id(),
    {
        self.last_order_id
    }

    /// Admits `order` at `now`: it gets the next id and rests behind all
    /// orders admitted before.
    pub fn insert_order(&mut self, order: Order, now: i64) -> (inner_order: InnerOrder)
        requires
            old(self).wf(),
            order.wf(),
            old(self).next_id() < u64::MAX,
        ensures
            final(self).wf(),
            inner_order == admitted(order, old(self).next_id(), now),
            final(self).orders() == old(self).orders().push(inner_order),
            final(self).next_id() == old(self).next_id() + 1,
            final(self).latency() == old(self).latency(),
            final(self).priority() == old(self).priority(),
    {
        let inner_order = InnerOrder {
            recieved_timestamp: now,
            order_id: self.last_order_id,
            order_type: order.order_type,
            symbol: order.symbol,
            qty: order.qty,
            price: order.price,
            order_id_ref: order.order_id_ref,
            exchange: order.exchange,
        };
        file(&mut self.inner, self.last_order_id, inner_order.clone());
        self.last_order_id = self.last_order_id + 1;
        inner_order
    }

    /// The quantities of all resting orders for `symbol`, added up.
    pub fn get_total_order_qty_by_symbol(&self, symbol: &str) -> (total: i128)
        ensures
            total == total_qty(self.orders(), symbol@),
    {
        let name: String = symbol.to_owned();
        let orders: Vec<&InnerOrder> = listed(&self.inner);
        let ghost all = self.orders();
        let mut total: i128 = 0;
        let mut i: usize = 0;
        proof {
            assert(all.take(0) =~= Seq::empty());
        }
        while i < orders.len()
            invariant
                i <= orders.len(),
                orders@.len() == all.len(),
                forall|k: int| 0 <= k < orders@.len() ==> *(#[trigger] orders@[k]) == all[k],
                name@ == symbol@,
                total == total_qty(all.take(i as int), symbol@),
                -(i as int) * 0x8000_0000_0000_0000 <= total <= (i as int) * 0x8000_0000_0000_0000,
            decreases orders.len() - i,
        {
            proof {
                let upto = all.take(i + 1);
                assert(upto.drop_last() =~= all.take(i as int));
                assert(upto.last() == all[i as int]);
                assert(*orders@[i as int] == all[i as int]);
            }
            let order: &InnerOrder = orders[i];
            if order.symbol == name {
                total = total + order.qty as i128;
            }
            i = i + 1;
        }
        proof {
            assert(all.take(i as int) =~= all);
        }
        total
    }

    /// Whether no order rests in the book.
    pub fn is_empty(&self) -> (empty: bool)
        ensures
            empty == (self.orders().len() == 0),
    {
        holds_none(&self.inner)
    }

    fn position(orders: &Vec<InnerOrder>, id: OrderId) -> (at: usize)
        ensures
            at == find_order(orders@, id, 0),
    {
        let mut i: usize = 0;
        while i < orders.len() && orders[i].order_id != id
            invariant
                i <= orders.len(),
                find_order(orders@, id, 0) == find_order(orders@, id, i as int),
            decreases orders.len() - i,
        {
            i = i + 1;
        }
        i
    }

    fn report(now: i64, control: &InnerOrder, typ: OrderResultType) -> (result: OrderResult)
        ensures
            result == control_result(now, *control, typ),
    {
        OrderResult {
            symbol: control.symbol.clone(),
            value: 0,
            quantity: 0,
            date: now,
            typ,
            order_id: control.order_id,
            order_id_ref: control.order_id_ref,
            exchange: control.exchange.clone(),
        }
    }

    // The report comes back in a vector that is empty where nothing was
    // cancelled.
    fn cancel_order(now: i64, cancel_order: &InnerOrder, orderbook: &mut Vec<InnerOrder>) -> (res:
        Vec<OrderResult>)
        ensures
            (Applied { orders: final(orderbook)@, results: res@ }) == apply_cancel(
                now,
                *cancel_order,
                old(orderbook)@,
            ),
    {
        let mut res: Vec<OrderResult> = Vec::new();
        if let Some(order_to_cancel_id) = cancel_order.order_id_ref {
            let at: usize = Self::position(orderbook, order_to_cancel_id);
            if at < orderbook.len() {
                orderbook.remove(at);
                res.push(Self::report(now, cancel_order, OrderResultType::Cancel));
                assert(res@ =~= seq![control_result(now, *cancel_order, OrderResultType::Cancel)]);
            }
        }
        res
    }

    // The report comes back in a vector that is empty where nothing was
    // modified.
    fn modify_order(now: i64, modify_order: &InnerOrder, orderbook: &mut Vec<InnerOrder>) -> (res:
        Vec<OrderResult>)
        ensures
            (Applied { orders: final(orderbook)@, results: res@ }) == apply_modify(
                now,
                *modify_order,
                old(orderbook)@,
            ),
    {
        let mut res: Vec<OrderResult> = Vec::new();
        if let Some(order_to_modify_id) = modify_order.order_id_ref {
            let at: usize = Self::position(orderbook, order_to_modify_id);
            if at < orderbook.len() {
                let qty: i64 = orderbook[at].qty;
                let qty_change: i64 = modify_order.qty;
                if qty_change > 0 {
                    let raised: i128 = qty as i128 + qty_change as i128;
                    if raised > i64::MAX as i128 {
                        orderbook[at].qty = i64::MAX;
                    } else {
                        orderbook[at].qty = raised as i64;
                    }
                } else {
                    let qty_left: i128 = qty as i128 + qty_change as i128;
                    if qty_left > 0 {
                        orderbook[at].qty = qty_left as i64;
                    } else {
                        // Nothing would be left of the order: it leaves the book.
                        orderbook.remove(at);
                    }
                }
                res.push(Self::report(now, modify_order, OrderResultType::Modify));
                assert(res@ =~= seq![control_result(now, *modify_order, OrderResultType::Modify)]);
            }
        }
        res
    }

    /// Runs one execution cycle at `now` against the snapshots and the taker
    /// prints of the tick: cancels and modifies first, then the matching
    /// pass. The orders that stay are those that no cancel or modify took out
    /// and that filled nothing. The results come back in the order in which
    /// they were emitted.
    pub fn execute_orders(&mut self, quotes: &DateDepth, trades: &DateTrade, now: i64) -> (results:
        Vec<OrderResult>)
        requires
            old(self).wf(),
        ensures
            final(self).wf(),
            results@ == execute(
                old(self).orders(),
                old(self).latency(),
                old(self).priority(),
                quotes@,
                trades.prints(),
                now,
            ).results,
            final(self).orders() == execute(
                old(self).orders(),
                old(self).latency(),
                old(self).priority(),
                quotes@,
                trades.prints(),
                now,
            ).resting,
            final(self).next_id() == old(self).next_id(),
            final(self).latency() == old(self).latency(),
            final(self).priority() == old(self).priority(),
            old(self).orders().len() == 0 ==> results@.len() == 0 && final(self).orders().len()
                == 0,
            forall|k: int|
                0 <= k < results@.len() ==> (#[trigger] results@[k]).order_id < old(self).next_id(),
    {
        let ghost book = self.orders();
        let mut trade_results: Vec<OrderResult> = Vec::new();
        let taker_trades = TakerVolumes::from_trades(trades);
        let mut filled = FillTracker::new();

        // Cancels and modifies are split from the trading orders and applied
        // to them before anything is matched.
        let resting: Vec<InnerOrder> = drain(&mut self.inner);
        let mut cancel_and_modify: Vec<InnerOrder> = Vec::new();
        let mut orders: Vec<InnerOrder> = Vec::new();
        for order in it: resting
            invariant
                it.seq() == book,
                cancel_and_modify@ == controls_of(book.take(it.index() as int)),
                orders@ == trading_of(book.take(it.index() as int)),
        {
            proof {
                broadcast use Seq::lemma_filter_push;

                assert(book.take(it.index() + 1) =~= book.take(it.index() as int).push(order));
            }
            if order.order_type.is_control() {
                cancel_and_modify.push(order);
            } else {
                orders.push(order);
            }
        }
        proof {
            assert(book.take(book.len() as int) =~= book);
        }

        let ghost controls = cancel_and_modify@;
        let ghost split = Applied { orders: orders@, results: trade_results@ };
        for order in it: cancel_and_modify
            invariant
                it.seq() == controls,
                apply_controls(controls, 0, now, split) == apply_controls(
                    controls,
                    it.index() as int,
                    now,
                    Applied { orders: orders@, results: trade_results@ },
                ),
        {
            match order.order_type {
                OrderType::Cancel => {
                    let mut res = Self::cancel_order(now, &order, &mut orders);
                    trade_results.append(&mut res);
                },
                OrderType::Modify => {
                    let mut res = Self::modify_order(now, &order, &mut orders);
                    trade_results.append(&mut res);
                },
                _ => {
                    assert(trade_results@ + Seq::<OrderResult>::empty() =~= trade_results@);
                },
            }
        }

        let ghost live = orders@;
        let ghost applied = Matching {
            filled: filled@,
            results: trade_results@,
            resting: Seq::empty(),
        };
        let ghost volumes = taker_trades@;
        proof {
            assert(live == after_controls(book, now));
            lemma_execute_sound(
                book,
                self.latency,
                self.priority_setting,
                quotes@,
                trades.prints(),
                now,
            );
            lemma_drawn_keeps_bounds(live, book, self.last_order_id);
            assert forall|i: int| 0 <= i < live.len() implies !(
            #[trigger] live[i]).order_type.spec_is_control() by {
                lemma_trading_only(book, now, i);
            }
        }
        let mut unexecuted_orders: Vec<InnerOrder> = Vec::new();
        for order in it: orders
            invariant
                it.seq() == live,
                all_wf(live),
                forall|i: int|
                    0 <= i < live.len() ==> !(#[trigger] live[i]).order_type.spec_is_control(),
                volumes == taker_trades@,
                self.latency == old(self).latency,
                self.priority_setting == old(self).priority_setting,
                match_from(
                    live,
                    0,
                    self.latency,
                    self.priority_setting,
                    quotes@,
                    volumes,
                    now,
                    applied,
                ) == match_from(
                    live,
                    it.index() as int,
                    self.latency,
                    self.priority_setting,
                    quotes@,
                    volumes,
                    now,
                    Matching {
                        filled: filled@,
                        results: trade_results@,
                        resting: unexecuted_orders@,
                    },
                ),
        {
            let depth: Option<&Depth> = if self.latency.is_eligible(now, &order) {
                quotes.lookup(&order.exchange, &order.symbol)
            } else {
                None
            };
            match depth {
                Some(depth) => {
                    let ghost before = filled@;
                    let mut completed_trades = fill_order(
                        depth,
                        &order,
                        &mut filled,
                        &taker_trades,
                        &self.priority_setting,
                    );
                    if completed_trades.is_empty() {
                        proof {
                            lemma_idle_walk_takes_nothing(
                                *depth,
                                order,
                                before,
                                volumes,
                                self.priority_setting,
                            );
                        }
                        unexecuted_orders.push(order);
                    } else {
                        trade_results.append(&mut completed_trades);
                    }
                },
                None => {
                    unexecuted_orders.push(order);
                },
            }
        }
        proof {
            lemma_execute_keeps_book(
                book,
                self.latency,
                self.priority_setting,
                quotes@,
                trades.prints(),
                now,
                self.last_order_id,
            );
            law_results_carry_book_ids(
                book,
                self.latency,
                self.priority_setting,
                quotes@,
                trades.prints(),
                now,
                self.last_order_id,
                Seq::empty(),
            );
            if book.len() == 0 {
                assert(book =~= Seq::<InnerOrder>::empty());
                law_empty_book_executes_nothing(
                    self.latency,
                    self.priority_setting,
                    quotes@,
                    trades.prints(),
                    now,
                );
            }
        }
        proof {
            assert(unexecuted_orders@ == execute(
                book,
                self.latency,
                self.priority_setting,
                quotes@,
                trades.prints(),
                now,
            ).resting);
        }
        let ghost left = unexecuted_orders@;
        refill(&mut self.inner, unexecuted_orders);
        proof {
            assert forall|key: OrderId| self.inner@.contains_key(key) implies key
                < self.last_order_id by {
                let j = choose|j: int| 0 <= j < left.len() && (#[trigger] left[j]).order_id == key;
                assert(left[j].order_id < self.last_order_id);
            }
        }
        trade_results
    }
}

impl Default for OrderBook {
    fn default() -> (book: Self)
        ensures
            book.wf(),
            book.orders() == Seq::<InnerOrder>::empty(),
            book.next_id() == 0,
            book.latency() == LatencyModel::NoLatency,
            book.priority() == OrderBookOrderPriority::AlwaysFirst,
    {
        Self::new()
    }
}

/// The staged orders in the order of their admission: sells first, the
/// others behind them, each group in the order of submission.
pub open spec fn staged(buffer: Seq<Order>) -> Seq<Order> {
    buffer.filter(|order: Order| order.order_type.spec_is_sell()) + buffer.filter(
        |order: Order| !order.order_type.spec_is_sell(),
    )
}

/// The orders that admission at `now` makes of `orders`, the first with the
/// id `first`, each next one with the next id.
pub open spec fn admitted_all(orders: Seq<Order>, first: OrderId, now: i64) -> Seq<InnerOrder> {
    Seq::new(orders.len(), |i: int| admitted(orders[i], (first + i) as OrderId, now))
}

/// Every staged order is well formed.
pub open spec fn all_staged_wf(buffer: Seq<Order>) -> bool {
    forall|i: int| 0 <= i < buffer.len() ==> (#[trigger] buffer[i]).wf()
}

/// The depth engine: its book, the orders that wait for the end of the tick
/// to enter it, and all results so far.
#[derive(Debug)]
pub struct UistV2 {
    orderbook: OrderBook,
    order_result_log: Vec<OrderResult>,
    // Emptied on every tick.
    order_buffer: Vec<Order>,
}

impl UistV2 {
    /// The resting orders, lowest id first.
    pub closed spec fn orders(&self) -> Seq<InnerOrder> {
        self.orderbook.orders()
    }

    /// The id that the next admitted order gets.
    pub closed spec fn next_id(&self) -> OrderId {
        self.orderbook.next_id()
    }

    /// The latency model of the book.
    pub closed spec fn latency(&self) -> LatencyModel {
        self.orderbook.latency()
    }

    /// The priority setting of the book.
    pub closed spec fn priority(&self) -> OrderBookOrderPriority {
        self.orderbook.priority()
    }

    /// The orders submitted since the last tick, in the order of submission.
    pub closed spec fn buffer(&self) -> Seq<Order> {
        self.order_buffer@
    }

    /// All results of all ticks so far.
    pub closed spec fn log(&self) -> Seq<OrderResult> {
        self.order_result_log@
    }

    /// The resting orders are well formed and their ids rise strictly, all
    /// below the id that comes next; every staged order is well formed; and
    /// there are ids left for all of them.
    pub open spec fn wf(&self) -> bool {
        &&& ids_ascending(self.orders())
        &&& ids_below(self.orders(), self.next_id())
        &&& all_wf(self.orders())
        &&& self.filed()
        &&& all_staged_wf(self.buffer())
        &&& self.next_id() + self.buffer().len() <= u64::MAX
    }

    /// Every resting order is filed under an id below the id that comes
    /// next.
    pub closed spec fn filed(&self) -> bool {
        self.orderbook.filed()
    }

    /// An engine with an empty book, without latency, with priority at the
    /// touch.
    pub fn new() -> (engine: Self)
        ensures
            engine.wf(),
            engine.orders() == Seq::<InnerOrder>::empty(),
            engine.buffer() == Seq::<Order>::empty(),
            engine.log() == Seq::<OrderResult>::empty(),
            engine.next_id() == 0,
            engine.latency() == LatencyModel::NoLatency,
            engine.priority() == OrderBookOrderPriority::AlwaysFirst,
    {
        Self {
            orderbook: OrderBook::new(),
            order_result_log: Vec::new(),
            order_buffer: Vec::new(),
        }
    }

    /// An engine around a book that the caller has set up.
    pub fn with_orderbook(orderbook: OrderBook) -> (engine: Self)
        requires
            orderbook.wf(),
        ensures
            engine.wf(),
            engine.orders() == orderbook.orders(),
            engine.buffer() == Seq::<Order>::empty(),
            engine.log() == Seq::<OrderResult>::empty(),
            engine.next_id() == orderbook.next_id(),
            engine.latency() == orderbook.latency(),
            engine.priority() == orderbook.priority(),
    {
        Self { orderbook, order_result_log: Vec::new(), order_buffer: Vec::new() }
    }

    /// Whether an id is left for one more order.
    pub fn has_room(&self) -> (room: bool)
        ensures
            room == (self.next_id() + self.buffer().len() < u64::MAX),
    {
        let staged: usize = self.order_buffer.len();
        let next: u64 = self.orderbook.last_order_id();
        (staged as u64) < u64::MAX - next
    }

    /// Whether no order rests in the book.
    pub fn is_empty(&self) -> (empty: bool)
        ensures
            empty == (self.orders().len() == 0),
    {
        self.orderbook.is_empty()
    }

    fn sort_order_buffer(&mut self)
        ensures
            final(self).order_buffer@ == staged(old(self).order_buffer@),
            final(self).orderbook == old(self).orderbook,
            final(self).order_result_log == old(self).order_result_log,
    {
        let mut buffer: Vec<Order> = Vec::new();
        core::mem::swap(&mut self.order_buffer, &mut buffer);
        let ghost all = buffer@;
        let mut sells: Vec<Order> = Vec::new();
        let mut others: Vec<Order> = Vec::new();
        for order in it: buffer
            invariant
                it.seq() == all,
                sells@ == all.take(it.index() as int).filter(
                    |order: Order| order.order_type.spec_is_sell(),
                ),
                others@ == all.take(it.index() as int).filter(
                    |order: Order| !order.order_type.spec_is_sell(),
                ),
        {
            proof {
                broadcast use Seq::lemma_filter_push;

                assert(all.take(it.index() + 1) =~= all.take(it.index() as int).push(order));
            }
            if order.order_type.is_sell() {
                sells.push(order);
            } else {
                others.push(order);
            }
        }
        proof {
            assert(all.take(all.len() as int) =~= all);
        }
        sells.append(&mut others);
        self.order_buffer = sells;
    }

    /// Stages `order`: it enters the book at the end of the next tick, so
    /// that it cannot trade on the data of the tick in which it came.
    pub fn insert_order(&mut self, order: Order)
        requires
            old(self).wf(),
            order.wf(),
            old(self).next_id() + old(self).buffer().len() < u64::MAX,
        ensures
            final(self).wf(),
            final(self).buffer() == old(self).buffer().push(order),
            final(self).orders() == old(self).orders(),
            final(self).log() == old(self).log(),
            final(self).next_id() == old(self).next_id(),
            final(self).latency() == old(self).latency(),
            final(self).priority() == old(self).priority(),
    {
        self.order_buffer.push(order);
    }

    /// Runs one tick at `now`. The resting orders are executed against the
    /// snapshots and prints of the tick; only then the staged orders enter
    /// the book, sells first, with the next ids and `now` as the time of
    /// their admission. The results of the execution come back with the
    /// orders that were admitted.
    pub fn tick(&mut self, quotes: &DateDepth, trades: &DateTrade, now: i64) -> (out: (
        Vec<OrderResult>,
        Vec<InnerOrder>,
    ))
        requires
            old(self).wf(),
        ensures
            final(self).wf(),
            out.0@ == execute(
                old(self).orders(),
                old(self).latency(),
                old(self).priority(),
                quotes@,
                trades.prints(),
                now,
            ).results,
            out.1@ == admitted_all(staged(old(self).buffer()), old(self).next_id(), now),
            final(self).orders() == execute(
                old(self).orders(),
                old(self).latency(),
                old(self).priority(),
                quotes@,
                trades.prints(),
                now,
            ).resting + out.1@,
            final(self).log() == old(self).log() + out.0@,
            final(self).buffer() == Seq::<Order>::empty(),
            final(self).next_id() == old(self).next_id() + old(self).buffer().len(),
            final(self).latency() == old(self).latency(),
            final(self).priority() == old(self).priority(),
            forall|k: int|
                0 <= k < out.0@.len() ==> (#[trigger] out.0@[k]).order_id < old(self).next_id(),
            forall|i: int|
                0 <= i < out.1@.len() ==> (#[trigger] out.1@[i]).order_id == old(self).next_id()
                    + i && out.1@[i].recieved_timestamp == now,
            forall|i: int, k: int|
                0 <= i < out.1@.len() && 0 <= k < out.0@.len() ==> (#[trigger] out.1@[i]).order_id
                    != (#[trigger] out.0@[k]).order_id,
            old(self).orders().len() == 0 ==> out.0@.len() == 0,
            old(self).orders().len() == 0 ==> final(self).log() == old(self).log(),
            old(self).orders().len() == 0 ==> final(self).orders() == out.1@,
            old(self).orders().len() == 0 && old(self).buffer().len() == 0 ==> out.1@.len() == 0,
    {
        // New orders enter only after the resting ones have been executed.
        let executed_trades = self.orderbook.execute_orders(quotes, trades, now);
        let ghost executed = self.orderbook;
        let mut i: usize = 0;
        proof {
            assert(old(self).order_result_log@ + executed_trades@.take(0) =~= old(
                self,
            ).order_result_log@);
        }
        while i < executed_trades.len()
            invariant
                i <= executed_trades.len(),
                self.order_result_log@ == old(self).order_result_log@ + executed_trades@.take(
                    i as int,
                ),
                self.orderbook == executed,
                self.order_buffer == old(self).order_buffer,
            decreases executed_trades.len() - i,
        {
            self.order_result_log.push(executed_trades[i].clone());
            proof {
                assert(executed_trades@.take(i + 1) =~= executed_trades@.take(i as int).push(
                    executed_trades@[i as int],
                ));
                assert(old(self).order_result_log@ + executed_trades@.take(i + 1) =~= (old(
                    self,
                ).order_result_log@ + executed_trades@.take(i as int)).push(
                    executed_trades@[i as int],
                ));
            }
            i = i + 1;
        }
        proof {
            assert(executed_trades@.take(executed_trades@.len() as int) =~= executed_trades@);
        }
        let mut inserted_orders: Vec<InnerOrder> = Vec::new();

        let ghost rested = self.orderbook.orders();
        let ghost first = self.orderbook.next_id();
        proof {
            lemma_staged_wf(self.order_buffer@);
        }
        self.sort_order_buffer();
        let mut buffer: Vec<Order> = Vec::new();
        core::mem::swap(&mut self.order_buffer, &mut buffer);
        let ghost sorted = buffer@;
        for order in it: buffer
            invariant
                it.seq() == sorted,
                all_staged_wf(sorted),
                first + sorted.len() <= u64::MAX,
                self.orderbook.wf(),
                self.orderbook.next_id() == first + it.index(),
                self.orderbook.latency() == old(self).orderbook.latency(),
                self.orderbook.priority() == old(self).orderbook.priority(),
                inserted_orders@ == admitted_all(sorted.take(it.index() as int), first, now),
                self.orderbook.orders() == rested + inserted_orders@,
                self.order_buffer@ == Seq::<Order>::empty(),
                self.order_result_log@ == old(self).order_result_log@ + executed_trades@,
        {
            let ghost before = inserted_orders@;
            let inner_order = self.orderbook.insert_order(order, now);
            inserted_orders.push(inner_order);
            proof {
                assert(sorted.take(it.index() + 1) =~= sorted.take(it.index() as int).push(order));
                assert(inserted_orders@ =~= admitted_all(
                    sorted.take(it.index() + 1),
                    first,
                    now,
                ));
                assert(rested + before.push(inner_order) =~= (rested + before).push(inner_order));
            }
        }
        proof {
            assert(sorted.take(sorted.len() as int) =~= sorted);
        }
        (executed_trades, inserted_orders)
    }

    /// Stages all of `orders`, in their order.
    pub fn insert_orders(&mut self, orders: Vec<Order>)
        requires
            old(self).wf(),
            all_staged_wf(orders@),
            old(self).next_id() + old(self).buffer().len() + orders@.len() <= u64::MAX,
        ensures
            final(self).wf(),
            final(self).buffer() == old(self).buffer() + orders@,
            final(self).orders() == old(self).orders(),
            final(self).log() == old(self).log(),
            final(self).next_id() == old(self).next_id(),
            final(self).latency() == old(self).latency(),
            final(self).priority() == old(self).priority(),
    {
        let mut orders = orders;
        self.order_buffer.append(&mut orders);
    }
}

impl Default for UistV2 {
    fn default() -> (engine: Self)
        ensures
            engine.wf(),
            engine.orders() == Seq::<InnerOrder>::empty(),
            engine.buffer() == Seq::<Order>::empty(),
            engine.log() == Seq::<OrderResult>::empty(),
            engine.next_id() == 0,
            engine.latency() == LatencyModel::NoLatency,
            engine.priority() == OrderBookOrderPriority::AlwaysFirst,
    {
        Self::new()
    }
}

/// Sorting the staged orders keeps their number and their well-formedness.
pub proof fn lemma_staged_wf(buffer: Seq<Order>)
    requires
        all_staged_wf(buffer),
    ensures
        all_staged_wf(staged(buffer)),
        staged(buffer).len() == buffer.len(),
    decreases buffer.len(),
{
    broadcast use Seq::lemma_filter_push;
    broadcast use vstd::seq_lib::group_filter_ensures;

    let sell = |order: Order| order.order_type.spec_is_sell();
    let other = |order: Order| !order.order_type.spec_is_sell();
    if buffer.len() > 0 {
        let front = buffer.drop_last();
        let last = buffer.last();
        assert(buffer =~= front.push(last));
        lemma_staged_wf(front);
        assert(buffer.filter(sell).len() + buffer.filter(other).len() == buffer.len());
    }
    assert forall|i: int| 0 <= i < staged(buffer).len() implies (#[trigger] staged(
        buffer,
    )[i]).wf() by {
        let order = staged(buffer)[i];
        if i < buffer.filter(sell).len() {
            assert(buffer.filter(sell).contains(order)) by {
                assert(buffer.filter(sell)[i] == order);
            }
            buffer.lemma_filter_contains_rev(sell, order);
        } else {
            assert(buffer.filter(other).contains(order)) by {
                assert(buffer.filter(other)[i - buffer.filter(sell).len()] == order);
            }
            buffer.lemma_filter_contains_rev(other, order);
        }
        let at = choose|at: int| 0 <= at < buffer.len() && buffer[at] == order;
        assert(buffer[at].wf());
    }
}

} // verus!
