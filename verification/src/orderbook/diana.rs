//! Matching against the best bid and ask: an order that triggers is filled
//! in full at the touch, one that does not stays in the book.

use vstd::prelude::*;
use std::collections::BTreeMap;
use vstd::std_specs::cmp::PartialEqSpecImpl;
use crate::exchange::book::{
    by_id,
    drain,
    empty_book,
    file,
    holds_none,
    in_key_order,
    keys_below,
    lemma_agree,
    lemma_insert_last,
    lemma_skip,
};
use crate::input::penelope::{Penelope, PenelopeQuote, QuoteMap};

verus! {

/// Identifier that the book assigns to an order on admission.
pub type DianaOrderId = u64;

/// The side of a trade.
#[derive(Clone, Copy, Debug, PartialEq, Eq, Structural)]
pub enum DianaTradeType {
    Buy,
    Sell,
}

/// What a client asks the book to do.
#[derive(Clone, Copy, Debug, PartialEq, Eq, Structural)]
pub enum DianaOrderType {
    MarketSell,
    MarketBuy,
    LimitSell,
    LimitBuy,
    StopSell,
    StopBuy,
}

impl DianaOrderType {
    /// The order buys.
    pub open spec fn spec_is_buy(self) -> bool {
        self == DianaOrderType::MarketBuy || self == DianaOrderType::LimitBuy || self
            == DianaOrderType::StopBuy
    }

    /// The order sells.
    pub open spec fn spec_is_sell(self) -> bool {
        !self.spec_is_buy()
    }

    /// Whether the order sells.
    #[verifier::when_used_as_spec(spec_is_sell)]
    pub fn is_sell(self) -> (sell: bool)
        ensures
            sell == self.spec_is_sell(),
    {
        match self {
            DianaOrderType::MarketSell | DianaOrderType::LimitSell | DianaOrderType::StopSell => true,
            _ => false,
        }
    }

    /// Whether the order buys.
    #[verifier::when_used_as_spec(spec_is_buy)]
    pub fn is_buy(self) -> (buy: bool)
        ensures
            buy == self.spec_is_buy(),
    {
        match self {
            DianaOrderType::MarketBuy | DianaOrderType::LimitBuy | DianaOrderType::StopBuy => true,
            _ => false,
        }
    }
}

/// What the engine reads of a quote.
pub trait DianaQuote {
    /// The best ask.
    fn get_ask(&self) -> i64;

    /// The best bid.
    fn get_bid(&self) -> i64;
}

impl DianaQuote for PenelopeQuote {
    fn get_ask(&self) -> (ask: i64)
        ensures
            ask == self.ask,
    {
        self.ask
    }

    fn get_bid(&self) -> (bid: i64)
        ensures
            bid == self.bid,
    {
        self.bid
    }
}

/// One fill: the whole order at the touch. `value` is price times quantity.
#[derive(Debug)]
pub struct DianaTrade {
    pub symbol: String,
    pub value: i128,
    pub quantity: i64,
    pub date: i64,
    pub typ: DianaTradeType,
}

impl Clone for DianaTrade {
    fn clone(&self) -> (copy: Self)
        ensures
            copy == *self,
    {
        Self {
            symbol: self.symbol.clone(),
            value: self.value,
            quantity: self.quantity,
            date: self.date,
            typ: self.typ,
        }
    }
}

/// An order as a client submits it.
#[derive(Debug)]
pub struct DianaOrderImpl {
    pub order_type: DianaOrderType,
    pub symbol: String,
    pub shares: i64,
    pub price: Option<i64>,
}

impl Clone for DianaOrderImpl {
    fn clone(&self) -> (copy: Self)
        ensures
            copy == *self,
    {
        Self {
            order_type: self.order_type,
            symbol: self.symbol.clone(),
            shares: self.shares,
            price: self.price,
        }
    }
}

impl DianaOrderImpl {
    /// The quantity to trade.
    pub fn get_shares(&self) -> (shares: i64)
        ensures
            shares == self.shares,
    {
        self.shares
    }

    /// The symbol to trade.
    pub fn get_symbol(&self) -> (symbol: &str)
        ensures
            symbol@ == self.symbol@,
    {
        self.symbol.as_str()
    }

    /// The limit or stop price, if the order has one.
    pub fn get_price(&self) -> (price: &Option<i64>)
        ensures
            *price == self.price,
    {
        &self.price
    }

    /// The type of the order.
    pub fn get_order_type(&self) -> (order_type: &DianaOrderType)
        ensures
            *order_type == self.order_type,
    {
        &self.order_type
    }

    fn market(order_type: DianaOrderType, symbol: &str, shares: i64) -> (order: Self)
        ensures
            order.order_type == order_type,
            order.symbol@ == symbol@,
            order.shares == shares,
            order.price is None,
    {
        Self { order_type, symbol: symbol.to_owned(), shares, price: None }
    }

    fn delayed(order_type: DianaOrderType, symbol: &str, shares: i64, price: i64) -> (order: Self)
        ensures
            order.order_type == order_type,
            order.symbol@ == symbol@,
            order.shares == shares,
            order.price == Some(price),
    {
        Self { order_type, symbol: symbol.to_owned(), shares, price: Some(price) }
    }

    /// Buy `shares` of `symbol` at the ask.
    pub fn market_buy(symbol: &str, shares: i64) -> (order: Self)
        ensures
            order.order_type == DianaOrderType::MarketBuy,
            order.symbol@ == symbol@,
            order.shares == shares,
            order.price is None,
    {
        DianaOrderImpl::market(DianaOrderType::MarketBuy, symbol, shares)
    }

    /// Sell `shares` of `symbol` at the bid.
    pub fn market_sell(symbol: &str, shares: i64) -> (order: Self)
        ensures
            order.order_type == DianaOrderType::MarketSell,
            order.symbol@ == symbol@,
            order.shares == shares,
            order.price is None,
    {
        DianaOrderImpl::market(DianaOrderType::MarketSell, symbol, shares)
    }

    /// Buy `shares` of `symbol` once the ask has risen to `price`.
    pub fn stop_buy(symbol: &str, shares: i64, price: i64) -> (order: Self)
        ensures
            order.order_type == DianaOrderType::StopBuy,
            order.symbol@ == symbol@,
            order.shares == shares,
            order.price == Some(price),
    {
        DianaOrderImpl::delayed(DianaOrderType::StopBuy, symbol, shares, price)
    }

    /// Sell `shares` of `symbol` once the bid has fallen to `price`.
    pub fn stop_sell(symbol: &str, shares: i64, price: i64) -> (order: Self)
        ensures
            order.order_type == DianaOrderType::StopSell,
            order.symbol@ == symbol@,
            order.shares == shares,
            order.price == Some(price),
    {
        DianaOrderImpl::delayed(DianaOrderType::StopSell, symbol, shares, price)
    }

    /// Buy `shares` of `symbol` once the ask is at `price` or lower.
    pub fn limit_buy(symbol: &str, shares: i64, price: i64) -> (order: Self)
        ensures
            order.order_type == DianaOrderType::LimitBuy,
            order.symbol@ == symbol@,
            order.shares == shares,
            order.price == Some(price),
    {
        DianaOrderImpl::delayed(DianaOrderType::LimitBuy, symbol, shares, price)
    }

    /// Sell `shares` of `symbol` once the bid is at `price` or higher.
    pub fn limit_sell(symbol: &str, shares: i64, price: i64) -> (order: Self)
        ensures
            order.order_type == DianaOrderType::LimitSell,
            order.symbol@ == symbol@,
            order.shares == shares,
            order.price == Some(price),
    {
        DianaOrderImpl::delayed(DianaOrderType::LimitSell, symbol, shares, price)
    }
}

impl Eq for DianaOrderImpl {

}

impl PartialEq for DianaOrderImpl {
    fn eq(&self, other: &Self) -> (same: bool) {
        self.symbol == other.symbol && self.order_type == other.order_type && self.shares
            == other.shares
    }
}

impl PartialEqSpecImpl for DianaOrderImpl {
    open spec fn obeys_eq_spec() -> bool {
        true
    }

    open spec fn eq_spec(&self, other: &Self) -> bool {
        self.symbol@ == other.symbol@ && self.order_type == other.order_type && self.shares
            == other.shares
    }
}

/// An order with its id.
pub type DianaEntry = (DianaOrderId, DianaOrderImpl);

/// The order triggers on the quote. A market order always does. A limit
/// order does once the touch is at its price or better, a stop order once
/// the touch has reached its price. A limit or stop order without a price
/// never triggers.
pub open spec fn triggers(order: DianaOrderImpl, quote: PenelopeQuote) -> bool {
    match order.order_type {
        DianaOrderType::MarketBuy | DianaOrderType::MarketSell => true,
        DianaOrderType::LimitBuy => order.price matches Some(price) && price >= quote.ask,
        DianaOrderType::LimitSell => order.price matches Some(price) && price <= quote.bid,
        DianaOrderType::StopBuy => order.price matches Some(price) && price <= quote.ask,
        DianaOrderType::StopSell => order.price matches Some(price) && price >= quote.bid,
    }
}

/// The price at which the order executes: the ask for a buy, the bid for a
/// sell.
pub open spec fn touch_price(order: DianaOrderImpl, quote: PenelopeQuote) -> i64 {
    if order.order_type.spec_is_buy() {
        quote.ask
    } else {
        quote.bid
    }
}

/// The fill of the whole order at the touch.
pub open spec fn trade_of(order: DianaOrderImpl, quote: PenelopeQuote, date: i64) -> DianaTrade {
    DianaTrade {
        symbol: order.symbol,
        value: (touch_price(order, quote) * order.shares) as i128,
        quantity: order.shares,
        date,
        typ: if order.order_type.spec_is_buy() {
            DianaTradeType::Buy
        } else {
            DianaTradeType::Sell
        },
    }
}

/// An execution cycle in progress: the trades made so far and the orders
/// that stay in the book.
pub struct Round {
    pub trades: Seq<DianaTrade>,
    pub resting: Seq<DianaEntry>,
}

/// One order of the cycle: with a quote for its symbol at `date` on which it
/// triggers it trades in full and leaves the book, else it stays.
pub open spec fn settle(entry: DianaEntry, date: i64, quotes: QuoteMap, so_far: Round) -> Round {
    let key = (date, entry.1.symbol@);
    if quotes.contains_key(key) && triggers(entry.1, quotes[key]) {
        Round { trades: so_far.trades.push(trade_of(entry.1, quotes[key], date)), ..so_far }
    } else {
        Round { resting: so_far.resting.push(entry), ..so_far }
    }
}

/// The cycle over the orders from `from` on, in the order of the book.
pub open spec fn settle_from(
    book: Seq<DianaEntry>,
    from: int,
    date: i64,
    quotes: QuoteMap,
    so_far: Round,
) -> Round
    decreases book.len() - from,
{
    if from < 0 || from >= book.len() {
        so_far
    } else {
        settle_from(book, from + 1, date, quotes, settle(book[from], date, quotes, so_far))
    }
}

/// One execution cycle at `date` over the whole book.
pub open spec fn settle_all(book: Seq<DianaEntry>, date: i64, quotes: QuoteMap) -> Round {
    settle_from(book, 0, date, quotes, Round { trades: Seq::empty(), resting: Seq::empty() })
}

/// Index of the first order at or after `from` with the id `id`, or the
/// number of orders if there is none.
pub open spec fn find_entry(book: Seq<DianaEntry>, id: DianaOrderId, from: int) -> int
    decreases book.len() - from,
{
    if from < 0 || from >= book.len() {
        book.len() as int
    } else if book[from].0 == id {
        from
    } else {
        find_entry(book, id, from + 1)
    }
}

/// The book without the first order that has the id `id`.
pub open spec fn without(book: Seq<DianaEntry>, id: DianaOrderId) -> Seq<DianaEntry> {
    let at = find_entry(book, id, 0);
    if at < book.len() {
        book.remove(at)
    } else {
        book
    }
}

/// Ids rise strictly along the sequence, and all are below `bound`.
pub open spec fn entries_wf(book: Seq<DianaEntry>, bound: DianaOrderId) -> bool {
    &&& forall|i: int, j: int| 0 <= i < j < book.len() ==> book[i].0 < book[j].0
    &&& forall|i: int| 0 <= i < book.len() ==> book[i].0 < bound
}

/// `entry` is one of the orders before index `from`.
pub open spec fn seen(entry: DianaEntry, book: Seq<DianaEntry>, from: int) -> bool {
    exists|j: int| 0 <= j < from && j < book.len() && entry == #[trigger] book[j]
}

/// The trade is the fill, in full and at the touch, of one of the orders
/// before index `from`, which has a quote at `date` and triggers on it.
pub open spec fn traded(
    trade: DianaTrade,
    book: Seq<DianaEntry>,
    from: int,
    date: i64,
    quotes: QuoteMap,
) -> bool {
    exists|j: int|
        0 <= j < from && j < book.len() && quotes.contains_key((date, (#[trigger] book[j]).1.symbol@))
            && triggers(book[j].1, quotes[(date, book[j].1.symbol@)]) && trade == trade_of(
            book[j].1,
            quotes[(date, book[j].1.symbol@)],
            date,
        )
}

/// The orders left resting so far are orders that the cycle has passed, in
/// the same order; each order passed has either traded or stayed; and each
/// trade is the fill in full of an order passed.
pub open spec fn settled_upto(
    so_far: Round,
    book: Seq<DianaEntry>,
    from: int,
    date: i64,
    quotes: QuoteMap,
) -> bool {
    &&& forall|i: int, j: int|
        0 <= i < j < so_far.resting.len() ==> so_far.resting[i].0 < so_far.resting[j].0
    &&& forall|i: int| 0 <= i < so_far.resting.len() ==> seen(#[trigger] so_far.resting[i], book, from)
    &&& so_far.trades.len() + so_far.resting.len() == from
    &&& forall|k: int|
        0 <= k < so_far.trades.len() ==> traded(#[trigger] so_far.trades[k], book, from, date, quotes)
}

/// A cycle keeps the book in order: the orders that stay are orders of the
/// book, in the same order, and every order either trades once or stays.
pub proof fn lemma_settle_keeps_order(
    book: Seq<DianaEntry>,
    from: int,
    date: i64,
    quotes: QuoteMap,
    so_far: Round,
    bound: DianaOrderId,
)
    requires
        0 <= from <= book.len(),
        entries_wf(book, bound),
        settled_upto(so_far, book, from, date, quotes),
    ensures
        entries_wf(settle_from(book, from, date, quotes, so_far).resting, bound),
        settled_upto(
            settle_from(book, from, date, quotes, so_far),
            book,
            book.len() as int,
            date,
            quotes,
        ),
    decreases book.len() - from,
{
    if from >= book.len() {
        assert forall|i: int| 0 <= i < so_far.resting.len() implies so_far.resting[i].0
            < bound by {
            assert(seen(so_far.resting[i], book, from));
        }
    } else {
        let next = settle(book[from], date, quotes, so_far);
        assert(settled_upto(next, book, from + 1, date, quotes)) by {
            assert forall|k: int| 0 <= k < next.trades.len() implies traded(
                #[trigger] next.trades[k],
                book,
                from + 1,
                date,
                quotes,
            ) by {
                if k < so_far.trades.len() {
                    assert(traded(so_far.trades[k], book, from, date, quotes));
                    let j = choose|j: int|
                        0 <= j < from && j < book.len() && quotes.contains_key(
                            (date, (#[trigger] book[j]).1.symbol@),
                        ) && triggers(book[j].1, quotes[(date, book[j].1.symbol@)])
                            && so_far.trades[k] == trade_of(
                            book[j].1,
                            quotes[(date, book[j].1.symbol@)],
                            date,
                        );
                    assert(next.trades[k] == so_far.trades[k]);
                    assert(quotes.contains_key((date, book[j].1.symbol@)));
                } else {
                    assert(quotes.contains_key((date, book[from].1.symbol@)));
                }
            }
            assert forall|i: int| 0 <= i < next.resting.len() implies seen(
                #[trigger] next.resting[i],
                book,
                from + 1,
            ) by {
                if i < so_far.resting.len() {
                    assert(seen(so_far.resting[i], book, from));
                    let k = choose|k: int|
                        0 <= k < from && k < book.len() && so_far.resting[i] == #[trigger] book[k];
                    assert(next.resting[i] == book[k]);
                } else {
                    assert(next.resting[i] == book[from]);
                }
            }
            assert forall|i: int, j: int| 0 <= i < j < next.resting.len() implies next.resting[i].0
                < next.resting[j].0 by {
                if j == so_far.resting.len() {
                    assert(seen(so_far.resting[i], book, from));
                    let k = choose|k: int|
                        0 <= k < from && k < book.len() && so_far.resting[i] == #[trigger] book[k];
                    assert(next.resting[i] == book[k]);
                }
            }
        }
        lemma_settle_keeps_order(book, from + 1, date, quotes, next, bound);
    }
}

/// Every order of the book is filed under the id that it carries.
pub open spec fn own_ids(book: Map<DianaOrderId, DianaEntry>) -> bool {
    forall|key: DianaOrderId| book.contains_key(key) ==> (#[trigger] book[key]).0 == key
}

// The orders of a book that files each under its own id carry ids below the
// bound up to which they are listed.
proof fn lemma_listed_ids(book: Map<DianaOrderId, DianaEntry>, bound: int)
    requires
        own_ids(book),
    ensures
        forall|i: int|
            0 <= i < in_key_order(book, bound).len() ==> (#[trigger] in_key_order(
                book,
                bound,
            )[i]).0 < bound,
    decreases bound,
{
    if bound > 0 {
        lemma_listed_ids(book, bound - 1);
        let rest = in_key_order(book, bound - 1);
        assert forall|i: int| 0 <= i < in_key_order(book, bound).len() implies (
        #[trigger] in_key_order(book, bound)[i]).0 < bound by {
            if i < rest.len() {
                assert(in_key_order(book, bound)[i] == rest[i]);
            }
        }
    }
}

// Where the id is found in a sequence, it is found at the same place once an
// order is put behind the sequence.
proof fn lemma_find_push(book: Seq<DianaEntry>, entry: DianaEntry, id: DianaOrderId, from: int)
    requires
        0 <= from <= book.len(),
    ensures
        find_entry(book.push(entry), id, from) == if find_entry(book, id, from) < book.len() {
            find_entry(book, id, from)
        } else if entry.0 == id {
            book.len() as int
        } else {
            book.len() as int + 1
        },
    decreases book.len() - from,
{
    let more = book.push(entry);
    if from < book.len() {
        assert(more[from] == book[from]);
        if book[from].0 != id {
            lemma_find_push(book, entry, id, from + 1);
        }
    } else {
        assert(more[from] == entry);
        assert(find_entry(book, id, from) == book.len());
        if entry.0 != id {
            assert(find_entry(more, id, from + 1) == more.len());
        }
    }
}

// Taking the order filed under an id out of the book takes the first order
// with that id out of the sequence.
proof fn lemma_remove_key(book: Map<DianaOrderId, DianaEntry>, id: DianaOrderId, bound: int)
    requires
        own_ids(book),
    ensures
        in_key_order(book.remove(id), bound) == without(in_key_order(book, bound), id),
    decreases bound,
{
    let rest = book.remove(id);
    if bound <= 0 {
    } else {
        let before = in_key_order(book, bound - 1);
        lemma_remove_key(book, id, bound - 1);
        lemma_listed_ids(book, bound - 1);
        if bound - 1 <= u64::MAX && book.contains_key((bound - 1) as u64) {
            let key = (bound - 1) as u64;
            let entry = book[key];
            lemma_find_push(before, entry, id, 0);
            if key == id {
                lemma_agree(book, rest, bound - 1);
                assert(find_entry(before, id, 0) == before.len()) by {
                    lemma_find_entry(before, id, 0);
                    if find_entry(before, id, 0) < before.len() {
                        assert(before[find_entry(before, id, 0)].0 < bound - 1);
                    }
                }
                assert(before.push(entry).remove(before.len() as int) =~= before);
            } else {
                assert(rest.contains_key(key) && rest[key] == entry);
                let at = find_entry(before, id, 0);
                if at < before.len() {
                    lemma_find_entry(before, id, 0);
                    assert(before.push(entry).remove(at) =~= before.remove(at).push(entry));
                }
            }
        }
    }
}

/// Files the orders in an empty book, each under its own id.
fn refill_entries(book: &mut BTreeMap<DianaOrderId, DianaEntry>, entries: Vec<DianaEntry>)
    requires
        old(book)@ == Map::<DianaOrderId, DianaEntry>::empty(),
        forall|i: int, j: int| 0 <= i < j < entries@.len() ==> entries@[i].0 < entries@[j].0,
    ensures
        by_id(final(book)@) == entries@,
        own_ids(final(book)@),
        forall|key: DianaOrderId|
            final(book)@.contains_key(key) ==> exists|j: int|
                0 <= j < entries@.len() && (#[trigger] entries@[j]).0 == key,
{
    broadcast use vstd::std_specs::btree::group_btree_axioms;

    let ghost all = entries@;
    proof {
        lemma_skip(book@, 0, u64::MAX + 1);
        assert(all.take(0) =~= Seq::<DianaEntry>::empty());
    }
    for entry in it: entries
        invariant
            it.seq() == all,
            forall|i: int, j: int| 0 <= i < j < all.len() ==> all[i].0 < all[j].0,
            by_id(book@) == all.take(it.index() as int),
            own_ids(book@),
            forall|key: DianaOrderId|
                book@.contains_key(key) ==> exists|j: int|
                    0 <= j < it.index() && (#[trigger] all[j]).0 == key,
    {
        let ghost before = book@;
        let ghost at = it.index() as int;
        proof {
            assert forall|other: DianaOrderId| before.contains_key(other) implies other
                < entry.0 by {
                let j = choose|j: int| 0 <= j < at && (#[trigger] all[j]).0 == other;
                assert(all[j].0 < all[at].0);
            }
            lemma_insert_last(before, entry.0, entry, u64::MAX + 1);
            assert(all.take(at + 1) =~= all.take(at).push(entry));
        }
        let key: DianaOrderId = entry.0;
        book.insert(key, entry);
        proof {
            assert(book@ == before.insert(key, all[at]));
            assert forall|other: DianaOrderId| book@.contains_key(other) implies exists|j: int|
                0 <= j < at + 1 && (#[trigger] all[j]).0 == other by {
                if other == key {
                    assert(all[at].0 == other);
                } else {
                    let j = choose|j: int| 0 <= j < at && (#[trigger] all[j]).0 == other;
                    assert(all[j].0 == other);
                }
            }
        }
    }
    proof {
        assert(all.take(all.len() as int) =~= all);
    }
}

/// The resting orders of the top-of-book engine, in the order of their
/// admission.
#[derive(Debug)]
pub struct Diana {
    inner: BTreeMap<DianaOrderId, DianaEntry>,
    last: u64,
}

impl Diana {
    /// The resting orders with their ids, lowest id first.
    pub closed spec fn orders(&self) -> Seq<DianaEntry> {
        by_id(self.inner@)
    }

    /// Every resting order is filed under its own id, which is below the id
    /// that comes next.
    pub closed spec fn filed(&self) -> bool {
        keys_below(self.inner@, self.last) && own_ids(self.inner@)
    }

    /// The id that the next admitted order gets.
    pub closed spec fn next_id(&self) -> DianaOrderId {
        self.last
    }

    /// The ids rise strictly, all below the id that comes next.
    pub open spec fn wf(&self) -> bool {
        entries_wf(self.orders(), self.next_id()) && self.filed()
    }

    /// An empty book.
    pub fn new() -> (book: Self)
        ensures
            book.wf(),
            book.orders() == Seq::<DianaEntry>::empty(),
            book.next_id() == 0,
    {
        Self { inner: empty_book(), last: 0 }
    }

    /// The id that the next admitted order gets.
    pub fn last_order_id(&self) -> (id: DianaOrderId)
        ensures
            id == self.next_id(),
    {
        self.last
    }

    /// Takes the order `order_id` out of the book, if it rests there.
    pub fn delete_order(&mut self, order_id: u64)
        requires
            old(self).wf(),
        ensures
            final(self).wf(),
            final(self).orders() == without(old(self).orders(), order_id),
            final(self).next_id() == old(self).next_id(),
            !has_entry(final(self).orders(), order_id),
    {
        broadcast use vstd::std_specs::btree::group_btree_axioms;

        proof {
            law_deleted_is_gone(self.orders(), order_id, self.last);
            lemma_remove_key(self.inner@, order_id, u64::MAX + 1);
        }
        self.inner.remove(&order_id);
    }

    /// Admits `order`: it gets the next id, which is returned, and rests
    /// behind all orders admitted before.
    pub fn insert_order(&mut self, order: DianaOrderImpl) -> (id: u64)
        requires
            old(self).wf(),
            old(self).next_id() < u64::MAX,
        ensures
            final(self).wf(),
            id == old(self).next_id(),
            final(self).next_id() == old(self).next_id() + 1,
            final(self).orders() == old(self).orders().push((id, order)),
    {
        let last: u64 = self.last;
        self.last = last + 1;
        file(&mut self.inner, last, (last, order));
        last
    }

    /// Whether no order rests in the book.
    pub fn is_empty(&self) -> (empty: bool)
        ensures
            empty == (self.orders().len() == 0),
    {
        holds_none(&self.inner)
    }

    /// Runs one execution cycle at `date`: every resting order for whose
    /// symbol the source has a quote at `date`, and which triggers on it, is
    /// filled in full at the touch and leaves the book. All others stay. The
    /// trades come back in the order of the ids.
    pub fn execute_orders(&mut self, date: i64, source: &Penelope) -> (trades: Vec<DianaTrade>)
        requires
            old(self).wf(),
        ensures
            final(self).wf(),
            trades@ == settle_all(old(self).orders(), date, source@).trades,
            final(self).orders() == settle_all(old(self).orders(), date, source@).resting,
            final(self).next_id() == old(self).next_id(),
            trades@.len() + final(self).orders().len() == old(self).orders().len(),
            forall|k: int|
                0 <= k < trades@.len() ==> traded(
                    #[trigger] trades@[k],
                    old(self).orders(),
                    old(self).orders().len() as int,
                    date,
                    source@,
                ),
            trades@ == old(self).orders().filter(firing(date, source@)).map_values(
                trade_for(date, source@),
            ),
            final(self).orders() == old(self).orders().filter(staying(date, source@)),
    {
        let ghost book = self.orders();
        let ghost start = Round { trades: Seq::empty(), resting: Seq::empty() };
        let mut trade_results: Vec<DianaTrade> = Vec::new();
        let mut resting: Vec<DianaEntry> = Vec::new();
        let orders: Vec<DianaEntry> = drain(&mut self.inner);
        for entry in it: orders
            invariant
                it.seq() == book,
                settle_from(book, 0, date, source@, start) == settle_from(
                    book,
                    it.index() as int,
                    date,
                    source@,
                    Round { trades: trade_results@, resting: resting@ },
                ),
        {
            let quote: Option<&PenelopeQuote> = source.lookup(date, &entry.1.symbol);
            let trade: Option<DianaTrade> = match quote {
                Some(quote) => Self::execute(&entry.1, quote, date),
                None => None,
            };
            match trade {
                Some(trade) => {
                    trade_results.push(trade);
                },
                None => {
                    resting.push(entry);
                },
            }
        }
        proof {
            lemma_settle_keeps_order(book, 0, date, source@, start, self.last);
            law_trades_match_orders(book, date, source@);
            assert(resting@ == settle_all(book, date, source@).resting);
        }
        let ghost left = resting@;
        refill_entries(&mut self.inner, resting);
        proof {
            assert forall|key: DianaOrderId| self.inner@.contains_key(key) implies key
                < self.last by {
                let j = choose|j: int| 0 <= j < left.len() && (#[trigger] left[j]).0 == key;
                assert(left[j].0 < self.last);
            }
        }
        trade_results
    }

    // The trade that the order makes on the quote, if it triggers.
    fn execute(order: &DianaOrderImpl, quote: &PenelopeQuote, date: i64) -> (trade: Option<
        DianaTrade,
    >)
        ensures
            trade == if triggers(*order, *quote) {
                Some(trade_of(*order, *quote, date))
            } else {
                None
            },
    {
        let fires: bool = match order.order_type {
            DianaOrderType::MarketBuy | DianaOrderType::MarketSell => true,
            DianaOrderType::LimitBuy => match order.price {
                Some(price) => price >= quote.get_ask(),
                None => false,
            },
            DianaOrderType::LimitSell => match order.price {
                Some(price) => price <= quote.get_bid(),
                None => false,
            },
            DianaOrderType::StopBuy => match order.price {
                Some(price) => price <= quote.get_ask(),
                None => false,
            },
            DianaOrderType::StopSell => match order.price {
                Some(price) => price >= quote.get_bid(),
                None => false,
            },
        };
        if !fires {
            return None;
        }
        let buy: bool = order.order_type.is_buy();
        let trade_price: i64 = if buy {
            quote.get_ask()
        } else {
            quote.get_bid()
        };
        proof {
            lemma_product_fits(trade_price, order.shares);
        }
        let value: i128 = (trade_price as i128) * (order.get_shares() as i128);
        Some(
            DianaTrade {
                symbol: order.symbol.clone(),
                value,
                quantity: order.get_shares(),
                date,
                typ: if buy {
                    DianaTradeType::Buy
                } else {
                    DianaTradeType::Sell
                },
            },
        )
    }
}

impl Default for Diana {
    fn default() -> (book: Self)
        ensures
            book.wf(),
            book.orders() == Seq::<DianaEntry>::empty(),
            book.next_id() == 0,
    {
        Self::new()
    }
}

/// The order has a quote at `date` and triggers on it.
pub open spec fn fires(entry: DianaEntry, date: i64, quotes: QuoteMap) -> bool {
    quotes.contains_key((date, entry.1.symbol@)) && triggers(
        entry.1,
        quotes[(date, entry.1.symbol@)],
    )
}

/// Picks the orders that trade at `date`.
pub open spec fn firing(date: i64, quotes: QuoteMap) -> spec_fn(DianaEntry) -> bool {
    |entry: DianaEntry| fires(entry, date, quotes)
}

/// Picks the orders that stay at `date`.
pub open spec fn staying(date: i64, quotes: QuoteMap) -> spec_fn(DianaEntry) -> bool {
    |entry: DianaEntry| !fires(entry, date, quotes)
}

/// The trade that an order makes at `date`.
pub open spec fn trade_for(date: i64, quotes: QuoteMap) -> spec_fn(DianaEntry) -> DianaTrade {
    |entry: DianaEntry| trade_of(entry.1, quotes[(date, entry.1.symbol@)], date)
}

/// A cycle order by order: the trades are those of the orders that trigger,
/// one for each of them in the order of the book, and the orders that do not
/// trigger stay as they are, in the order of the book.
pub open spec fn settled(book: Seq<DianaEntry>, date: i64, quotes: QuoteMap) -> Round {
    Round {
        trades: book.filter(firing(date, quotes)).map_values(trade_for(date, quotes)),
        resting: book.filter(staying(date, quotes)),
    }
}

// The cycle from `from` on, begun with what the orders before `from` give
// order by order, ends with what the whole book gives order by order.
proof fn lemma_settle_prefix(book: Seq<DianaEntry>, from: int, date: i64, quotes: QuoteMap)
    requires
        0 <= from <= book.len(),
    ensures
        settle_from(book, from, date, quotes, settled(book.take(from), date, quotes)) == settled(
            book,
            date,
            quotes,
        ),
    decreases book.len() - from,
{
    broadcast use Seq::lemma_filter_push;

    if from >= book.len() {
        assert(book.take(from) =~= book);
    } else {
        let seen = book.take(from);
        let entry = book[from];
        assert(book.take(from + 1) =~= seen.push(entry));
        let so_far = settled(seen, date, quotes);
        let next = settled(seen.push(entry), date, quotes);
        assert(settle(entry, date, quotes, so_far) == next) by {
            assert(firing(date, quotes)(entry) == fires(entry, date, quotes));
            assert(staying(date, quotes)(entry) == !fires(entry, date, quotes));
            if fires(entry, date, quotes) {
                assert(seen.push(entry).filter(firing(date, quotes)) == seen.filter(
                    firing(date, quotes),
                ).push(entry));
                assert(next.trades =~= so_far.trades.push(
                    trade_of(entry.1, quotes[(date, entry.1.symbol@)], date),
                ));
                assert(next.resting == so_far.resting);
            } else {
                assert(next.trades == so_far.trades);
                assert(next.resting == so_far.resting.push(entry));
            }
        }
        lemma_settle_prefix(book, from + 1, date, quotes);
    }
}

/// In a cycle every order that has a quote and triggers on it trades once,
/// in full and at the touch, and leaves the book; every other order stays in
/// the book as it is. The trades stand one for one for the orders that
/// trigger, in the order of the book: no two trades stand for one order, and
/// an order is filled for nothing or for all it asks for, never for a part.
pub proof fn law_trades_match_orders(book: Seq<DianaEntry>, date: i64, quotes: QuoteMap)
    ensures
        settle_all(book, date, quotes) == settled(book, date, quotes),
        settle_all(book, date, quotes).trades.len() == book.filter(firing(date, quotes)).len(),
        forall|k: int|
            0 <= k < settle_all(book, date, quotes).trades.len() ==> (#[trigger] settle_all(
                book,
                date,
                quotes,
            ).trades[k]).quantity == book.filter(firing(date, quotes))[k].1.shares && settle_all(
                book,
                date,
                quotes,
            ).trades[k].symbol == book.filter(firing(date, quotes))[k].1.symbol,
{
    broadcast use vstd::seq_lib::group_filter_ensures;

    let none = Seq::<DianaEntry>::empty();
    assert(book.take(0) =~= none);
    assert(none.filter(firing(date, quotes)) =~= none);
    assert(none.filter(staying(date, quotes)) =~= none);
    assert(settled(none, date, quotes).trades =~= Seq::<DianaTrade>::empty());
    assert(settled(none, date, quotes) == (Round { trades: Seq::empty(), resting: Seq::empty() }));
    lemma_settle_prefix(book, 0, date, quotes);
}

/// The book holds an order with the id `id`.
pub open spec fn has_entry(book: Seq<DianaEntry>, id: DianaOrderId) -> bool {
    exists|j: int| 0 <= j < book.len() && (#[trigger] book[j]).0 == id
}

/// Every trade of a cycle is the fill
/// of one order of the book, in full and at the touch: its quantity is the
/// order's quantity. Every order either trades once and leaves the book or
/// stays in it untouched, so an order is filled for nothing or for all it
/// asks for. The orders that stay keep their order and their ids.
pub proof fn law_full_fill_or_none(book: Seq<DianaEntry>, date: i64, quotes: QuoteMap, bound: DianaOrderId)
    requires
        entries_wf(book, bound),
    ensures
        settle_all(book, date, quotes).trades.len() + settle_all(book, date, quotes).resting.len()
            == book.len(),
        forall|k: int|
            0 <= k < settle_all(book, date, quotes).trades.len() ==> traded(
                #[trigger] settle_all(book, date, quotes).trades[k],
                book,
                book.len() as int,
                date,
                quotes,
            ),
        forall|i: int|
            0 <= i < settle_all(book, date, quotes).resting.len() ==> seen(
                #[trigger] settle_all(book, date, quotes).resting[i],
                book,
                book.len() as int,
            ),
        entries_wf(settle_all(book, date, quotes).resting, bound),
{
    let start = Round { trades: Seq::empty(), resting: Seq::empty() };
    lemma_settle_keeps_order(book, 0, date, quotes, start, bound);
}

/// A cycle over an empty book trades nothing and leaves the book empty.
pub proof fn law_empty_book_settles_nothing(date: i64, quotes: QuoteMap)
    ensures
        settle_all(Seq::empty(), date, quotes).trades == Seq::<DianaTrade>::empty(),
        settle_all(Seq::empty(), date, quotes).resting == Seq::<DianaEntry>::empty(),
{
}

/// A deleted order is gone: with distinct ids, the book without the order
/// `id` holds no order with that id.
pub proof fn law_deleted_is_gone(book: Seq<DianaEntry>, id: DianaOrderId, bound: DianaOrderId)
    requires
        entries_wf(book, bound),
    ensures
        !has_entry(without(book, id), id),
        entries_wf(without(book, id), bound),
{
    lemma_find_entry(book, id, 0);
    let at = find_entry(book, id, 0);
    let after = without(book, id);
    if has_entry(after, id) {
        let i = choose|i: int| 0 <= i < after.len() && (#[trigger] after[i]).0 == id;
        if at < book.len() {
            let source = if i < at {
                i
            } else {
                i + 1
            };
            assert(after[i] == book[source]);
            assert(book[source].0 == book[at].0);
        } else {
            assert(book[i].0 != id);
        }
    }
    if at < book.len() {
        assert forall|i: int, j: int| 0 <= i < j < after.len() implies after[i].0
            < after[j].0 by {
            let si = if i < at { i } else { i + 1 };
            let sj = if j < at { j } else { j + 1 };
            assert(after[i] == book[si] && after[j] == book[sj]);
        }
        assert forall|i: int| 0 <= i < after.len() implies after[i].0 < bound by {
            let si = if i < at { i } else { i + 1 };
            assert(after[i] == book[si]);
        }
    }
}

/// Where `find_entry` points into the book, the order there has the id, and
/// no order before it has.
pub proof fn lemma_find_entry(book: Seq<DianaEntry>, id: DianaOrderId, from: int)
    requires
        0 <= from,
    ensures
        from <= find_entry(book, id, from) <= book.len() || book.len() < from,
        find_entry(book, id, from) < book.len() ==> book[find_entry(book, id, from)].0 == id,
        forall|k: int|
            from <= k < find_entry(book, id, from) && k < book.len() ==> (#[trigger] book[k]).0
                != id,
    decreases book.len() - from,
{
    if from < book.len() && book[from].0 != id {
        lemma_find_entry(book, id, from + 1);
    }
}

proof fn lemma_product_fits(price: i64, qty: i64)
    ensures
        i128::MIN <= price * qty <= i128::MAX,
{
    assert(-0x4000_0000_0000_0000_0000_0000_0000_0000 <= price * qty
        <= 0x4000_0000_0000_0000_0000_0000_0000_0000) by (nonlinear_arith)
        requires
            -0x8000_0000_0000_0000 <= price <= 0x8000_0000_0000_0000,
            -0x8000_0000_0000_0000 <= qty <= 0x8000_0000_0000_0000,
    ;
}

} // verus!
