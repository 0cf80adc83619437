//! The top-of-book exchange: a clock, a source of quotes and a book, moved
//! forward one tick at a time.

use vstd::prelude::*;
use crate::clock::{ClockInner, DateTime};
use crate::input::penelope::{Penelope, PenelopeQuote, QuoteMap, random_penelope_generator};
use crate::orderbook::diana::{
    Diana,
    DianaEntry,
    DianaOrderId,
    DianaOrderImpl,
    DianaTrade,
    has_entry,
    settle_all,
    traded,
    without,
};

verus! {

/// Identifier that the exchange assigns to an order.
pub type UistOrderId = DianaOrderId;

/// An order as a client submits it.
pub type UistOrder = DianaOrderImpl;

/// One fill.
pub type UistTrade = DianaTrade;

/// Best bid and ask of one symbol at one timestamp.
pub type UistQuote = PenelopeQuote;

/// How far apart the timestamps of a run are.
#[derive(Clone, Copy, Debug, PartialEq, Eq, Structural)]
pub enum Frequency {
    Second,
    Daily,
}

impl Frequency {
    /// The code under which clients know the frequency.
    pub open spec fn spec_code(self) -> u8 {
        match self {
            Frequency::Second => 0,
            Frequency::Daily => 1,
        }
    }

    /// The code under which clients know the frequency.
    #[verifier::when_used_as_spec(spec_code)]
    pub fn code(self) -> (code: u8)
        ensures
            code == self.spec_code(),
    {
        match self {
            Frequency::Second => 0,
            Frequency::Daily => 1,
        }
    }
}

/// What a client learns when it connects: where the run starts and how far
/// apart its timestamps are.
#[derive(Clone, Copy, Debug, PartialEq, Eq, Structural)]
pub struct InitMessage {
    pub start: i64,
    pub frequency: u8,
}

/// What the exchange says of itself.
#[derive(Clone, Debug)]
pub struct InfoMessage {
    pub version: String,
    pub dataset: String,
}

/// The staged orders in the order of their admission: sells first, the
/// others behind them, each group in the order of submission.
pub open spec fn staged(buffer: Seq<UistOrder>) -> Seq<UistOrder> {
    buffer.filter(|order: UistOrder| order.order_type.spec_is_sell()) + buffer.filter(
        |order: UistOrder| !order.order_type.spec_is_sell(),
    )
}

/// The orders with the ids that admission gives them: `first` for the first
/// one, each next one the next id.
pub open spec fn numbered(orders: Seq<UistOrder>, first: UistOrderId) -> Seq<DianaEntry> {
    Seq::new(orders.len(), |i: int| ((first + i) as UistOrderId, orders[i]))
}

/// Sorting the staged orders keeps their number.
pub proof fn lemma_staged_len(buffer: Seq<UistOrder>)
    ensures
        staged(buffer).len() == buffer.len(),
    decreases buffer.len(),
{
    broadcast use Seq::lemma_filter_push;

    if buffer.len() > 0 {
        let front = buffer.drop_last();
        assert(buffer =~= front.push(buffer.last()));
        lemma_staged_len(front);
    }
}

/// The top-of-book exchange.
#[derive(Debug)]
pub struct UistV1 {
    start: i64,
    frequency: Frequency,
    dataset: String,
    clock: ClockInner,
    price_source: Penelope,
    orderbook: Diana,
    trade_log: Vec<UistTrade>,
    // Emptied on every tick.
    order_buffer: Vec<UistOrder>,
}

impl UistV1 {
    /// The clock of the run.
    pub closed spec fn clock(&self) -> ClockInner {
        self.clock
    }

    /// The quotes of the run.
    pub closed spec fn quotes(&self) -> QuoteMap {
        self.price_source@
    }

    /// The resting orders with their ids, lowest id first.
    pub closed spec fn orders(&self) -> Seq<DianaEntry> {
        self.orderbook.orders()
    }

    /// The id that the next admitted order gets.
    pub closed spec fn next_id(&self) -> UistOrderId {
        self.orderbook.next_id()
    }

    /// The orders submitted since the last tick, in the order of submission.
    pub closed spec fn buffer(&self) -> Seq<UistOrder> {
        self.order_buffer@
    }

    /// All trades of all ticks so far.
    pub closed spec fn log(&self) -> Seq<UistTrade> {
        self.trade_log@
    }

    /// The first timestamp of the run and its frequency, as `init` reports
    /// them.
    pub closed spec fn opening(&self) -> InitMessage {
        InitMessage { start: self.start, frequency: self.frequency.spec_code() }
    }

    /// The name of the dataset that the quotes come from.
    pub closed spec fn dataset(&self) -> Seq<char> {
        self.dataset@
    }

    /// The timestamp at which the clock stands.
    pub open spec fn now(&self) -> DateTime {
        self.clock().dates()[self.clock().position()]
    }

    /// The clock stands at one of its timestamps, which rise strictly; the
    /// book is in order; and there are ids left for all staged orders.
    pub closed spec fn wf(&self) -> bool {
        &&& self.clock.wf()
        &&& self.clock.ascending()
        &&& self.price_source.wf()
        &&& self.orderbook.wf()
        &&& self.orderbook.next_id() + self.order_buffer@.len() <= u64::MAX
    }

    /// An exchange at the current timestamp of `clock`, with an empty book.
    pub fn new(clock: ClockInner, price_source: Penelope, dataset: &str, frequency: Frequency) -> (exchange:
        Self)
        requires
            clock.wf(),
            clock.ascending(),
            price_source.wf(),
        ensures
            exchange.wf(),
            exchange.clock() == clock,
            exchange.quotes() == price_source@,
            exchange.orders() == Seq::<DianaEntry>::empty(),
            exchange.buffer() == Seq::<UistOrder>::empty(),
            exchange.log() == Seq::<UistTrade>::empty(),
            exchange.next_id() == 0,
            exchange.opening() == (InitMessage {
                start: clock.dates()[clock.position()],
                frequency: frequency.spec_code(),
            }),
            exchange.dataset() == dataset@,
    {
        let start: i64 = clock.now();
        Self {
            start,
            frequency,
            dataset: dataset.to_owned(),
            clock,
            price_source,
            orderbook: Diana::new(),
            trade_log: Vec::new(),
            order_buffer: Vec::new(),
        }
    }

    /// The first timestamp of the run and the code of its frequency.
    pub fn init(&self) -> (message: InitMessage)
        ensures
            message == self.opening(),
    {
        InitMessage { start: self.start, frequency: self.frequency.code() }
    }

    /// The version of the exchange and the name of its dataset.
    pub fn info(&self) -> (message: InfoMessage)
        ensures
            message.version@ == "v1"@,
            message.dataset@ == self.dataset(),
    {
        InfoMessage { version: "v1".to_owned(), dataset: self.dataset.clone() }
    }

    /// Whether a tick can follow: the clock has a next timestamp.
    pub fn has_next(&self) -> (more: bool)
        ensures
            more == self.clock().spec_has_next(),
    {
        self.clock.has_next()
    }

    /// Whether an id is left for one more order.
    pub fn has_room(&self) -> (room: bool)
        ensures
            room == (self.next_id() + self.buffer().len() < u64::MAX),
    {
        let staged: usize = self.order_buffer.len();
        let next: u64 = self.orderbook.last_order_id();
        (staged as u64) < u64::MAX - next
    }

    /// The quotes at the current timestamp: one for each symbol quoted then,
    /// none of them twice.
    pub fn fetch_quotes(&self) -> (quotes: Vec<UistQuote>)
        requires
            self.wf(),
        ensures
            crate::input::penelope::distinct_keys(quotes@),
            forall|i: int|
                0 <= i < quotes@.len() ==> (#[trigger] quotes@[i]).date == self.now()
                    && self.quotes().contains_key((self.now(), quotes@[i].symbol@))
                    && self.quotes()[(self.now(), quotes@[i].symbol@)] == quotes@[i],
            forall|symbol: Seq<char>| #[trigger]
                self.quotes().contains_key((self.now(), symbol)) ==> exists|i: int|
                    0 <= i < quotes@.len() && (#[trigger] quotes@[i]).symbol@ == symbol,
    {
        let now: i64 = self.clock.now();
        match self.price_source.get_quotes(&now) {
            Some(quotes) => {
                proof {
                    assert forall|symbol: Seq<char>| #[trigger]
                        self.quotes().contains_key((now, symbol)) implies exists|i: int|
                        0 <= i < quotes@.len() && (#[trigger] quotes@[i]).symbol@ == symbol by {
                        let i = choose|i: int|
                            0 <= i < quotes@.len() && crate::input::penelope::quote_key(
                                #[trigger] quotes@[i],
                            ) == (now, symbol);
                        assert(quotes@[i].symbol@ == symbol);
                    }
                }
                quotes
            },
            None => Vec::new(),
        }
    }

    /// Stages `order`: the next tick admits it and matches it against the
    /// quotes of the timestamp that the tick moves to.
    pub fn insert_order(&mut self, order: UistOrder)
        requires
            old(self).wf(),
            old(self).next_id() + old(self).buffer().len() < u64::MAX,
        ensures
            final(self).wf(),
            final(self).buffer() == old(self).buffer().push(order),
            final(self).orders() == old(self).orders(),
            final(self).log() == old(self).log(),
            final(self).next_id() == old(self).next_id(),
            final(self).clock() == old(self).clock(),
            final(self).quotes() == old(self).quotes(),
            final(self).opening() == old(self).opening(),
            final(self).dataset() == old(self).dataset(),
    {
        self.order_buffer.push(order);
    }

    /// Takes the resting order `order_id` out of the book, if it rests
    /// there.
    pub fn delete_order(&mut self, order_id: UistOrderId)
        requires
            old(self).wf(),
        ensures
            final(self).wf(),
            final(self).orders() == without(old(self).orders(), order_id),
            !has_entry(final(self).orders(), order_id),
            final(self).buffer() == old(self).buffer(),
            final(self).log() == old(self).log(),
            final(self).next_id() == old(self).next_id(),
            final(self).clock() == old(self).clock(),
            final(self).quotes() == old(self).quotes(),
            final(self).opening() == old(self).opening(),
            final(self).dataset() == old(self).dataset(),
    {
        self.orderbook.delete_order(order_id);
    }

    fn sort_order_buffer(&mut self)
        ensures
            final(self).order_buffer@ == staged(old(self).order_buffer@),
            final(self).orderbook == old(self).orderbook,
            final(self).trade_log == old(self).trade_log,
            final(self).clock == old(self).clock,
            final(self).price_source == old(self).price_source,
            final(self).start == old(self).start,
            final(self).frequency == old(self).frequency,
            final(self).dataset == old(self).dataset,
    {
        let mut buffer: Vec<UistOrder> = Vec::new();
        core::mem::swap(&mut self.order_buffer, &mut buffer);
        let ghost all = buffer@;
        let mut sells: Vec<UistOrder> = Vec::new();
        let mut others: Vec<UistOrder> = Vec::new();
        for order in it: buffer
            invariant
                it.seq() == all,
                sells@ == all.take(it.index() as int).filter(
                    |order: UistOrder| order.order_type.spec_is_sell(),
                ),
                others@ == all.take(it.index() as int).filter(
                    |order: UistOrder| !order.order_type.spec_is_sell(),
                ),
        {
            proof {
                broadcast use Seq::lemma_filter_push;

                assert(all.take(it.index() + 1) =~= all.take(it.index() as int).push(order));
            }
            if order.order_type.is_sell() {
                sells.push(order);
            } else {
                others.push(order);
            }
        }
        proof {
            assert(all.take(all.len() as int) =~= all);
        }
        sells.append(&mut others);
        self.order_buffer = sells;
    }

    /// Moves to the next timestamp and runs one cycle there. The staged
    /// orders enter the book first, sells before the others, with the next
    /// ids; then every resting order is matched against the quotes of the new
    /// timestamp. So an order is never matched against the quotes of the
    /// timestamp at which it was submitted. Returns whether a tick can
    /// follow, the trades, and the orders admitted with their ids.
    pub fn tick(&mut self) -> (out: (bool, Vec<UistTrade>, Vec<DianaEntry>))
        requires
            old(self).wf(),
            old(self).clock().spec_has_next(),
        ensures
            final(self).wf(),
            final(self).clock().dates() == old(self).clock().dates(),
            final(self).clock().position() == old(self).clock().position() + 1,
            final(self).now() > old(self).now(),
            final(self).quotes() == old(self).quotes(),
            final(self).opening() == old(self).opening(),
            final(self).dataset() == old(self).dataset(),
            out.0 == final(self).clock().spec_has_next(),
            out.2@ == numbered(staged(old(self).buffer()), old(self).next_id()),
            out.1@ == settle_all(
                old(self).orders() + out.2@,
                final(self).now(),
                old(self).quotes(),
            ).trades,
            final(self).orders() == settle_all(
                old(self).orders() + out.2@,
                final(self).now(),
                old(self).quotes(),
            ).resting,
            forall|k: int|
                0 <= k < out.1@.len() ==> traded(
                    #[trigger] out.1@[k],
                    old(self).orders() + out.2@,
                    (old(self).orders() + out.2@).len() as int,
                    final(self).now(),
                    old(self).quotes(),
                ),
            final(self).log() == old(self).log() + out.1@,
            final(self).buffer() == Seq::<UistOrder>::empty(),
            final(self).next_id() == old(self).next_id() + old(self).buffer().len(),
    {
        // Orders execute on the tick after the one in which they came.
        self.clock.tick();
        let now: i64 = self.clock.now();

        let ghost rested = self.orderbook.orders();
        let ghost first = self.orderbook.next_id();
        proof {
            lemma_staged_len(self.order_buffer@);
        }
        self.sort_order_buffer();
        let mut buffer: Vec<UistOrder> = Vec::new();
        core::mem::swap(&mut self.order_buffer, &mut buffer);
        let ghost sorted = buffer@;
        let mut inserted_orders: Vec<DianaEntry> = Vec::new();
        for order in it: buffer
            invariant
                it.seq() == sorted,
                first + sorted.len() <= u64::MAX,
                self.orderbook.wf(),
                self.orderbook.next_id() == first + it.index(),
                inserted_orders@ == numbered(sorted.take(it.index() as int), first),
                self.orderbook.orders() == rested + inserted_orders@,
                self.order_buffer@ == Seq::<UistOrder>::empty(),
                self.trade_log == old(self).trade_log,
                self.price_source == old(self).price_source,
                self.start == old(self).start,
                self.frequency == old(self).frequency,
                self.dataset == old(self).dataset,
                self.clock.dates() == old(self).clock.dates(),
                self.clock.position() == old(self).clock.position() + 1,
        {
            let ghost before = inserted_orders@;
            let id: u64 = self.orderbook.insert_order(order.clone());
            inserted_orders.push((id, order));
            proof {
                assert(sorted.take(it.index() + 1) =~= sorted.take(it.index() as int).push(order));
                assert(inserted_orders@ =~= numbered(sorted.take(it.index() + 1), first));
                assert(rested + before.push((id, order)) =~= (rested + before).push((id, order)));
            }
        }
        proof {
            assert(sorted.take(sorted.len() as int) =~= sorted);
        }

        let executed_trades = self.orderbook.execute_orders(now, &self.price_source);
        let ghost settled = self.orderbook;
        let mut i: usize = 0;
        proof {
            assert(old(self).trade_log@ + executed_trades@.take(0) =~= old(self).trade_log@);
        }
        while i < executed_trades.len()
            invariant
                i <= executed_trades.len(),
                self.trade_log@ == old(self).trade_log@ + executed_trades@.take(i as int),
                self.orderbook == settled,
                self.order_buffer@ == Seq::<UistOrder>::empty(),
                self.price_source == old(self).price_source,
                self.start == old(self).start,
                self.frequency == old(self).frequency,
                self.dataset == old(self).dataset,
                self.clock.dates() == old(self).clock.dates(),
                self.clock.position() == old(self).clock.position() + 1,
            decreases executed_trades.len() - i,
        {
            self.trade_log.push(executed_trades[i].clone());
            proof {
                assert(old(self).trade_log@ + executed_trades@.take(i + 1) =~= (old(
                    self,
                ).trade_log@ + executed_trades@.take(i as int)).push(executed_trades@[i as int]));
            }
            i = i + 1;
        }
        proof {
            assert(executed_trades@.take(executed_trades@.len() as int) =~= executed_trades@);
        }
        (self.clock.has_next(), executed_trades, inserted_orders)
    }
}

/// An exchange over random quotes for tests that do not depend on prices: a
/// run of `length + 1` seconds with quotes for "ABC" and "BCD" at each of
/// them. The clock that comes with it is a copy of the exchange's own, at
/// the start of the run.
pub fn random_uist_generator(length: i64) -> (out: (UistV1, ClockInner))
    requires
        0 <= length < i64::MAX - crate::input::penelope::RANDOM_START,
    ensures
        out.0.wf(),
        out.0.clock().dates() == out.1.dates(),
        out.0.clock().position() == 0,
        out.1.position() == 0,
        out.0.orders() == Seq::<DianaEntry>::empty(),
        out.0.buffer() == Seq::<UistOrder>::empty(),
        out.0.next_id() == 0,
        out.0.opening() == (InitMessage {
            start: crate::input::penelope::RANDOM_START,
            frequency: Frequency::Second.spec_code(),
        }),
        out.0.dataset() == "RANDOM"@,
        crate::input::penelope::random_source(out.0.quotes(), out.1.dates()),
{
    let (source, clock) = random_penelope_generator(length);
    let copy = clock.clone();
    assert(clock.dates().len() > 0);
    assert(clock.dates()[0] == crate::input::penelope::RANDOM_START);
    let exchange = UistV1::new(clock, source, "RANDOM", Frequency::Second);
    (exchange, copy)
}

} // verus!
