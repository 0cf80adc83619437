//! Depth snapshots and taker prints of one tick.

use vstd::prelude::*;
use std::collections::BTreeMap;
use vstd::std_specs::btree::increasing_seq;
use vstd::std_specs::cmp::OrdSpec;
use vstd::std_specs::iter::IteratorSpec;

verus! {

/// The side of the book that a level rests on, or that a taker print is
/// reported under.
#[derive(Clone, Copy, Debug, PartialEq, Eq, Structural)]
pub enum Side {
    Bid,
    Ask,
}

/// One price level: a price in ticks and the size displayed there.
#[derive(Clone, Copy, Debug, PartialEq, Eq, Structural)]
pub struct Level {
    pub price: i64,
    pub size: i64,
}

/// Best bid and offer of one symbol at one timestamp, with the size displayed
/// on each side.
#[derive(Clone, Debug)]
pub struct BBO {
    pub bid: i64,
    pub bid_volume: i64,
    pub ask: i64,
    pub ask_volume: i64,
    pub date: i64,
    pub symbol: String,
}

/// One taker print from the feed.
#[derive(Clone, Debug)]
pub struct Trade {
    pub coin: String,
    pub side: Side,
    pub px: i64,
    pub sz: i64,
    pub time: i64,
    pub exchange: String,
}

/// Index of the first level at or after `from` whose price is above `price`,
/// or the number of levels if there is none: where an ask at `price` goes.
pub open spec fn first_above(levels: Seq<Level>, price: i64, from: int) -> int
    decreases levels.len() - from,
{
    if from < 0 || from >= levels.len() {
        levels.len() as int
    } else if levels[from].price > price {
        from
    } else {
        first_above(levels, price, from + 1)
    }
}

/// Index of the first level at or after `from` whose price is below `price`,
/// or the number of levels if there is none: where a bid at `price` goes.
pub open spec fn first_below(levels: Seq<Level>, price: i64, from: int) -> int
    decreases levels.len() - from,
{
    if from < 0 || from >= levels.len() {
        levels.len() as int
    } else if levels[from].price < price {
        from
    } else {
        first_below(levels, price, from + 1)
    }
}

/// Prices never fall along the sequence.
pub open spec fn ascending(levels: Seq<Level>) -> bool {
    forall|i: int, j: int| 0 <= i < j < levels.len() ==> levels[i].price <= levels[j].price
}

/// Prices never rise along the sequence.
pub open spec fn descending(levels: Seq<Level>) -> bool {
    forall|i: int, j: int| 0 <= i < j < levels.len() ==> levels[i].price >= levels[j].price
}

/// The book of one symbol on one venue at one timestamp.
#[derive(Clone, Debug)]
pub struct Depth {
    pub bids: Vec<Level>,
    pub asks: Vec<Level>,
    pub date: i64,
    pub symbol: String,
    pub exchange: String,
}

/// Prices rise strictly along the sequence and no size is negative.
pub open spec fn strictly_ascending(levels: Seq<Level>) -> bool {
    &&& forall|i: int, j: int| 0 <= i < j < levels.len() ==> levels[i].price < levels[j].price
    &&& forall|i: int| 0 <= i < levels.len() ==> levels[i].size >= 0
}

/// Prices fall strictly along the sequence and no size is negative.
pub open spec fn strictly_descending(levels: Seq<Level>) -> bool {
    &&& forall|i: int, j: int| 0 <= i < j < levels.len() ==> levels[i].price > levels[j].price
    &&& forall|i: int| 0 <= i < levels.len() ==> levels[i].size >= 0
}

// Whether the prices move strictly in one direction and no size is negative.
fn is_strict(levels: &Vec<Level>, rising: bool) -> (ok: bool)
    ensures
        ok == if rising {
            strictly_ascending(levels@)
        } else {
            strictly_descending(levels@)
        },
{
    let mut i: usize = 0;
    while i < levels.len()
        invariant
            i <= levels.len(),
            forall|k: int| 0 <= k < i ==> levels@[k].size >= 0,
            rising ==> forall|a: int, b: int| 0 <= a < b < i ==> levels@[a].price < levels@[b].price,
            !rising ==> forall|a: int, b: int|
                0 <= a < b < i ==> levels@[a].price > levels@[b].price,
        decreases levels.len() - i,
    {
        if levels[i].size < 0 {
            return false;
        }
        if i > 0 {
            let ordered: bool = if rising {
                levels[i - 1].price < levels[i].price
            } else {
                levels[i - 1].price > levels[i].price
            };
            if !ordered {
                return false;
            }
        }
        i = i + 1;
    }
    true
}

impl Depth {
    /// Best prices come first on both sides: bids fall, asks rise.
    pub open spec fn wf(&self) -> bool {
        descending(self.bids@) && ascending(self.asks@)
    }

    /// The snapshot is a book as a feed should deliver it: on each side no
    /// price occurs twice and the best price comes first, no size is
    /// negative, and the best bid is below the best ask.
    pub open spec fn valid(&self) -> bool {
        &&& strictly_descending(self.bids@)
        &&& strictly_ascending(self.asks@)
        &&& self.bids@.len() > 0 && self.asks@.len() > 0 ==> self.bids@[0].price
            < self.asks@[0].price
    }

    /// Whether the snapshot is a book as a feed should deliver it.
    pub fn is_valid(&self) -> (ok: bool)
        ensures
            ok == self.valid(),
            ok ==> self.wf(),
    {
        if !is_strict(&self.bids, false) || !is_strict(&self.asks, true) {
            return false;
        }
        if self.bids.len() > 0 && self.asks.len() > 0 {
            self.bids[0].price < self.asks[0].price
        } else {
            true
        }
    }

    /// An empty book.
    pub fn new(date: i64, symbol: &str, exchange: &str) -> (depth: Self)
        ensures
            depth.date == date,
            depth.symbol@ == symbol@,
            depth.exchange@ == exchange@,
            depth.bids@ == Seq::<Level>::empty(),
            depth.asks@ == Seq::<Level>::empty(),
            depth.wf(),
    {
        Self {
            bids: Vec::new(),
            asks: Vec::new(),
            date,
            symbol: symbol.to_owned(),
            exchange: exchange.to_owned(),
        }
    }

    /// Adds a level to one side, behind the levels that are at least as good:
    /// a bid goes before the first lower bid, an ask before the first higher
    /// ask. A side that was in order stays in order.
    pub fn add_level(&mut self, level: Level, side: Side)
        ensures
            final(self).date == old(self).date,
            final(self).symbol == old(self).symbol,
            final(self).exchange == old(self).exchange,
            side == Side::Bid ==> final(self).asks@ == old(self).asks@ && final(self).bids@ == old(
                self,
            ).bids@.insert(first_below(old(self).bids@, level.price, 0), level),
            side == Side::Ask ==> final(self).bids@ == old(self).bids@ && final(self).asks@ == old(
                self,
            ).asks@.insert(first_above(old(self).asks@, level.price, 0), level),
            old(self).wf() ==> final(self).wf(),
    {
        match side {
            Side::Bid => {
                let mut i: usize = 0;
                while i < self.bids.len() && self.bids[i].price >= level.price
                    invariant
                        i <= self.bids.len(),
                        forall|j: int| 0 <= j < i ==> self.bids@[j].price >= level.price,
                        first_below(self.bids@, level.price, 0) == first_below(
                            self.bids@,
                            level.price,
                            i as int,
                        ),
                    decreases self.bids.len() - i,
                {
                    i = i + 1;
                }
                self.bids.insert(i, level);
            },
            Side::Ask => {
                let mut i: usize = 0;
                while i < self.asks.len() && self.asks[i].price <= level.price
                    invariant
                        i <= self.asks.len(),
                        forall|j: int| 0 <= j < i ==> self.asks@[j].price <= level.price,
                        first_above(self.asks@, level.price, 0) == first_above(
                            self.asks@,
                            level.price,
                            i as int,
                        ),
                    decreases self.asks.len() - i,
                {
                    i = i + 1;
                }
                self.asks.insert(i, level);
            },
        }
    }
}

/// Venue and symbol under which a depth snapshot is filed.
pub open spec fn depth_key(depth: Depth) -> (Seq<char>, Seq<char>) {
    (depth.exchange@, depth.symbol@)
}

/// The snapshots by venue and symbol, where a later one replaces an earlier
/// one with the same key.
pub open spec fn depth_map(entries: Seq<Depth>) -> Map<(Seq<char>, Seq<char>), Depth>
    decreases entries.len(),
{
    if entries.len() == 0 {
        Map::empty()
    } else {
        depth_map(entries.drop_last()).insert(depth_key(entries.last()), entries.last())
    }
}

// Where `at` is the last snapshot with the key, the table holds it under the
// key.
proof fn lemma_depth_last_match(entries: Seq<Depth>, key: (Seq<char>, Seq<char>), at: int)
    requires
        0 <= at < entries.len(),
        depth_key(entries[at]) == key,
        forall|j: int| at < j < entries.len() ==> depth_key(#[trigger] entries[j]) != key,
    ensures
        depth_map(entries).contains_key(key),
        depth_map(entries)[key] == entries[at],
    decreases entries.len(),
{
    if at < entries.len() - 1 {
        assert(depth_key(entries[entries.len() - 1]) != key);
        lemma_depth_last_match(entries.drop_last(), key, at);
    }
}

// Where no snapshot has the key, the table holds nothing under it.
proof fn lemma_depth_no_match(entries: Seq<Depth>, key: (Seq<char>, Seq<char>))
    requires
        forall|j: int| 0 <= j < entries.len() ==> depth_key(#[trigger] entries[j]) != key,
    ensures
        !depth_map(entries).contains_key(key),
    decreases entries.len(),
{
    if entries.len() > 0 {
        assert(depth_key(entries[entries.len() - 1]) != key);
        lemma_depth_no_match(entries.drop_last(), key);
    }
}

// Putting a snapshot in the place of the last snapshot with its key is the
// same, for the table, as filing it.
proof fn lemma_depth_replace(entries: Seq<Depth>, at: int, depth: Depth)
    requires
        0 <= at < entries.len(),
        depth_key(entries[at]) == depth_key(depth),
        forall|j: int| at < j < entries.len() ==> depth_key(#[trigger] entries[j]) != depth_key(depth),
    ensures
        depth_map(entries.update(at, depth)) == depth_map(entries).insert(depth_key(depth), depth),
    decreases entries.len(),
{
    let changed = entries.update(at, depth);
    if at == entries.len() - 1 {
        assert(changed.drop_last() =~= entries.drop_last());
        assert(depth_map(changed) =~= depth_map(entries).insert(depth_key(depth), depth));
    } else {
        assert(depth_key(entries[entries.len() - 1]) != depth_key(depth));
        assert(changed.drop_last() =~= entries.drop_last().update(at, depth));
        lemma_depth_replace(entries.drop_last(), at, depth);
        assert(depth_map(changed) =~= depth_map(entries).insert(depth_key(depth), depth));
    }
}

/// The depth snapshots of one tick, by venue and symbol.
#[derive(Clone, Debug)]
pub struct DateDepth {
    entries: Vec<Depth>,
}

impl View for DateDepth {
    type V = Map<(Seq<char>, Seq<char>), Depth>;

    closed spec fn view(&self) -> Self::V {
        depth_map(self.entries@)
    }
}

impl DateDepth {
    /// No snapshot at all.
    pub fn new() -> (quotes: Self)
        ensures
            quotes@ == Map::<(Seq<char>, Seq<char>), Depth>::empty(),
    {
        Self { entries: Vec::new() }
    }

    // Index of the last snapshot for this venue and symbol, or the number of
    // snapshots where there is none.
    fn find(&self, exchange: &String, symbol: &String) -> (at: usize)
        ensures
            at <= self.entries@.len(),
            at < self.entries@.len() ==> depth_key(self.entries@[at as int]) == (
                exchange@,
                symbol@,
            ) && self@.contains_key((exchange@, symbol@)) && self@[(exchange@, symbol@)]
                == self.entries@[at as int],
            at == self.entries@.len() ==> !self@.contains_key((exchange@, symbol@)),
            forall|j: int|
                at < j < self.entries@.len() ==> depth_key(#[trigger] self.entries@[j]) != (
                    exchange@,
                    symbol@,
                ),
    {
        let mut i: usize = self.entries.len();
        while i > 0
            invariant
                i <= self.entries.len(),
                forall|j: int|
                    i <= j < self.entries@.len() ==> depth_key(#[trigger] self.entries@[j]) != (
                        exchange@,
                        symbol@,
                    ),
            decreases i,
        {
            i = i - 1;
            if self.entries[i].exchange == *exchange && self.entries[i].symbol == *symbol {
                proof {
                    lemma_depth_last_match(self.entries@, (exchange@, symbol@), i as int);
                }
                return i;
            }
        }
        proof {
            lemma_depth_no_match(self.entries@, (exchange@, symbol@));
        }
        self.entries.len()
    }

    /// Files a snapshot under its own venue and symbol, in place of any
    /// snapshot filed there before.
    pub fn insert(&mut self, depth: Depth)
        ensures
            final(self)@ == old(self)@.insert(depth_key(depth), depth),
    {
        let at: usize = self.find(&depth.exchange, &depth.symbol);
        if at < self.entries.len() {
            proof {
                lemma_depth_replace(self.entries@, at as int, depth);
            }
            self.entries.set(at, depth);
        } else {
            proof {
                assert(self.entries@.push(depth).drop_last() =~= self.entries@);
            }
            self.entries.push(depth);
        }
    }

    /// The snapshot of `symbol` on `exchange`, if one is filed.
    pub fn get(&self, exchange: &str, symbol: &str) -> (found: Option<&Depth>)
        ensures
            match found {
                Some(depth) => self@.contains_key((exchange@, symbol@)) && *depth == self@[(
                    exchange@,
                    symbol@,
                )],
                None => !self@.contains_key((exchange@, symbol@)),
            },
    {
        let venue: String = exchange.to_owned();
        let name: String = symbol.to_owned();
        self.lookup(&venue, &name)
    }

    /// The snapshot of `symbol` on `exchange`, if one is filed.
    pub fn lookup(&self, exchange: &String, symbol: &String) -> (found: Option<&Depth>)
        ensures
            match found {
                Some(depth) => self@.contains_key((exchange@, symbol@)) && *depth == self@[(
                    exchange@,
                    symbol@,
                )],
                None => !self@.contains_key((exchange@, symbol@)),
            },
    {
        let at: usize = self.find(exchange, symbol);
        if at < self.entries.len() {
            Some(&self.entries[at])
        } else {
            None
        }
    }
}

/// All prints filed under timestamps below `bound`, in the order of the
/// timestamps.
pub open spec fn prints_upto(rows: Map<i64, Vec<Trade>>, bound: int) -> Seq<Trade>
    decreases bound - i64::MIN,
{
    if bound <= i64::MIN {
        Seq::empty()
    } else {
        let rest = prints_upto(rows, bound - 1);
        if bound - 1 <= i64::MAX && rows.contains_key((bound - 1) as i64) {
            rest + rows[(bound - 1) as i64]@
        } else {
            rest
        }
    }
}

/// Timestamps under which nothing is filed add no prints.
pub proof fn lemma_no_prints_between(rows: Map<i64, Vec<Trade>>, low: int, high: int)
    requires
        low <= high,
        forall|date: i64| low <= date < high ==> !rows.contains_key(date),
    ensures
        prints_upto(rows, high) == prints_upto(rows, low),
    decreases high - low,
{
    if low < high {
        lemma_no_prints_between(rows, low, high - 1);
        if high > i64::MIN && high - 1 <= i64::MAX {
            assert(!rows.contains_key((high - 1) as i64));
        }
    }
}

// The timestamps that a map hands out in increasing order rise strictly.
proof fn lemma_dates_rise(dates: Seq<&i64>)
    requires
        increasing_seq(dates),
    ensures
        forall|i: int, j: int| 0 <= i < j < dates.len() ==> *dates[i] < *dates[j],
{
    broadcast use vstd::std_specs::btree::group_btree_axioms;
    broadcast use vstd::laws_cmp::group_laws_cmp;
    broadcast use vstd::laws_cmp::lemma_ref_obeys_cmp_spec;

    assert(vstd::laws_cmp::obeys_cmp::<i64>());
    assert(vstd::laws_cmp::obeys_cmp::<&i64>());
    vstd::std_specs::btree::axiom_increasing_seq_meaning(dates);
    assert forall|i: int, j: int| 0 <= i < j < dates.len() implies *dates[i] < *dates[j] by {
        assert(OrdSpec::cmp_spec(&dates[i], &dates[j]) is Less);
    }
}

/// The taker prints of one tick window, by timestamp.
#[derive(Clone, Debug)]
pub struct DateTrade {
    inner: BTreeMap<i64, Vec<Trade>>,
}

impl View for DateTrade {
    type V = Map<i64, Vec<Trade>>;

    closed spec fn view(&self) -> Map<i64, Vec<Trade>> {
        self.inner@
    }
}

impl DateTrade {
    /// All prints of the window, in the order of their timestamps.
    pub open spec fn prints(&self) -> Seq<Trade> {
        prints_upto(self@, i64::MAX + 1)
    }

    /// No print at all.
    pub fn new() -> (trades: Self)
        ensures
            trades@ == Map::<i64, Vec<Trade>>::empty(),
    {
        Self { inner: BTreeMap::new() }
    }

    /// Files the prints of one timestamp, in place of those filed under it
    /// before.
    pub fn insert(&mut self, date: i64, prints: Vec<Trade>)
        ensures
            final(self)@ == old(self)@.insert(date, prints),
    {
        broadcast use vstd::std_specs::btree::group_btree_axioms;

        self.inner.insert(date, prints);
    }

    /// Number of timestamps under which prints are filed.
    pub fn len(&self) -> (n: usize)
        ensures
            n == self@.dom().len(),
    {
        broadcast use vstd::std_specs::btree::group_btree_axioms;

        self.inner.len()
    }

    /// The timestamps under which prints are filed, earliest first.
    pub fn dates(&self) -> (dates: Vec<i64>)
        ensures
            forall|i: int, j: int| 0 <= i < j < dates@.len() ==> dates@[i] < dates@[j],
            forall|date: i64|
                self@.contains_key(date) <==> exists|j: int|
                    0 <= j < dates@.len() && #[trigger] dates@[j] == date,
    {
        broadcast use vstd::std_specs::btree::group_btree_axioms;

        let mut dates: Vec<i64> = Vec::new();
        for date in it: self.inner.keys()
            invariant
                it.seq() == self.inner.keys().remaining(),
                dates@.len() == it.index(),
                forall|i: int| 0 <= i < dates@.len() ==> dates@[i] == *it.seq()[i],
        {
            dates.push(*date);
        }
        proof {
            let all = self.inner.keys().remaining();
            assert(dates@ =~= all.unref());
            assert(all.unref().to_set() == self.inner@.dom());
            lemma_dates_rise(all);
            assert forall|date: i64|
                self@.contains_key(date) <==> exists|j: int|
                    0 <= j < dates@.len() && #[trigger] dates@[j] == date by {
                if self@.contains_key(date) {
                    assert(dates@.contains(date));
                    let j = choose|j: int| 0 <= j < dates@.len() && dates@[j] == date;
                    assert(dates@[j] == date);
                }
                if exists|j: int| 0 <= j < dates@.len() && #[trigger] dates@[j] == date {
                    assert(dates@.contains(date));
                }
            }
        }
        dates
    }

    /// The prints filed under `date`, if any are.
    pub fn get(&self, date: i64) -> (found: Option<&Vec<Trade>>)
        ensures
            match found {
                Some(prints) => self@.contains_key(date) && *prints == self@[date],
                None => !self@.contains_key(date),
            },
    {
        broadcast use vstd::std_specs::btree::group_btree_axioms;

        self.inner.get(&date)
    }
}

} // verus!
