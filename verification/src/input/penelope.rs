//! Top-of-book quotes by timestamp and symbol.

use vstd::prelude::*;
use std::collections::HashMap;
use rand::distributions::{Distribution, Uniform};
use rand::thread_rng;
use crate::clock::{ClockBuilder, ClockInner, DateTime, stepped_dates};

verus! {

/// Best bid and best ask of one symbol at one timestamp.
#[derive(Debug)]
pub struct PenelopeQuote {
    pub bid: i64,
    pub ask: i64,
    pub date: i64,
    pub symbol: String,
}

impl Clone for PenelopeQuote {
    fn clone(&self) -> (copy: Self)
        ensures
            copy == *self,
    {
        Self { bid: self.bid, ask: self.ask, date: self.date, symbol: self.symbol.clone() }
    }
}

impl PenelopeQuote {
    /// The best bid.
    pub fn get_bid(&self) -> (bid: i64)
        ensures
            bid == self.bid,
    {
        self.bid
    }

    /// The best ask.
    pub fn get_ask(&self) -> (ask: i64)
        ensures
            ask == self.ask,
    {
        self.ask
    }

    /// The symbol that is quoted.
    pub fn get_symbol(&self) -> (symbol: String)
        ensures
            symbol == self.symbol,
    {
        self.symbol.clone()
    }

    /// The timestamp of the quote.
    pub fn get_date(&self) -> (date: i64)
        ensures
            date == self.date,
    {
        self.date
    }
}

/// Timestamp and symbol under which a quote is filed.
pub open spec fn quote_key(quote: PenelopeQuote) -> (i64, Seq<char>) {
    (quote.date, quote.symbol@)
}

/// Quotes by timestamp and symbol.
pub type QuoteMap = Map<(i64, Seq<char>), PenelopeQuote>;

/// The table that a sequence of quotes stands for: a later quote replaces an
/// earlier one with the same timestamp and symbol.
pub open spec fn quote_map(entries: Seq<PenelopeQuote>) -> QuoteMap
    decreases entries.len(),
{
    if entries.len() == 0 {
        Map::empty()
    } else {
        quote_map(entries.drop_last()).insert(quote_key(entries.last()), entries.last())
    }
}

/// No two quotes have the same timestamp and symbol.
pub open spec fn distinct_keys(entries: Seq<PenelopeQuote>) -> bool {
    forall|i: int, j: int|
        0 <= i < j < entries.len() ==> quote_key(#[trigger] entries[i]) != quote_key(
            #[trigger] entries[j],
        )
}

/// Every quote of the sequence is the one that the table holds under its
/// key, and every key of the table is that of a quote of the sequence.
proof fn lemma_quote_map(entries: Seq<PenelopeQuote>)
    requires
        distinct_keys(entries),
    ensures
        forall|i: int|
            0 <= i < entries.len() ==> quote_map(entries).contains_key(
                quote_key(#[trigger] entries[i]),
            ) && quote_map(entries)[quote_key(entries[i])] == entries[i],
        forall|key: (i64, Seq<char>)| #[trigger]
            quote_map(entries).contains_key(key) ==> exists|i: int|
                0 <= i < entries.len() && quote_key(#[trigger] entries[i]) == key,
    decreases entries.len(),
{
    if entries.len() > 0 {
        let front = entries.drop_last();
        lemma_quote_map(front);
        assert forall|i: int| 0 <= i < entries.len() implies quote_map(entries).contains_key(
            quote_key(#[trigger] entries[i]),
        ) && quote_map(entries)[quote_key(entries[i])] == entries[i] by {
            if i < front.len() {
                assert(front[i] == entries[i]);
                assert(quote_key(entries[i]) != quote_key(entries[entries.len() - 1]));
            }
        }
        assert forall|key: (i64, Seq<char>)| #[trigger]
            quote_map(entries).contains_key(key) implies exists|i: int|
            0 <= i < entries.len() && quote_key(#[trigger] entries[i]) == key by {
            if key == quote_key(entries.last()) {
                assert(quote_key(entries[entries.len() - 1]) == key);
            } else {
                assert(quote_map(front).contains_key(key));
                let i = choose|i: int| 0 <= i < front.len() && quote_key(#[trigger] front[i]) == key;
                assert(quote_key(entries[i]) == key);
            }
        }
    }
}

/// Putting a quote in the place of the last quote with its key is the same,
/// for the table, as filing it.
proof fn lemma_replace_last(entries: Seq<PenelopeQuote>, at: int, quote: PenelopeQuote)
    requires
        0 <= at < entries.len(),
        quote_key(entries[at]) == quote_key(quote),
        forall|j: int| at < j < entries.len() ==> quote_key(#[trigger] entries[j]) != quote_key(quote),
    ensures
        quote_map(entries.update(at, quote)) == quote_map(entries).insert(quote_key(quote), quote),
    decreases entries.len(),
{
    let changed = entries.update(at, quote);
    if at == entries.len() - 1 {
        assert(changed.drop_last() =~= entries.drop_last());
        assert(quote_map(changed) =~= quote_map(entries).insert(quote_key(quote), quote));
    } else {
        let last = entries.last();
        assert(quote_key(entries[entries.len() - 1]) != quote_key(quote));
        assert(changed.drop_last() =~= entries.drop_last().update(at, quote));
        lemma_replace_last(entries.drop_last(), at, quote);
        assert(quote_map(changed) =~= quote_map(entries).insert(quote_key(quote), quote));
    }
}

/// Where `at` is the last quote with the key, the table holds it under the
/// key.
proof fn lemma_last_match(entries: Seq<PenelopeQuote>, key: (i64, Seq<char>), at: int)
    requires
        0 <= at < entries.len(),
        quote_key(entries[at]) == key,
        forall|j: int| at < j < entries.len() ==> quote_key(#[trigger] entries[j]) != key,
    ensures
        quote_map(entries).contains_key(key),
        quote_map(entries)[key] == entries[at],
    decreases entries.len(),
{
    if at < entries.len() - 1 {
        assert(quote_key(entries[entries.len() - 1]) != key);
        lemma_last_match(entries.drop_last(), key, at);
    }
}

/// Where no quote has the key, the table holds nothing under it.
proof fn lemma_no_match(entries: Seq<PenelopeQuote>, key: (i64, Seq<char>))
    requires
        forall|j: int| 0 <= j < entries.len() ==> quote_key(#[trigger] entries[j]) != key,
    ensures
        !quote_map(entries).contains_key(key),
    decreases entries.len(),
{
    if entries.len() > 0 {
        assert(quote_key(entries[entries.len() - 1]) != key);
        lemma_no_match(entries.drop_last(), key);
    }
}

/// The quotes of one timestamp.
pub type Row = Vec<PenelopeQuote>;

/// The table that the rows of the timestamps stand for: under a timestamp
/// and a symbol, what the row of the timestamp holds for them.
pub open spec fn rows_map(rows: Map<i64, Row>) -> QuoteMap {
    Map::new(
        |key: (i64, Seq<char>)|
            rows.contains_key(key.0) && quote_map(rows[key.0]@).contains_key(key),
        |key: (i64, Seq<char>)| quote_map(rows[key.0]@)[key],
    )
}

/// The row holds a quote, each of its quotes is of the timestamp `date`, and
/// no two of them are for the same symbol.
pub open spec fn row_wf(row: Seq<PenelopeQuote>, date: i64) -> bool {
    &&& row.len() > 0
    &&& distinct_keys(row)
    &&& forall|i: int| 0 <= i < row.len() ==> (#[trigger] row[i]).date == date
}

// Index of the last quote of the row for this timestamp and symbol, or the
// length of the row where there is none.
fn row_position(row: &Row, date: i64, symbol: &String) -> (at: usize)
    ensures
        at <= row@.len(),
        at < row@.len() ==> quote_key(row@[at as int]) == (date, symbol@),
        forall|j: int|
            at < j < row@.len() || (at == row@.len() && 0 <= j < at) ==> quote_key(
                #[trigger] row@[j],
            ) != (date, symbol@),
{
    let mut i: usize = row.len();
    while i > 0
        invariant
            i <= row.len(),
            forall|j: int|
                i <= j < row@.len() ==> quote_key(#[trigger] row@[j]) != (date, symbol@),
        decreases i,
    {
        i = i - 1;
        if row[i].date == date && row[i].symbol == *symbol {
            return i;
        }
    }
    row.len()
}

/// The quotes of a run, by timestamp and symbol.
#[derive(Debug)]
pub struct Penelope {
    inner: HashMap<i64, Row>,
}

impl View for Penelope {
    type V = QuoteMap;

    closed spec fn view(&self) -> QuoteMap {
        rows_map(self.inner@)
    }
}

impl Penelope {
    /// Under each timestamp quoted there is a quote, each quote is filed
    /// under its own timestamp, and no two quotes are filed under the same
    /// timestamp and symbol.
    pub closed spec fn wf(&self) -> bool {
        forall|date: i64| #[trigger]
            self.inner@.contains_key(date) ==> row_wf(self.inner@[date]@, date)
    }

    /// The quote of `symbol` at `date`, if there is one.
    pub fn get_quote(&self, date: &i64, symbol: &str) -> (found: Option<&PenelopeQuote>)
        ensures
            match found {
                Some(quote) => self@.contains_key((*date, symbol@)) && *quote == self@[(
                    *date,
                    symbol@,
                )],
                None => !self@.contains_key((*date, symbol@)),
            },
    {
        let name: String = symbol.to_owned();
        self.lookup(*date, &name)
    }

    /// The quote of `symbol` at `date`, if there is one.
    pub fn lookup(&self, date: i64, symbol: &String) -> (found: Option<&PenelopeQuote>)
        ensures
            match found {
                Some(quote) => self@.contains_key((date, symbol@)) && *quote == self@[(
                    date,
                    symbol@,
                )],
                None => !self@.contains_key((date, symbol@)),
            },
    {
        broadcast use vstd::std_specs::hash::group_hash_axioms;

        match self.inner.get(&date) {
            Some(row) => {
                let at: usize = row_position(row, date, symbol);
                if at < row.len() {
                    proof {
                        lemma_last_match(row@, (date, symbol@), at as int);
                    }
                    Some(&row[at])
                } else {
                    proof {
                        lemma_no_match(row@, (date, symbol@));
                    }
                    None
                }
            },
            None => None,
        }
    }

    /// All quotes at `date`, one for each symbol quoted then; `None` where no
    /// symbol is quoted at `date`.
    pub fn get_quotes(&self, date: &i64) -> (found: Option<Vec<PenelopeQuote>>)
        requires
            self.wf(),
        ensures
            match found {
                Some(quotes) => {
                    &&& quotes@.len() > 0
                    &&& distinct_keys(quotes@)
                    &&& forall|i: int|
                        0 <= i < quotes@.len() ==> (#[trigger] quotes@[i]).date == *date
                            && self@.contains_key(quote_key(quotes@[i])) && self@[quote_key(
                            quotes@[i],
                        )] == quotes@[i]
                    &&& forall|symbol: Seq<char>| #[trigger]
                        self@.contains_key((*date, symbol)) ==> exists|i: int|
                            0 <= i < quotes@.len() && quote_key(#[trigger] quotes@[i]) == (
                                *date,
                                symbol,
                            )
                },
                None => forall|symbol: Seq<char>| !self@.contains_key((*date, symbol)),
            },
    {
        broadcast use vstd::std_specs::hash::group_hash_axioms;

        match self.inner.get(date) {
            Some(row) => {
                proof {
                    assert(self.inner@.contains_key(*date));
                    assert(row_wf(row@, *date));
                    lemma_quote_map(row@);
                }
                let mut quotes: Vec<PenelopeQuote> = Vec::new();
                let mut i: usize = 0;
                while i < row.len()
                    invariant
                        i <= row.len(),
                        quotes@ == row@.take(i as int),
                    decreases row.len() - i,
                {
                    quotes.push(row[i].clone());
                    proof {
                        assert(row@.take(i + 1) =~= row@.take(i as int).push(row@[i as int]));
                    }
                    i = i + 1;
                }
                proof {
                    assert(row@.take(row@.len() as int) =~= row@);
                    assert(quotes@ == row@);
                    assert forall|k: int| 0 <= k < quotes@.len() implies (
                    #[trigger] quotes@[k]).date == *date && self@.contains_key(
                        quote_key(quotes@[k]),
                    ) && self@[quote_key(quotes@[k])] == quotes@[k] by {
                        assert(row@[k].date == *date);
                        assert(quote_map(row@).contains_key(quote_key(row@[k])));
                        assert(quote_map(row@)[quote_key(row@[k])] == row@[k]);
                    }
                    assert forall|symbol: Seq<char>| #[trigger]
                        self@.contains_key((*date, symbol)) implies exists|i: int|
                        0 <= i < quotes@.len() && quote_key(#[trigger] quotes@[i]) == (
                            *date,
                            symbol,
                        ) by {
                        assert(quote_map(row@).contains_key((*date, symbol)));
                        let j = choose|j: int|
                            0 <= j < row@.len() && quote_key(#[trigger] row@[j]) == (
                                *date,
                                symbol,
                            );
                        assert(quote_key(quotes@[j]) == (*date, symbol));
                    }
                }
                Some(quotes)
            },
            None => None,
        }
    }

    /// Files a quote of `symbol` at `date`, in place of any quote filed for
    /// them before.
    pub fn add_quotes(&mut self, bid: i64, ask: i64, date: i64, symbol: &str)
        ensures
            final(self)@ == old(self)@.insert(
                (date, symbol@),
                final(self)@[(date, symbol@)],
            ),
            final(self)@[(date, symbol@)].bid == bid,
            final(self)@[(date, symbol@)].ask == ask,
            final(self)@[(date, symbol@)].date == date,
            final(self)@[(date, symbol@)].symbol@ == symbol@,
            old(self).wf() ==> final(self).wf(),
    {
        broadcast use vstd::std_specs::hash::group_hash_axioms;

        let name: String = symbol.to_owned();
        let ghost rows = self.inner@;
        let mut row: Row = match self.inner.remove(&date) {
            Some(row) => row,
            None => Vec::new(),
        };
        let ghost before = row@;
        let at: usize = row_position(&row, date, &name);
        let quote = PenelopeQuote { bid, ask, date, symbol: name };
        if at < row.len() {
            proof {
                lemma_replace_last(row@, at as int, quote);
            }
            row.set(at, quote);
        } else {
            proof {
                assert(row@.push(quote).drop_last() =~= row@);
            }
            row.push(quote);
        }
        let ghost after = row@;
        self.inner.insert(date, row);
        proof {
            let key = (date, symbol@);
            assert(quote_map(after) == quote_map(before).insert(key, quote));
            assert(!rows.contains_key(date) ==> quote_map(before) =~= Map::<
                (i64, Seq<char>),
                PenelopeQuote,
            >::empty());
            assert(rows.contains_key(date) ==> before == rows[date]@);
            assert(self.inner@ =~= rows.insert(date, row));
            assert(rows_map(self.inner@) =~= rows_map(rows).insert(key, quote));
            if old(self).wf() {
                assert forall|other: i64| #[trigger] self.inner@.contains_key(other) implies row_wf(
                    self.inner@[other]@,
                    other,
                ) by {
                    if other != date {
                        assert(rows.contains_key(other));
                    } else if rows.contains_key(date) {
                        assert(row_wf(before, date));
                    }
                }
            }
        }
    }

    /// No quote at all.
    pub fn new() -> (source: Self)
        ensures
            source@ == Map::<(i64, Seq<char>), PenelopeQuote>::empty(),
            source.wf(),
    {
        let source = Self { inner: HashMap::new() };
        proof {
            assert(rows_map(source.inner@) =~= Map::<(i64, Seq<char>), PenelopeQuote>::empty());
        }
        source
    }
}

impl Default for Penelope {
    fn default() -> (source: Self)
        ensures
            source@ == Map::<(i64, Seq<char>), PenelopeQuote>::empty(),
            source.wf(),
    {
        Self::new()
    }
}

/// Lowest price that the generator quotes.
pub const RANDOM_PRICE_LOW: i64 = 90;

/// The generator quotes below this price.
pub const RANDOM_PRICE_HIGH: i64 = 100;

/// First timestamp of a generated run.
pub const RANDOM_START: i64 = 100;

/// Draws a price with `rand`: `Uniform::new(low, high)` sampled once with the
/// generator of the current thread. The bounds must be in order, as
/// `Uniform::new` demands; the price then lies in the half-open range from
/// `low` to `high`. Nothing else is claimed of it.
#[verifier::external_body]
fn sample_price(low: i64, high: i64) -> (price: i64)
    requires
        low < high,
    ensures
        low <= price < high,
{
    Uniform::new(low, high).sample(&mut thread_rng())
}

/// The quote is one that the generator may have made for `date` and `symbol`.
pub open spec fn random_quote(quote: PenelopeQuote, date: i64, symbol: Seq<char>) -> bool {
    &&& quote.date == date
    &&& quote.symbol@ == symbol
    &&& RANDOM_PRICE_LOW <= quote.bid < RANDOM_PRICE_HIGH
    &&& RANDOM_PRICE_LOW <= quote.ask < RANDOM_PRICE_HIGH
}

/// The source quotes exactly the two symbols "ABC" and "BCD", at exactly the
/// given timestamps, each time with prices from the generator's range.
pub open spec fn random_source(quotes: QuoteMap, dates: Seq<DateTime>) -> bool {
    &&& forall|date: i64, symbol: Seq<char>| #[trigger]
        quotes.contains_key((date, symbol)) <==> dates.contains(date) && (symbol == "ABC"@
            || symbol == "BCD"@)
    &&& forall|date: i64, symbol: Seq<char>| #[trigger]
        quotes.contains_key((date, symbol)) ==> random_quote(quotes[(date, symbol)], date, symbol)
}

/// A source with random quotes for tests that do not depend on prices: a
/// clock over the `length + 1` seconds from the start, and for each of them a
/// quote for "ABC" and one for "BCD", bid and ask drawn independently.
pub fn random_penelope_generator(length: i64) -> (out: (Penelope, ClockInner))
    requires
        length < i64::MAX - RANDOM_START,
    ensures
        out.1.position() == 0,
        out.1.dates() == stepped_dates(RANDOM_START as int, RANDOM_START + length + 1, 1),
        out.0.wf(),
        random_source(out.0@, out.1.dates()),
{
    let clock = ClockBuilder::from_length_seconds(&RANDOM_START, length).every_second();
    let dates: Vec<DateTime> = clock.peek();
    let mut penelope = Penelope::new();
    let mut i: usize = 0;
    assert(dates@.take(0) =~= Seq::empty());
    while i < dates.len()
        invariant
            i <= dates.len(),
            penelope.wf(),
            random_source(penelope@, dates@.take(i as int)),
        decreases dates.len() - i,
    {
        let date: i64 = dates[i];
        let ghost before = penelope@;
        penelope.add_quotes(
            sample_price(RANDOM_PRICE_LOW, RANDOM_PRICE_HIGH),
            sample_price(RANDOM_PRICE_LOW, RANDOM_PRICE_HIGH),
            date,
            "ABC",
        );
        penelope.add_quotes(
            sample_price(RANDOM_PRICE_LOW, RANDOM_PRICE_HIGH),
            sample_price(RANDOM_PRICE_LOW, RANDOM_PRICE_HIGH),
            date,
            "BCD",
        );
        proof {
            let seen = dates@.take(i as int);
            let next = dates@.take(i + 1);
            assert(next =~= seen.push(date));
            assert forall|d: i64| next.contains(d) <==> seen.contains(d) || d == date by {
                if seen.contains(d) {
                    let k = choose|k: int| 0 <= k < seen.len() && seen[k] == d;
                    assert(next[k] == d);
                }
                if d == date {
                    assert(next[i as int] == d);
                }
            }
            assert forall|d: i64, symbol: Seq<char>| #[trigger]
                penelope@.contains_key((d, symbol)) <==> next.contains(d) && (symbol == "ABC"@
                    || symbol == "BCD"@) by {
                assert(before.contains_key((d, symbol)) <==> seen.contains(d) && (symbol
                    == "ABC"@ || symbol == "BCD"@));
            }
            assert forall|d: i64, symbol: Seq<char>| #[trigger]
                penelope@.contains_key((d, symbol)) implies random_quote(
                penelope@[(d, symbol)],
                d,
                symbol,
            ) by {
                if (d, symbol) != (date, "ABC"@) && (d, symbol) != (date, "BCD"@) {
                    assert(before.contains_key((d, symbol)));
                }
            }
        }
        i = i + 1;
    }
    assert(dates@.take(dates@.len() as int) =~= dates@);
    (penelope, clock)
}

} // verus!
