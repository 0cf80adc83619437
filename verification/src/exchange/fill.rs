//! The fill walk of one order through one depth snapshot, and the two
//! per-tick tables it reads and writes: taker volume by price, and liquidity
//! already taken by symbol and price.

use vstd::prelude::*;
use std::collections::HashMap;
use crate::source::hyperliquid::{
    DateTrade,
    Depth,
    Level,
    Side,
    Trade,
    lemma_no_prints_between,
    prints_upto,
};
use crate::exchange::uist_v2::{
    InnerOrder,
    OrderBookOrderPriority,
    OrderResult,
    OrderResultType,
    OrderType,
};

verus! {

/// Liquidity taken so far in a tick, by symbol and price.
pub type FillMap = Map<(Seq<char>, i64), i64>;

/// What has been taken at `price` of `symbol`; nothing where nothing is
/// recorded.
pub open spec fn filled_at(fills: FillMap, symbol: Seq<char>, price: i64) -> i64 {
    if fills.contains_key((symbol, price)) {
        fills[(symbol, price)]
    } else {
        0
    }
}

/// What has been taken of one symbol, by price.
#[derive(Debug)]
pub struct SymbolFills {
    pub symbol: String,
    pub taken: HashMap<i64, i64>,
}

/// What the rows hold for a symbol, by price: the table of the last row for
/// the symbol, and nothing where there is no such row.
pub open spec fn row_of(rows: Seq<SymbolFills>, symbol: Seq<char>) -> Map<i64, i64>
    decreases rows.len(),
{
    if rows.len() == 0 {
        Map::empty()
    } else if rows.last().symbol@ == symbol {
        rows.last().taken@
    } else {
        row_of(rows.drop_last(), symbol)
    }
}

/// The table that the rows stand for, by symbol and price.
pub open spec fn fill_map(rows: Seq<SymbolFills>) -> FillMap {
    Map::new(
        |key: (Seq<char>, i64)| row_of(rows, key.0).contains_key(key.1),
        |key: (Seq<char>, i64)| row_of(rows, key.0)[key.1],
    )
}

// Where `at` is the last row for the symbol, the rows hold for the symbol
// what that row holds.
proof fn lemma_row_found(rows: Seq<SymbolFills>, symbol: Seq<char>, at: int)
    requires
        0 <= at < rows.len(),
        rows[at].symbol@ == symbol,
        forall|j: int| at < j < rows.len() ==> (#[trigger] rows[j]).symbol@ != symbol,
    ensures
        row_of(rows, symbol) == rows[at].taken@,
    decreases rows.len(),
{
    if at < rows.len() - 1 {
        assert(rows[rows.len() - 1].symbol@ != symbol);
        lemma_row_found(rows.drop_last(), symbol, at);
    }
}

// Where no row is for the symbol, the rows hold nothing for it.
proof fn lemma_row_missing(rows: Seq<SymbolFills>, symbol: Seq<char>)
    requires
        forall|j: int| 0 <= j < rows.len() ==> (#[trigger] rows[j]).symbol@ != symbol,
    ensures
        row_of(rows, symbol) == Map::<i64, i64>::empty(),
    decreases rows.len(),
{
    if rows.len() > 0 {
        assert(rows[rows.len() - 1].symbol@ != symbol);
        lemma_row_missing(rows.drop_last(), symbol);
    }
}

// A change to the last row of a symbol changes what the rows hold for that
// symbol and nothing else.
proof fn lemma_row_changed(
    rows: Seq<SymbolFills>,
    changed: Seq<SymbolFills>,
    at: int,
    other: Seq<char>,
)
    requires
        0 <= at < rows.len(),
        changed.len() == rows.len(),
        changed[at].symbol@ == rows[at].symbol@,
        forall|j: int| 0 <= j < rows.len() && j != at ==> changed[j] == rows[j],
        forall|j: int| at < j < rows.len() ==> (#[trigger] rows[j]).symbol@ != rows[at].symbol@,
    ensures
        row_of(changed, other) == if other == rows[at].symbol@ {
            changed[at].taken@
        } else {
            row_of(rows, other)
        },
    decreases rows.len(),
{
    if at == rows.len() - 1 {
        assert(changed.drop_last() =~= rows.drop_last());
    } else {
        assert(changed[rows.len() - 1] == rows[rows.len() - 1]);
        assert(rows[rows.len() - 1].symbol@ != rows[at].symbol@);
        lemma_row_changed(rows.drop_last(), changed.drop_last(), at, other);
    }
}

/// Liquidity already taken at each level within one matching pass, so that
/// no two orders of a tick take the same size twice.
#[derive(Debug)]
pub struct FillTracker {
    entries: Vec<SymbolFills>,
}

impl View for FillTracker {
    type V = FillMap;

    closed spec fn view(&self) -> FillMap {
        fill_map(self.entries@)
    }
}

impl FillTracker {
    /// Nothing taken yet.
    pub fn new() -> (tracker: Self)
        ensures
            tracker@ == Map::<(Seq<char>, i64), i64>::empty(),
    {
        let tracker = Self { entries: Vec::new() };
        proof {
            assert(fill_map(tracker.entries@) =~= Map::<(Seq<char>, i64), i64>::empty());
        }
        tracker
    }

    // Index of the last row for this symbol, or the number of rows where
    // there is none.
    fn find_row(&self, symbol: &String) -> (at: usize)
        ensures
            at <= self.entries@.len(),
            at < self.entries@.len() ==> self.entries@[at as int].symbol@ == symbol@ && row_of(
                self.entries@,
                symbol@,
            ) == self.entries@[at as int].taken@,
            at == self.entries@.len() ==> row_of(self.entries@, symbol@) == Map::<
                i64,
                i64,
            >::empty(),
            forall|j: int|
                at < j < self.entries@.len() ==> (#[trigger] self.entries@[j]).symbol@ != symbol@,
    {
        let mut i: usize = self.entries.len();
        while i > 0
            invariant
                i <= self.entries.len(),
                forall|j: int|
                    i <= j < self.entries@.len() ==> (#[trigger] self.entries@[j]).symbol@
                        != symbol@,
            decreases i,
        {
            i = i - 1;
            if self.entries[i].symbol == *symbol {
                proof {
                    lemma_row_found(self.entries@, symbol@, i as int);
                }
                return i;
            }
        }
        proof {
            lemma_row_missing(self.entries@, symbol@);
        }
        self.entries.len()
    }

    /// What has been taken at `price` of `symbol` so far.
    pub fn amount(&self, symbol: &String, price: i64) -> (taken: i64)
        ensures
            taken == filled_at(self@, symbol@, price),
    {
        broadcast use vstd::std_specs::hash::group_hash_axioms;

        let at: usize = self.find_row(symbol);
        if at < self.entries.len() {
            match self.entries[at].taken.get(&price) {
                Some(taken) => *taken,
                None => 0,
            }
        } else {
            0
        }
    }

    /// Records that `total` has been taken at `price` of `symbol`.
    pub fn put(&mut self, symbol: &String, price: i64, total: i64)
        ensures
            final(self)@ == old(self)@.insert((symbol@, price), total),
    {
        broadcast use vstd::std_specs::hash::group_hash_axioms;

        let at: usize = self.find_row(symbol);
        let ghost rows = self.entries@;
        if at < self.entries.len() {
            self.entries[at].taken.insert(price, total);
            proof {
                let changed = self.entries@;
                assert forall|key: (Seq<char>, i64)|
                    #![trigger fill_map(changed).contains_key(key)]
                    #![trigger fill_map(changed)[key]]
                    fill_map(changed).contains_key(key) == fill_map(rows).insert(
                        (symbol@, price),
                        total,
                    ).contains_key(key) && (fill_map(changed).contains_key(key) ==> fill_map(
                        changed,
                    )[key] == fill_map(rows).insert((symbol@, price), total)[key]) by {
                    lemma_row_changed(rows, changed, at as int, key.0);
                }
                assert(fill_map(changed) =~= fill_map(rows).insert((symbol@, price), total));
            }
        } else {
            let mut taken: HashMap<i64, i64> = HashMap::new();
            taken.insert(price, total);
            let row = SymbolFills { symbol: symbol.clone(), taken };
            self.entries.push(row);
            proof {
                let changed = self.entries@;
                assert(changed.drop_last() =~= rows);
                assert forall|key: (Seq<char>, i64)|
                    #![trigger fill_map(changed).contains_key(key)]
                    #![trigger fill_map(changed)[key]]
                    fill_map(changed).contains_key(key) == fill_map(rows).insert(
                        (symbol@, price),
                        total,
                    ).contains_key(key) && (fill_map(changed).contains_key(key) ==> fill_map(
                        changed,
                    )[key] == fill_map(rows).insert((symbol@, price), total)[key]) by {
                    assert(row_of(changed, key.0) == if key.0 == symbol@ {
                        row.taken@
                    } else {
                        row_of(rows, key.0)
                    });
                }
                assert(fill_map(changed) =~= fill_map(rows).insert((symbol@, price), total));
            }
        }
    }

    /// What has been taken at `price` of `symbol` so far.
    pub fn get_fill(&self, symbol: &str, price: &i64) -> (taken: i64)
        ensures
            taken == filled_at(self@, symbol@, *price),
    {
        let name: String = symbol.to_owned();
        self.amount(&name, *price)
    }

    /// Adds `filled` to what has been taken at `price` of `symbol`.
    pub fn insert_fill(&mut self, symbol: &str, price: &i64, filled: i64)
        requires
            i64::MIN <= filled_at(old(self)@, symbol@, *price) + filled <= i64::MAX,
        ensures
            final(self)@ == old(self)@.insert(
                (symbol@, *price),
                (filled_at(old(self)@, symbol@, *price) + filled) as i64,
            ),
    {
        let name: String = symbol.to_owned();
        let before: i64 = self.amount(&name, *price);
        self.put(&name, *price, before + filled);
    }
}

/// Taker volume printed at one price: the sum of the prints reported on the
/// ask side, which buys at the touch may claim, and the sum of those reported
/// on the bid side, which sells at the touch may claim.
#[derive(Clone, Copy, Debug, PartialEq, Eq, Structural)]
pub struct Volume {
    pub ask: i64,
    pub bid: i64,
}

/// Taker volume by price.
pub type VolumeMap = Map<i64, Volume>;

/// The sum of two sizes, held within the range of a size.
pub open spec fn capped_sum(a: i64, b: i64) -> i64 {
    if a + b > i64::MAX {
        i64::MAX
    } else if a + b < i64::MIN {
        i64::MIN
    } else {
        (a + b) as i64
    }
}

/// The volume at `price`; zero on both sides where nothing printed.
pub open spec fn volume_at(volumes: VolumeMap, price: i64) -> Volume {
    if volumes.contains_key(price) {
        volumes[price]
    } else {
        Volume { ask: 0, bid: 0 }
    }
}

/// The table after one more print: its size is added, on its own side, to
/// the volume at its price.
pub open spec fn add_print(volumes: VolumeMap, print: Trade) -> VolumeMap {
    let before = volume_at(volumes, print.px);
    let after = match print.side {
        Side::Ask => Volume { ask: capped_sum(before.ask, print.sz), bid: before.bid },
        Side::Bid => Volume { ask: before.ask, bid: capped_sum(before.bid, print.sz) },
    };
    volumes.insert(print.px, after)
}

/// Taker volume by price over a sequence of prints.
pub open spec fn volumes_of(prints: Seq<Trade>) -> VolumeMap
    decreases prints.len(),
{
    if prints.len() == 0 {
        Map::empty()
    } else {
        add_print(volumes_of(prints.drop_last()), prints.last())
    }
}

/// Taker volume of one tick window by price.
#[derive(Debug)]
pub struct TakerVolumes {
    entries: HashMap<i64, Volume>,
}

impl View for TakerVolumes {
    type V = VolumeMap;

    closed spec fn view(&self) -> VolumeMap {
        self.entries@
    }
}

fn add_capped(a: i64, b: i64) -> (sum: i64)
    ensures
        sum == capped_sum(a, b),
{
    let wide: i128 = a as i128 + b as i128;
    if wide > i64::MAX as i128 {
        i64::MAX
    } else if wide < i64::MIN as i128 {
        i64::MIN
    } else {
        wide as i64
    }
}

impl TakerVolumes {
    /// No print yet.
    pub fn new() -> (volumes: Self)
        ensures
            volumes@ == Map::<i64, Volume>::empty(),
    {
        Self { entries: HashMap::new() }
    }

    /// The volume printed at `price`, if any print named that price.
    pub fn get(&self, price: i64) -> (found: Option<Volume>)
        ensures
            match found {
                Some(volume) => self@.contains_key(price) && self@[price] == volume,
                None => !self@.contains_key(price),
            },
    {
        broadcast use vstd::std_specs::hash::group_hash_axioms;

        match self.entries.get(&price) {
            Some(volume) => Some(*volume),
            None => None,
        }
    }

    /// Adds one print to the volume at its price, on its own side.
    pub fn record(&mut self, print: &Trade)
        ensures
            final(self)@ == add_print(old(self)@, *print),
    {
        broadcast use vstd::std_specs::hash::group_hash_axioms;

        let before: Volume = match self.get(print.px) {
            Some(volume) => volume,
            None => Volume { ask: 0, bid: 0 },
        };
        let after: Volume = match print.side {
            Side::Ask => Volume { ask: add_capped(before.ask, print.sz), bid: before.bid },
            Side::Bid => Volume { ask: before.ask, bid: add_capped(before.bid, print.sz) },
        };
        self.entries.insert(print.px, after);
    }

    /// The volume of all prints of a tick window, whatever their timestamp,
    /// symbol or venue.
    pub fn from_trades(trades: &DateTrade) -> (volumes: Self)
        ensures
            volumes@ == volumes_of(trades.prints()),
    {
        let mut volumes = TakerVolumes::new();
        let dates: Vec<i64> = trades.dates();
        let mut b: usize = 0;
        let ghost mut low: int = i64::MIN as int;
        while b < dates.len()
            invariant
                b <= dates.len(),
                i64::MIN <= low <= i64::MAX + 1,
                forall|i: int, j: int| 0 <= i < j < dates@.len() ==> dates@[i] < dates@[j],
                forall|date: i64|
                    trades@.contains_key(date) <==> exists|j: int|
                        0 <= j < dates@.len() && #[trigger] dates@[j] == date,
                forall|j: int| 0 <= j < b ==> dates@[j] < low,
                forall|j: int| b <= j < dates@.len() ==> dates@[j] >= low,
                volumes@ == volumes_of(prints_upto(trades@, low)),
            decreases dates.len() - b,
        {
            let date: i64 = dates[b];
            proof {
                assert forall|other: i64| low <= other < date implies !trades@.contains_key(
                    other,
                ) by {
                    if trades@.contains_key(other) {
                        let j = choose|j: int|
                            0 <= j < dates@.len() && #[trigger] dates@[j] == other;
                        if j < b {
                            assert(dates@[j] < low);
                        } else if j > b {
                            assert(dates@[b as int] < dates@[j]);
                        }
                    }
                }
                lemma_no_prints_between(trades@, low, date as int);
                assert(trades@.contains_key(date));
            }
            let ghost done = prints_upto(trades@, date as int);
            match trades.get(date) {
                Some(batch) => {
                    let mut j: usize = 0;
                    proof {
                        assert(done + batch@.take(0) =~= done);
                    }
                    while j < batch.len()
                        invariant
                            j <= batch.len(),
                            volumes@ == volumes_of(done + batch@.take(j as int)),
                        decreases batch.len() - j,
                    {
                        volumes.record(&batch[j]);
                        proof {
                            let next = done + batch@.take(j + 1);
                            assert(next.drop_last() =~= done + batch@.take(j as int));
                            assert(next.last() == batch@[j as int]);
                        }
                        j = j + 1;
                    }
                    proof {
                        assert(batch@.take(batch@.len() as int) =~= batch@);
                        assert(prints_upto(trades@, date + 1) == done + batch@);
                    }
                },
                None => {},
            }
            proof {
                low = date + 1;
            }
            b = b + 1;
        }
        proof {
            assert forall|other: i64| low <= other < i64::MAX + 1 implies !trades@.contains_key(
                other,
            ) by {
                if trades@.contains_key(other) {
                    let j = choose|j: int| 0 <= j < dates@.len() && #[trigger] dates@[j] == other;
                    assert(dates@[j] < low);
                }
            }
            lemma_no_prints_between(trades@, low, i64::MAX + 1);
        }
        volumes
    }
}

/// A walk in progress: what is left of the order, what has been taken at
/// each level, and the fills made so far.
pub struct Walk {
    pub remaining: i64,
    pub filled: FillMap,
    pub trades: Seq<OrderResult>,
}

/// What an order with `remaining` left takes from a level that offers
/// `avail`, of which `taken` is gone: the smaller of what is left on either
/// side, and nothing once either is used up.
pub open spec fn claimable(avail: i64, taken: i64, remaining: i64) -> i64 {
    if remaining <= 0 || avail <= taken {
        0
    } else if avail - taken < remaining {
        (avail - taken) as i64
    } else {
        remaining
    }
}

/// The order may trade at a level of the opposite side with this price.
pub open spec fn crosses(order: InnerOrder, level_price: i64) -> bool {
    match order.order_type {
        OrderType::MarketBuy | OrderType::MarketSell => true,
        OrderType::LimitBuy => order.price matches Some(limit) && level_price <= limit,
        OrderType::LimitSell => order.price matches Some(limit) && level_price >= limit,
        _ => false,
    }
}

/// The order rests at a level of its own side with this price.
pub open spec fn touches(order: InnerOrder, level_price: i64) -> bool {
    (order.order_type == OrderType::LimitBuy || order.order_type == OrderType::LimitSell)
        && order.price == Some(level_price)
}

/// The taker volume that an order resting at the touch may claim: for a buy
/// the volume of the prints reported on the ask side, for a sell that of the
/// prints reported on the bid side.
pub open spec fn traded_for(order: InnerOrder, volume: Volume) -> i64 {
    if order.order_type.spec_is_buy() {
        volume.ask
    } else {
        volume.bid
    }
}

/// The fill of `qty` of `order` at `price`.
pub open spec fn fill_of(order: InnerOrder, price: i64, qty: i64, date: i64) -> OrderResult {
    OrderResult {
        symbol: order.symbol,
        value: (price * qty) as i128,
        quantity: qty,
        date,
        typ: if order.order_type.spec_is_buy() {
            OrderResultType::Buy
        } else {
            OrderResultType::Sell
        },
        order_id: order.order_id,
        order_id_ref: None,
        exchange: order.exchange,
    }
}

/// The walk after the order has taken what it can of `avail` at `price`.
pub open spec fn take_at(walk: Walk, order: InnerOrder, price: i64, avail: i64, date: i64) -> Walk {
    let taken = filled_at(walk.filled, order.symbol@, price);
    let qty = claimable(avail, taken, walk.remaining);
    Walk {
        remaining: (walk.remaining - qty) as i64,
        filled: walk.filled.insert((order.symbol@, price), (taken + qty) as i64),
        trades: walk.trades.push(fill_of(order, price, qty, date)),
    }
}

/// The walk over the opposite side from level `from` on: at each level whose
/// price the order accepts it takes what is left there, until the order is
/// filled or the levels end. A level whose price the order does not accept,
/// and a level that earlier fills of the tick have used up, is passed.
pub open spec fn cross_walk(
    levels: Seq<Level>,
    from: int,
    order: InnerOrder,
    date: i64,
    walk: Walk,
) -> Walk
    decreases levels.len() - from,
{
    if from < 0 || from >= levels.len() || walk.remaining <= 0 {
        walk
    } else if !crosses(order, levels[from].price) || claimable(
        levels[from].size,
        filled_at(walk.filled, order.symbol@, levels[from].price),
        walk.remaining,
    ) == 0 {
        cross_walk(levels, from + 1, order, date, walk)
    } else {
        cross_walk(
            levels,
            from + 1,
            order,
            date,
            take_at(walk, order, levels[from].price, levels[from].size, date),
        )
    }
}

/// The walk over the order's own side from level `from` on: at a level with
/// the order's limit price at which takers traded, it takes what is left of
/// their volume, until the order is filled or that volume is used up.
pub open spec fn touch_walk(
    levels: Seq<Level>,
    from: int,
    order: InnerOrder,
    volumes: VolumeMap,
    date: i64,
    walk: Walk,
) -> Walk
    decreases levels.len() - from,
{
    if from < 0 || from >= levels.len() || walk.remaining <= 0 {
        walk
    } else if !touches(order, levels[from].price) || !volumes.contains_key(levels[from].price) {
        touch_walk(levels, from + 1, order, volumes, date, walk)
    } else if claimable(
        traded_for(order, volumes[levels[from].price]),
        filled_at(walk.filled, order.symbol@, levels[from].price),
        walk.remaining,
    ) == 0 {
        walk
    } else {
        touch_walk(
            levels,
            from + 1,
            order,
            volumes,
            date,
            take_at(
                walk,
                order,
                levels[from].price,
                traded_for(order, volumes[levels[from].price]),
                date,
            ),
        )
    }
}

/// The whole walk of one order through one snapshot. With priority at the
/// touch the order first claims, at the level of its own side that has its
/// price, the taker volume that traded there against that side. Then it
/// crosses: a buy walks the asks, a sell the bids, best price first.
pub open spec fn fill_walk(
    depth: Depth,
    order: InnerOrder,
    filled: FillMap,
    volumes: VolumeMap,
    priority: OrderBookOrderPriority,
) -> Walk {
    let start = Walk { remaining: order.qty, filled, trades: Seq::empty() };
    let near = if order.order_type.spec_is_buy() {
        depth.bids@
    } else {
        depth.asks@
    };
    let far = if order.order_type.spec_is_buy() {
        depth.asks@
    } else {
        depth.bids@
    };
    let touched = if priority == OrderBookOrderPriority::AlwaysFirst {
        touch_walk(near, 0, order, volumes, depth.date, start)
    } else {
        start
    };
    cross_walk(far, 0, order, depth.date, touched)
}

fn claim(avail: i64, taken: i64, remaining: i64) -> (qty: i64)
    ensures
        qty == claimable(avail, taken, remaining),
{
    if remaining <= 0 || avail <= taken {
        0
    } else {
        let left: i128 = avail as i128 - taken as i128;
        if left < remaining as i128 {
            left as i64
        } else {
            remaining
        }
    }
}

fn accepts(order: &InnerOrder, level_price: i64) -> (ok: bool)
    ensures
        ok == crosses(*order, level_price),
{
    match order.order_type {
        OrderType::MarketBuy | OrderType::MarketSell => true,
        OrderType::LimitBuy => match order.price {
            Some(limit) => level_price <= limit,
            None => false,
        },
        OrderType::LimitSell => match order.price {
            Some(limit) => level_price >= limit,
            None => false,
        },
        _ => false,
    }
}

fn rests_at(order: &InnerOrder, level_price: i64) -> (ok: bool)
    ensures
        ok == touches(*order, level_price),
{
    match order.order_type {
        OrderType::LimitBuy | OrderType::LimitSell => match order.price {
            Some(limit) => limit == level_price,
            None => false,
        },
        _ => false,
    }
}

proof fn lemma_value_fits(price: i64, qty: i64)
    ensures
        i128::MIN <= price * qty <= i128::MAX,
{
    assert(-0x4000_0000_0000_0000_0000_0000_0000_0000 <= price * qty
        <= 0x4000_0000_0000_0000_0000_0000_0000_0000) by (nonlinear_arith)
        requires
            -0x8000_0000_0000_0000 <= price <= 0x8000_0000_0000_0000,
            -0x8000_0000_0000_0000 <= qty <= 0x8000_0000_0000_0000,
    ;
}

/// Takes `qty` at `price` for `order`: one fill more, `qty` less to fill, and
/// `qty` more recorded as taken there.
fn take(
    order: &InnerOrder,
    price: i64,
    avail: i64,
    date: i64,
    to_fill: &mut i64,
    filled: &mut FillTracker,
    trades: &mut Vec<OrderResult>,
)
    requires
        claimable(avail, filled_at(old(filled)@, order.symbol@, price), *old(to_fill)) != 0,
    ensures
        (Walk { remaining: *final(to_fill), filled: final(filled)@, trades: final(trades)@ })
            == take_at(
            Walk { remaining: *old(to_fill), filled: old(filled)@, trades: old(trades)@ },
            *order,
            price,
            avail,
            date,
        ),
{
    let taken: i64 = filled.amount(&order.symbol, price);
    let qty: i64 = claim(avail, taken, *to_fill);
    proof {
        lemma_value_fits(price, qty);
    }
    let value: i128 = (price as i128) * (qty as i128);
    let typ = if order.order_type.is_buy() {
        OrderResultType::Buy
    } else {
        OrderResultType::Sell
    };
    let trade = OrderResult {
        symbol: order.symbol.clone(),
        value,
        quantity: qty,
        date,
        typ,
        order_id: order.order_id,
        order_id_ref: None,
        exchange: order.exchange.clone(),
    };
    trades.push(trade);
    filled.put(&order.symbol, price, taken + qty);
    *to_fill = *to_fill - qty;
}

fn cross(
    levels: &Vec<Level>,
    order: &InnerOrder,
    date: i64,
    to_fill: &mut i64,
    filled: &mut FillTracker,
    trades: &mut Vec<OrderResult>,
)
    ensures
        (Walk { remaining: *final(to_fill), filled: final(filled)@, trades: final(trades)@ })
            == cross_walk(
            levels@,
            0,
            *order,
            date,
            Walk { remaining: *old(to_fill), filled: old(filled)@, trades: old(trades)@ },
        ),
{
    let ghost start = Walk { remaining: *to_fill, filled: filled@, trades: trades@ };
    let mut i: usize = 0;
    while i < levels.len()
        invariant
            i <= levels.len(),
            start == (Walk {
                remaining: *old(to_fill),
                filled: old(filled)@,
                trades: old(trades)@,
            }),
            cross_walk(levels@, 0, *order, date, start) == cross_walk(
                levels@,
                i as int,
                *order,
                date,
                Walk { remaining: *to_fill, filled: filled@, trades: trades@ },
            ),
        decreases levels.len() - i,
    {
        if *to_fill <= 0 {
            return ;
        }
        let level: Level = levels[i];
        if accepts(order, level.price) {
            let taken: i64 = filled.amount(&order.symbol, level.price);
            if claim(level.size, taken, *to_fill) != 0 {
                take(order, level.price, level.size, date, to_fill, filled, trades);
            }
        }
        i = i + 1;
    }
}

fn touch(
    levels: &Vec<Level>,
    order: &InnerOrder,
    volumes: &TakerVolumes,
    date: i64,
    to_fill: &mut i64,
    filled: &mut FillTracker,
    trades: &mut Vec<OrderResult>,
)
    ensures
        (Walk { remaining: *final(to_fill), filled: final(filled)@, trades: final(trades)@ })
            == touch_walk(
            levels@,
            0,
            *order,
            volumes@,
            date,
            Walk { remaining: *old(to_fill), filled: old(filled)@, trades: old(trades)@ },
        ),
{
    let ghost start = Walk { remaining: *to_fill, filled: filled@, trades: trades@ };
    let mut i: usize = 0;
    while i < levels.len()
        invariant
            i <= levels.len(),
            start == (Walk {
                remaining: *old(to_fill),
                filled: old(filled)@,
                trades: old(trades)@,
            }),
            touch_walk(levels@, 0, *order, volumes@, date, start) == touch_walk(
                levels@,
                i as int,
                *order,
                volumes@,
                date,
                Walk { remaining: *to_fill, filled: filled@, trades: trades@ },
            ),
        decreases levels.len() - i,
    {
        if *to_fill <= 0 {
            return ;
        }
        let level: Level = levels[i];
        if rests_at(order, level.price) {
            match volumes.get(level.price) {
                Some(volume) => {
                    let avail: i64 = if order.order_type.is_buy() {
                        volume.ask
                    } else {
                        volume.bid
                    };
                    let taken: i64 = filled.amount(&order.symbol, level.price);
                    if claim(avail, taken, *to_fill) == 0 {
                        return ;
                    }
                    take(order, level.price, avail, date, to_fill, filled, trades);
                },
                None => {},
            }
        }
        i = i + 1;
    }
}

/// Fills `order` from `depth` as far as its price, the liquidity left at each
/// level and the taker volume allow, and records what it took. The fills come
/// back in the order of the walk. Only a well-formed buy or sell can be
/// filled, never a cancel or a modify.
pub fn fill_order(
    depth: &Depth,
    order: &InnerOrder,
    filled: &mut FillTracker,
    taker_trades: &TakerVolumes,
    priority_setting: &OrderBookOrderPriority,
) -> (trades: Vec<OrderResult>)
    requires
        order.wf(),
        !order.order_type.spec_is_control(),
    ensures
        trades@ == fill_walk(*depth, *order, old(filled)@, taker_trades@, *priority_setting).trades,
        final(filled)@ == fill_walk(
            *depth,
            *order,
            old(filled)@,
            taker_trades@,
            *priority_setting,
        ).filled,
        fills_kept(final(filled)@, trades@, old(filled)@, *order, *depth, taker_trades@),
{
    proof {
        lemma_fill_walk_kept(*depth, *order, filled@, taker_trades@, *priority_setting);
    }
    let mut to_fill: i64 = order.qty;
    let mut trades: Vec<OrderResult> = Vec::new();
    let is_buy: bool = order.order_type.is_buy();
    match priority_setting {
        OrderBookOrderPriority::AlwaysFirst => {
            if is_buy {
                touch(&depth.bids, order, taker_trades, depth.date, &mut to_fill, filled, &mut trades);
            } else {
                touch(&depth.asks, order, taker_trades, depth.date, &mut to_fill, filled, &mut trades);
            }
        },
        OrderBookOrderPriority::TradeThrough => {},
    }
    if is_buy {
        cross(&depth.asks, order, depth.date, &mut to_fill, filled, &mut trades);
    } else {
        cross(&depth.bids, order, depth.date, &mut to_fill, filled, &mut trades);
    }
    trades
}

/// A crossing walk never drops a fill, and one that adds none changes
/// nothing.
pub proof fn lemma_cross_walk_grows(
    levels: Seq<Level>,
    from: int,
    order: InnerOrder,
    date: i64,
    walk: Walk,
)
    ensures
        cross_walk(levels, from, order, date, walk).trades.len() >= walk.trades.len(),
        cross_walk(levels, from, order, date, walk).trades.len() == walk.trades.len()
            ==> cross_walk(levels, from, order, date, walk) == walk,
    decreases levels.len() - from,
{
    if from < 0 || from >= levels.len() || walk.remaining <= 0 {
    } else if !crosses(order, levels[from].price) || claimable(
        levels[from].size,
        filled_at(walk.filled, order.symbol@, levels[from].price),
        walk.remaining,
    ) == 0 {
        lemma_cross_walk_grows(levels, from + 1, order, date, walk);
    } else {
        lemma_cross_walk_grows(
            levels,
            from + 1,
            order,
            date,
            take_at(walk, order, levels[from].price, levels[from].size, date),
        );
    }
}

/// A walk at the touch never drops a fill, and one that adds none changes
/// nothing.
pub proof fn lemma_touch_walk_grows(
    levels: Seq<Level>,
    from: int,
    order: InnerOrder,
    volumes: VolumeMap,
    date: i64,
    walk: Walk,
)
    ensures
        touch_walk(levels, from, order, volumes, date, walk).trades.len() >= walk.trades.len(),
        touch_walk(levels, from, order, volumes, date, walk).trades.len() == walk.trades.len()
            ==> touch_walk(levels, from, order, volumes, date, walk) == walk,
    decreases levels.len() - from,
{
    if from < 0 || from >= levels.len() || walk.remaining <= 0 {
    } else if !touches(order, levels[from].price) || !volumes.contains_key(levels[from].price) {
        lemma_touch_walk_grows(levels, from + 1, order, volumes, date, walk);
    } else if claimable(
        traded_for(order, volumes[levels[from].price]),
        filled_at(walk.filled, order.symbol@, levels[from].price),
        walk.remaining,
    ) == 0 {
    } else {
        lemma_touch_walk_grows(
            levels,
            from + 1,
            order,
            volumes,
            date,
            take_at(
                walk,
                order,
                levels[from].price,
                traded_for(order, volumes[levels[from].price]),
                date,
            ),
        );
    }
}

/// A walk that fills nothing takes nothing: the record of what is taken at
/// each level is as before.
pub proof fn lemma_idle_walk_takes_nothing(
    depth: Depth,
    order: InnerOrder,
    filled: FillMap,
    volumes: VolumeMap,
    priority: OrderBookOrderPriority,
)
    ensures
        fill_walk(depth, order, filled, volumes, priority).trades.len() == 0 ==> fill_walk(
            depth,
            order,
            filled,
            volumes,
            priority,
        ).filled == filled,
{
    let start = Walk { remaining: order.qty, filled, trades: Seq::empty() };
    let near = if order.order_type.spec_is_buy() {
        depth.bids@
    } else {
        depth.asks@
    };
    let far = if order.order_type.spec_is_buy() {
        depth.asks@
    } else {
        depth.bids@
    };
    lemma_touch_walk_grows(near, 0, order, volumes, depth.date, start);
    let touched = if priority == OrderBookOrderPriority::AlwaysFirst {
        touch_walk(near, 0, order, volumes, depth.date, start)
    } else {
        start
    };
    lemma_cross_walk_grows(far, 0, order, depth.date, touched);
}

/// What the fills among `results` give to the order `id`, added up.
pub open spec fn filled_qty(results: Seq<OrderResult>, id: u64) -> int
    decreases results.len(),
{
    if results.len() == 0 {
        0
    } else {
        filled_qty(results.drop_last(), id) + if results.last().is_fill() && results.last().order_id
            == id {
            results.last().quantity as int
        } else {
            0
        }
    }
}

/// What is filled for an order over two runs of results is what is filled
/// over the first and over the second.
pub proof fn lemma_filled_qty_concat(a: Seq<OrderResult>, b: Seq<OrderResult>, id: u64)
    ensures
        filled_qty(a + b, id) == filled_qty(a, id) + filled_qty(b, id),
    decreases b.len(),
{
    if b.len() == 0 {
        assert(a + b =~= a);
    } else {
        assert((a + b).drop_last() =~= a + b.drop_last());
        assert((a + b).last() == b.last());
        lemma_filled_qty_concat(a, b.drop_last(), id);
    }
}

/// Results without a fill give nothing to any order.
pub proof fn lemma_no_fill_no_qty(results: Seq<OrderResult>, id: u64)
    requires
        forall|i: int| 0 <= i < results.len() ==> !(#[trigger] results[i]).is_fill(),
    ensures
        filled_qty(results, id) == 0,
    decreases results.len(),
{
    if results.len() > 0 {
        assert(!results[results.len() - 1].is_fill());
        lemma_no_fill_no_qty(results.drop_last(), id);
    }
}

/// The result is a fill of `order` from a snapshot of `date`: a positive
/// quantity at some price, under the order's id, symbol and venue.
pub open spec fn made_by(trade: OrderResult, order: InnerOrder, date: i64) -> bool {
    trade.quantity > 0 && exists|price: i64| trade == fill_of(order, price, trade.quantity, date)
}

/// Every fill of the walk is a fill of the order, and what the fills give
/// and what remains make up the order's quantity. Once the order has a
/// fill, what remains is not negative.
pub open spec fn walk_sound(walk: Walk, order: InnerOrder, date: i64) -> bool {
    &&& forall|i: int| 0 <= i < walk.trades.len() ==> made_by(#[trigger] walk.trades[i], order, date)
    &&& filled_qty(walk.trades, order.order_id) + walk.remaining == order.qty
    &&& walk.trades.len() > 0 ==> walk.remaining >= 0
    &&& forall|id: u64| id != order.order_id ==> filled_qty(walk.trades, id) == 0
}

/// One more claim keeps the walk sound.
pub proof fn lemma_take_keeps_sound(walk: Walk, order: InnerOrder, price: i64, avail: i64, date: i64)
    requires
        walk_sound(walk, order, date),
        claimable(avail, filled_at(walk.filled, order.symbol@, price), walk.remaining) != 0,
    ensures
        walk_sound(take_at(walk, order, price, avail, date), order, date),
{
    let taken = filled_at(walk.filled, order.symbol@, price);
    let qty = claimable(avail, taken, walk.remaining);
    let next = take_at(walk, order, price, avail, date);
    let trade = fill_of(order, price, qty, date);
    assert(next.trades.drop_last() =~= walk.trades);
    assert(next.trades.last() == trade);
    assert(trade.is_fill());
    assert(made_by(trade, order, date));
    assert forall|i: int| 0 <= i < next.trades.len() implies made_by(
        #[trigger] next.trades[i],
        order,
        date,
    ) by {
        if i < walk.trades.len() {
            assert(next.trades[i] == walk.trades[i]);
        }
    }
    assert(0 < qty <= walk.remaining);
    assert(next.remaining == walk.remaining - qty);
    assert(filled_qty(next.trades, order.order_id) == filled_qty(walk.trades, order.order_id)
        + qty);
    assert forall|id: u64| id != order.order_id implies filled_qty(next.trades, id) == 0 by {
        assert(filled_qty(next.trades, id) == filled_qty(walk.trades, id));
    }
}

/// A crossing walk that starts sound ends sound.
pub proof fn lemma_cross_walk_sound(
    levels: Seq<Level>,
    from: int,
    order: InnerOrder,
    date: i64,
    walk: Walk,
)
    requires
        walk_sound(walk, order, date),
    ensures
        walk_sound(cross_walk(levels, from, order, date, walk), order, date),
    decreases levels.len() - from,
{
    if from < 0 || from >= levels.len() || walk.remaining <= 0 {
    } else if !crosses(order, levels[from].price) || claimable(
        levels[from].size,
        filled_at(walk.filled, order.symbol@, levels[from].price),
        walk.remaining,
    ) == 0 {
        lemma_cross_walk_sound(levels, from + 1, order, date, walk);
    } else {
        lemma_take_keeps_sound(walk, order, levels[from].price, levels[from].size, date);
        lemma_cross_walk_sound(
            levels,
            from + 1,
            order,
            date,
            take_at(walk, order, levels[from].price, levels[from].size, date),
        );
    }
}

/// A walk at the touch that starts sound ends sound.
pub proof fn lemma_touch_walk_sound(
    levels: Seq<Level>,
    from: int,
    order: InnerOrder,
    volumes: VolumeMap,
    date: i64,
    walk: Walk,
)
    requires
        walk_sound(walk, order, date),
    ensures
        walk_sound(touch_walk(levels, from, order, volumes, date, walk), order, date),
    decreases levels.len() - from,
{
    if from < 0 || from >= levels.len() || walk.remaining <= 0 {
    } else if !touches(order, levels[from].price) || !volumes.contains_key(levels[from].price) {
        lemma_touch_walk_sound(levels, from + 1, order, volumes, date, walk);
    } else if claimable(
        traded_for(order, volumes[levels[from].price]),
        filled_at(walk.filled, order.symbol@, levels[from].price),
        walk.remaining,
    ) == 0 {
    } else {
        let avail = traded_for(order, volumes[levels[from].price]);
        lemma_take_keeps_sound(walk, order, levels[from].price, avail, date);
        lemma_touch_walk_sound(
            levels,
            from + 1,
            order,
            volumes,
            date,
            take_at(walk, order, levels[from].price, avail, date),
        );
    }
}

/// Every fill of an order's walk is its own, with a positive quantity;
/// together they never exceed the order's quantity; and no other order gets
/// anything from the walk.
pub proof fn lemma_fill_walk_sound(
    depth: Depth,
    order: InnerOrder,
    filled: FillMap,
    volumes: VolumeMap,
    priority: OrderBookOrderPriority,
)
    ensures
        walk_sound(fill_walk(depth, order, filled, volumes, priority), order, depth.date),
        0 <= filled_qty(fill_walk(depth, order, filled, volumes, priority).trades, order.order_id),
        fill_walk(depth, order, filled, volumes, priority).trades.len() > 0 ==> 0 < filled_qty(
            fill_walk(depth, order, filled, volumes, priority).trades,
            order.order_id,
        ) <= order.qty,
{
    let start = Walk { remaining: order.qty, filled, trades: Seq::empty() };
    let near = if order.order_type.spec_is_buy() {
        depth.bids@
    } else {
        depth.asks@
    };
    let far = if order.order_type.spec_is_buy() {
        depth.asks@
    } else {
        depth.bids@
    };
    assert(walk_sound(start, order, depth.date));
    lemma_touch_walk_sound(near, 0, order, volumes, depth.date, start);
    let touched = if priority == OrderBookOrderPriority::AlwaysFirst {
        touch_walk(near, 0, order, volumes, depth.date, start)
    } else {
        start
    };
    lemma_cross_walk_sound(far, 0, order, depth.date, touched);
    let end = fill_walk(depth, order, filled, volumes, priority);
    if end.trades.len() > 0 {
        let first = end.trades[0];
        assert(made_by(first, order, depth.date));
        lemma_first_fill_counts(end.trades, order, depth.date);
    } else {
        assert(filled_qty(end.trades, order.order_id) == 0);
    }
}

/// Fills of one order with positive quantities give it something, unless
/// there is none.
proof fn lemma_first_fill_counts(trades: Seq<OrderResult>, order: InnerOrder, date: i64)
    requires
        forall|i: int| 0 <= i < trades.len() ==> made_by(#[trigger] trades[i], order, date),
    ensures
        filled_qty(trades, order.order_id) >= 0,
        trades.len() > 0 ==> filled_qty(trades, order.order_id) > 0,
    decreases trades.len(),
{
    if trades.len() > 0 {
        assert(made_by(trades[trades.len() - 1], order, date));
        assert forall|i: int| 0 <= i < trades.drop_last().len() implies made_by(
            #[trigger] trades.drop_last()[i],
            order,
            date,
        ) by {
            assert(trades.drop_last()[i] == trades[i]);
        }
        lemma_first_fill_counts(trades.drop_last(), order, date);
    }
}

/// The result is a fill of `symbol` at `price`.
pub open spec fn is_fill_at(result: OrderResult, symbol: Seq<char>, price: i64) -> bool {
    result.is_fill() && result.symbol@ == symbol && result.value == price * result.quantity
}

/// The quantities of the fills of `symbol` at `price` among `results`, added
/// up.
pub open spec fn filled_size(results: Seq<OrderResult>, symbol: Seq<char>, price: i64) -> int
    decreases results.len(),
{
    if results.len() == 0 {
        0
    } else {
        filled_size(results.drop_last(), symbol, price) + if is_fill_at(
            results.last(),
            symbol,
            price,
        ) {
            results.last().quantity as int
        } else {
            0
        }
    }
}

/// What is filled at a level over two runs of results is what is filled over
/// the first and over the second.
pub proof fn lemma_filled_size_concat(
    a: Seq<OrderResult>,
    b: Seq<OrderResult>,
    symbol: Seq<char>,
    price: i64,
)
    ensures
        filled_size(a + b, symbol, price) == filled_size(a, symbol, price) + filled_size(
            b,
            symbol,
            price,
        ),
    decreases b.len(),
{
    if b.len() == 0 {
        assert(a + b =~= a);
    } else {
        assert((a + b).drop_last() =~= a + b.drop_last());
        assert((a + b).last() == b.last());
        lemma_filled_size_concat(a, b.drop_last(), symbol, price);
    }
}

/// Results without a fill fill nothing at any level.
pub proof fn lemma_no_fill_no_size(results: Seq<OrderResult>, symbol: Seq<char>, price: i64)
    requires
        forall|i: int| 0 <= i < results.len() ==> !(#[trigger] results[i]).is_fill(),
    ensures
        filled_size(results, symbol, price) == 0,
    decreases results.len(),
{
    if results.len() > 0 {
        assert(!results[results.len() - 1].is_fill());
        lemma_no_fill_no_size(results.drop_last(), symbol, price);
    }
}

/// A positive quantity at two prices has the same value only if the prices
/// are the same.
proof fn lemma_price_of_value(price: i64, other: i64, qty: i64)
    requires
        qty > 0,
        price * qty == other * qty,
    ensures
        price == other,
{
    assert(price == other) by (nonlinear_arith)
        requires
            qty > 0,
            price * qty == other * qty,
    ;
}

/// The snapshot or the taker prints offer `avail` at `price`: a level of
/// either side has that price and that size, or that is the taker volume
/// printed at that price on one side.
pub open spec fn offers(depth: Depth, volumes: VolumeMap, price: i64, avail: i64) -> bool {
    ||| exists|i: int|
        0 <= i < depth.asks@.len() && #[trigger] depth.asks@[i] == (Level { price, size: avail })
    ||| exists|i: int|
        0 <= i < depth.bids@.len() && #[trigger] depth.bids@[i] == (Level { price, size: avail })
    ||| volumes.contains_key(price) && (volumes[price].ask == avail || volumes[price].bid == avail)
}

/// What is recorded as taken of `symbol` at `price` is what was recorded
/// before, or it has grown and is within what the snapshot or the taker
/// prints offer at that price.
pub open spec fn level_bounded(
    fills: FillMap,
    before: FillMap,
    depth: Depth,
    volumes: VolumeMap,
    symbol: Seq<char>,
    price: i64,
) -> bool {
    filled_at(fills, symbol, price) == filled_at(before, symbol, price) || exists|avail: i64| #[trigger]
        offers(depth, volumes, price, avail) && filled_at(before, symbol, price) < filled_at(
            fills,
            symbol,
            price,
        ) <= avail
}

/// What fills of `order` from `depth` do to the record of what is taken.
/// At each level the record is what it was before plus the quantities of
/// the fills at that level. Nothing changes for another symbol. And where
/// the record has grown it is within an offer at that level: the fills at a
/// level never add up to more than the level displays, or takers traded
/// there, less what was taken before.
pub open spec fn fills_kept(
    filled: FillMap,
    trades: Seq<OrderResult>,
    before: FillMap,
    order: InnerOrder,
    depth: Depth,
    volumes: VolumeMap,
) -> bool {
    &&& forall|symbol: Seq<char>, price: i64|
        filled_at(filled, symbol, price) == filled_at(before, symbol, price) + #[trigger] filled_size(
            trades,
            symbol,
            price,
        )
    &&& forall|symbol: Seq<char>, price: i64|
        symbol != order.symbol@ ==> #[trigger] filled_at(filled, symbol, price) == filled_at(
            before,
            symbol,
            price,
        )
    &&& forall|price: i64| #[trigger]
        level_bounded(filled, before, depth, volumes, order.symbol@, price)
}

/// What is recorded as taken of `symbol` at `price` is nothing, or it is a
/// positive quantity within what one snapshot of the symbol or the taker
/// prints offer at that price.
pub open spec fn within_offer(
    fills: FillMap,
    quotes: Map<(Seq<char>, Seq<char>), Depth>,
    volumes: VolumeMap,
    symbol: Seq<char>,
    price: i64,
) -> bool {
    filled_at(fills, symbol, price) == 0 || exists|venue: Seq<char>, avail: i64|
        quotes.contains_key((venue, symbol)) && #[trigger] offers(
            quotes[(venue, symbol)],
            volumes,
            price,
            avail,
        ) && 0 < filled_at(fills, symbol, price) <= avail
}

/// At every level, what is recorded as taken is within an offer.
pub open spec fn all_within_offer(
    fills: FillMap,
    quotes: Map<(Seq<char>, Seq<char>), Depth>,
    volumes: VolumeMap,
) -> bool {
    forall|symbol: Seq<char>, price: i64| #[trigger]
        within_offer(fills, quotes, volumes, symbol, price)
}

/// One more claim from an offer of the snapshot keeps the record in step
/// with the fills.
pub proof fn lemma_take_kept(
    walk: Walk,
    before: FillMap,
    order: InnerOrder,
    price: i64,
    avail: i64,
    date: i64,
    depth: Depth,
    volumes: VolumeMap,
)
    requires
        fills_kept(walk.filled, walk.trades, before, order, depth, volumes),
        claimable(avail, filled_at(walk.filled, order.symbol@, price), walk.remaining) != 0,
        offers(depth, volumes, price, avail),
    ensures
        fills_kept(
            take_at(walk, order, price, avail, date).filled,
            take_at(walk, order, price, avail, date).trades,
            before,
            order,
            depth,
            volumes,
        ),
{
    let taken = filled_at(walk.filled, order.symbol@, price);
    let qty = claimable(avail, taken, walk.remaining);
    let next = take_at(walk, order, price, avail, date);
    let trade = fill_of(order, price, qty, date);
    lemma_value_fits(price, qty);
    assert(next.trades.drop_last() =~= walk.trades);
    assert(next.trades.last() == trade);
    assert(0 < qty && taken + qty <= avail);
    assert(level_bounded(walk.filled, before, depth, volumes, order.symbol@, price));
    assert(filled_at(before, order.symbol@, price) <= taken);
    assert forall|symbol: Seq<char>, other: i64|
        filled_at(next.filled, symbol, other) == filled_at(before, symbol, other) + #[trigger] filled_size(
            next.trades,
            symbol,
            other,
        ) by {
        assert(filled_at(walk.filled, symbol, other) == filled_at(before, symbol, other)
            + filled_size(walk.trades, symbol, other));
        if is_fill_at(trade, symbol, other) {
            lemma_price_of_value(price, other, qty);
        }
        if symbol == order.symbol@ && other == price {
            assert(is_fill_at(trade, symbol, other));
        }
    }
    assert forall|symbol: Seq<char>, other: i64| symbol != order.symbol@ implies #[trigger] filled_at(
        next.filled,
        symbol,
        other,
    ) == filled_at(before, symbol, other) by {
        assert(filled_at(walk.filled, symbol, other) == filled_at(before, symbol, other));
    }
    assert forall|other: i64| #[trigger]
        level_bounded(next.filled, before, depth, volumes, order.symbol@, other) by {
        if other == price {
            assert(offers(depth, volumes, other, avail));
        } else {
            assert(level_bounded(walk.filled, before, depth, volumes, order.symbol@, other));
            assert(filled_at(next.filled, order.symbol@, other) == filled_at(
                walk.filled,
                order.symbol@,
                other,
            ));
        }
    }
}

/// A crossing walk over one side of the snapshot keeps the record in step
/// with the fills.
pub proof fn lemma_cross_walk_kept(
    levels: Seq<Level>,
    from: int,
    order: InnerOrder,
    date: i64,
    walk: Walk,
    before: FillMap,
    depth: Depth,
    volumes: VolumeMap,
)
    requires
        fills_kept(walk.filled, walk.trades, before, order, depth, volumes),
        levels == depth.asks@ || levels == depth.bids@,
    ensures
        fills_kept(
            cross_walk(levels, from, order, date, walk).filled,
            cross_walk(levels, from, order, date, walk).trades,
            before,
            order,
            depth,
            volumes,
        ),
    decreases levels.len() - from,
{
    if from < 0 || from >= levels.len() || walk.remaining <= 0 {
    } else if !crosses(order, levels[from].price) || claimable(
        levels[from].size,
        filled_at(walk.filled, order.symbol@, levels[from].price),
        walk.remaining,
    ) == 0 {
        lemma_cross_walk_kept(levels, from + 1, order, date, walk, before, depth, volumes);
    } else {
        let level = levels[from];
        assert(levels[from] == (Level { price: level.price, size: level.size }));
        lemma_take_kept(walk, before, order, level.price, level.size, date, depth, volumes);
        lemma_cross_walk_kept(
            levels,
            from + 1,
            order,
            date,
            take_at(walk, order, level.price, level.size, date),
            before,
            depth,
            volumes,
        );
    }
}

/// A walk at the touch keeps the record in step with the fills.
pub proof fn lemma_touch_walk_kept(
    levels: Seq<Level>,
    from: int,
    order: InnerOrder,
    date: i64,
    walk: Walk,
    before: FillMap,
    depth: Depth,
    volumes: VolumeMap,
)
    requires
        fills_kept(walk.filled, walk.trades, before, order, depth, volumes),
    ensures
        fills_kept(
            touch_walk(levels, from, order, volumes, date, walk).filled,
            touch_walk(levels, from, order, volumes, date, walk).trades,
            before,
            order,
            depth,
            volumes,
        ),
    decreases levels.len() - from,
{
    if from < 0 || from >= levels.len() || walk.remaining <= 0 {
    } else if !touches(order, levels[from].price) || !volumes.contains_key(levels[from].price) {
        lemma_touch_walk_kept(levels, from + 1, order, date, walk, before, depth, volumes);
    } else if claimable(
        traded_for(order, volumes[levels[from].price]),
        filled_at(walk.filled, order.symbol@, levels[from].price),
        walk.remaining,
    ) == 0 {
    } else {
        let price = levels[from].price;
        let avail = traded_for(order, volumes[price]);
        lemma_take_kept(walk, before, order, price, avail, date, depth, volumes);
        lemma_touch_walk_kept(
            levels,
            from + 1,
            order,
            date,
            take_at(walk, order, price, avail, date),
            before,
            depth,
            volumes,
        );
    }
}

/// The walk of one order, whatever was recorded as taken before it, keeps
/// the record in step with its fills: at each level the record grows by the
/// quantities of the fills there and stays within an offer at that level,
/// and nothing changes for another symbol.
pub proof fn lemma_fill_walk_kept(
    depth: Depth,
    order: InnerOrder,
    filled: FillMap,
    volumes: VolumeMap,
    priority: OrderBookOrderPriority,
)
    ensures
        fills_kept(
            fill_walk(depth, order, filled, volumes, priority).filled,
            fill_walk(depth, order, filled, volumes, priority).trades,
            filled,
            order,
            depth,
            volumes,
        ),
{
    let start = Walk { remaining: order.qty, filled, trades: Seq::empty() };
    let near = if order.order_type.spec_is_buy() {
        depth.bids@
    } else {
        depth.asks@
    };
    let far = if order.order_type.spec_is_buy() {
        depth.asks@
    } else {
        depth.bids@
    };
    assert(fills_kept(start.filled, start.trades, filled, order, depth, volumes));
    lemma_touch_walk_kept(near, 0, order, depth.date, start, filled, depth, volumes);
    let touched = if priority == OrderBookOrderPriority::AlwaysFirst {
        touch_walk(near, 0, order, volumes, depth.date, start)
    } else {
        start
    };
    lemma_cross_walk_kept(far, 0, order, depth.date, touched, filled, depth, volumes);
}

/// A walk through a snapshot of the tick, begun with a record that is within
/// the offers of the tick, leaves a record that is within them.
pub proof fn lemma_fill_walk_within_offers(
    order: InnerOrder,
    filled: FillMap,
    quotes: Map<(Seq<char>, Seq<char>), Depth>,
    volumes: VolumeMap,
    priority: OrderBookOrderPriority,
)
    requires
        quotes.contains_key((order.exchange@, order.symbol@)),
        all_within_offer(filled, quotes, volumes),
    ensures
        all_within_offer(
            fill_walk(
                quotes[(order.exchange@, order.symbol@)],
                order,
                filled,
                volumes,
                priority,
            ).filled,
            quotes,
            volumes,
        ),
{
    let depth = quotes[(order.exchange@, order.symbol@)];
    let walk = fill_walk(depth, order, filled, volumes, priority);
    lemma_fill_walk_kept(depth, order, filled, volumes, priority);
    assert forall|symbol: Seq<char>, price: i64| #[trigger]
        within_offer(walk.filled, quotes, volumes, symbol, price) by {
        assert(within_offer(filled, quotes, volumes, symbol, price));
        if symbol != order.symbol@ {
            assert(filled_at(walk.filled, symbol, price) == filled_at(filled, symbol, price));
        } else {
            assert(level_bounded(walk.filled, filled, depth, volumes, symbol, price));
            if filled_at(walk.filled, symbol, price) != filled_at(filled, symbol, price) {
                let avail = choose|avail: i64| #[trigger]
                    offers(depth, volumes, price, avail) && filled_at(filled, symbol, price)
                        < filled_at(walk.filled, symbol, price) <= avail;
                assert(offers(quotes[(order.exchange@, symbol)], volumes, price, avail));
            }
        }
    }
}

/// The largest size among the levels with the price `price`; nothing where
/// no level has that price.
pub open spec fn displayed_at(levels: Seq<Level>, price: i64) -> int
    decreases levels.len(),
{
    if levels.len() == 0 {
        0
    } else {
        let rest = displayed_at(levels.drop_last(), price);
        if levels.last().price == price && levels.last().size > rest {
            levels.last().size as int
        } else {
            rest
        }
    }
}

/// The size that the snapshot displays at `price`, on whichever side has a
/// level with that price.
pub open spec fn displayed(depth: Depth, price: i64) -> int {
    if displayed_at(depth.bids@, price) > displayed_at(depth.asks@, price) {
        displayed_at(depth.bids@, price)
    } else {
        displayed_at(depth.asks@, price)
    }
}

/// The taker volume that orders at the touch may claim at `price`: the
/// larger of the volumes printed there on the two sides.
pub open spec fn credit(volumes: VolumeMap, price: i64) -> int {
    let volume = volume_at(volumes, price);
    if volume.ask > volume.bid && volume.ask > 0 {
        volume.ask as int
    } else if volume.bid > 0 {
        volume.bid as int
    } else {
        0
    }
}

/// No level with the price displays more than `displayed_at` says.
pub proof fn lemma_displayed_at(levels: Seq<Level>, price: i64)
    ensures
        0 <= displayed_at(levels, price),
        forall|i: int|
            0 <= i < levels.len() && (#[trigger] levels[i]).price == price ==> levels[i].size
                <= displayed_at(levels, price),
    decreases levels.len(),
{
    if levels.len() > 0 {
        lemma_displayed_at(levels.drop_last(), price);
        assert forall|i: int|
            0 <= i < levels.len() && (#[trigger] levels[i]).price == price implies levels[i].size
            <= displayed_at(levels, price) by {
            if i < levels.len() - 1 {
                assert(levels.drop_last()[i] == levels[i]);
            }
        }
    }
}

/// What a snapshot or the taker prints offer at a price is within the size
/// displayed at the price plus the taker volume to claim there.
pub proof fn lemma_offer_within_capacity(depth: Depth, volumes: VolumeMap, price: i64, avail: i64)
    requires
        offers(depth, volumes, price, avail),
    ensures
        avail <= displayed(depth, price) + credit(volumes, price),
        0 <= displayed(depth, price),
        0 <= credit(volumes, price),
{
    lemma_displayed_at(depth.bids@, price);
    lemma_displayed_at(depth.asks@, price);
    let level = Level { price, size: avail };
    if exists|i: int| 0 <= i < depth.asks@.len() && #[trigger] depth.asks@[i] == level {
        let i = choose|i: int| 0 <= i < depth.asks@.len() && #[trigger] depth.asks@[i] == level;
        assert(depth.asks@[i].price == price);
    } else if exists|i: int| 0 <= i < depth.bids@.len() && #[trigger] depth.bids@[i] == level {
        let i = choose|i: int| 0 <= i < depth.bids@.len() && #[trigger] depth.bids@[i] == level;
        assert(depth.bids@[i].price == price);
    }
}

} // verus!
