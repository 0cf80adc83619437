//! What holds of every execution cycle of the depth engine.

use vstd::prelude::*;
use crate::exchange::fill::{
    VolumeMap,
    all_within_offer,
    credit,
    displayed,
    fill_walk,
    filled_at,
    filled_qty,
    filled_size,
    lemma_fill_walk_kept,
    lemma_fill_walk_within_offers,
    lemma_fill_walk_sound,
    lemma_filled_size_concat,
    lemma_no_fill_no_size,
    lemma_offer_within_capacity,
    offers,
    within_offer,
    lemma_filled_qty_concat,
    lemma_no_fill_no_qty,
    made_by,
    volumes_of,
};
use crate::exchange::uist_v2::{
    Applied,
    InnerOrder,
    LatencyModel,
    Matching,
    OrderBookOrderPriority,
    OrderId,
    Order,
    OrderResult,
    OrderResultType,
    OrderType,
    admitted,
    admitted_all,
    all_wf,
    apply_control,
    apply_controls,
    controls_of,
    execute,
    find_order,
    ids_ascending,
    ids_below,
    match_from,
    match_order,
    trading_of,
    with_qty,
};
use crate::source::hyperliquid::{Depth, Trade};

verus! {

/// `order` is `other` with, at most, another quantity.
pub open spec fn same_order(order: InnerOrder, other: InnerOrder) -> bool {
    order == with_qty(other, order.qty)
}

/// `order` is an order of `book`, with at most another quantity.
pub open spec fn in_book(order: InnerOrder, book: Seq<InnerOrder>) -> bool {
    exists|j: int| 0 <= j < book.len() && same_order(order, #[trigger] book[j])
}

/// Every order of `orders` is an order of `book`, with at most another
/// quantity.
pub open spec fn drawn_from(orders: Seq<InnerOrder>, book: Seq<InnerOrder>) -> bool {
    forall|i: int| 0 <= i < orders.len() ==> in_book(#[trigger] orders[i], book)
}

/// Orders drawn from a book whose ids stay below a bound and whose orders are
/// well formed are so too.
pub proof fn lemma_drawn_keeps_bounds(orders: Seq<InnerOrder>, book: Seq<InnerOrder>, bound: OrderId)
    requires
        drawn_from(orders, book),
        ids_below(book, bound),
        all_wf(book),
    ensures
        ids_below(orders, bound),
        all_wf(orders),
{
    assert forall|i: int| 0 <= i < orders.len() implies orders[i].order_id < bound
        && (#[trigger] orders[i]).wf() by {
        assert(in_book(orders[i], book));
        let j = choose|j: int| 0 <= j < book.len() && same_order(orders[i], #[trigger] book[j]);
        assert(book[j].wf());
    }
}

/// Being drawn from is transitive.
pub proof fn lemma_drawn_chain(a: Seq<InnerOrder>, b: Seq<InnerOrder>, c: Seq<InnerOrder>)
    requires
        drawn_from(a, b),
        drawn_from(b, c),
    ensures
        drawn_from(a, c),
{
    assert forall|i: int| 0 <= i < a.len() implies in_book(#[trigger] a[i], c) by {
        assert(in_book(a[i], b));
        let j = choose|j: int| 0 <= j < b.len() && same_order(a[i], #[trigger] b[j]);
        assert(in_book(b[j], c));
        let k = choose|k: int| 0 <= k < c.len() && same_order(b[j], #[trigger] c[k]);
        assert(same_order(a[i], c[k]));
    }
}

/// The orders that a filter keeps are orders of the book, and their ids
/// still rise.
pub proof fn lemma_filter_keeps_order(book: Seq<InnerOrder>, keep: spec_fn(InnerOrder) -> bool)
    requires
        ids_ascending(book),
    ensures
        ids_ascending(book.filter(keep)),
        drawn_from(book.filter(keep), book),
        forall|i: int|
            0 <= i < book.filter(keep).len() ==> book.contains(#[trigger] book.filter(keep)[i])
                && keep(book.filter(keep)[i]),
    decreases book.len(),
{
    broadcast use Seq::lemma_filter_push;

    let kept = book.filter(keep);
    broadcast use vstd::seq_lib::group_filter_ensures;
    if book.len() > 0 {
        let front = book.drop_last();
        let last = book.last();
        assert(book =~= front.push(last));
        lemma_filter_keeps_order(front, keep);
        let kept_front = front.filter(keep);
        assert forall|i: int, j: int| 0 <= i < j < kept.len() implies kept[i].order_id
            < kept[j].order_id by {
            if j < kept_front.len() {
                assert(kept[i] == kept_front[i] && kept[j] == kept_front[j]);
            } else {
                assert(kept[j] == last);
                assert(kept[i] == kept_front[i]);
                assert(front.contains(kept_front[i]));
                let at = choose|at: int| 0 <= at < front.len() && front[at] == kept_front[i];
                assert(book[at] == kept_front[i]);
            }
        }
    }
    assert forall|i: int| 0 <= i < kept.len() implies in_book(#[trigger] kept[i], book) by {
        assert(book.contains(kept[i]));
        let j = choose|j: int| 0 <= j < book.len() && book[j] == kept[i];
        assert(same_order(kept[i], book[j]));
    }
}

/// Where `find_order` points into the book, the order there has the id, and
/// no order before it has.
pub proof fn lemma_find_order(orders: Seq<InnerOrder>, id: OrderId, from: int)
    requires
        0 <= from,
    ensures
        from <= find_order(orders, id, from) <= orders.len() || orders.len() < from,
        find_order(orders, id, from) < orders.len() ==> orders[find_order(
            orders,
            id,
            from,
        )].order_id == id,
        forall|k: int| from <= k < find_order(orders, id, from) && k < orders.len() ==> orders[k].order_id != id,
    decreases orders.len() - from,
{
    if from < orders.len() && orders[from].order_id != id {
        lemma_find_order(orders, id, from + 1);
    }
}

/// A cancel or a modify leaves a book whose orders are orders of the book
/// before, in the same order.
pub proof fn lemma_control_keeps_order(now: i64, control: InnerOrder, so_far: Applied)
    requires
        ids_ascending(so_far.orders),
    ensures
        ids_ascending(apply_control(now, control, so_far).orders),
        drawn_from(apply_control(now, control, so_far).orders, so_far.orders),
{
    let orders = so_far.orders;
    let after = apply_control(now, control, so_far).orders;
    match control.order_id_ref {
        Some(id) => {
            lemma_find_order(orders, id, 0);
        },
        None => {},
    }
    assert forall|i: int| 0 <= i < after.len() implies in_book(#[trigger] after[i], orders) by {
        if after == orders {
            assert(same_order(after[i], orders[i]));
        } else {
            let id = control.order_id_ref->0;
            let at = find_order(orders, id, 0);
            if after.len() < orders.len() {
                assert(after == orders.remove(at));
                if i < at {
                    assert(same_order(after[i], orders[i]));
                } else {
                    assert(same_order(after[i], orders[i + 1]));
                }
            } else {
                assert(same_order(after[i], orders[i]));
            }
        }
    }
    assert forall|i: int, j: int| 0 <= i < j < after.len() implies after[i].order_id
        < after[j].order_id by {
        if after == orders {
        } else {
            let id = control.order_id_ref->0;
            let at = find_order(orders, id, 0);
            if after.len() < orders.len() {
                assert(after == orders.remove(at));
                let si = if i < at { i } else { i + 1 };
                let sj = if j < at { j } else { j + 1 };
                assert(after[i] == orders[si] && after[j] == orders[sj]);
            } else {
                assert(after[i].order_id == orders[i].order_id);
                assert(after[j].order_id == orders[j].order_id);
            }
        }
    }
}

/// The cancels and modifies of a tick leave a book whose orders are orders
/// of the book before, in the same order.
pub proof fn lemma_controls_keep_order(
    controls: Seq<InnerOrder>,
    from: int,
    now: i64,
    so_far: Applied,
)
    requires
        ids_ascending(so_far.orders),
    ensures
        ids_ascending(apply_controls(controls, from, now, so_far).orders),
        drawn_from(apply_controls(controls, from, now, so_far).orders, so_far.orders),
    decreases controls.len() - from,
{
    if from < 0 || from >= controls.len() {
        assert forall|i: int| 0 <= i < so_far.orders.len() implies in_book(
            #[trigger] so_far.orders[i],
            so_far.orders,
        ) by {
            assert(same_order(so_far.orders[i], so_far.orders[i]));
        }
    } else {
        let next = apply_control(now, controls[from], so_far);
        lemma_control_keeps_order(now, controls[from], so_far);
        lemma_controls_keep_order(controls, from + 1, now, next);
        lemma_drawn_chain(
            apply_controls(controls, from + 1, now, next).orders,
            next.orders,
            so_far.orders,
        );
    }
}

/// `order` is one of the orders before index `from`.
pub open spec fn passed(order: InnerOrder, orders: Seq<InnerOrder>, from: int) -> bool {
    exists|j: int| 0 <= j < from && j < orders.len() && order == #[trigger] orders[j]
}

/// The orders that a matching pass has left resting are orders that it has
/// passed, in the same order.
pub open spec fn rested_before(resting: Seq<InnerOrder>, orders: Seq<InnerOrder>, from: int) -> bool {
    &&& ids_ascending(resting)
    &&& forall|i: int| 0 <= i < resting.len() ==> passed(#[trigger] resting[i], orders, from)
}

/// The orders that the matching pass leaves resting are orders of the book
/// that it was given, in the same order.
pub proof fn lemma_match_keeps_order(
    orders: Seq<InnerOrder>,
    from: int,
    latency: LatencyModel,
    priority: OrderBookOrderPriority,
    quotes: Map<(Seq<char>, Seq<char>), Depth>,
    volumes: VolumeMap,
    now: i64,
    so_far: Matching,
)
    requires
        0 <= from,
        ids_ascending(orders),
        rested_before(so_far.resting, orders, from),
    ensures
        rested_before(
            match_from(orders, from, latency, priority, quotes, volumes, now, so_far).resting,
            orders,
            orders.len() as int,
        ),
    decreases orders.len() - from,
{
    if from >= orders.len() {
    } else {
        let next = match_order(orders[from], latency, priority, quotes, volumes, now, so_far);
        assert(rested_before(next.resting, orders, from + 1)) by {
            if next.resting == so_far.resting {
            } else {
                assert(next.resting == so_far.resting.push(orders[from]));
                assert forall|i: int, j: int| 0 <= i < j < next.resting.len() implies next.resting[i].order_id
                    < next.resting[j].order_id by {
                    if j == so_far.resting.len() {
                        assert(passed(so_far.resting[i], orders, from));
                        let k = choose|k: int|
                            0 <= k < from && k < orders.len() && so_far.resting[i]
                                == #[trigger] orders[k];
                        assert(next.resting[i] == orders[k]);
                    }
                }
                assert forall|i: int| 0 <= i < next.resting.len() implies passed(
                    #[trigger] next.resting[i],
                    orders,
                    from + 1,
                ) by {
                    if i == so_far.resting.len() {
                        assert(next.resting[i] == orders[from]);
                    } else {
                        assert(passed(so_far.resting[i], orders, from));
                        let k = choose|k: int|
                            0 <= k < from && k < orders.len() && so_far.resting[i]
                                == #[trigger] orders[k];
                        assert(next.resting[i] == orders[k]);
                    }
                }
            }
        }
        lemma_match_keeps_order(orders, from + 1, latency, priority, quotes, volumes, now, next);
    }
}

/// An execution cycle leaves a book whose orders are orders of the book
/// before, with at most another quantity, in the same order: the ids still
/// rise, none reaches the bound that held before, and the orders are well
/// formed as before.
pub proof fn lemma_execute_keeps_book(
    book: Seq<InnerOrder>,
    latency: LatencyModel,
    priority: OrderBookOrderPriority,
    quotes: Map<(Seq<char>, Seq<char>), Depth>,
    prints: Seq<Trade>,
    now: i64,
    bound: OrderId,
)
    requires
        ids_ascending(book),
        ids_below(book, bound),
        all_wf(book),
    ensures
        ids_ascending(execute(book, latency, priority, quotes, prints, now).resting),
        ids_below(execute(book, latency, priority, quotes, prints, now).resting, bound),
        all_wf(execute(book, latency, priority, quotes, prints, now).resting),
        drawn_from(execute(book, latency, priority, quotes, prints, now).resting, book),
{
    let trading = trading_of(book);
    lemma_filter_keeps_order(book, |order: InnerOrder| !order.order_type.spec_is_control());
    let split = Applied { orders: trading, results: Seq::empty() };
    let applied = apply_controls(controls_of(book), 0, now, split);
    lemma_controls_keep_order(controls_of(book), 0, now, split);
    let start = Matching { filled: Map::empty(), results: applied.results, resting: Seq::empty() };
    lemma_match_keeps_order(
        applied.orders,
        0,
        latency,
        priority,
        quotes,
        volumes_of(prints),
        now,
        start,
    );
    let resting = execute(book, latency, priority, quotes, prints, now).resting;
    assert forall|i: int| 0 <= i < resting.len() implies in_book(
        #[trigger] resting[i],
        applied.orders,
    ) by {
        assert(passed(resting[i], applied.orders, applied.orders.len() as int));
        let j = choose|j: int|
            0 <= j < applied.orders.len() && resting[i] == #[trigger] applied.orders[j];
        assert(same_order(resting[i], applied.orders[j]));
    }
    lemma_drawn_chain(resting, applied.orders, trading);
    lemma_drawn_chain(resting, trading, book);
    lemma_drawn_keeps_bounds(resting, book, bound);
}

/// The order may match at `now`: the latency model admits it and there is a
/// snapshot for its venue and symbol.
pub open spec fn served(
    order: InnerOrder,
    latency: LatencyModel,
    quotes: Map<(Seq<char>, Seq<char>), Depth>,
    now: i64,
) -> bool {
    latency.admits(now, order.recieved_timestamp) && quotes.contains_key(
        (order.exchange@, order.symbol@),
    )
}

/// The result is a fill of one of the orders before index `upto`, which may
/// match at `now`, from the snapshot of its venue and symbol.
pub open spec fn fill_from(
    result: OrderResult,
    orders: Seq<InnerOrder>,
    upto: int,
    latency: LatencyModel,
    quotes: Map<(Seq<char>, Seq<char>), Depth>,
    now: i64,
) -> bool {
    exists|j: int|
        0 <= j < upto && j < orders.len() && served(#[trigger] orders[j], latency, quotes, now)
            && made_by(result, orders[j], quotes[(orders[j].exchange@, orders[j].symbol@)].date)
}

/// What `results` give to the order `id` is positive and within the quantity
/// of an order before index `upto` that has this id.
pub open spec fn filled_within(
    results: Seq<OrderResult>,
    id: OrderId,
    orders: Seq<InnerOrder>,
    upto: int,
) -> bool {
    exists|j: int|
        0 <= j < upto && j < orders.len() && (#[trigger] orders[j]).order_id == id && 0
            < filled_qty(results, id) <= orders[j].qty
}

/// What holds of a matching pass that has come to index `from`: every fill
/// belongs to an order that it has passed and that may match; no order has
/// more than its quantity; and an order that stays has nothing.
pub open spec fn pass_sound(
    pass: Matching,
    orders: Seq<InnerOrder>,
    from: int,
    latency: LatencyModel,
    quotes: Map<(Seq<char>, Seq<char>), Depth>,
    now: i64,
) -> bool {
    &&& forall|k: int|
        0 <= k < pass.results.len() && (#[trigger] pass.results[k]).is_fill() ==> fill_from(
            pass.results[k],
            orders,
            from,
            latency,
            quotes,
            now,
        )
    &&& forall|id: OrderId| #[trigger]
        filled_qty(pass.results, id) == 0 || filled_within(pass.results, id, orders, from)
    &&& forall|i: int|
        0 <= i < pass.resting.len() ==> passed(#[trigger] pass.resting[i], orders, from)
            && filled_qty(pass.results, pass.resting[i].order_id) == 0
}

/// One more order keeps the matching pass sound.
proof fn lemma_match_order_sound(
    orders: Seq<InnerOrder>,
    from: int,
    latency: LatencyModel,
    priority: OrderBookOrderPriority,
    quotes: Map<(Seq<char>, Seq<char>), Depth>,
    volumes: VolumeMap,
    now: i64,
    so_far: Matching,
)
    requires
        0 <= from < orders.len(),
        ids_ascending(orders),
        pass_sound(so_far, orders, from, latency, quotes, now),
    ensures
        pass_sound(
            match_order(orders[from], latency, priority, quotes, volumes, now, so_far),
            orders,
            from + 1,
            latency,
            quotes,
            now,
        ),
{
    let order = orders[from];
    let next = match_order(order, latency, priority, quotes, volumes, now, so_far);
    let key = (order.exchange@, order.symbol@);
    // Nothing has been filled for this order yet: its id is new to the pass.
    assert(filled_qty(so_far.results, order.order_id) == 0) by {
        if filled_within(so_far.results, order.order_id, orders, from) {
            let j = choose|j: int|
                0 <= j < from && j < orders.len() && (#[trigger] orders[j]).order_id
                    == order.order_id;
            assert(orders[j].order_id < orders[from].order_id);
        }
    }
    let walk = fill_walk(quotes[key], order, so_far.filled, volumes, priority);
    let fills = served(order, latency, quotes, now) && walk.trades.len() > 0;
    if fills {
        lemma_fill_walk_sound(quotes[key], order, so_far.filled, volumes, priority);
        assert(next.results == so_far.results + walk.trades);
        assert forall|id: OrderId| #[trigger]
            filled_qty(next.results, id) == 0 || filled_within(
                next.results,
                id,
                orders,
                from + 1,
            ) by {
            lemma_filled_qty_concat(so_far.results, walk.trades, id);
            if id == order.order_id {
                assert(orders[from].order_id == id);
            } else if filled_qty(so_far.results, id) != 0 {
                assert(filled_within(so_far.results, id, orders, from));
                let j = choose|j: int|
                    0 <= j < from && j < orders.len() && (#[trigger] orders[j]).order_id == id && 0
                        < filled_qty(so_far.results, id) <= orders[j].qty;
                assert(orders[j].order_id == id);
            }
        }
        assert forall|k: int|
            0 <= k < next.results.len() && (#[trigger] next.results[k]).is_fill() implies fill_from(
            next.results[k],
            orders,
            from + 1,
            latency,
            quotes,
            now,
        ) by {
            if k < so_far.results.len() {
                assert(next.results[k] == so_far.results[k]);
                assert(fill_from(so_far.results[k], orders, from, latency, quotes, now));
                let j = choose|j: int|
                    0 <= j < from && j < orders.len() && served(
                        #[trigger] orders[j],
                        latency,
                        quotes,
                        now,
                    ) && made_by(
                        so_far.results[k],
                        orders[j],
                        quotes[(orders[j].exchange@, orders[j].symbol@)].date,
                    );
                assert(served(orders[j], latency, quotes, now));
            } else {
                assert(next.results[k] == walk.trades[k - so_far.results.len()]);
                assert(served(orders[from], latency, quotes, now));
            }
        }
        assert forall|i: int| 0 <= i < next.resting.len() implies passed(
            #[trigger] next.resting[i],
            orders,
            from + 1,
        ) && filled_qty(next.results, next.resting[i].order_id) == 0 by {
            assert(passed(so_far.resting[i], orders, from));
            let j = choose|j: int|
                0 <= j < from && j < orders.len() && so_far.resting[i] == #[trigger] orders[j];
            assert(orders[j].order_id < orders[from].order_id);
            lemma_filled_qty_concat(so_far.results, walk.trades, so_far.resting[i].order_id);
        }
    } else {
        assert(next.results == so_far.results);
        assert(next.resting == so_far.resting.push(order));
        assert forall|id: OrderId| #[trigger]
            filled_qty(next.results, id) == 0 || filled_within(
                next.results,
                id,
                orders,
                from + 1,
            ) by {
            if filled_qty(so_far.results, id) != 0 {
                assert(filled_within(so_far.results, id, orders, from));
                let j = choose|j: int|
                    0 <= j < from && j < orders.len() && (#[trigger] orders[j]).order_id == id && 0
                        < filled_qty(so_far.results, id) <= orders[j].qty;
                assert(orders[j].order_id == id);
            }
        }
        assert forall|k: int|
            0 <= k < next.results.len() && (#[trigger] next.results[k]).is_fill() implies fill_from(
            next.results[k],
            orders,
            from + 1,
            latency,
            quotes,
            now,
        ) by {
            assert(fill_from(so_far.results[k], orders, from, latency, quotes, now));
            let j = choose|j: int|
                0 <= j < from && j < orders.len() && served(
                    #[trigger] orders[j],
                    latency,
                    quotes,
                    now,
                ) && made_by(
                    so_far.results[k],
                    orders[j],
                    quotes[(orders[j].exchange@, orders[j].symbol@)].date,
                );
            assert(served(orders[j], latency, quotes, now));
        }
        assert forall|i: int| 0 <= i < next.resting.len() implies passed(
            #[trigger] next.resting[i],
            orders,
            from + 1,
        ) && filled_qty(next.results, next.resting[i].order_id) == 0 by {
            if i < so_far.resting.len() {
                assert(next.resting[i] == so_far.resting[i]);
                assert(passed(so_far.resting[i], orders, from));
                let j = choose|j: int|
                    0 <= j < from && j < orders.len() && so_far.resting[i] == #[trigger] orders[j];
                assert(next.resting[i] == orders[j]);
            } else {
                assert(next.resting[i] == orders[from]);
            }
        }
    }
}

/// A matching pass that is sound where it stands is sound at its end.
pub proof fn lemma_match_sound(
    orders: Seq<InnerOrder>,
    from: int,
    latency: LatencyModel,
    priority: OrderBookOrderPriority,
    quotes: Map<(Seq<char>, Seq<char>), Depth>,
    volumes: VolumeMap,
    now: i64,
    so_far: Matching,
)
    requires
        0 <= from <= orders.len(),
        ids_ascending(orders),
        pass_sound(so_far, orders, from, latency, quotes, now),
    ensures
        pass_sound(
            match_from(orders, from, latency, priority, quotes, volumes, now, so_far),
            orders,
            orders.len() as int,
            latency,
            quotes,
            now,
        ),
    decreases orders.len() - from,
{
    if from < orders.len() {
        lemma_match_order_sound(orders, from, latency, priority, quotes, volumes, now, so_far);
        lemma_match_sound(
            orders,
            from + 1,
            latency,
            priority,
            quotes,
            volumes,
            now,
            match_order(orders[from], latency, priority, quotes, volumes, now, so_far),
        );
    }
}

/// Every result carries an id below `bound`.
pub open spec fn result_ids_below(results: Seq<OrderResult>, bound: OrderId) -> bool {
    forall|k: int| 0 <= k < results.len() ==> (#[trigger] results[k]).order_id < bound
}

/// A cancel or a modify reports under its own id: where the ids of the
/// cancels and modifies are below a bound, so are the ids of their reports.
pub proof fn lemma_controls_report_own_ids(
    controls: Seq<InnerOrder>,
    from: int,
    now: i64,
    so_far: Applied,
    bound: OrderId,
)
    requires
        ids_below(controls, bound),
        result_ids_below(so_far.results, bound),
    ensures
        result_ids_below(apply_controls(controls, from, now, so_far).results, bound),
    decreases controls.len() - from,
{
    if from < 0 || from >= controls.len() {
    } else {
        let next = apply_control(now, controls[from], so_far);
        assert forall|k: int| 0 <= k < next.results.len() implies (
        #[trigger] next.results[k]).order_id < bound by {
            if k < so_far.results.len() {
                assert(next.results[k] == so_far.results[k]);
            } else {
                assert(next.results[k].order_id == controls[from].order_id);
            }
        }
        lemma_controls_report_own_ids(controls, from + 1, now, next, bound);
    }
}

/// A fill carries the id of its order: where the ids of the orders of a
/// matching pass are below a bound, so are the ids of all its results.
pub proof fn lemma_match_reports_own_ids(
    orders: Seq<InnerOrder>,
    from: int,
    latency: LatencyModel,
    priority: OrderBookOrderPriority,
    quotes: Map<(Seq<char>, Seq<char>), Depth>,
    volumes: VolumeMap,
    now: i64,
    so_far: Matching,
    bound: OrderId,
)
    requires
        ids_below(orders, bound),
        result_ids_below(so_far.results, bound),
    ensures
        result_ids_below(
            match_from(orders, from, latency, priority, quotes, volumes, now, so_far).results,
            bound,
        ),
    decreases orders.len() - from,
{
    if from < 0 || from >= orders.len() {
    } else {
        let order = orders[from];
        let key = (order.exchange@, order.symbol@);
        let next = match_order(order, latency, priority, quotes, volumes, now, so_far);
        let walk = fill_walk(quotes[key], order, so_far.filled, volumes, priority);
        lemma_fill_walk_sound(quotes[key], order, so_far.filled, volumes, priority);
        assert forall|k: int| 0 <= k < next.results.len() implies (
        #[trigger] next.results[k]).order_id < bound by {
            if k < so_far.results.len() {
                assert(next.results[k] == so_far.results[k]);
            } else {
                let trade = walk.trades[k - so_far.results.len()];
                assert(next.results[k] == trade);
                assert(made_by(trade, order, quotes[key].date));
                assert(trade.order_id == order.order_id);
            }
        }
        lemma_match_reports_own_ids(
            orders,
            from + 1,
            latency,
            priority,
            quotes,
            volumes,
            now,
            next,
            bound,
        );
    }
}

/// Every result of a cycle, fill or report, carries the id of an order that
/// was in the book before the cycle: an id below the next id of the book. An
/// order that a tick admits gets the next id or a later one, so none of the
/// tick's results is its own.
pub proof fn law_results_carry_book_ids(
    book: Seq<InnerOrder>,
    latency: LatencyModel,
    priority: OrderBookOrderPriority,
    quotes: Map<(Seq<char>, Seq<char>), Depth>,
    prints: Seq<Trade>,
    now: i64,
    next_id: OrderId,
    staged: Seq<Order>,
)
    requires
        ids_ascending(book),
        ids_below(book, next_id),
        next_id + staged.len() <= u64::MAX,
    ensures
        result_ids_below(execute(book, latency, priority, quotes, prints, now).results, next_id),
        forall|i: int, k: int|
            0 <= i < staged.len() && 0 <= k < execute(
                book,
                latency,
                priority,
                quotes,
                prints,
                now,
            ).results.len() ==> (#[trigger] admitted_all(staged, next_id, now)[i]).order_id != (
            #[trigger] execute(book, latency, priority, quotes, prints, now).results[k]).order_id,
{
    let controls = controls_of(book);
    let trading = trading_of(book);
    lemma_filter_keeps_order(book, |order: InnerOrder| order.order_type.spec_is_control());
    lemma_filter_keeps_order(book, |order: InnerOrder| !order.order_type.spec_is_control());
    assert(ids_below(controls, next_id)) by {
        assert forall|i: int| 0 <= i < controls.len() implies (#[trigger] controls[i]).order_id
            < next_id by {
            assert(in_book(controls[i], book));
            let j = choose|j: int| 0 <= j < book.len() && same_order(controls[i], #[trigger] book[j]);
            assert(book[j].order_id < next_id);
        }
    }
    let split = Applied { orders: trading, results: Seq::empty() };
    lemma_controls_report_own_ids(controls, 0, now, split, next_id);
    lemma_controls_keep_order(controls, 0, now, split);
    let applied = apply_controls(controls, 0, now, split);
    lemma_drawn_chain(applied.orders, trading, book);
    assert(ids_below(applied.orders, next_id)) by {
        assert forall|i: int| 0 <= i < applied.orders.len() implies (
        #[trigger] applied.orders[i]).order_id < next_id by {
            assert(in_book(applied.orders[i], book));
            let j = choose|j: int|
                0 <= j < book.len() && same_order(applied.orders[i], #[trigger] book[j]);
            assert(book[j].order_id < next_id);
        }
    }
    let start = Matching { filled: Map::empty(), results: applied.results, resting: Seq::empty() };
    lemma_match_reports_own_ids(
        applied.orders,
        0,
        latency,
        priority,
        quotes,
        volumes_of(prints),
        now,
        start,
        next_id,
    );
}

/// The trading orders of a book as the cancels and modifies of a cycle at
/// `now` leave them: what the matching pass of the cycle works on.
pub open spec fn after_controls(book: Seq<InnerOrder>, now: i64) -> Seq<InnerOrder> {
    apply_controls(
        controls_of(book),
        0,
        now,
        Applied { orders: trading_of(book), results: Seq::empty() },
    ).orders
}

/// Cancels and modifies report themselves; they never report a fill.
pub proof fn lemma_controls_report_no_fill(
    controls: Seq<InnerOrder>,
    from: int,
    now: i64,
    so_far: Applied,
)
    requires
        forall|i: int| 0 <= i < so_far.results.len() ==> !(#[trigger] so_far.results[i]).is_fill(),
    ensures
        forall|i: int|
            0 <= i < apply_controls(controls, from, now, so_far).results.len() ==> !(
            #[trigger] apply_controls(controls, from, now, so_far).results[i]).is_fill(),
    decreases controls.len() - from,
{
    if from < 0 || from >= controls.len() {
        assert(apply_controls(controls, from, now, so_far) == so_far);
    } else {
        let next = apply_control(now, controls[from], so_far);
        assert forall|i: int| 0 <= i < next.results.len() implies !(
        #[trigger] next.results[i]).is_fill() by {
            if i < so_far.results.len() {
                assert(next.results[i] == so_far.results[i]);
            } else {
                let report = next.results[i];
                assert(report.typ == OrderResultType::Cancel || report.typ
                    == OrderResultType::Modify);
            }
        }
        lemma_controls_report_no_fill(controls, from + 1, now, next);
        assert(apply_controls(controls, from, now, so_far) == apply_controls(
            controls,
            from + 1,
            now,
            next,
        ));
    }
}

/// The matching pass of a cycle is sound from its first order to its last.
pub proof fn lemma_execute_sound(
    book: Seq<InnerOrder>,
    latency: LatencyModel,
    priority: OrderBookOrderPriority,
    quotes: Map<(Seq<char>, Seq<char>), Depth>,
    prints: Seq<Trade>,
    now: i64,
)
    requires
        ids_ascending(book),
    ensures
        ids_ascending(after_controls(book, now)),
        drawn_from(after_controls(book, now), book),
        pass_sound(
            execute(book, latency, priority, quotes, prints, now),
            after_controls(book, now),
            after_controls(book, now).len() as int,
            latency,
            quotes,
            now,
        ),
{
    let trading = trading_of(book);
    lemma_filter_keeps_order(book, |order: InnerOrder| !order.order_type.spec_is_control());
    let split = Applied { orders: trading, results: Seq::empty() };
    let applied = apply_controls(controls_of(book), 0, now, split);
    lemma_controls_keep_order(controls_of(book), 0, now, split);
    lemma_drawn_chain(applied.orders, trading, book);
    lemma_controls_report_no_fill(controls_of(book), 0, now, split);
    let start = Matching { filled: Map::empty(), results: applied.results, resting: Seq::empty() };
    assert forall|id: OrderId| #[trigger] filled_qty(start.results, id) == 0 by {
        lemma_no_fill_no_qty(start.results, id);
    }
    lemma_match_sound(
        applied.orders,
        0,
        latency,
        priority,
        quotes,
        volumes_of(prints),
        now,
        start,
    );
}

/// Every fill of a cycle at `now` is a fill of an order
/// that was in the book before the cycle and that the latency model admits
/// at `now`: with a fixed period, an order whose admission lies more than
/// the period back. The fill carries the date of the snapshot that the
/// order was matched against.
pub proof fn law_fills_belong_to_admitted_orders(
    book: Seq<InnerOrder>,
    latency: LatencyModel,
    priority: OrderBookOrderPriority,
    quotes: Map<(Seq<char>, Seq<char>), Depth>,
    prints: Seq<Trade>,
    now: i64,
    k: int,
)
    requires
        ids_ascending(book),
        0 <= k < execute(book, latency, priority, quotes, prints, now).results.len(),
        execute(book, latency, priority, quotes, prints, now).results[k].is_fill(),
    ensures
        exists|j: int|
            0 <= j < book.len() && (#[trigger] book[j]).order_id == execute(
                book,
                latency,
                priority,
                quotes,
                prints,
                now,
            ).results[k].order_id && !book[j].order_type.spec_is_control() && latency.admits(
                now,
                book[j].recieved_timestamp,
            ) && quotes.contains_key((book[j].exchange@, book[j].symbol@)) && execute(
                book,
                latency,
                priority,
                quotes,
                prints,
                now,
            ).results[k].date == quotes[(book[j].exchange@, book[j].symbol@)].date,
        latency matches LatencyModel::FixedPeriod(period) ==> exists|j: int|
            0 <= j < book.len() && (#[trigger] book[j]).order_id == execute(
                book,
                latency,
                priority,
                quotes,
                prints,
                now,
            ).results[k].order_id && book[j].recieved_timestamp + period < now,
{
    lemma_execute_sound(book, latency, priority, quotes, prints, now);
    let after = after_controls(book, now);
    let result = execute(book, latency, priority, quotes, prints, now).results[k];
    assert(fill_from(result, after, after.len() as int, latency, quotes, now));
    let i = choose|i: int|
        0 <= i < after.len() && served(#[trigger] after[i], latency, quotes, now) && made_by(
            result,
            after[i],
            quotes[(after[i].exchange@, after[i].symbol@)].date,
        );
    assert(in_book(after[i], book));
    let j = choose|j: int| 0 <= j < book.len() && same_order(after[i], #[trigger] book[j]);
    lemma_filter_keeps_order(book, |order: InnerOrder| !order.order_type.spec_is_control());
    lemma_trading_only(book, now, i);
    assert(book[j].order_id == result.order_id);
}

/// Take a tick at `now` whose snapshots carry the date
/// `now`. Every fill of the tick then has the execution date `now`, and it
/// belongs to an order that was in the book before the tick and that the
/// latency model admits at `now`: with a fixed period, to an order admitted
/// more than the period before the execution date. The orders that the tick
/// itself admits get ids that no fill of the tick carries: an order
/// submitted for a tick produces no fill in that tick.
pub proof fn law_lookahead_free(
    book: Seq<InnerOrder>,
    next_id: OrderId,
    latency: LatencyModel,
    priority: OrderBookOrderPriority,
    quotes: Map<(Seq<char>, Seq<char>), Depth>,
    prints: Seq<Trade>,
    now: i64,
    staged: Seq<Order>,
    k: int,
)
    requires
        ids_ascending(book),
        ids_below(book, next_id),
        next_id + staged.len() <= u64::MAX,
        forall|key: (Seq<char>, Seq<char>)| #[trigger]
            quotes.contains_key(key) ==> quotes[key].date == now,
        0 <= k < execute(book, latency, priority, quotes, prints, now).results.len(),
        execute(book, latency, priority, quotes, prints, now).results[k].is_fill(),
    ensures
        execute(book, latency, priority, quotes, prints, now).results[k].date == now,
        exists|j: int|
            0 <= j < book.len() && (#[trigger] book[j]).order_id == execute(
                book,
                latency,
                priority,
                quotes,
                prints,
                now,
            ).results[k].order_id && latency.admits(now, book[j].recieved_timestamp),
        latency matches LatencyModel::FixedPeriod(period) ==> exists|j: int|
            0 <= j < book.len() && (#[trigger] book[j]).order_id == execute(
                book,
                latency,
                priority,
                quotes,
                prints,
                now,
            ).results[k].order_id && book[j].recieved_timestamp + period < execute(
                book,
                latency,
                priority,
                quotes,
                prints,
                now,
            ).results[k].date,
        forall|i: int|
            0 <= i < staged.len() ==> (#[trigger] admitted_all(staged, next_id, now)[i]).order_id
                != execute(book, latency, priority, quotes, prints, now).results[k].order_id,
{
    law_fills_belong_to_admitted_orders(book, latency, priority, quotes, prints, now, k);
    let result = execute(book, latency, priority, quotes, prints, now).results[k];
    let j = choose|j: int|
        0 <= j < book.len() && (#[trigger] book[j]).order_id == result.order_id
            && !book[j].order_type.spec_is_control() && latency.admits(
            now,
            book[j].recieved_timestamp,
        ) && quotes.contains_key((book[j].exchange@, book[j].symbol@)) && result.date == quotes[(
            book[j].exchange@,
            book[j].symbol@,
        )].date;
    assert(quotes.contains_key((book[j].exchange@, book[j].symbol@)));
    assert(result.date == now);
    assert(book[j].order_id < next_id);
}

/// The orders that the matching pass works on are trading orders.
pub proof fn lemma_trading_only(book: Seq<InnerOrder>, now: i64, i: int)
    requires
        ids_ascending(book),
        0 <= i < after_controls(book, now).len(),
    ensures
        !after_controls(book, now)[i].order_type.spec_is_control(),
{
    let keep = |order: InnerOrder| !order.order_type.spec_is_control();
    let trading = trading_of(book);
    lemma_filter_keeps_order(book, keep);
    let split = Applied { orders: trading, results: Seq::empty() };
    lemma_controls_keep_order(controls_of(book), 0, now, split);
    let after = after_controls(book, now);
    assert(in_book(after[i], trading));
    let j = choose|j: int| 0 <= j < trading.len() && same_order(after[i], #[trigger] trading[j]);
    assert(keep(trading[j]));
}

/// Over a cycle an order is filled for a positive quantity
/// that does not exceed what it asks for when the matching pass comes to
/// it, or for nothing. An order that is filled leaves the book, so this is
/// all it ever gets: what stays in the book has been filled for nothing.
pub proof fn law_conservation(
    book: Seq<InnerOrder>,
    latency: LatencyModel,
    priority: OrderBookOrderPriority,
    quotes: Map<(Seq<char>, Seq<char>), Depth>,
    prints: Seq<Trade>,
    now: i64,
    id: OrderId,
)
    requires
        ids_ascending(book),
    ensures
        filled_qty(execute(book, latency, priority, quotes, prints, now).results, id) == 0
            || exists|j: int|
            0 <= j < after_controls(book, now).len() && (#[trigger] after_controls(
                book,
                now,
            )[j]).order_id == id && 0 < filled_qty(
                execute(book, latency, priority, quotes, prints, now).results,
                id,
            ) <= after_controls(book, now)[j].qty,
        forall|i: int|
            0 <= i < execute(book, latency, priority, quotes, prints, now).resting.len() && (
            #[trigger] execute(book, latency, priority, quotes, prints, now).resting[i]).order_id
                == id ==> filled_qty(
                execute(book, latency, priority, quotes, prints, now).results,
                id,
            ) == 0,
{
    lemma_execute_sound(book, latency, priority, quotes, prints, now);
    let after = after_controls(book, now);
    let done = execute(book, latency, priority, quotes, prints, now);
    if filled_qty(done.results, id) != 0 {
        assert(filled_within(done.results, id, after, after.len() as int));
    }
}

/// The book holds an order with this id.
pub open spec fn has_id(orders: Seq<InnerOrder>, id: OrderId) -> bool {
    exists|j: int| 0 <= j < orders.len() && (#[trigger] orders[j]).order_id == id
}

/// Orders drawn from a book without an id do not have it either.
pub proof fn lemma_drawn_keeps_absent(orders: Seq<InnerOrder>, book: Seq<InnerOrder>, id: OrderId)
    requires
        drawn_from(orders, book),
        !has_id(book, id),
    ensures
        !has_id(orders, id),
{
    if has_id(orders, id) {
        let i = choose|i: int| 0 <= i < orders.len() && (#[trigger] orders[i]).order_id == id;
        assert(in_book(orders[i], book));
        let j = choose|j: int| 0 <= j < book.len() && same_order(orders[i], #[trigger] book[j]);
        assert(book[j].order_id == id);
    }
}

/// Once a cancel for `id` is among the cancels and modifies still to be
/// applied, the book that they leave does not hold `id`.
proof fn lemma_cancel_removes(
    controls: Seq<InnerOrder>,
    from: int,
    now: i64,
    so_far: Applied,
    at: int,
    id: OrderId,
)
    requires
        0 <= from <= at < controls.len(),
        controls[at].order_type == OrderType::Cancel,
        controls[at].order_id_ref == Some(id),
        ids_ascending(so_far.orders),
    ensures
        !has_id(apply_controls(controls, from, now, so_far).orders, id),
    decreases controls.len() - from,
{
    let next = apply_control(now, controls[from], so_far);
    lemma_control_keeps_order(now, controls[from], so_far);
    if from == at {
        let orders = so_far.orders;
        let found = find_order(orders, id, 0);
        lemma_find_order(orders, id, 0);
        assert(!has_id(next.orders, id)) by {
            if has_id(next.orders, id) {
                let i = choose|i: int|
                    0 <= i < next.orders.len() && (#[trigger] next.orders[i]).order_id == id;
                if found < orders.len() {
                    assert(next.orders == orders.remove(found));
                    let source = if i < found {
                        i
                    } else {
                        i + 1
                    };
                    assert(next.orders[i] == orders[source]);
                    assert(orders[source].order_id == orders[found].order_id);
                } else {
                    assert(next.orders == orders);
                    assert(orders[i].order_id != id);
                }
            }
        }
        lemma_controls_keep_order(controls, from + 1, now, next);
        lemma_drawn_keeps_absent(
            apply_controls(controls, from + 1, now, next).orders,
            next.orders,
            id,
        );
    } else {
        lemma_cancel_removes(controls, from + 1, now, next, at, id);
    }
}

/// In the cycle that applies a cancel for `id`, no
/// fill carries `id`, and the book that the cycle leaves does not hold `id`.
pub proof fn law_cancel_ends_order(
    book: Seq<InnerOrder>,
    latency: LatencyModel,
    priority: OrderBookOrderPriority,
    quotes: Map<(Seq<char>, Seq<char>), Depth>,
    prints: Seq<Trade>,
    now: i64,
    cancel: int,
    id: OrderId,
)
    requires
        ids_ascending(book),
        0 <= cancel < book.len(),
        book[cancel].order_type == OrderType::Cancel,
        book[cancel].order_id_ref == Some(id),
    ensures
        !has_id(execute(book, latency, priority, quotes, prints, now).resting, id),
        forall|k: int|
            0 <= k < execute(book, latency, priority, quotes, prints, now).results.len() && (
            #[trigger] execute(book, latency, priority, quotes, prints, now).results[k]).is_fill()
                ==> execute(book, latency, priority, quotes, prints, now).results[k].order_id
                != id,
{
    broadcast use vstd::seq_lib::group_filter_ensures;

    let is_control = |order: InnerOrder| order.order_type.spec_is_control();
    let controls = controls_of(book);
    assert(is_control(book[cancel]));
    assert(controls.contains(book[cancel]));
    let at = choose|at: int| 0 <= at < controls.len() && controls[at] == book[cancel];
    let trading = trading_of(book);
    lemma_filter_keeps_order(book, |order: InnerOrder| !order.order_type.spec_is_control());
    let split = Applied { orders: trading, results: Seq::empty() };
    lemma_cancel_removes(controls, 0, now, split, at, id);
    let after = after_controls(book, now);
    law_absent_stays_absent_in(after, book, latency, priority, quotes, prints, now, id);
}

/// Where the orders that the matching pass of a cycle works on do not hold
/// `id`, no fill of the cycle carries it and the book that the cycle leaves
/// does not hold it.
proof fn law_absent_stays_absent_in(
    after: Seq<InnerOrder>,
    book: Seq<InnerOrder>,
    latency: LatencyModel,
    priority: OrderBookOrderPriority,
    quotes: Map<(Seq<char>, Seq<char>), Depth>,
    prints: Seq<Trade>,
    now: i64,
    id: OrderId,
)
    requires
        ids_ascending(book),
        after == after_controls(book, now),
        !has_id(after, id),
    ensures
        !has_id(execute(book, latency, priority, quotes, prints, now).resting, id),
        forall|k: int|
            0 <= k < execute(book, latency, priority, quotes, prints, now).results.len() && (
            #[trigger] execute(book, latency, priority, quotes, prints, now).results[k]).is_fill()
                ==> execute(book, latency, priority, quotes, prints, now).results[k].order_id
                != id,
{
    lemma_execute_sound(book, latency, priority, quotes, prints, now);
    let done = execute(book, latency, priority, quotes, prints, now);
    if has_id(done.resting, id) {
        let i = choose|i: int| 0 <= i < done.resting.len() && (#[trigger] done.resting[i]).order_id == id;
        assert(passed(done.resting[i], after, after.len() as int));
        let j = choose|j: int| 0 <= j < after.len() && done.resting[i] == #[trigger] after[j];
        assert(after[j].order_id == id);
    }
    assert forall|k: int|
        0 <= k < done.results.len() && (#[trigger] done.results[k]).is_fill() implies done.results[k].order_id
        != id by {
        assert(fill_from(done.results[k], after, after.len() as int, latency, quotes, now));
        let j = choose|j: int|
            0 <= j < after.len() && served(#[trigger] after[j], latency, quotes, now) && made_by(
                done.results[k],
                after[j],
                quotes[(after[j].exchange@, after[j].symbol@)].date,
            );
        assert(after[j].order_id == done.results[k].order_id);
    }
}

/// An order that is gone stays gone. Where a book does not hold `id`, no
/// fill of a cycle carries `id` and the book that the cycle leaves does not
/// hold it. An admission gives the next id, so an id below it that the book
/// does not hold is not given again: after a cancel for an id that had been
/// given, no later fill carries that id.
pub proof fn law_absent_stays_absent(
    book: Seq<InnerOrder>,
    latency: LatencyModel,
    priority: OrderBookOrderPriority,
    quotes: Map<(Seq<char>, Seq<char>), Depth>,
    prints: Seq<Trade>,
    now: i64,
    id: OrderId,
    next_id: OrderId,
    order: Order,
)
    requires
        ids_ascending(book),
        !has_id(book, id),
        id < next_id,
    ensures
        !has_id(execute(book, latency, priority, quotes, prints, now).resting, id),
        forall|k: int|
            0 <= k < execute(book, latency, priority, quotes, prints, now).results.len() && (
            #[trigger] execute(book, latency, priority, quotes, prints, now).results[k]).is_fill()
                ==> execute(book, latency, priority, quotes, prints, now).results[k].order_id
                != id,
        !has_id(book.push(admitted(order, next_id, now)), id),
{
    lemma_execute_sound(book, latency, priority, quotes, prints, now);
    let after = after_controls(book, now);
    lemma_drawn_keeps_absent(after, book, id);
    law_absent_stays_absent_in(after, book, latency, priority, quotes, prints, now, id);
    let grown = book.push(admitted(order, next_id, now));
    if has_id(grown, id) {
        let j = choose|j: int| 0 <= j < grown.len() && (#[trigger] grown[j]).order_id == id;
        if j < book.len() {
            assert(book[j].order_id == id);
        }
    }
}

/// A cycle over an empty book emits nothing and
/// leaves the book empty.
pub proof fn law_empty_book_executes_nothing(
    latency: LatencyModel,
    priority: OrderBookOrderPriority,
    quotes: Map<(Seq<char>, Seq<char>), Depth>,
    prints: Seq<Trade>,
    now: i64,
)
    ensures
        execute(Seq::empty(), latency, priority, quotes, prints, now).results == Seq::<
            OrderResult,
        >::empty(),
        execute(Seq::empty(), latency, priority, quotes, prints, now).resting == Seq::<
            InnerOrder,
        >::empty(),
{
    broadcast use vstd::seq_lib::group_filter_ensures;

    let book = Seq::<InnerOrder>::empty();
    assert(controls_of(book).len() == 0);
    assert(trading_of(book).len() == 0);
    assert(trading_of(book) =~= Seq::<InnerOrder>::empty());
}

/// The orders admitted in one tick get the ids from
/// the next id of the book on, each one more than the one before. With the
/// ids of the book below that next id, the book with the admitted orders
/// behind it has strictly rising ids: no id is given twice, whatever has
/// left the book in between.
pub proof fn law_admitted_ids_rise(
    book: Seq<InnerOrder>,
    next_id: OrderId,
    orders: Seq<Order>,
    now: i64,
)
    requires
        ids_ascending(book),
        ids_below(book, next_id),
        next_id + orders.len() <= u64::MAX,
    ensures
        forall|i: int|
            0 <= i < orders.len() ==> (#[trigger] admitted_all(orders, next_id, now)[i]).order_id
                == next_id + i,
        ids_ascending(book + admitted_all(orders, next_id, now)),
        ids_below(book + admitted_all(orders, next_id, now), (next_id + orders.len()) as OrderId),
{
    let all = book + admitted_all(orders, next_id, now);
    assert forall|i: int| 0 <= i < all.len() implies all[i].order_id < next_id + orders.len()
        && (i >= book.len() ==> all[i].order_id == next_id + (i - book.len())) by {
        if i < book.len() {
            assert(all[i] == book[i]);
        } else {
            assert(all[i] == admitted_all(orders, next_id, now)[i - book.len()]);
        }
    }
    assert forall|i: int, j: int| 0 <= i < j < all.len() implies all[i].order_id
        < all[j].order_id by {
        if j < book.len() {
            assert(all[i] == book[i] && all[j] == book[j]);
        } else if i < book.len() {
            assert(all[i] == book[i]);
        }
    }
}

/// What the matching pass has recorded as taken at each level is what its
/// fills at that level add up to, and it is within an offer at that level.
pub open spec fn pass_counted(
    pass: Matching,
    quotes: Map<(Seq<char>, Seq<char>), Depth>,
    volumes: VolumeMap,
) -> bool {
    &&& forall|symbol: Seq<char>, price: i64|
        filled_at(pass.filled, symbol, price) == #[trigger] filled_size(
            pass.results,
            symbol,
            price,
        )
    &&& all_within_offer(pass.filled, quotes, volumes)
}

/// The matching pass keeps its count of what is taken at each level.
pub proof fn lemma_match_counted(
    orders: Seq<InnerOrder>,
    from: int,
    latency: LatencyModel,
    priority: OrderBookOrderPriority,
    quotes: Map<(Seq<char>, Seq<char>), Depth>,
    volumes: VolumeMap,
    now: i64,
    so_far: Matching,
)
    requires
        pass_counted(so_far, quotes, volumes),
    ensures
        pass_counted(
            match_from(orders, from, latency, priority, quotes, volumes, now, so_far),
            quotes,
            volumes,
        ),
    decreases orders.len() - from,
{
    if from < 0 || from >= orders.len() {
    } else {
        let order = orders[from];
        let key = (order.exchange@, order.symbol@);
        let next = match_order(order, latency, priority, quotes, volumes, now, so_far);
        if served(order, latency, quotes, now) {
            let walk = fill_walk(quotes[key], order, so_far.filled, volumes, priority);
            if walk.trades.len() > 0 {
                lemma_fill_walk_kept(quotes[key], order, so_far.filled, volumes, priority);
                lemma_fill_walk_within_offers(order, so_far.filled, quotes, volumes, priority);
                assert forall|symbol: Seq<char>, price: i64|
                    filled_at(next.filled, symbol, price) == #[trigger] filled_size(
                        next.results,
                        symbol,
                        price,
                    ) by {
                    lemma_filled_size_concat(so_far.results, walk.trades, symbol, price);
                    assert(filled_at(so_far.filled, symbol, price) == filled_size(
                        so_far.results,
                        symbol,
                        price,
                    ));
                    assert(filled_at(walk.filled, symbol, price) == filled_at(
                        so_far.filled,
                        symbol,
                        price,
                    ) + filled_size(walk.trades, symbol, price));
                }
            }
        }
        lemma_match_counted(orders, from + 1, latency, priority, quotes, volumes, now, next);
    }
}

/// Over one cycle, the quantities of all fills of a symbol at a price add
/// up to what the cycle has recorded as taken there. That is nothing, or it
/// is a positive quantity within what a single offer at that price holds:
/// the size of a level with that price in a snapshot of the symbol, or the
/// taker volume printed at that price on one side. So the fills of all
/// orders together never exceed the size displayed at the level plus the
/// taker volume to claim there.
pub proof fn law_no_double_fill(
    book: Seq<InnerOrder>,
    latency: LatencyModel,
    priority: OrderBookOrderPriority,
    quotes: Map<(Seq<char>, Seq<char>), Depth>,
    prints: Seq<Trade>,
    now: i64,
    symbol: Seq<char>,
    price: i64,
)
    ensures
        filled_size(
            execute(book, latency, priority, quotes, prints, now).results,
            symbol,
            price,
        ) == filled_at(
            execute(book, latency, priority, quotes, prints, now).filled,
            symbol,
            price,
        ),
        filled_size(
            execute(book, latency, priority, quotes, prints, now).results,
            symbol,
            price,
        ) == 0 || exists|venue: Seq<char>, avail: i64|
            quotes.contains_key((venue, symbol)) && #[trigger] offers(
                quotes[(venue, symbol)],
                volumes_of(prints),
                price,
                avail,
            ) && 0 < filled_size(
                execute(book, latency, priority, quotes, prints, now).results,
                symbol,
                price,
            ) <= avail,
        filled_size(
            execute(book, latency, priority, quotes, prints, now).results,
            symbol,
            price,
        ) == 0 || exists|venue: Seq<char>|
            quotes.contains_key((venue, symbol)) && 0 < filled_size(
                execute(book, latency, priority, quotes, prints, now).results,
                symbol,
                price,
            ) <= #[trigger] displayed(quotes[(venue, symbol)], price) + credit(
                volumes_of(prints),
                price,
            ),
{
    let split = Applied { orders: trading_of(book), results: Seq::empty() };
    let applied = apply_controls(controls_of(book), 0, now, split);
    lemma_controls_report_no_fill(controls_of(book), 0, now, split);
    let start = Matching { filled: Map::empty(), results: applied.results, resting: Seq::empty() };
    let volumes = volumes_of(prints);
    assert forall|s: Seq<char>, p: i64|
        filled_at(start.filled, s, p) == #[trigger] filled_size(start.results, s, p) by {
        lemma_no_fill_no_size(start.results, s, p);
    }
    assert forall|s: Seq<char>, p: i64| #[trigger]
        within_offer(start.filled, quotes, volumes, s, p) by {
        assert(filled_at(start.filled, s, p) == 0);
    }
    lemma_match_counted(applied.orders, 0, latency, priority, quotes, volumes, now, start);
    let done = execute(book, latency, priority, quotes, prints, now);
    assert(within_offer(done.filled, quotes, volumes, symbol, price));
    assert(filled_at(done.filled, symbol, price) == filled_size(done.results, symbol, price));
    if filled_size(done.results, symbol, price) != 0 {
        let (venue, avail) = choose|venue: Seq<char>, avail: i64|
            quotes.contains_key((venue, symbol)) && #[trigger] offers(
                quotes[(venue, symbol)],
                volumes,
                price,
                avail,
            ) && 0 < filled_at(done.filled, symbol, price) <= avail;
        lemma_offer_within_capacity(quotes[(venue, symbol)], volumes, price, avail);
        assert(displayed(quotes[(venue, symbol)], price) + credit(volumes, price) >= avail);
    }
}

} // verus!
