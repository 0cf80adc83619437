//! A book as a map by id, and the sequence in id order that an engine
//! walks.

use vstd::prelude::*;
use std::collections::BTreeMap;
use vstd::std_specs::btree::increasing_seq;
use vstd::std_specs::cmp::OrdSpec;
use vstd::std_specs::iter::IteratorSpec;
use crate::exchange::uist_v2::{InnerOrder, OrderId, ids_ascending};

verus! {

/// The orders of a book whose ids are below `bound`, lowest id first.
pub open spec fn in_key_order<V>(book: Map<OrderId, V>, bound: int) -> Seq<V>
    decreases bound,
{
    if bound <= 0 {
        Seq::empty()
    } else {
        let rest = in_key_order(book, bound - 1);
        if bound - 1 <= u64::MAX && book.contains_key((bound - 1) as u64) {
            rest.push(book[(bound - 1) as u64])
        } else {
            rest
        }
    }
}

/// All orders of a book, lowest id first.
pub open spec fn by_id<V>(book: Map<OrderId, V>) -> Seq<V> {
    in_key_order(book, u64::MAX + 1)
}

/// Every order of the book is filed under an id below `bound`.
pub open spec fn keys_below<V>(book: Map<OrderId, V>, bound: OrderId) -> bool {
    forall|key: OrderId| book.contains_key(key) ==> key < bound
}

/// Ids under which the book holds nothing add nothing to the sequence.
pub proof fn lemma_skip<V>(book: Map<OrderId, V>, low: int, high: int)
    requires
        low <= high,
        forall|key: OrderId| low <= key < high ==> !book.contains_key(key),
    ensures
        in_key_order(book, high) == in_key_order(book, low),
    decreases high - low,
{
    if low < high {
        lemma_skip(book, low, high - 1);
        if high > 0 && high - 1 <= u64::MAX {
            assert(!book.contains_key((high - 1) as u64));
        }
    }
}

/// Books that agree below `bound` give the same sequence.
pub proof fn lemma_agree<V>(a: Map<OrderId, V>, b: Map<OrderId, V>, bound: int)
    requires
        forall|key: OrderId| key < bound ==> a.contains_key(key) == b.contains_key(key),
        forall|key: OrderId| key < bound && a.contains_key(key) ==> a[key] == b[key],
    ensures
        in_key_order(a, bound) == in_key_order(b, bound),
    decreases bound,
{
    if bound > 0 {
        lemma_agree(a, b, bound - 1);
    }
}

/// The order with the lowest id is the first of the sequence, and the rest
/// is the sequence of the book without it.
pub proof fn lemma_remove_first<V>(book: Map<OrderId, V>, key: OrderId, bound: int)
    requires
        book.contains_key(key),
        key < bound,
        forall|other: OrderId| book.contains_key(other) ==> key <= other,
    ensures
        in_key_order(book, bound) == seq![book[key]] + in_key_order(book.remove(key), bound),
    decreases bound,
{
    let rest = book.remove(key);
    if bound - 1 == key {
        lemma_skip(book, 0, key as int);
        lemma_skip(rest, 0, bound);
        assert(in_key_order(book, bound) =~= seq![book[key]] + in_key_order(rest, bound));
    } else {
        lemma_remove_first(book, key, bound - 1);
        if bound - 1 <= u64::MAX && book.contains_key((bound - 1) as u64) {
            assert(rest.contains_key((bound - 1) as u64));
            assert(rest[(bound - 1) as u64] == book[(bound - 1) as u64]);
        }
        assert(in_key_order(book, bound) =~= seq![book[key]] + in_key_order(rest, bound));
    }
}

/// An order filed under an id above all ids of the book is the last of the
/// sequence.
pub proof fn lemma_insert_last<V>(
    book: Map<OrderId, V>,
    key: OrderId,
    order: V,
    bound: int,
)
    requires
        key < bound,
        forall|other: OrderId| book.contains_key(other) ==> other < key,
    ensures
        in_key_order(book.insert(key, order), bound) == in_key_order(book, bound).push(order),
    decreases bound,
{
    let more = book.insert(key, order);
    if bound - 1 == key {
        lemma_agree(book, more, key as int);
    } else {
        lemma_insert_last(book, key, order, bound - 1);
        if bound - 1 <= u64::MAX {
            assert(!book.contains_key((bound - 1) as u64));
            assert(!more.contains_key((bound - 1) as u64));
        }
    }
}

/// A book that holds an order has a sequence that is not empty.
pub proof fn lemma_holds_some<V>(book: Map<OrderId, V>, key: OrderId, bound: int)
    requires
        book.contains_key(key),
        key < bound,
    ensures
        in_key_order(book, bound).len() > 0,
    decreases bound,
{
    if bound - 1 != key {
        lemma_holds_some(book, key, bound - 1);
    }
}

// The keys that a map hands out in increasing order rise strictly.
proof fn lemma_keys_rise(keys: Seq<&u64>)
    requires
        increasing_seq(keys),
    ensures
        forall|i: int, j: int| 0 <= i < j < keys.len() ==> *keys[i] < *keys[j],
{
    broadcast use vstd::std_specs::btree::group_btree_axioms;
    broadcast use vstd::laws_cmp::group_laws_cmp;
    broadcast use vstd::laws_cmp::lemma_ref_obeys_cmp_spec;

    assert(vstd::laws_cmp::obeys_cmp::<u64>());
    assert(vstd::laws_cmp::obeys_cmp::<&u64>());
    vstd::std_specs::btree::axiom_increasing_seq_meaning(keys);
    assert forall|i: int, j: int| 0 <= i < j < keys.len() implies *keys[i] < *keys[j] by {
        assert(OrdSpec::cmp_spec(&keys[i], &keys[j]) is Less);
    }
}

/// The ids of the book, lowest first.
pub fn keys_of<V>(book: &BTreeMap<OrderId, V>) -> (keys: Vec<OrderId>)
    ensures
        forall|i: int, j: int| 0 <= i < j < keys@.len() ==> keys@[i] < keys@[j],
        forall|key: OrderId|
            book@.contains_key(key) <==> exists|j: int|
                0 <= j < keys@.len() && #[trigger] keys@[j] == key,
{
    broadcast use vstd::std_specs::btree::group_btree_axioms;

    let mut keys: Vec<OrderId> = Vec::new();
    for key in it: book.keys()
        invariant
            it.seq() == book.keys().remaining(),
            keys@.len() == it.index(),
            forall|i: int| 0 <= i < keys@.len() ==> keys@[i] == *it.seq()[i],
    {
        keys.push(*key);
    }
    proof {
        let all = book.keys().remaining();
        assert(keys@ =~= all.unref());
        assert(all.unref().to_set() == book@.dom());
        lemma_keys_rise(all);
        assert forall|key: OrderId|
            book@.contains_key(key) <==> exists|j: int|
                0 <= j < keys@.len() && #[trigger] keys@[j] == key by {
            if book@.contains_key(key) {
                assert(keys@.contains(key));
                let j = choose|j: int| 0 <= j < keys@.len() && keys@[j] == key;
                assert(keys@[j] == key);
            }
            if exists|j: int| 0 <= j < keys@.len() && #[trigger] keys@[j] == key {
                assert(keys@.contains(key));
            }
        }
    }
    keys
}

/// Takes all orders out of the book, lowest id first.
pub fn drain<V>(book: &mut BTreeMap<OrderId, V>) -> (orders: Vec<V>)
    ensures
        orders@ == by_id(old(book)@),
        final(book)@ == Map::<OrderId, V>::empty(),
{
    broadcast use vstd::std_specs::btree::group_btree_axioms;

    let keys = keys_of(book);
    let ghost start = book@;
    let mut orders: Vec<V> = Vec::new();
    let mut i: usize = 0;
    proof {
        assert(orders@ + by_id(book@) =~= by_id(start));
    }
    while i < keys.len()
        invariant
            i <= keys.len(),
            forall|a: int, b: int| 0 <= a < b < keys@.len() ==> keys@[a] < keys@[b],
            forall|key: OrderId|
                book@.contains_key(key) <==> exists|j: int|
                    i <= j < keys@.len() && #[trigger] keys@[j] == key,
            orders@ + by_id(book@) == by_id(start),
        decreases keys.len() - i,
    {
        let key: OrderId = keys[i];
        let ghost before = book@;
        proof {
            assert(before.contains_key(key));
            lemma_remove_first(before, key, u64::MAX + 1);
        }
        match book.remove(&key) {
            Some(order) => {
                orders.push(order);
            },
            None => {},
        }
        proof {
            assert(book@ == before.remove(key));
            assert(orders@ + by_id(book@) =~= by_id(start));
        }
        i = i + 1;
    }
    proof {
        assert(book@ =~= Map::<OrderId, V>::empty());
        lemma_skip(book@, 0, u64::MAX + 1);
        assert(orders@ + Seq::<V>::empty() =~= orders@);
    }
    orders
}

/// A book without orders.
pub fn empty_book<V>() -> (book: BTreeMap<OrderId, V>)
    ensures
        book@ == Map::<OrderId, V>::empty(),
        by_id(book@) == Seq::<V>::empty(),
{
    let book: BTreeMap<OrderId, V> = BTreeMap::new();
    proof {
        lemma_skip(book@, 0, u64::MAX + 1);
    }
    book
}

/// Whether the book holds no order.
pub fn holds_none<V>(book: &BTreeMap<OrderId, V>) -> (none: bool)
    ensures
        none == (by_id(book@).len() == 0),
{
    broadcast use vstd::std_specs::btree::group_btree_axioms;

    let none: bool = book.is_empty();
    proof {
        if none {
            assert forall|key: OrderId| !book@.contains_key(key) by {
                assert(!book@.dom().contains(key));
            }
            lemma_skip(book@, 0, u64::MAX + 1);
        } else {
            assert(exists|key: OrderId| book@.dom().contains(key)) by {
                if forall|key: OrderId| !book@.dom().contains(key) {
                    assert(book@.dom() =~= Set::<OrderId>::empty());
                }
            }
            let key = choose|key: OrderId| book@.dom().contains(key);
            lemma_holds_some(book@, key, u64::MAX + 1);
        }
    }
    none
}

/// Files one more order, under an id above all ids of the book.
pub fn file<V>(book: &mut BTreeMap<OrderId, V>, key: OrderId, order: V)
    requires
        keys_below(old(book)@, key),
    ensures
        by_id(final(book)@) == by_id(old(book)@).push(order),
        keys_below(final(book)@, (key + 1) as OrderId) || key == u64::MAX,
        final(book)@ == old(book)@.insert(key, order),
{
    broadcast use vstd::std_specs::btree::group_btree_axioms;

    proof {
        lemma_insert_last(book@, key, order, u64::MAX + 1);
    }
    book.insert(key, order);
}

/// The orders of the book to read, lowest id first.
pub fn listed<V>(book: &BTreeMap<OrderId, V>) -> (orders: Vec<&V>)
    ensures
        orders@.len() == by_id(book@).len(),
        forall|i: int| 0 <= i < orders@.len() ==> *(#[trigger] orders@[i]) == by_id(book@)[i],
{
    broadcast use vstd::std_specs::btree::group_btree_axioms;

    let keys = keys_of(book);
    let mut orders: Vec<&V> = Vec::new();
    let mut i: usize = 0;
    let ghost mut low: int = 0;
    while i < keys.len()
        invariant
            i <= keys.len(),
            0 <= low <= u64::MAX + 1,
            forall|a: int, b: int| 0 <= a < b < keys@.len() ==> keys@[a] < keys@[b],
            forall|key: OrderId|
                book@.contains_key(key) <==> exists|j: int|
                    0 <= j < keys@.len() && #[trigger] keys@[j] == key,
            forall|j: int| 0 <= j < i ==> keys@[j] < low,
            forall|j: int| i <= j < keys@.len() ==> keys@[j] >= low,
            orders@.len() == in_key_order(book@, low).len(),
            forall|k: int|
                0 <= k < orders@.len() ==> *(#[trigger] orders@[k]) == in_key_order(book@, low)[k],
        decreases keys.len() - i,
    {
        let key: OrderId = keys[i];
        proof {
            assert forall|other: OrderId| low <= other < key implies !book@.contains_key(
                other,
            ) by {
                if book@.contains_key(other) {
                    let j = choose|j: int| 0 <= j < keys@.len() && #[trigger] keys@[j] == other;
                    if j < i {
                        assert(keys@[j] < low);
                    } else if j > i {
                        assert(keys@[i as int] < keys@[j]);
                    }
                }
            }
            lemma_skip(book@, low, key as int);
            assert(book@.contains_key(key));
        }
        match book.get(&key) {
            Some(order) => {
                orders.push(order);
            },
            None => {},
        }
        proof {
            low = key + 1;
        }
        i = i + 1;
    }
    proof {
        assert forall|other: OrderId| low <= other < u64::MAX + 1 implies !book@.contains_key(
            other,
        ) by {
            if book@.contains_key(other) {
                let j = choose|j: int| 0 <= j < keys@.len() && #[trigger] keys@[j] == other;
                assert(keys@[j] < low);
            }
        }
        lemma_skip(book@, low, u64::MAX + 1);
    }
    orders
}

/// Files the orders in an empty book, each under its own id.
pub fn refill(book: &mut BTreeMap<OrderId, InnerOrder>, orders: Vec<InnerOrder>)
    requires
        old(book)@ == Map::<OrderId, InnerOrder>::empty(),
        ids_ascending(orders@),
    ensures
        by_id(final(book)@) == orders@,
        forall|key: OrderId|
            final(book)@.contains_key(key) ==> exists|j: int|
                0 <= j < orders@.len() && (#[trigger] orders@[j]).order_id == key,
{
    broadcast use vstd::std_specs::btree::group_btree_axioms;

    let ghost all = orders@;
    proof {
        lemma_skip(book@, 0, u64::MAX + 1);
        assert(all.take(0) =~= Seq::<InnerOrder>::empty());
    }
    for order in it: orders
        invariant
            it.seq() == all,
            ids_ascending(all),
            by_id(book@) == all.take(it.index() as int),
            forall|key: OrderId|
                book@.contains_key(key) ==> exists|j: int|
                    0 <= j < it.index() && (#[trigger] all[j]).order_id == key,
    {
        let ghost before = book@;
        let ghost at = it.index() as int;
        proof {
            assert forall|other: OrderId| before.contains_key(other) implies other
                < order.order_id by {
                let j = choose|j: int| 0 <= j < at && (#[trigger] all[j]).order_id == other;
                assert(all[j].order_id < all[at].order_id);
            }
            lemma_insert_last(before, order.order_id, order, u64::MAX + 1);
            assert(all.take(at + 1) =~= all.take(at).push(order));
        }
        let key: OrderId = order.order_id;
        book.insert(key, order);
        proof {
            assert(book@ == before.insert(key, all[at]));
            assert forall|other: OrderId| book@.contains_key(other) implies exists|j: int|
                0 <= j < at + 1 && (#[trigger] all[j]).order_id == other by {
                if other == key {
                    assert(all[at].order_id == other);
                } else {
                    let j = choose|j: int| 0 <= j < at && (#[trigger] all[j]).order_id == other;
                    assert(all[j].order_id == other);
                }
            }
        }
    }
    proof {
        assert(all.take(all.len() as int) =~= all);
    }
}

} // verus!
