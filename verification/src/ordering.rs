//! Stable sorting by keys of numbers and text.

use crate::text::{
    lemma_before_irreflexive, lemma_before_total, lemma_before_transitive, text_before, text_order,
    Order,
};
use vstd::prelude::*;

verus! {

/// What items are sorted by: two numbers, a text and a number, in this order.
#[derive(Debug)]
pub struct SortKey {
    pub major: i64,
    pub minor: i64,
    pub text: String,
    pub last: i64,
}

/// What a sort key holds.
pub struct KeyModel {
    pub major: int,
    pub minor: int,
    pub text: Seq<char>,
    pub last: int,
}

impl View for SortKey {
    type V = KeyModel;

    open spec fn view(&self) -> KeyModel {
        KeyModel {
            major: self.major as int,
            minor: self.minor as int,
            text: self.text@,
            last: self.last as int,
        }
    }
}

/// `a` comes strictly before `b`.
pub open spec fn key_before(a: KeyModel, b: KeyModel) -> bool {
    if a.major != b.major {
        a.major < b.major
    } else if a.minor != b.minor {
        a.minor < b.minor
    } else if a.text != b.text {
        text_before(a.text, b.text)
    } else {
        a.last < b.last
    }
}

/// Puts an item into a sorted sequence, behind all items that do not come after it.
pub open spec fn placed<T>(sorted: Seq<T>, item: T, key: spec_fn(T) -> KeyModel) -> Seq<T>
    decreases sorted.len(),
{
    if sorted.len() > 0 && key_before(key(item), key(sorted.last())) {
        placed(sorted.drop_last(), item, key).push(sorted.last())
    } else {
        sorted.push(item)
    }
}

/// A sequence sorted by a key, items with equal keys in the order in which they came.
pub open spec fn sorted_by<T>(items: Seq<T>, key: spec_fn(T) -> KeyModel) -> Seq<T>
    decreases items.len(),
{
    if items.len() == 0 {
        items
    } else {
        placed(sorted_by(items.drop_last(), key), items.last(), key)
    }
}

/// No item comes after one that stands behind it.
pub open spec fn is_ordered<T>(items: Seq<T>, key: spec_fn(T) -> KeyModel) -> bool {
    forall|i: int, j: int|
        0 <= i < j < items.len() ==> !key_before(key(#[trigger] items[j]), key(#[trigger] items[i]))
}

/// Picks the items with a given key.
pub open spec fn has_key<T>(key: spec_fn(T) -> KeyModel, k: KeyModel) -> spec_fn(T) -> bool {
    |item: T| key(item) == k
}

/// The items with a given key, in their order.
pub open spec fn with_key<T>(items: Seq<T>, key: spec_fn(T) -> KeyModel, k: KeyModel) -> Seq<T> {
    items.filter(has_key(key, k))
}

impl SortKey {
    /// Whether this key comes strictly before another.
    pub fn before(&self, other: &SortKey) -> (yes: bool)
        ensures
            yes == key_before(self@, other@),
    {
        if self.major != other.major {
            return self.major < other.major;
        }
        if self.minor != other.minor {
            return self.minor < other.minor;
        }
        proof {
            lemma_before_irreflexive(self.text@);
        }
        match text_order(self.text.as_str(), other.text.as_str()) {
            Order::Before => true,
            Order::Same => self.last < other.last,
            Order::After => false,
        }
    }
}

/// Placing an item is inserting it where the items that come after it begin.
proof fn lemma_placed<T>(sorted: Seq<T>, item: T, key: spec_fn(T) -> KeyModel, at: int)
    requires
        0 <= at <= sorted.len(),
        forall|i: int|
            at <= i < sorted.len() ==> key_before(key(item), key(#[trigger] sorted[i])),
        at > 0 ==> !key_before(key(item), key(sorted[at - 1])),
    ensures
        placed(sorted, item, key) == sorted.insert(at, item),
    decreases sorted.len(),
{
    if at == sorted.len() {
        assert(sorted.insert(at, item) =~= sorted.push(item));
    } else {
        assert(key_before(key(item), key(sorted[sorted.len() - 1])));
        lemma_placed(sorted.drop_last(), item, key, at);
        assert(sorted.insert(at, item) =~= sorted.drop_last().insert(at, item).push(sorted.last()));
    }
}

/// The positions of a sequence, in their order.
pub open spec fn positions(n: nat) -> Seq<usize> {
    Seq::new(n, |i: int| i as usize)
}

/// The positions of some keys in sorted order.
pub(crate) fn sorted_positions(
    keys: &Vec<SortKey>,
    Ghost(key): Ghost<spec_fn(usize) -> KeyModel>,
) -> (order: Vec<usize>)
    requires
        forall|i: usize| i < keys@.len() ==> #[trigger] key(i) == keys@[i as int]@,
    ensures
        order@ == sorted_by(positions(keys@.len()), key),
        order@.len() == keys@.len(),
        forall|k: int| 0 <= k < order@.len() ==> #[trigger] order@[k] < keys@.len(),
{
    let ghost all = positions(keys@.len());
    let mut order: Vec<usize> = Vec::new();
    let mut i: usize = 0;
    assert(all.take(0) =~= Seq::<usize>::empty());
    while i < keys.len()
        invariant
            forall|i: usize| i < keys@.len() ==> #[trigger] key(i) == keys@[i as int]@,
            all == positions(keys@.len()),
            i <= keys@.len(),
            order@.len() == i,
            order@ == sorted_by(all.take(i as int), key),
            forall|k: int| 0 <= k < order@.len() ==> #[trigger] order@[k] < keys@.len(),
        decreases keys@.len() - i,
    {
        let mut at: usize = order.len();
        while 0 < at && keys[i].before(&keys[order[at - 1]])
            invariant
                forall|i: usize| i < keys@.len() ==> #[trigger] key(i) == keys@[i as int]@,
                i < keys@.len(),
                at <= order@.len(),
                forall|k: int| 0 <= k < order@.len() ==> #[trigger] order@[k] < keys@.len(),
                forall|k: int|
                    at <= k < order@.len() ==> key_before(key(i), key(#[trigger] order@[k])),
            decreases at,
        {
            assert(key(i) == keys@[i as int]@);
            assert(key(order@[at - 1]) == keys@[order@[at - 1] as int]@);
            at = at - 1;
        }
        proof {
            assert(key(i) == keys@[i as int]@);
            if at > 0 {
                assert(key(order@[at - 1]) == keys@[order@[at - 1] as int]@);
            }
            lemma_placed(order@, i, key, at as int);
            assert(all.take(i + 1).drop_last() =~= all.take(i as int));
            assert(all.take(i + 1).last() == i);
        }
        order.insert(at, i);
        i = i + 1;
    }
    assert(all.take(i as int) =~= all);
    order
}

/// Sorting items is sorting their positions.
pub proof fn lemma_sorted_positions<T>(items: Seq<T>, key: spec_fn(T) -> KeyModel)
    requires
        items.len() <= usize::MAX,
    ensures
        sorted_by(items, key) == sorted_by(
            positions(items.len()),
            |i: usize| key(items[i as int]),
        ).map_values(|i: usize| items[i as int]),
    decreases items.len(),
{
    lemma_sorted_prefix(items, key, items.len() as int);
    assert(items.take(items.len() as int) =~= items);
    assert(positions(items.len()).take(items.len() as int) =~= positions(items.len()));
}

proof fn lemma_sorted_prefix<T>(items: Seq<T>, key: spec_fn(T) -> KeyModel, n: int)
    requires
        0 <= n <= items.len() <= usize::MAX,
    ensures
        sorted_by(items.take(n), key) == sorted_by(
            positions(items.len()).take(n),
            |i: usize| key(items[i as int]),
        ).map_values(|i: usize| items[i as int]),
    decreases n,
{
    let all = positions(items.len());
    let at = |i: usize| items[i as int];
    let position_key = |i: usize| key(items[i as int]);
    if n == 0 {
        assert(sorted_by(items.take(0), key) =~= sorted_by(all.take(0), position_key).map_values(
            at,
        ));
    } else {
        lemma_sorted_prefix(items, key, n - 1);
        assert(items.take(n).drop_last() =~= items.take(n - 1));
        assert(all.take(n).drop_last() =~= all.take(n - 1));
        let before = sorted_by(all.take(n - 1), position_key);
        lemma_placed_positions(items, key, before, (n - 1) as usize);
        assert(all.take(n).last() == (n - 1) as usize);
        assert(items.take(n).last() == items[n - 1]);
    }
}

proof fn lemma_placed_positions<T>(
    items: Seq<T>,
    key: spec_fn(T) -> KeyModel,
    sorted: Seq<usize>,
    i: usize,
)
    ensures
        placed(sorted.map_values(|i: usize| items[i as int]), items[i as int], key) == placed(
            sorted,
            i,
            |i: usize| key(items[i as int]),
        ).map_values(|i: usize| items[i as int]),
    decreases sorted.len(),
{
    let at = |i: usize| items[i as int];
    let position_key = |i: usize| key(items[i as int]);
    if sorted.len() > 0 && key_before(position_key(i), position_key(sorted.last())) {
        lemma_placed_positions(items, key, sorted.drop_last(), i);
        assert(sorted.map_values(at).drop_last() =~= sorted.drop_last().map_values(at));
        assert(placed(sorted, i, position_key).map_values(at) =~= placed(
            sorted.drop_last(),
            i,
            position_key,
        ).map_values(at).push(items[sorted.last() as int]));
    } else {
        assert(sorted.push(i).map_values(at) =~= sorted.map_values(at).push(items[i as int]));
        if sorted.len() > 0 {
            assert(sorted.map_values(at).last() == items[sorted.last() as int]);
        }
    }
}

/// Of two different keys one comes before the other.
proof fn lemma_key_total(a: KeyModel, b: KeyModel)
    ensures
        key_before(a, b) || a == b || key_before(b, a),
{
    lemma_before_total(a.text, b.text);
}

/// Coming before carries over from key to key.
proof fn lemma_key_transitive(a: KeyModel, b: KeyModel, c: KeyModel)
    requires
        key_before(a, b),
        key_before(b, c),
    ensures
        key_before(a, c),
{
    lemma_before_irreflexive(a.text);
    if a.text != b.text && b.text != c.text && a.major == b.major && a.minor == b.minor && b.major
        == c.major && b.minor == c.minor {
        lemma_before_transitive(a.text, b.text, c.text);
    }
}

/// No key comes before itself.
proof fn lemma_key_irreflexive(a: KeyModel)
    ensures
        !key_before(a, a),
{
}

/// The last of the items is not behind any key that one of the others has.
proof fn lemma_not_before<T>(key: spec_fn(T) -> KeyModel, a: T, b: T, c: T)
    requires
        !key_before(key(b), key(a)),
        !key_before(key(c), key(b)),
    ensures
        !key_before(key(c), key(a)),
{
    lemma_key_total(key(a), key(b));
    lemma_key_total(key(b), key(c));
    if key_before(key(c), key(a)) {
        if key_before(key(a), key(b)) {
            lemma_key_transitive(key(c), key(a), key(b));
        }
    }
}

proof fn lemma_placed_ordered<T>(sorted: Seq<T>, item: T, key: spec_fn(T) -> KeyModel)
    requires
        is_ordered(sorted, key),
    ensures
        is_ordered(placed(sorted, item, key), key),
        placed(sorted, item, key).len() == sorted.len() + 1,
        forall|i: int|
            0 <= i < sorted.len() + 1 ==> #[trigger] placed(sorted, item, key)[i] == item || (
            exists|j: int| 0 <= j < sorted.len() && placed(sorted, item, key)[i] == sorted[j]),
    decreases sorted.len(),
{
    let result = placed(sorted, item, key);
    if sorted.len() > 0 && key_before(key(item), key(sorted.last())) {
        let shorter = sorted.drop_last();
        assert(is_ordered(shorter, key));
        lemma_placed_ordered(shorter, item, key);
        let inner = placed(shorter, item, key);
        assert forall|i: int| 0 <= i < sorted.len() + 1 implies #[trigger] result[i] == item || (
        exists|j: int| 0 <= j < sorted.len() && result[i] == sorted[j]) by {
            if i == sorted.len() {
                assert(result[i] == sorted[sorted.len() - 1]);
            } else {
                assert(result[i] == inner[i]);
                if inner[i] != item {
                    let j = choose|j: int| 0 <= j < shorter.len() && inner[i] == shorter[j];
                    assert(result[i] == sorted[j]);
                }
            }
        }
        assert forall|i: int, j: int| 0 <= i < j < result.len() implies !key_before(
            key(#[trigger] result[j]),
            key(#[trigger] result[i]),
        ) by {
            if j < inner.len() {
                assert(result[i] == inner[i] && result[j] == inner[j]);
            } else {
                assert(result[i] == inner[i]);
                if inner[i] == item {
                    if key_before(key(sorted.last()), key(item)) {
                        lemma_key_transitive(key(item), key(sorted.last()), key(item));
                    }
                } else {
                    let k = choose|k: int| 0 <= k < shorter.len() && inner[i] == shorter[k];
                    assert(sorted[k] == shorter[k]);
                    assert(sorted[sorted.len() - 1] == sorted.last());
                }
            }
        }
    } else {
        assert forall|i: int| 0 <= i < sorted.len() + 1 implies #[trigger] result[i] == item || (
        exists|j: int| 0 <= j < sorted.len() && result[i] == sorted[j]) by {
            if i < sorted.len() {
                assert(result[i] == sorted[i]);
            }
        }
        assert forall|i: int, j: int| 0 <= i < j < result.len() implies !key_before(
            key(#[trigger] result[j]),
            key(#[trigger] result[i]),
        ) by {
            if j < sorted.len() {
                assert(result[i] == sorted[i] && result[j] == sorted[j]);
            } else {
                assert(result[i] == sorted[i]);
                if i < sorted.len() - 1 {
                    assert(!key_before(key(sorted[sorted.len() - 1]), key(sorted[i])));
                    lemma_not_before(key, sorted[i], sorted.last(), item);
                }
            }
        }
    }
}

/// Sorting puts the items in order.
pub proof fn law_sorting_orders<T>(items: Seq<T>, key: spec_fn(T) -> KeyModel)
    ensures
        is_ordered(sorted_by(items, key), key),
        sorted_by(items, key).len() == items.len(),
    decreases items.len(),
{
    if items.len() > 0 {
        law_sorting_orders(items.drop_last(), key);
        lemma_placed_ordered(sorted_by(items.drop_last(), key), items.last(), key);
    }
}

proof fn lemma_filter_push<T>(s: Seq<T>, item: T, pred: spec_fn(T) -> bool)
    ensures
        s.push(item).filter(pred) == if pred(item) {
            s.filter(pred).push(item)
        } else {
            s.filter(pred)
        },
{
    reveal(Seq::filter);
    assert(s.push(item).drop_last() =~= s);
}

proof fn lemma_placed_stable<T>(
    sorted: Seq<T>,
    item: T,
    key: spec_fn(T) -> KeyModel,
    k: KeyModel,
)
    ensures
        with_key(placed(sorted, item, key), key, k) == with_key(sorted.push(item), key, k),
    decreases sorted.len(),
{
    let pred = has_key(key, k);
    if sorted.len() > 0 && key_before(key(item), key(sorted.last())) {
        let shorter = sorted.drop_last();
        lemma_key_irreflexive(key(item));
        lemma_placed_stable(shorter, item, key, k);
        lemma_filter_push(placed(shorter, item, key), sorted.last(), pred);
        lemma_filter_push(shorter, item, pred);
        lemma_filter_push(sorted, item, pred);
        lemma_filter_push(shorter, sorted.last(), pred);
        assert(shorter.push(sorted.last()) =~= sorted);
    }
}

/// Sorting keeps the items with each key, and their order among themselves: it neither drops nor
/// adds nor swaps any.
pub proof fn law_sorting_is_stable<T>(items: Seq<T>, key: spec_fn(T) -> KeyModel, k: KeyModel)
    ensures
        with_key(sorted_by(items, key), key, k) == with_key(items, key, k),
    decreases items.len(),
{
    if items.len() > 0 {
        let pred = has_key(key, k);
        let before = sorted_by(items.drop_last(), key);
        law_sorting_is_stable(items.drop_last(), key, k);
        lemma_placed_stable(before, items.last(), key, k);
        lemma_filter_push(before, items.last(), pred);
        lemma_filter_push(items.drop_last(), items.last(), pred);
        assert(items.drop_last().push(items.last()) =~= items);
    }
}

/// Sorting what is in order changes nothing.
pub proof fn law_sorting_keeps_order<T>(items: Seq<T>, key: spec_fn(T) -> KeyModel)
    requires
        is_ordered(items, key),
    ensures
        sorted_by(items, key) == items,
    decreases items.len(),
{
    if items.len() > 0 {
        let shorter = items.drop_last();
        assert(is_ordered(shorter, key));
        law_sorting_keeps_order(shorter, key);
        if shorter.len() > 0 {
            assert(!key_before(key(items[items.len() - 1]), key(items[items.len() - 2])));
        }
        assert(shorter.push(items.last()) =~= items);
    }
}

/// An item with a key is among the items with that key.
proof fn lemma_with_key_last<T>(items: Seq<T>, key: spec_fn(T) -> KeyModel)
    requires
        items.len() > 0,
    ensures
        with_key(items, key, key(items.last())).len() > 0,
        with_key(items, key, key(items.last())).last() == items.last(),
{
    let pred = has_key(key, key(items.last()));
    lemma_filter_push(items.drop_last(), items.last(), pred);
    assert(items.drop_last().push(items.last()) =~= items);
}

/// An item among those with a key is one of the items, and has the key.
proof fn lemma_with_key_source<T>(items: Seq<T>, key: spec_fn(T) -> KeyModel, k: KeyModel)
    requires
        with_key(items, key, k).len() > 0,
    ensures
        exists|i: int| 0 <= i < items.len() && key(#[trigger] items[i]) == k,
    decreases items.len(),
{
    let pred = has_key(key, k);
    reveal(Seq::filter);
    assert(items.len() > 0);
    if !pred(items.last()) {
        assert(items.drop_last().push(items.last()) =~= items);
        lemma_filter_push(items.drop_last(), items.last(), pred);
        lemma_with_key_source(items.drop_last(), key, k);
        let i = choose|i: int|
            0 <= i < items.drop_last().len() && key(#[trigger] items.drop_last()[i]) == k;
        assert(key(items[i]) == k);
    } else {
        assert(key(items[items.len() - 1]) == k);
    }
}

proof fn lemma_ordered_unique<T>(a: Seq<T>, b: Seq<T>, key: spec_fn(T) -> KeyModel)
    requires
        is_ordered(a, key),
        is_ordered(b, key),
        forall|k: KeyModel| #[trigger] with_key(a, key, k) == with_key(b, key, k),
    ensures
        a == b,
    decreases a.len(),
{
    if a.len() == 0 {
        if b.len() > 0 {
            lemma_with_key_last(b, key);
            assert(with_key(a, key, key(b.last())).len() > 0);
            lemma_with_key_source(a, key, key(b.last()));
        }
        assert(a =~= b);
    } else {
        let k = key(a.last());
        lemma_with_key_last(a, key);
        assert(with_key(a, key, k) == with_key(b, key, k));
        lemma_with_key_source(b, key, k);
        let l = key(b.last());
        lemma_with_key_last(b, key);
        assert(with_key(a, key, l) == with_key(b, key, l));
        lemma_with_key_source(a, key, l);
        let i = choose|i: int| 0 <= i < b.len() && key(#[trigger] b[i]) == k;
        let j = choose|j: int| 0 <= j < a.len() && key(#[trigger] a[j]) == l;
        if i < b.len() - 1 {
            assert(!key_before(key(b[b.len() - 1]), key(b[i])));
        }
        if j < a.len() - 1 {
            assert(!key_before(key(a[a.len() - 1]), key(a[j])));
        }
        lemma_key_total(k, l);
        lemma_key_irreflexive(k);
        assert(k == l);
        assert(a.last() == b.last());
        let shorter_a = a.drop_last();
        let shorter_b = b.drop_last();
        assert forall|m: KeyModel| #[trigger] with_key(shorter_a, key, m) == with_key(
            shorter_b,
            key,
            m,
        ) by {
            let pred = has_key(key, m);
            lemma_filter_push(shorter_a, a.last(), pred);
            lemma_filter_push(shorter_b, b.last(), pred);
            assert(shorter_a.push(a.last()) =~= a);
            assert(shorter_b.push(b.last()) =~= b);
            assert(with_key(a, key, m) == with_key(b, key, m));
            if pred(a.last()) {
                assert(with_key(shorter_a, key, m) =~= with_key(a, key, m).drop_last());
                assert(with_key(shorter_b, key, m) =~= with_key(b, key, m).drop_last());
            }
        }
        assert(is_ordered(shorter_a, key));
        assert(is_ordered(shorter_b, key));
        lemma_ordered_unique(shorter_a, shorter_b, key);
        assert(shorter_a.push(a.last()) =~= a);
        assert(shorter_b.push(b.last()) =~= b);
    }
}

/// The order in which items come matters to sorting only among items with equal keys.
pub proof fn law_sorting_ignores_order<T>(a: Seq<T>, b: Seq<T>, key: spec_fn(T) -> KeyModel)
    requires
        forall|k: KeyModel| #[trigger] with_key(a, key, k) == with_key(b, key, k),
    ensures
        sorted_by(a, key) == sorted_by(b, key),
{
    law_sorting_orders(a, key);
    law_sorting_orders(b, key);
    assert forall|k: KeyModel| #[trigger] with_key(sorted_by(a, key), key, k) == with_key(
        sorted_by(b, key),
        key,
        k,
    ) by {
        law_sorting_is_stable(a, key, k);
        law_sorting_is_stable(b, key, k);
        assert(with_key(a, key, k) == with_key(b, key, k));
    }
    lemma_ordered_unique(sorted_by(a, key), sorted_by(b, key), key);
}

proof fn lemma_placed_items<T>(sorted: Seq<T>, item: T, key: spec_fn(T) -> KeyModel, x: T)
    ensures
        placed(sorted, item, key).contains(x) == (sorted.contains(x) || x == item),
        placed(sorted, item, key).len() == sorted.len() + 1,
    decreases sorted.len(),
{
    if sorted.len() > 0 && key_before(key(item), key(sorted.last())) {
        lemma_placed_items(sorted.drop_last(), item, key, x);
        lemma_contains_last(sorted, x);
        lemma_contains_last(placed(sorted, item, key), x);
        assert(placed(sorted, item, key).drop_last() =~= placed(sorted.drop_last(), item, key));
    } else {
        lemma_contains_last(sorted.push(item), x);
        assert(sorted.push(item).drop_last() =~= sorted);
    }
}

proof fn lemma_contains_last<T>(s: Seq<T>, x: T)
    requires
        s.len() > 0,
    ensures
        s.contains(x) == (s.drop_last().contains(x) || s.last() == x),
{
    if s.contains(x) {
        let i = choose|i: int| 0 <= i < s.len() && s[i] == x;
        if i < s.len() - 1 {
            assert(s.drop_last()[i] == x);
        }
    }
    if s.drop_last().contains(x) {
        let i = choose|i: int| 0 <= i < s.drop_last().len() && s.drop_last()[i] == x;
        assert(s[i] == x);
    }
    if s.last() == x {
        assert(s[s.len() - 1] == x);
    }
}

proof fn lemma_placed_distinct<T>(sorted: Seq<T>, item: T, key: spec_fn(T) -> KeyModel)
    requires
        sorted.no_duplicates(),
        !sorted.contains(item),
    ensures
        placed(sorted, item, key).no_duplicates(),
    decreases sorted.len(),
{
    if sorted.len() > 0 && key_before(key(item), key(sorted.last())) {
        let shorter = sorted.drop_last();
        let rest = placed(shorter, item, key);
        lemma_contains_last(sorted, item);
        lemma_placed_distinct(shorter, item, key);
        lemma_placed_items(shorter, item, key, sorted.last());
        assert(!rest.contains(sorted.last())) by {
            if shorter.contains(sorted.last()) {
                let i = choose|i: int| 0 <= i < shorter.len() && shorter[i] == sorted.last();
                assert(sorted[i] == sorted[sorted.len() - 1]);
            }
            assert(sorted.contains(sorted[sorted.len() - 1]));
        }
        assert forall|i: int, j: int|
            0 <= i < rest.len() + 1 && 0 <= j < rest.len() + 1 && i != j implies rest.push(
            sorted.last(),
        )[i] != rest.push(sorted.last())[j] by {
            if i < rest.len() {
                assert(rest.contains(rest[i]));
            }
            if j < rest.len() {
                assert(rest.contains(rest[j]));
            }
        }
    } else {
        assert forall|i: int, j: int|
            0 <= i < sorted.len() + 1 && 0 <= j < sorted.len() + 1 && i != j implies sorted.push(
            item,
        )[i] != sorted.push(item)[j] by {
            if i < sorted.len() {
                assert(sorted.contains(sorted[i]));
            }
            if j < sorted.len() {
                assert(sorted.contains(sorted[j]));
            }
        }
    }
}

/// Sorting items of which none occurs twice repeats none.
pub proof fn law_sorting_repeats_none<T>(items: Seq<T>, key: spec_fn(T) -> KeyModel)
    requires
        items.no_duplicates(),
    ensures
        sorted_by(items, key).no_duplicates(),
    decreases items.len(),
{
    if items.len() > 0 {
        let shorter = items.drop_last();
        law_sorting_repeats_none(shorter, key);
        law_sorting_keeps_items(shorter, key);
        assert(!shorter.contains(items.last())) by {
            if shorter.contains(items.last()) {
                let i = choose|i: int| 0 <= i < shorter.len() && shorter[i] == items.last();
                assert(items[i] == items[items.len() - 1]);
            }
        }
        assert(sorted_by(shorter, key).contains(items.last()) == shorter.contains(items.last()));
        lemma_placed_distinct(sorted_by(shorter, key), items.last(), key);
    }
}

/// Sorting neither adds nor loses an item.
pub proof fn law_sorting_keeps_items<T>(items: Seq<T>, key: spec_fn(T) -> KeyModel)
    ensures
        sorted_by(items, key).len() == items.len(),
        forall|x: T| #[trigger] sorted_by(items, key).contains(x) == items.contains(x),
    decreases items.len(),
{
    if items.len() > 0 {
        let before = sorted_by(items.drop_last(), key);
        law_sorting_keeps_items(items.drop_last(), key);
        assert forall|x: T| #[trigger]
            sorted_by(items, key).contains(x) == items.contains(x) by {
            lemma_placed_items(before, items.last(), key, x);
            lemma_contains_last(items, x);
            assert(before.contains(x) == items.drop_last().contains(x));
        }
        lemma_placed_items(before, items.last(), key, items.last());
    }
}

/// Adding an item to a sequence adds it to the multiset.
pub proof fn lemma_multiset_push<T>(s: Seq<T>, item: T)
    ensures
        s.push(item).to_multiset() == s.to_multiset().insert(item),
{
    broadcast use vstd::seq_lib::group_to_multiset_ensures;

}

proof fn lemma_placed_multiset<T>(sorted: Seq<T>, item: T, key: spec_fn(T) -> KeyModel)
    ensures
        placed(sorted, item, key).to_multiset() == sorted.to_multiset().insert(item),
    decreases sorted.len(),
{
    lemma_multiset_push(sorted, item);
    if sorted.len() > 0 && key_before(key(item), key(sorted.last())) {
        let shorter = sorted.drop_last();
        lemma_placed_multiset(shorter, item, key);
        lemma_multiset_push(placed(shorter, item, key), sorted.last());
        lemma_multiset_push(shorter, sorted.last());
        assert(shorter.push(sorted.last()) =~= sorted);
        assert(shorter.to_multiset().insert(item).insert(sorted.last())
            =~= shorter.to_multiset().insert(sorted.last()).insert(item));
    }
}

/// Sorting permutes: each item occurs as often as before.
pub proof fn law_sorting_permutes<T>(items: Seq<T>, key: spec_fn(T) -> KeyModel)
    ensures
        sorted_by(items, key).to_multiset() == items.to_multiset(),
    decreases items.len(),
{
    if items.len() > 0 {
        let shorter = items.drop_last();
        law_sorting_permutes(shorter, key);
        lemma_placed_multiset(sorted_by(shorter, key), items.last(), key);
        lemma_multiset_push(shorter, items.last());
        assert(shorter.push(items.last()) =~= items);
    }
}

} // verus!
