//! What the operations are for, in terms of what goes in and what comes out.

pub mod combine;
pub mod dates;
pub mod discovery;
pub mod documents;
pub mod fill;
pub mod previews;
pub mod queries;
pub mod seasons;
pub mod service;
pub mod text;
pub mod titles;
pub mod tvmaze;

use crate::ordering::{has_key, law_sorting_is_stable, sorted_by, KeyModel};
use vstd::prelude::*;

verus! {

/// A result is picked out of a sequence at some positions: these ascend, none that gives something
/// is left out, and each gives what stands in the result.
pub open spec fn picked_at<A, B>(
    from: Seq<A>,
    result: Seq<B>,
    pick: spec_fn(A) -> Option<B>,
    at: Seq<int>,
) -> bool {
    &&& at.len() == result.len()
    &&& forall|k: int|
        0 <= k < at.len() ==> 0 <= #[trigger] at[k] < from.len() && pick(from[at[k]]) == Some(
            result[k],
        )
    &&& forall|k: int, l: int| 0 <= k < l < at.len() ==> #[trigger] at[k] < #[trigger] at[l]
    &&& forall|i: int|
        0 <= i < from.len() && pick(#[trigger] from[i]) is Some ==> at.contains(i)
}

/// A result is what is picked out of a sequence, in its order, all of it and nothing twice.
pub open spec fn picks<A, B>(
    from: Seq<A>,
    result: Seq<B>,
    pick: spec_fn(A) -> Option<B>,
) -> bool {
    exists|at: Seq<int>| #[trigger] picked_at(from, result, pick, at)
}

pub proof fn lemma_picks_nothing<A, B>(
    from: Seq<A>,
    result: Seq<B>,
    pick: spec_fn(A) -> Option<B>,
)
    requires
        from.len() == 0,
        result.len() == 0,
    ensures
        picks(from, result, pick),
{
    assert(picked_at(from, result, pick, Seq::empty()));
}

/// What is picked grows by what the last item gives.
pub proof fn lemma_picks_last<A, B>(
    from: Seq<A>,
    before: Seq<B>,
    pick: spec_fn(A) -> Option<B>,
)
    requires
        from.len() > 0,
        picks(from.drop_last(), before, pick),
    ensures
        picks(
            from,
            match pick(from.last()) {
                Some(value) => before.push(value),
                None => before,
            },
            pick,
        ),
{
    let shorter = from.drop_last();
    let at = choose|at: Seq<int>| #[trigger] picked_at(shorter, before, pick, at);
    let last = from.len() - 1;
    match pick(from.last()) {
        Some(value) => {
            let more = at.push(last);
            assert forall|i: int|
                0 <= i < from.len() && pick(#[trigger] from[i]) is Some implies more.contains(
                i,
            ) by {
                if i < last {
                    assert(shorter[i] == from[i]);
                    let k = choose|k: int| 0 <= k < at.len() && at[k] == i;
                    assert(more[k] == i);
                } else {
                    assert(more[at.len() as int] == i);
                }
            }
            assert forall|k: int| 0 <= k < more.len() implies 0 <= #[trigger] more[k] < from.len()
                && pick(from[more[k]]) == Some(before.push(value)[k]) by {
                if k < at.len() {
                    assert(more[k] == at[k]);
                    assert(shorter[at[k]] == from[at[k]]);
                }
            }
            assert(picked_at(from, before.push(value), pick, more));
        },
        None => {
            assert forall|i: int|
                0 <= i < from.len() && pick(#[trigger] from[i]) is Some implies at.contains(i) by {
                assert(shorter[i] == from[i]);
            }
            assert forall|k: int| 0 <= k < at.len() implies 0 <= #[trigger] at[k] < from.len()
                && pick(from[at[k]]) == Some(before[k]) by {
                assert(shorter[at[k]] == from[at[k]]);
            }
            assert(picked_at(from, before, pick, at));
        },
    }
}

/// Picks the items with a property, as they are.
pub open spec fn those<A>(pred: spec_fn(A) -> bool) -> spec_fn(A) -> Option<A> {
    |a: A|
        if pred(a) {
            Some(a)
        } else {
            None
        }
}

pub proof fn lemma_filter_picks<A>(s: Seq<A>, pred: spec_fn(A) -> bool)
    ensures
        picks(s, s.filter(pred), those(pred)),
    decreases s.len(),
{
    reveal(Seq::filter);
    if s.len() == 0 {
        lemma_picks_nothing(s, s.filter(pred), those(pred));
    } else {
        lemma_filter_picks(s.drop_last(), pred);
        lemma_picks_last(s, s.drop_last().filter(pred), those(pred));
    }
}

/// Items that are sorted by equal keys stand in the order in which they came.
pub proof fn law_ties_keep_their_order<T>(
    items: Seq<T>,
    key: spec_fn(T) -> KeyModel,
    i: int,
    j: int,
)
    requires
        0 <= i < j < sorted_by(items, key).len(),
        key(sorted_by(items, key)[i]) == key(sorted_by(items, key)[j]),
    ensures
        exists|a: int, b: int|
            0 <= a < b < items.len() && #[trigger] items[a] == sorted_by(items, key)[i]
                && #[trigger] items[b] == sorted_by(items, key)[j],
{
    let sorted = sorted_by(items, key);
    let k = key(sorted[i]);
    let pred = has_key(key, k);
    law_sorting_is_stable(items, key, k);
    lemma_filter_picks(sorted, pred);
    lemma_filter_picks(items, pred);
    let same = items.filter(pred);
    let from = choose|at: Seq<int>| #[trigger] picked_at(sorted, same, those(pred), at);
    let to = choose|at: Seq<int>| #[trigger] picked_at(items, same, those(pred), at);
    assert(those(pred)(sorted[i]) is Some && those(pred)(sorted[j]) is Some);
    let p = choose|p: int| 0 <= p < from.len() && from[p] == i;
    let q = choose|q: int| 0 <= q < from.len() && from[q] == j;
    assert(p < q) by {
        if q < p {
            assert(from[q] < from[p]);
        }
    }
    assert(to[p] < to[q]);
    assert(items[to[p]] == sorted[i] && items[to[q]] == sorted[j]);
}

} // verus!
