//! Calling the distance kernel.
//!
//! The library does no arithmetic on the numbers it stores. A query comes
//! with a kernel: a function that, given the metric in force, the query point
//! and a stored point, returns the bit pattern of the distance between them.
//! The library promises the kernel that both points have the same length.

use rayon::prelude::{IntoParallelRefIterator, ParallelIterator};
use vstd::prelude::*;
use crate::index::{Entry, Point};
use crate::metrics::Metric;

verus! {

/// The kernel may be called on any two points of the same length.
pub open spec fn kernel_accepts<K: Fn(Metric, &Point, &Point) -> u32>(kernel: &K) -> bool {
    forall|m: Metric, q: Point, p: Point|
        q.coords@.len() == p.coords@.len() ==> call_requires(*kernel, (m, &q, &p))
}

/// `scored` holds, position by position, the id of each entry and a distance
/// that the kernel returned for the query and that entry's point.
pub open spec fn scored_by<K: Fn(Metric, &Point, &Point) -> u32>(
    kernel: &K,
    metric: Metric,
    query: Point,
    entries: Seq<Entry>,
    scored: Seq<(i64, u32)>,
) -> bool {
    &&& scored.len() == entries.len()
    &&& forall|i: int|
        0 <= i < entries.len() ==> (#[trigger] scored[i]).0 == entries[i].id && call_ensures(
            *kernel,
            (metric, &query, &entries[i].point),
            scored[i].1,
        )
}

/// Measures the distance from the query to one entry.
pub fn score_entry<K: Fn(Metric, &Point, &Point) -> u32>(
    kernel: &K,
    metric: Metric,
    query: &Point,
    entry: &Entry,
) -> (scored: (i64, u32))
    requires
        call_requires(*kernel, (metric, query, &entry.point)),
    ensures
        scored.0 == entry.id,
        call_ensures(*kernel, (metric, query, &entry.point), scored.1),
{
    (entry.id, kernel(metric, query, &entry.point))
}

/// Measures the distance from the query to every entry, on the worker
/// threads of rayon's pool.
///
/// Calls `par_iter`, `map` and `collect` of rayon on the entries. Relied on:
/// the closure is applied to each entry once, and the results are collected
/// in the order of the entries.
#[verifier::external_body]
pub(crate) fn score_all<K: Fn(Metric, &Point, &Point) -> u32 + Sync>(
    kernel: &K,
    metric: Metric,
    query: &Point,
    entries: &Vec<Entry>,
) -> (scored: Vec<(i64, u32)>)
    requires
        forall|i: int|
            0 <= i < entries@.len() ==> call_requires(
                *kernel,
                (metric, query, &(#[trigger] entries@[i]).point),
            ),
    ensures
        scored_by(kernel, metric, *query, entries@, scored@),
{
    entries.par_iter().map(|entry| score_entry(kernel, metric, query, entry)).collect()
}

/// The filter may be called on any id.
pub open spec fn filter_accepts<F: Fn(i64) -> bool>(filter: &F) -> bool {
    forall|id: i64| call_requires(*filter, (id,))
}

/// `keep` holds, position by position, what the filter returned for the id
/// of each entry.
pub open spec fn filtered_by<F: Fn(i64) -> bool>(
    filter: &F,
    entries: Seq<Entry>,
    keep: Seq<bool>,
) -> bool {
    &&& keep.len() == entries.len()
    &&& forall|i: int|
        0 <= i < entries.len() ==> call_ensures(*filter, (entries[i].id,), #[trigger] keep[i])
}

/// The items at the positions where `keep` holds `true`, in their order.
pub open spec fn kept<T>(items: Seq<T>, keep: Seq<bool>) -> Seq<T>
    decreases items.len(),
{
    if items.len() == 0 {
        Seq::empty()
    } else if keep.last() {
        kept(items.drop_last(), keep.drop_last()).push(items.last())
    } else {
        kept(items.drop_last(), keep.drop_last())
    }
}

/// Keeping or dropping one more item at the end.
pub proof fn lemma_kept_push<T>(items: Seq<T>, keep: Seq<bool>, item: T, flag: bool)
    requires
        items.len() == keep.len(),
    ensures
        kept(items.push(item), keep.push(flag)) == if flag {
            kept(items, keep).push(item)
        } else {
            kept(items, keep)
        },
{
    assert(items.push(item).drop_last() =~= items);
    assert(keep.push(flag).drop_last() =~= keep);
}

/// No more items are kept than there are.
pub proof fn lemma_kept_len<T>(items: Seq<T>, keep: Seq<bool>)
    requires
        items.len() == keep.len(),
    ensures
        kept(items, keep).len() <= items.len(),
    decreases items.len(),
{
    if items.len() > 0 {
        lemma_kept_len(items.drop_last(), keep.drop_last());
    }
}

/// Every item that is kept stands in the list at a position where `keep`
/// holds `true`.
pub proof fn lemma_kept_member<T>(items: Seq<T>, keep: Seq<bool>, j: int)
    requires
        items.len() == keep.len(),
        0 <= j < kept(items, keep).len(),
    ensures
        exists|i: int| 0 <= i < items.len() && keep[i] && items[i] == kept(items, keep)[j],
    decreases items.len(),
{
    let last = items.len() - 1;
    let rest = kept(items.drop_last(), keep.drop_last());
    if keep.last() && j == rest.len() {
        assert(keep[last] && items[last] == kept(items, keep)[j]);
    } else {
        lemma_kept_member(items.drop_last(), keep.drop_last(), j);
        let i = choose|i: int|
            0 <= i < items.drop_last().len() && keep.drop_last()[i] && items.drop_last()[i]
                == rest[j];
        assert(keep[i] && items[i] == kept(items, keep)[j]);
    }
}

} // verus!
