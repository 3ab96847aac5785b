//! Ranking candidates by distance and cutting the ranking to the `k` nearest.
//!
//! Candidates are known by their position in the list of distances handed in.
//! A candidate comes before another when its distance is smaller, and, when
//! the two distances compare equal, when it stands earlier in the list. A
//! distance that is no number counts as larger than every number and as equal
//! to every other such distance.

use vstd::prelude::*;
use crate::scalar::{key_of, order_key};

verus! {

/// Candidate `a` is ranked strictly before candidate `b`.
pub open spec fn precedes(dists: Seq<u32>, a: int, b: int) -> bool {
    order_key(dists[a]) < order_key(dists[b]) || (order_key(dists[a]) == order_key(dists[b]) && a
        < b)
}

/// `picks` lists the nearest candidates among the first `n`, at most `k` of
/// them, nearest first.
pub open spec fn is_ranking_of_prefix(dists: Seq<u32>, n: int, k: int, picks: Seq<int>) -> bool {
    &&& picks.len() == if k <= n { k } else { n }
    &&& forall|j: int| 0 <= j < picks.len() ==> 0 <= #[trigger] picks[j] < n
    &&& forall|a: int, b: int|
        0 <= a < b < picks.len() ==> precedes(dists, #[trigger] picks[a], #[trigger] picks[b])
    &&& forall|p: int, j: int|
        0 <= p < n && 0 <= j < picks.len() && !picks.contains(p) ==> #[trigger] precedes(
            dists,
            picks[j],
            p,
        )
}

/// `picks` is the answer to a query for the `k` nearest of all candidates:
/// it names `min(k, dists.len())` positions, each candidate in it comes before
/// the ones after it, and every candidate left out comes after all of them.
pub open spec fn is_ranking(dists: Seq<u32>, k: int, picks: Seq<int>) -> bool {
    is_ranking_of_prefix(dists, dists.len() as int, k, picks)
}

/// The positions held by a vector of indices.
pub open spec fn positions(picks: Seq<usize>) -> Seq<int> {
    picks.map_values(|p: usize| p as int)
}

/// The ranking of the `k` nearest candidates. There is one, which
/// [`rank_nearest`] computes, and only one, by [`lemma_ranking_is_unique`].
pub open spec fn nearest(dists: Seq<u32>, k: int) -> Seq<int> {
    choose|picks: Seq<int>| is_ranking(dists, k, picks)
}

/// The items of `items` at the positions `picks`, in the order of `picks`.
pub open spec fn picked<T>(items: Seq<T>, picks: Seq<int>) -> Seq<T> {
    picks.map_values(|p: int| items[p])
}

/// The distances do not decrease along the list.
pub open spec fn ascending(dists: Seq<u32>) -> bool {
    forall|a: int, b: int|
        0 <= a <= b < dists.len() ==> order_key(#[trigger] dists[a]) <= order_key(
            #[trigger] dists[b],
        )
}

/// The ids of a list of scored candidates.
pub open spec fn ids_of(scored: Seq<(i64, u32)>) -> Seq<i64> {
    scored.map_values(|s: (i64, u32)| s.0)
}

/// The distances of a list of scored candidates.
pub open spec fn scores_of(scored: Seq<(i64, u32)>) -> Seq<u32> {
    scored.map_values(|s: (i64, u32)| s.1)
}

/// A ranking, once found, is the ranking.
pub proof fn lemma_ranking_is_nearest(dists: Seq<u32>, k: int, picks: Seq<int>)
    requires
        is_ranking(dists, k, picks),
    ensures
        picks == nearest(dists, k),
        is_ranking(dists, k, nearest(dists, k)),
{
    lemma_ranking_is_unique(dists, k, picks, nearest(dists, k));
}

/// The distances taken in the order of a ranking do not decrease.
pub proof fn lemma_ranking_ascends(dists: Seq<u32>, k: int, picks: Seq<int>)
    requires
        is_ranking(dists, k, picks),
    ensures
        ascending(picked(dists, picks)),
{
    let out = picked(dists, picks);
    assert forall|a: int, b: int| 0 <= a <= b < out.len() implies order_key(#[trigger] out[a])
        <= order_key(#[trigger] out[b]) by {
        if a < b {
            assert(precedes(dists, picks[a], picks[b]));
        }
    }
}

/// There is only one ranking: two lists that both answer the same query are
/// the same list.
pub proof fn lemma_ranking_is_unique(dists: Seq<u32>, k: int, first: Seq<int>, second: Seq<int>)
    requires
        is_ranking(dists, k, first),
        is_ranking(dists, k, second),
    ensures
        first == second,
{
    assert(first.len() == second.len());
    assert forall|j: int| 0 <= j < first.len() implies first[j] == second[j] by {
        lemma_rankings_agree_at(dists, k, first, second, j);
    }
    assert(first =~= second);
}

proof fn lemma_rankings_agree_at(
    dists: Seq<u32>,
    k: int,
    first: Seq<int>,
    second: Seq<int>,
    j: int,
)
    requires
        is_ranking(dists, k, first),
        is_ranking(dists, k, second),
        0 <= j < first.len(),
    ensures
        first[j] == second[j],
    decreases j,
{
    assert forall|i: int| 0 <= i < j implies first[i] == second[i] by {
        lemma_rankings_agree_at(dists, k, first, second, i);
    }
    if precedes(dists, first[j], second[j]) {
        lemma_earlier_candidate_is_picked(dists, second, first, j);
    } else {
        lemma_earlier_candidate_is_picked(dists, first, second, j);
    }
}

/// Two rankings that agree before `j` agree at `j` as well, unless the pick
/// of the first comes strictly before the pick of the second.
proof fn lemma_earlier_candidate_is_picked(
    dists: Seq<u32>,
    picks: Seq<int>,
    other: Seq<int>,
    j: int,
)
    requires
        picks.len() == other.len(),
        0 <= j < picks.len(),
        forall|i: int| 0 <= i < picks.len() ==> 0 <= #[trigger] picks[i] < dists.len(),
        forall|i: int| 0 <= i < other.len() ==> 0 <= #[trigger] other[i] < dists.len(),
        forall|a: int, b: int|
            0 <= a < b < picks.len() ==> precedes(dists, #[trigger] picks[a], #[trigger] picks[b]),
        forall|a: int, b: int|
            0 <= a < b < other.len() ==> precedes(dists, #[trigger] other[a], #[trigger] other[b]),
        forall|p: int, i: int|
            0 <= p < dists.len() && 0 <= i < picks.len() && !picks.contains(p)
                ==> #[trigger] precedes(dists, picks[i], p),
        forall|i: int| 0 <= i < j ==> picks[i] == other[i],
        !precedes(dists, picks[j], other[j]),
    ensures
        picks[j] == other[j],
{
    let p = other[j];
    if picks[j] == p {
    } else if picks.contains(p) {
        let i = choose|i: int| 0 <= i < picks.len() && picks[i] == p;
        if i < j {
            assert(precedes(dists, other[i], other[j]));
        } else if i > j {
            assert(precedes(dists, picks[j], picks[i]));
        }
    } else {
        assert(precedes(dists, picks[j], p));
    }
}

/// Ranks by keeping the `k` nearest seen so far in order while the
/// candidates are gone through once: cheap where `k` is small.
fn rank_by_insertion(dists: &Vec<u32>, k: usize) -> (picks: Vec<usize>)
    ensures
        is_ranking(dists@, k as int, positions(picks@)),
{
    let mut picks: Vec<usize> = Vec::new();
    let mut i: usize = 0;
    while i < dists.len()
        invariant
            i <= dists.len(),
            is_ranking_of_prefix(dists@, i as int, k as int, positions(picks@)),
            picks.len() < k ==> forall|p: int| 0 <= p < i ==> positions(picks@).contains(p),
        decreases dists.len() - i,
    {
        let key: i64 = key_of(dists[i]);
        let ghost before = positions(picks@);
        proof {
            assert forall|j: int| 0 <= j < picks.len() implies 0 <= #[trigger] picks@[j] < i by {
                assert(before[j] == picks@[j]);
            }
        }
        let mut at: usize = picks.len();
        while at > 0 && key_of(dists[picks[at - 1]]) > key
            invariant
                at <= picks.len(),
                i < dists.len(),
                key == order_key(dists@[i as int]),
                forall|j: int| 0 <= j < picks.len() ==> 0 <= #[trigger] picks@[j] < i,
                forall|j: int|
                    at <= j < picks.len() ==> order_key(dists@[#[trigger] picks@[j] as int]) > key,
            decreases at,
        {
            at = at - 1;
        }
        proof {
            assert forall|j: int| 0 <= j < at implies order_key(
                dists@[#[trigger] before[j]],
            ) <= key by {
                assert(precedes(dists@, before[j], before[at - 1]) || j == at - 1);
            }
            assert forall|j: int| 0 <= j < picks.len() implies before[j] == picks@[j] as int by {}
        }
        if at < k {
            picks.insert(at, i);
            let ghost grown = positions(picks@);
            proof {
                assert(grown =~= before.insert(at as int, i as int));
                assert forall|j: int| 0 <= j < grown.len() implies (if j < at {
                    grown[j] == before[j]
                } else if j == at {
                    grown[j] == i
                } else {
                    grown[j] == before[j - 1]
                }) by {}
                assert forall|p: int| before.contains(p) implies grown.contains(p) by {
                    let j = choose|j: int| 0 <= j < before.len() && before[j] == p;
                    if j < at {
                        assert(grown[j] == p);
                    } else {
                        assert(grown[j + 1] == p);
                    }
                }
                assert(grown[at as int] == i);
                assert(grown.contains(i as int));
            }
            if picks.len() > k {
                let dropped = picks.pop();
                proof {
                    let kept = positions(picks@);
                    let last = before[before.len() - 1];
                    assert(kept =~= grown.drop_last());
                    assert(grown[grown.len() - 1] == last);
                    assert forall|p: int, j: int|
                        0 <= p < i + 1 && 0 <= j < kept.len() && !kept.contains(
                            p,
                        ) implies #[trigger] precedes(dists@, kept[j], p) by {
                        assert(kept[j] == grown[j]);
                        if p == last {
                            assert(precedes(dists@, grown[j], grown[grown.len() - 1]));
                        } else {
                            assert(p != i) by {
                                assert(kept[at as int] == i);
                            }
                            if before.contains(p) {
                                let q = choose|q: int| 0 <= q < before.len() && before[q] == p;
                                if q < at {
                                    assert(kept[q] == p);
                                } else {
                                    assert(kept[q + 1] == p);
                                }
                            }
                            assert(precedes(dists@, last, p));
                            assert(precedes(dists@, grown[j], last));
                        }
                    }
                }
            } else {
                proof {
                    assert forall|p: int, j: int|
                        0 <= p < i + 1 && 0 <= j < grown.len() && !grown.contains(
                            p,
                        ) implies #[trigger] precedes(dists@, grown[j], p) by {
                        assert(before.contains(p));
                    }
                }
            }
        } else {
            proof {
                assert(at == picks.len());
                assert forall|p: int, j: int|
                    0 <= p < i + 1 && 0 <= j < before.len() && !before.contains(
                        p,
                    ) implies #[trigger] precedes(dists@, before[j], p) by {
                    if p == i {
                        assert(order_key(dists@[before[j]]) <= key);
                    }
                }
            }
        }
        i = i + 1;
    }
    picks
}

/// Tests whether candidate `a` is ranked strictly before candidate `b`.
fn comes_before(dists: &Vec<u32>, a: usize, b: usize) -> (before: bool)
    requires
        a < dists.len(),
        b < dists.len(),
    ensures
        before == precedes(dists@, a as int, b as int),
{
    let ka: i64 = key_of(dists[a]);
    let kb: i64 = key_of(dists[b]);
    ka < kb || (ka == kb && a < b)
}

/// `run` holds candidates in ranked order, each once.
pub open spec fn is_ranked(dists: Seq<u32>, run: Seq<int>) -> bool {
    &&& forall|j: int| 0 <= j < run.len() ==> 0 <= #[trigger] run[j] < dists.len()
    &&& forall|a: int, b: int|
        0 <= a < b < run.len() ==> precedes(dists, #[trigger] run[a], #[trigger] run[b])
}

/// Merges two ranked runs that share no candidate into one ranked run of
/// the candidates of both.
fn merge_ranked(dists: &Vec<u32>, left: &Vec<usize>, right: &Vec<usize>) -> (out: Vec<usize>)
    requires
        is_ranked(dists@, positions(left@)),
        is_ranked(dists@, positions(right@)),
        forall|i: int, j: int|
            0 <= i < left@.len() && 0 <= j < right@.len() ==> left@[i] != right@[j],
    ensures
        is_ranked(dists@, positions(out@)),
        out@.len() == left@.len() + right@.len(),
        forall|p: int|
            positions(out@).contains(p) <==> positions(left@).contains(p) || positions(
                right@,
            ).contains(p),
{
    let ghost l = positions(left@);
    let ghost r = positions(right@);
    let mut out: Vec<usize> = Vec::with_capacity(left.len());
    let mut i: usize = 0;
    let mut j: usize = 0;
    while i < left.len() || j < right.len()
        invariant
            i <= left.len(),
            j <= right.len(),
            l == positions(left@),
            r == positions(right@),
            is_ranked(dists@, l),
            is_ranked(dists@, r),
            forall|a: int, b: int| 0 <= a < l.len() && 0 <= b < r.len() ==> l[a] != r[b],
            out@.len() == i + j,
            is_ranked(dists@, positions(out@)),
            forall|a: int, b: int|
                0 <= a < out@.len() && i <= b < l.len() ==> precedes(
                    dists@,
                    #[trigger] positions(out@)[a],
                    #[trigger] l[b],
                ),
            forall|a: int, b: int|
                0 <= a < out@.len() && j <= b < r.len() ==> precedes(
                    dists@,
                    #[trigger] positions(out@)[a],
                    #[trigger] r[b],
                ),
            forall|p: int|
                positions(out@).contains(p) <==> l.take(i as int).contains(p) || r.take(
                    j as int,
                ).contains(p),
        decreases left.len() - i + (right.len() - j),
    {
        let ghost before = positions(out@);
        let from_left: bool = if i >= left.len() {
            false
        } else if j >= right.len() {
            true
        } else {
            assert(l[i as int] == left@[i as int] && r[j as int] == right@[j as int]);
            comes_before(dists, left[i], right[j])
        };
        if from_left {
            let x: usize = left[i];
            assert(l[i as int] == x);
            out.push(x);
            proof {
                let after = positions(out@);
                assert(after =~= before.push(x as int));
                assert(l.take(i + 1) =~= l.take(i as int).push(x as int));
                assert forall|a: int, b: int|
                    0 <= a < after.len() && j <= b < r.len() implies precedes(
                    dists@,
                    #[trigger] after[a],
                    #[trigger] r[b],
                ) by {
                    if a == before.len() {
                        assert(precedes(dists@, l[i as int], r[j as int]));
                        if b > j {
                            assert(precedes(dists@, r[j as int], r[b]));
                        }
                    } else {
                        assert(after[a] == before[a]);
                    }
                }
                assert forall|a: int, b: int|
                    0 <= a < after.len() && i + 1 <= b < l.len() implies precedes(
                    dists@,
                    #[trigger] after[a],
                    #[trigger] l[b],
                ) by {
                    if a == before.len() {
                        assert(precedes(dists@, l[i as int], l[b]));
                    } else {
                        assert(after[a] == before[a]);
                    }
                }
                assert forall|a: int, b: int| 0 <= a < b < after.len() implies precedes(
                    dists@,
                    #[trigger] after[a],
                    #[trigger] after[b],
                ) by {
                    if b == before.len() {
                        assert(after[a] == before[a]);
                        assert(precedes(dists@, before[a], l[i as int]));
                    } else {
                        assert(after[a] == before[a] && after[b] == before[b]);
                    }
                }
                assert forall|p: int|
                    after.contains(p) <==> l.take(i + 1).contains(p) || r.take(j as int).contains(
                        p,
                    ) by {
                    lemma_contains_push(before, x as int, p);
                    lemma_contains_push(l.take(i as int), x as int, p);
                }
            }
            i = i + 1;
        } else {
            let x: usize = right[j];
            assert(r[j as int] == x);
            out.push(x);
            proof {
                let after = positions(out@);
                assert(after =~= before.push(x as int));
                assert(r.take(j + 1) =~= r.take(j as int).push(x as int));
                assert forall|a: int, b: int|
                    0 <= a < after.len() && i <= b < l.len() implies precedes(
                    dists@,
                    #[trigger] after[a],
                    #[trigger] l[b],
                ) by {
                    if a == before.len() {
                        assert(!precedes(dists@, l[i as int], r[j as int]));
                        assert(l[i as int] != r[j as int]);
                        assert(precedes(dists@, r[j as int], l[i as int]));
                        if b > i {
                            assert(precedes(dists@, l[i as int], l[b]));
                        }
                    } else {
                        assert(after[a] == before[a]);
                    }
                }
                assert forall|a: int, b: int|
                    0 <= a < after.len() && j + 1 <= b < r.len() implies precedes(
                    dists@,
                    #[trigger] after[a],
                    #[trigger] r[b],
                ) by {
                    if a == before.len() {
                        assert(precedes(dists@, r[j as int], r[b]));
                    } else {
                        assert(after[a] == before[a]);
                    }
                }
                assert forall|a: int, b: int| 0 <= a < b < after.len() implies precedes(
                    dists@,
                    #[trigger] after[a],
                    #[trigger] after[b],
                ) by {
                    if b == before.len() {
                        assert(after[a] == before[a]);
                        assert(precedes(dists@, before[a], r[j as int]));
                    } else {
                        assert(after[a] == before[a] && after[b] == before[b]);
                    }
                }
                assert forall|p: int|
                    after.contains(p) <==> l.take(i as int).contains(p) || r.take(j + 1).contains(
                        p,
                    ) by {
                    lemma_contains_push(before, x as int, p);
                    lemma_contains_push(r.take(j as int), x as int, p);
                }
            }
            j = j + 1;
        }
    }
    proof {
        assert(l.take(i as int) =~= l);
        assert(r.take(j as int) =~= r);
    }
    out
}

/// What a list holds after one more item was put at its end.
proof fn lemma_contains_push(items: Seq<int>, x: int, p: int)
    ensures
        items.push(x).contains(p) <==> items.contains(p) || p == x,
{
    if items.contains(p) {
        let i = choose|i: int| 0 <= i < items.len() && items[i] == p;
        assert(items.push(x)[i] == p);
    }
    if p == x {
        assert(items.push(x)[items.len() as int] == p);
    }
    if items.push(x).contains(p) {
        let i = choose|i: int| 0 <= i < items.push(x).len() && items.push(x)[i] == p;
        if i < items.len() {
            assert(items[i] == p);
        }
    }
}

/// Ranks the candidates at the positions from `lo` up to `hi` by merge
/// sort.
fn rank_run(dists: &Vec<u32>, lo: usize, hi: usize) -> (run: Vec<usize>)
    requires
        lo <= hi <= dists.len(),
    ensures
        is_ranked(dists@, positions(run@)),
        run@.len() == hi - lo,
        forall|p: int| positions(run@).contains(p) <==> lo <= p < hi,
    decreases hi - lo,
{
    if hi - lo == 0 {
        let run: Vec<usize> = Vec::new();
        assert forall|p: int| positions(run@).contains(p) <==> lo <= p < hi by {}
        run
    } else if hi - lo == 1 {
        let mut run: Vec<usize> = Vec::new();
        run.push(lo);
        proof {
            assert(positions(run@) =~= Seq::<int>::empty().push(lo as int));
            assert forall|p: int| positions(run@).contains(p) <==> lo <= p < hi by {
                lemma_contains_push(Seq::<int>::empty(), lo as int, p);
            }
        }
        run
    } else {
        let mid: usize = lo + (hi - lo) / 2;
        let left = rank_run(dists, lo, mid);
        let right = rank_run(dists, mid, hi);
        proof {
            assert forall|i: int, j: int|
                0 <= i < left@.len() && 0 <= j < right@.len() implies left@[i] != right@[j] by {
                assert(positions(left@)[i] == left@[i]);
                assert(positions(right@)[j] == right@[j]);
                assert(positions(left@).contains(left@[i] as int));
                assert(positions(right@).contains(right@[j] as int));
            }
        }
        let run = merge_ranked(dists, &left, &right);
        proof {
            assert forall|p: int| positions(run@).contains(p) <==> lo <= p < hi by {
                assert(positions(left@).contains(p) <==> lo <= p < mid);
                assert(positions(right@).contains(p) <==> mid <= p < hi);
            }
        }
        run
    }
}

/// Ranks by sorting all candidates and keeping the first `k`.
fn rank_by_sorting(dists: &Vec<u32>, k: usize) -> (picks: Vec<usize>)
    ensures
        is_ranking(dists@, k as int, positions(picks@)),
{
    let mut picks = rank_run(dists, 0, dists.len());
    let ghost all = positions(picks@);
    picks.truncate(k);
    proof {
        let kept = positions(picks@);
        assert forall|j: int| 0 <= j < kept.len() implies kept[j] == all[j] by {}
        assert forall|p: int, j: int|
            0 <= p < dists@.len() && 0 <= j < kept.len() && !kept.contains(
                p,
            ) implies #[trigger] precedes(dists@, kept[j], p) by {
            assert(all.contains(p));
            let i = choose|i: int| 0 <= i < all.len() && all[i] == p;
            if i < kept.len() {
                assert(kept[i] == p);
            }
            assert(precedes(dists@, all[j], all[i]));
        }
    }
    picks
}

/// The largest `k` for which the candidates are ranked by insertion.
pub const INSERTION_LIMIT: usize = 64;

/// Ranks the candidates whose distances are `dists` and returns the positions
/// of the `k` nearest, nearest first; all of them where there are fewer than
/// `k`. Candidates at equal distance keep the order in which they stand.
pub fn rank_nearest(dists: &Vec<u32>, k: usize) -> (picks: Vec<usize>)
    ensures
        is_ranking(dists@, k as int, positions(picks@)),
        positions(picks@) == nearest(dists@, k as int),
{
    let picks = if k <= INSERTION_LIMIT && k < dists.len() {
        rank_by_insertion(dists, k)
    } else {
        rank_by_sorting(dists, k)
    };
    proof {
        lemma_ranking_is_nearest(dists@, k as int, positions(picks@));
    }
    picks
}

/// Ranks scored candidates and returns the ids and the distances of the `k`
/// nearest, nearest first, position by position; of all candidates where
/// there are fewer than `k`.
pub fn top_k(scored: &Vec<(i64, u32)>, k: usize) -> (found: (Vec<i64>, Vec<u32>))
    ensures
        is_ranking(scores_of(scored@), k as int, nearest(scores_of(scored@), k as int)),
        found.0@ == picked(ids_of(scored@), nearest(scores_of(scored@), k as int)),
        found.1@ == picked(scores_of(scored@), nearest(scores_of(scored@), k as int)),
        found.0@.len() == found.1@.len(),
        found.0@.len() == if k <= scored@.len() { k as int } else { scored@.len() as int },
        ascending(found.1@),
{
    let mut dists: Vec<u32> = Vec::with_capacity(scored.len());
    let mut i: usize = 0;
    while i < scored.len()
        invariant
            i <= scored.len(),
            dists@ =~= scores_of(scored@).take(i as int),
        decreases scored.len() - i,
    {
        dists.push(scored[i].1);
        i = i + 1;
    }
    assert(dists@ =~= scores_of(scored@));
    let picks = rank_nearest(&dists, k);
    let ghost order = positions(picks@);
    let mut ids: Vec<i64> = Vec::with_capacity(picks.len());
    let mut out: Vec<u32> = Vec::with_capacity(picks.len());
    let mut j: usize = 0;
    while j < picks.len()
        invariant
            j <= picks.len(),
            order == positions(picks@),
            is_ranking(scores_of(scored@), k as int, order),
            ids@ =~= picked(ids_of(scored@), order).take(j as int),
            out@ =~= picked(scores_of(scored@), order).take(j as int),
        decreases picks.len() - j,
    {
        let p: usize = picks[j];
        assert(order[j as int] == p);
        ids.push(scored[p].0);
        out.push(scored[p].1);
        j = j + 1;
    }
    proof {
        assert(ids@ =~= picked(ids_of(scored@), order));
        assert(out@ =~= picked(scores_of(scored@), order));
        lemma_ranking_ascends(scores_of(scored@), k as int, order);
    }
    (ids, out)
}

} // verus!
