//! Taking entries out by id.

use std::collections::HashSet;
use vstd::prelude::*;
use super::{views, AnnIndex, Entry, EntryView, IndexView};

verus! {

/// The entries that stay when every entry whose id occurs in `ids` is taken
/// out; those that stay keep their order.
pub open spec fn without(entries: Seq<EntryView>, ids: Seq<i64>) -> Seq<EntryView> {
    entries.filter(|e: EntryView| !ids.contains(e.id))
}

/// Taking the same ids out a second time changes nothing.
pub proof fn lemma_without_twice(entries: Seq<EntryView>, ids: Seq<i64>)
    ensures
        without(without(entries, ids), ids) == without(entries, ids),
    decreases entries.len(),
{
    let keep = |e: EntryView| !ids.contains(e.id);
    if entries.len() == 0 {
        reveal(Seq::filter);
    } else {
        let rest = entries.drop_last();
        let last = entries.last();
        assert(entries =~= rest.push(last));
        lemma_without_twice(rest, ids);
        rest.lemma_filter_push(last, keep);
        if keep(last) {
            rest.filter(keep).lemma_filter_push(last, keep);
        }
    }
}

/// Taking out ids of which none is stored changes nothing.
pub proof fn lemma_without_absent(entries: Seq<EntryView>, ids: Seq<i64>)
    requires
        forall|i: int| 0 <= i < entries.len() ==> !ids.contains(#[trigger] entries[i].id),
    ensures
        without(entries, ids) == entries,
    decreases entries.len(),
{
    let keep = |e: EntryView| !ids.contains(e.id);
    if entries.len() == 0 {
        reveal(Seq::filter);
    } else {
        let rest = entries.drop_last();
        let last = entries.last();
        assert(entries =~= rest.push(last));
        lemma_without_absent(rest, ids);
        rest.lemma_filter_push(last, keep);
    }
}

/// Whatever stays after a removal was there before.
pub proof fn lemma_without_keeps_shape(entries: Seq<EntryView>, ids: Seq<i64>, dim: usize)
    requires
        forall|i: int| 0 <= i < entries.len() ==> (#[trigger] entries[i]).point.coords.len() == dim,
    ensures
        forall|i: int|
            0 <= i < without(entries, ids).len() ==> (#[trigger] without(
                entries,
                ids,
            )[i]).point.coords.len() == dim,
        forall|i: int|
            0 <= i < without(entries, ids).len() ==> !ids.contains(
                (#[trigger] without(entries, ids)[i]).id,
            ),
    decreases entries.len(),
{
    let keep = |e: EntryView| !ids.contains(e.id);
    if entries.len() == 0 {
        reveal(Seq::filter);
    } else {
        let rest = entries.drop_last();
        let last = entries.last();
        assert(entries =~= rest.push(last));
        lemma_without_keeps_shape(rest, ids, dim);
        rest.lemma_filter_push(last, keep);
        let kept = without(entries, ids);
        assert forall|i: int| 0 <= i < kept.len() implies (#[trigger] kept[i]).point.coords.len()
            == dim && !ids.contains(kept[i].id) by {
            if i < without(rest, ids).len() {
                assert(kept[i] == without(rest, ids)[i]);
            } else {
                assert(kept[i] == entries[entries.len() - 1]);
            }
        }
    }
}

impl AnnIndex {
    /// Takes out every entry whose id occurs in `ids`; the entries that stay
    /// keep their order. Ids that are not stored are passed over, and an
    /// empty list changes nothing.
    pub fn remove(&mut self, ids: &Vec<i64>)
        requires
            old(self).wf(),
        ensures
            final(self).wf(),
            final(self)@ == (IndexView {
                entries: without(old(self)@.entries, ids@),
                ..old(self)@
            }),
    {
        broadcast use vstd::std_specs::hash::group_hash_axioms;

        if ids.len() == 0 {
            proof {
                lemma_without_absent(self@.entries, ids@);
            }
            return ;
        }
        let mut doomed: HashSet<i64> = HashSet::new();
        let mut i: usize = 0;
        while i < ids.len()
            invariant
                i <= ids.len(),
                forall|x: i64| doomed@.contains(x) <==> ids@.take(i as int).contains(x),
            decreases ids.len() - i,
        {
            let id: i64 = ids[i];
            doomed.insert(id);
            proof {
                assert(ids@.take(i + 1) =~= ids@.take(i as int).push(id));
                assert forall|x: i64| doomed@.contains(x) <==> ids@.take(i + 1).contains(x) by {
                    if ids@.take(i as int).contains(x) {
                        let j = choose|j: int|
                            0 <= j < ids@.take(i as int).len() && ids@.take(i as int)[j] == x;
                        assert(ids@.take(i + 1)[j] == x);
                    }
                    if x == id {
                        assert(ids@.take(i + 1)[i as int] == x);
                    }
                }
            }
            i = i + 1;
        }
        assert(ids@.take(i as int) =~= ids@);
        let ghost keep = |e: EntryView| !ids@.contains(e.id);
        let ghost before = self@.entries;
        let mut held: Vec<Entry> = Vec::new();
        core::mem::swap(&mut self.entries, &mut held);
        assert(held.len() <= usize::MAX);
        let mut n: usize = 0;
        proof {
            reveal(Seq::filter);
            assert(before.take(0).filter(keep) =~= Seq::empty());
        }
        for entry in it: held.into_iter()
            invariant
                it.seq() == held@,
                n == it.index(),
                held@.len() <= usize::MAX,
                views(held@) == before,
                keep == (|e: EntryView| !ids@.contains(e.id)),
                forall|x: i64| doomed@.contains(x) <==> ids@.contains(x),
                self.dim == old(self).dim,
                self.metric == old(self).metric,
                self.minkowski_p == old(self).minkowski_p,
                views(self.entries@) =~= before.take(n as int).filter(keep),
        {
            let ghost kept = self.entries@;
            proof {
                assert(before.take(n + 1) =~= before.take(n as int).push(entry@));
                before.take(n as int).lemma_filter_push(entry@, keep);
            }
            if !doomed.contains(&entry.id) {
                self.entries.push(entry);
                assert(views(self.entries@) =~= views(kept).push(entry@));
            }
            n = n + 1;
        }
        proof {
            assert(before.take(n as int) =~= before);
            lemma_without_keeps_shape(before, ids@, self.dim);
        }
    }
}

/// Removing the same ids twice leaves what removing them once leaves.
pub proof fn lemma_remove_is_idempotent(before: IndexView, once: IndexView, twice: IndexView, ids: Seq<i64>)
    requires
        once == (IndexView { entries: without(before.entries, ids), ..before }),
        twice == (IndexView { entries: without(once.entries, ids), ..once }),
    ensures
        twice == once,
{
    lemma_without_twice(before.entries, ids);
}

} // verus!
