use vstd::prelude::*;

use crate::trail::{trail_valid, TrailInfo};
use crate::HashAdapter;

verus! {

/// One key of the trail index: a distinguished end point together with
/// every summary yet recorded that converged to it, in insertion order.
pub struct IndexEntry<P> {
    pub end: P,
    pub bucket: Vec<TrailInfo<P>>,
}

/// The shared end-point index: a mapping from distinguished end point to
/// the ordered list of trail summaries that reached it. Entries are never
/// removed.
pub struct TrailIndex<P> {
    pub entries: Vec<IndexEntry<P>>,
}

/// Index well-formedness with respect to an adapter: end points are
/// pairwise distinct, and every summary stored under key `e` walks to `e`
/// within the adapter's trail limit.
pub open spec fn index_wf<A: HashAdapter>(ad: &A, entries: Seq<IndexEntry<A::Point>>) -> bool {
    &&& forall|i: int, j: int|
        0 <= i < entries.len() && 0 <= j < entries.len() && i != j ==> #[trigger] entries[i].end
            != #[trigger] entries[j].end
    &&& forall|i: int, j: int|
        0 <= i < entries.len() && 0 <= j < entries[i].bucket@.len() ==> trail_valid(
            ad,
            #[trigger] entries[i].bucket@[j],
            entries[i].end,
        ) && entries[i].bucket@[j].length <= ad.spec_trail_limit()
}

/// The bucket recorded for end point `e`: its summary list when the key is
/// present, the empty list when it is not.
pub open spec fn bucket_of<P>(entries: Seq<IndexEntry<P>>, e: P) -> Seq<TrailInfo<P>> {
    if exists|i: int| 0 <= i < entries.len() && (#[trigger] entries[i].end) == e {
        entries[choose|i: int| 0 <= i < entries.len() && (#[trigger] entries[i].end) == e].bucket@
    } else {
        Seq::empty()
    }
}

/// The exact index transition made when summary `t` is recorded for end
/// point `e`: the bucket for `e` gains `t` at its end (a fresh one-summary
/// bucket when the key was absent), prior summaries keep their order, and
/// no other entry changes.
pub open spec fn index_records<P>(
    old_entries: Seq<IndexEntry<P>>,
    new_entries: Seq<IndexEntry<P>>,
    e: P,
    t: TrailInfo<P>,
) -> bool {
    if exists|i: int| 0 <= i < old_entries.len() && (#[trigger] old_entries[i].end) == e {
        let i = choose|i: int| 0 <= i < old_entries.len() && (#[trigger] old_entries[i].end) == e;
        &&& new_entries.len() == old_entries.len()
        &&& forall|j: int|
            0 <= j < old_entries.len() && j != i ==> #[trigger] new_entries[j] == old_entries[j]
        &&& new_entries[i].end == e
        &&& new_entries[i].bucket@ == old_entries[i].bucket@.push(t)
    } else {
        &&& new_entries.len() == old_entries.len() + 1
        &&& forall|j: int|
            0 <= j < old_entries.len() ==> #[trigger] new_entries[j] == old_entries[j]
        &&& new_entries.last().end == e
        &&& new_entries.last().bucket@ == seq![t]
    }
}

/// Total trail length recorded in one bucket.
pub open spec fn bucket_hash_sum<P>(b: Seq<TrailInfo<P>>) -> int
    decreases b.len(),
{
    if b.len() == 0 {
        0
    } else {
        bucket_hash_sum(b.drop_last()) + b.last().length
    }
}

/// Total trail length recorded in the whole index.
pub open spec fn index_hash_sum<P>(entries: Seq<IndexEntry<P>>) -> int
    decreases entries.len(),
{
    if entries.len() == 0 {
        0
    } else {
        index_hash_sum(entries.drop_last()) + bucket_hash_sum(entries.last().bucket@)
    }
}

pub proof fn lemma_index_sum_push<P>(entries: Seq<IndexEntry<P>>, e: IndexEntry<P>)
    ensures
        index_hash_sum(entries.push(e)) == index_hash_sum(entries) + bucket_hash_sum(e.bucket@),
{
    assert(entries.push(e).drop_last() =~= entries);
    assert(entries.push(e).last() == e);
}

pub proof fn lemma_index_sum_update<P>(entries: Seq<IndexEntry<P>>, i: int, e: IndexEntry<P>)
    requires
        0 <= i < entries.len(),
    ensures
        index_hash_sum(entries.update(i, e)) == index_hash_sum(entries) - bucket_hash_sum(
            entries[i].bucket@,
        ) + bucket_hash_sum(e.bucket@),
    decreases entries.len(),
{
    let n = entries.len() as int;
    if i == n - 1 {
        assert(entries.update(i, e).drop_last() =~= entries.drop_last());
        assert(entries.update(i, e).last() == e);
    } else {
        lemma_index_sum_update(entries.drop_last(), i, e);
        assert(entries.update(i, e).drop_last() =~= entries.drop_last().update(i, e));
        assert(entries.update(i, e).last() == entries.last());
    }
}

pub proof fn lemma_bucket_sum_push<P>(b: Seq<TrailInfo<P>>, t: TrailInfo<P>)
    ensures
        bucket_hash_sum(b.push(t)) == bucket_hash_sum(b) + t.length,
{
    assert(b.push(t).drop_last() =~= b);
    assert(b.push(t).last() == t);
}

pub proof fn lemma_bucket_sum_singleton<P>(t: TrailInfo<P>)
    ensures
        bucket_hash_sum(seq![t]) == t.length,
{
    assert(seq![t].drop_last() =~= Seq::<TrailInfo<P>>::empty());
    assert(bucket_hash_sum(Seq::<TrailInfo<P>>::empty()) == 0);
}

/// The index only ever grows: no entry is removed, no bucket shrinks, no
/// recorded summary changes.
pub open spec fn index_extends<P>(a: Seq<IndexEntry<P>>, b: Seq<IndexEntry<P>>) -> bool {
    &&& a.len() <= b.len()
    &&& forall|i: int| 0 <= i < a.len() ==> #[trigger] b[i].end == a[i].end
    &&& forall|i: int| 0 <= i < a.len() ==> a[i].bucket@.len() <= #[trigger] b[i].bucket@.len()
    &&& forall|i: int, j: int|
        0 <= i < a.len() && 0 <= j < a[i].bucket@.len() ==> #[trigger] b[i].bucket@[j]
            == a[i].bucket@[j]
}

impl<P: Copy> TrailIndex<P> {
    pub fn new() -> (r: Self)
        ensures
            r.entries@.len() == 0,
    {
        TrailIndex { entries: Vec::new() }
    }

    /// Open a new bucket for end point `e` holding just `t`.
    pub fn insert_new(&mut self, e: P, t: TrailInfo<P>)
        ensures
            final(self).entries@.len() == old(self).entries@.len() + 1,
            forall|i: int|
                0 <= i < old(self).entries@.len() ==> final(self).entries@[i] == old(
                    self,
                ).entries@[i],
            final(self).entries@.last().end == e,
            final(self).entries@.last().bucket@ =~= seq![t],
    {
        let mut bucket: Vec<TrailInfo<P>> = Vec::new();
        bucket.push(t);
        self.entries.push(IndexEntry { end: e, bucket });
    }

    /// Append `t` to the bucket at position `i` and hand back a copy of the
    /// prior contents, so that trace-collision can run after the lock is
    /// released.
    pub fn append_at(&mut self, i: usize, t: TrailInfo<P>) -> (prior: Vec<TrailInfo<P>>)
        requires
            i < old(self).entries@.len(),
        ensures
            prior@ == old(self).entries@[i as int].bucket@,
            final(self).entries@.len() == old(self).entries@.len(),
            forall|j: int|
                0 <= j < old(self).entries@.len() && j != i ==> final(self).entries@[j] == old(
                    self,
                ).entries@[j],
            final(self).entries@[i as int].end == old(self).entries@[i as int].end,
            final(self).entries@[i as int].bucket@ == old(self).entries@[i as int].bucket@.push(t),
    {
        let entry = &mut self.entries[i];
        let ghost prior_bucket = entry.bucket@;
        let n = entry.bucket.len();
        let mut prior: Vec<TrailInfo<P>> = Vec::new();
        let mut j: usize = 0;
        while j < n
            invariant
                j <= n,
                n == entry.bucket@.len(),
                entry.bucket@ == prior_bucket,
                entry.end == old(self).entries@[i as int].end,
                prior@ =~= prior_bucket.subrange(0, j as int),
            decreases n - j,
        {
            prior.push(entry.bucket[j]);
            j = j + 1;
        }
        entry.bucket.push(t);
        proof {
            assert(prior@ =~= prior_bucket);
        }
        prior
    }
}

} // verus!
