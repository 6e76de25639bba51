use vstd::prelude::*;

use core::ops::ControlFlow;

mod index;
mod printer;
mod stats;
mod trail;

pub use crate::index::{
    bucket_hash_sum, bucket_of, index_extends, index_hash_sum, index_records, index_wf,
    IndexEntry, TrailIndex,
};
pub use crate::printer::printer_should_stop;
pub use crate::stats::{
    sat_add, sat_add_spec, sat_cap, stats_le, zero_stats, AtomicStats, Stats,
};
pub use crate::trail::{
    aligned_pos, common_len, count_good_collisions, count_robin_hoods, count_self_collisions,
    merge_at, merge_on_walks, merge_step, pair_is_good, pair_is_robin_hood, pair_is_self,
    step_of, trace_spec, trail_valid, walk, TraceResult, TrailInfo,
};
pub use crate::trail::{
    lemma_aligned_step, lemma_counts_nonneg, lemma_good_collision_cross, lemma_merge_at_unique,
    lemma_self_trace_robin_hood, lemma_trace_classifies, lemma_trace_never_not_found,
    lemma_uniform_bifurcation_no_cross, lemma_universal_distinguishing_zero_length,
    lemma_walk_snoc,
};

verus! {

/// A cooperative stop handle: implementors flip their engine's run flag.
pub trait StopSignal {
    fn stop(&self);
}

/// The narrow interface the collider engine consumes. All hash-specific
/// behaviour enters through it. Every operation is a pure function of the
/// adapter's immutable configuration and its arguments: the `spec_*`
/// functions are the mathematical account the executable methods are held
/// to, which is exactly the determinism the search relies on.
pub trait HashAdapter: Sized {
    /// The state of the hash-walk. The engine treats it as opaque except
    /// for equality.
    type Point: Copy;

    /// The start produced from one draw of the caller's randomness.
    spec fn spec_make_point(&self, seed: u64) -> Self::Point;

    /// Upper bound on trail length before bail-out.
    spec fn spec_trail_limit(&self) -> u64;

    /// The sparse predicate selecting distinguished points.
    spec fn spec_distinguishing(&self, x: Self::Point) -> bool;

    /// The binary choice of hash variant taken at `x`.
    spec fn spec_bifurcation(&self, x: Self::Point) -> bool;

    /// The deterministic step function: variant A when `bi` is true,
    /// variant B when it is false.
    spec fn spec_next(&self, x: Self::Point, bi: bool) -> Self::Point;

    /// Produce a starting point from a fresh random seed.
    fn make_point(&self, seed: u64) -> (p: Self::Point)
        ensures
            p == self.spec_make_point(seed),
    ;

    fn trail_limit(&self) -> (r: u64)
        ensures
            r == self.spec_trail_limit(),
    ;

    fn is_distinguishing(&self, x: Self::Point) -> (r: bool)
        ensures
            r == self.spec_distinguishing(x),
    ;

    fn bifurcation(&self, x: Self::Point) -> (r: bool)
        ensures
            r == self.spec_bifurcation(x),
    ;

    fn next_point(&self, x: Self::Point, bi: bool) -> (r: Self::Point)
        ensures
            r == self.spec_next(x, bi),
    ;

    /// Decidable equality on points, agreeing with mathematical equality.
    fn eq_point(&self, a: Self::Point, b: Self::Point) -> (r: bool)
        ensures
            r == (a == b),
    ;

    /// Called with a cross-variant collision; the engine guarantees that
    /// `next_point(a, true) == next_point(b, false)` with `a != b`. Return
    /// `Break` to request a cooperative stop.
    fn report_collision(&self, a: Self::Point, b: Self::Point) -> (r: ControlFlow<(), ()>)
        requires
            self.spec_next(a, true) == self.spec_next(b, false),
            a != b,
    ;

    /// Called on same-variant merges; the default never asks for a stop.
    fn report_self_collision(&self, a: Self::Point, b: Self::Point) -> (r: ControlFlow<(), ()>)
        requires
            self.spec_next(a, self.spec_bifurcation(a)) == self.spec_next(
                b,
                self.spec_bifurcation(b),
            ),
            a != b,
        default_ensures
            r == ControlFlow::<(), ()>::Continue(()),
    {
        ControlFlow::Continue(())
    }
}

/// The collision-search engine: a hash-walk adapter, the run flag, the
/// diagnostic counters, and the trail index mapping each distinguished end
/// point to every summary recorded for it.
pub struct Collider<A: HashAdapter> {
    adapter: A,
    running: bool,
    stats: AtomicStats,
    trails: TrailIndex<A::Point>,
}

impl<A: HashAdapter> Collider<A> {
    /// The engine's adapter (specification view).
    pub closed spec fn adapter_spec(&self) -> A {
        self.adapter
    }

    /// The run flag (specification view).
    pub closed spec fn running_flag(&self) -> bool {
        self.running
    }

    /// The current counters (specification view).
    pub closed spec fn stats_spec(&self) -> Stats {
        self.stats.snapshot()
    }

    /// The recorded trail index (specification view).
    pub closed spec fn index_spec(&self) -> Seq<IndexEntry<A::Point>> {
        self.trails.entries@
    }

    /// Engine well-formedness: every summary in the bucket for key `e`
    /// walks to `e` in exactly `length` steps with no earlier distinguished
    /// point; end points are unique; and `hashes` covers the total length
    /// of every trail recorded (exactly, until the counter saturates).
    pub closed spec fn wf(&self) -> bool {
        &&& crate::index::index_wf(&self.adapter, self.trails.entries@)
        &&& (crate::index::index_hash_sum(self.trails.entries@) == self.stats.snapshot().hashes
            || self.stats.snapshot().hashes == u64::MAX)
    }

    pub fn new(adapter: A) -> (c: Self)
        ensures
            c.wf(),
            !c.running_flag(),
            c.stats_spec() == zero_stats(),
            c.index_spec().len() == 0,
            c.adapter_spec() == adapter,
    {
        Collider {
            adapter,
            running: false,
            stats: AtomicStats::new(),
            trails: TrailIndex::new(),
        }
    }

    pub fn report_stats(&self) -> (s: Stats)
        ensures
            s == self.stats_spec(),
    {
        self.stats.report()
    }

    pub fn is_running(&self) -> (r: bool)
        ensures
            r == self.running_flag(),
    {
        self.running
    }

    /// Replay the two walks to the exact step where they first merge and
    /// classify the merge. Both alignment and the simultaneous advance are
    /// pure hash-evaluation work, so callers run this outside any lock.
    #[verifier::loop_isolation(false)]
    pub fn trace_collision(
        adapter: &A,
        a: &TrailInfo<A::Point>,
        b: &TrailInfo<A::Point>,
    ) -> (r: TraceResult<A::Point>)
        ensures
            trace_spec(adapter, *a, *b, r),
    {
        let ghost m = common_len(*a, *b);
        let mut ax = a.start;
        let mut al = a.length;
        let mut bx = b.start;
        let mut bl = b.length;

        while bl > al
            invariant
                ax == a.start,
                al == a.length,
                bl <= b.length,
                bl >= a.length || bl == b.length,
                bx == walk(adapter, b.start, (b.length - bl) as nat),
                walk(adapter, bx, bl as nat) == walk(adapter, b.start, b.length as nat),
            decreases bl,
        {
            proof {
                lemma_walk_snoc(adapter, b.start, (b.length - bl) as nat);
            }
            let bi = adapter.bifurcation(bx);
            bx = adapter.next_point(bx, bi);
            bl = bl - 1;
        }

        while al > bl
            invariant
                al <= a.length,
                al >= bl,
                bx == walk(adapter, b.start, (b.length - bl) as nat),
                walk(adapter, bx, bl as nat) == walk(adapter, b.start, b.length as nat),
                ax == walk(adapter, a.start, (a.length - al) as nat),
                walk(adapter, ax, al as nat) == walk(adapter, a.start, a.length as nat),
            decreases al,
        {
            proof {
                lemma_walk_snoc(adapter, a.start, (a.length - al) as nat);
            }
            let bi = adapter.bifurcation(ax);
            ax = adapter.next_point(ax, bi);
            al = al - 1;
        }

        proof {
            assert(al == bl && al == m);
            assert(ax == aligned_pos(adapter, *a, m, 0));
            assert(bx == aligned_pos(adapter, *b, m, 0));
        }

        if adapter.eq_point(ax, bx) {
            return TraceResult::RobinHood(ax);
        }

        let mut k = al;
        while k > 0
            invariant
                0 <= k <= m,
                ax == walk(adapter, a.start, (a.length - k) as nat),
                bx == walk(adapter, b.start, (b.length - k) as nat),
                ax != bx,
                walk(adapter, ax, k as nat) == walk(adapter, a.start, a.length as nat),
                walk(adapter, bx, k as nat) == walk(adapter, b.start, b.length as nat),
                forall|kk: int|
                    0 <= kk <= m - k ==> #[trigger] aligned_pos(adapter, *a, m, kk)
                        != aligned_pos(adapter, *b, m, kk),
            decreases k,
        {
            let abi = adapter.bifurcation(ax);
            let na = adapter.next_point(ax, abi);
            let bbi = adapter.bifurcation(bx);
            let nb = adapter.next_point(bx, bbi);
            if adapter.eq_point(na, nb) {
                proof {
                    let kk = m - k;
                    assert(ax == aligned_pos(adapter, *a, m, kk));
                    assert(bx == aligned_pos(adapter, *b, m, kk));
                    assert(merge_on_walks(adapter, *a, *b, ax, bx));
                    assert(merge_on_walks(adapter, *a, *b, bx, ax));
                }
                if abi == bbi {
                    return TraceResult::SelfCollision(ax, bx);
                } else if abi {
                    return TraceResult::GoodCollision(ax, bx);
                } else {
                    return TraceResult::GoodCollision(bx, ax);
                }
            }
            proof {
                lemma_walk_snoc(adapter, a.start, (a.length - k) as nat);
                lemma_walk_snoc(adapter, b.start, (b.length - k) as nat);
            }
            ax = na;
            bx = nb;
            k = k - 1;
        }

        TraceResult::NotFound
    }

    /// Extend a walk from `start` until its first distinguished point, or
    /// bail out once `limit` steps have been taken without finding one
    /// (a cycle is then suspected). On success returns the end point and
    /// the exact trail length.
    #[verifier::loop_isolation(false)]
    pub fn extend_trail(adapter: &A, start: A::Point, limit: u64) -> (r: Option<
        (A::Point, u64),
    >)
        ensures
            (r matches Some(c) ==> {
                &&& c.1 <= limit
                &&& trail_valid(adapter, (TrailInfo { start, length: c.1 }), c.0)
            }),
            (r is None ==> forall|j: nat|
                j <= limit ==> !adapter.spec_distinguishing(#[trigger] walk(adapter, start, j))),
    {
        let mut point = start;
        let mut length: u64 = 0;
        loop
            invariant
                length <= limit,
                point == walk(adapter, start, length as nat),
                forall|j: nat|
                    j < length ==> !adapter.spec_distinguishing(
                        #[trigger] walk(adapter, start, j),
                    ),
            decreases limit - length,
        {
            if adapter.is_distinguishing(point) {
                return Some((point, length));
            }
            if length == limit {
                return None;
            }
            proof {
                lemma_walk_snoc(adapter, start, length as nat);
            }
            let bi = adapter.bifurcation(point);
            point = adapter.next_point(point, bi);
            length = length + 1;
        }
    }

    /// Locate the index entry for end point `e`, if one exists yet.
    fn find_entry(adapter: &A, trails: &TrailIndex<A::Point>, e: A::Point) -> (r: Option<usize>)
        ensures
            (r matches Some(i) ==> i < trails.entries@.len() && trails.entries@[i as int].end
                == e),
            (r is None ==> forall|i: int|
                0 <= i < trails.entries@.len() ==> #[trigger] trails.entries@[i].end != e),
    {
        let n = trails.entries.len();
        let mut i: usize = 0;
        while i < n
            invariant
                i <= n,
                n == trails.entries@.len(),
                forall|j: int| 0 <= j < i ==> #[trigger] trails.entries@[j].end != e,
            decreases n - i,
        {
            if adapter.eq_point(trails.entries[i].end, e) {
                return Some(i);
            }
            i = i + 1;
        }
        None
    }

    /// One full worker iteration: check the run flag, seed a start, extend
    /// it to a distinguished point (or bail out), record the summary in the
    /// index, then classify the new trail against every prior trail that
    /// shares its end point, reporting collisions through the adapter.
    /// Returns whether the engine is still running afterwards.
    #[verifier::loop_isolation(false)]
    pub fn worker_step(&mut self, seed: u64) -> (active: bool)
        requires
            old(self).wf(),
        ensures
            final(self).wf(),
            final(self).adapter_spec() == old(self).adapter_spec(),
            active == final(self).running_flag(),
            !old(self).running_flag() ==> *final(self) == *old(self),
            stats_le(old(self).stats_spec(), final(self).stats_spec()),
            final(self).stats_spec().errors == old(self).stats_spec().errors,
            final(self).stats_spec().lock_contentions == old(
                self,
            ).stats_spec().lock_contentions,
            final(self).stats_spec().hashes <= sat_add_spec(
                old(self).stats_spec().hashes,
                old(self).adapter_spec().spec_trail_limit(),
            ),
            old(self).running_flag() ==> {
                let pre = old(self).stats_spec();
                let post = final(self).stats_spec();
                let ad = old(self).adapter_spec();
                let sp = ad.spec_make_point(seed);
                let lim = ad.spec_trail_limit();
                ||| (post.bailouts == sat_add_spec(pre.bailouts, 1) && post.trails == pre.trails
                    && post.hashes == pre.hashes && post.collisions == pre.collisions
                    && post.self_collisions == pre.self_collisions && post.robin_hoods
                    == pre.robin_hoods && final(self).index_spec() == old(self).index_spec()
                    && final(self).running_flag() == old(self).running_flag() && (forall|j: nat|
                    j <= lim ==> !ad.spec_distinguishing(#[trigger] walk(&ad, sp, j))))
                ||| (post.trails == sat_add_spec(pre.trails, 1) && post.bailouts == pre.bailouts
                    && (exists|len: u64|
                    #![trigger trail_valid(&ad, (TrailInfo { start: sp, length: len }), walk(&ad, sp, len as nat))]
                    {
                        let e = walk(&ad, sp, len as nat);
                        let t = (TrailInfo { start: sp, length: len });
                        let prior = bucket_of(old(self).index_spec(), e);
                        &&& len <= lim
                        &&& post.hashes == sat_add_spec(pre.hashes, len)
                        &&& trail_valid(&ad, t, e)
                        &&& index_records(
                            old(self).index_spec(),
                            final(self).index_spec(),
                            e,
                            t,
                        )
                        &&& post.collisions == sat_cap(
                            pre.collisions + count_good_collisions(&ad, prior, t),
                        )
                        &&& post.self_collisions == sat_cap(
                            pre.self_collisions + count_self_collisions(&ad, prior, t),
                        )
                        &&& post.robin_hoods == sat_cap(
                            pre.robin_hoods + count_robin_hoods(&ad, prior, t),
                        )
                        &&& (prior.len() == 0 ==> final(self).running_flag() == old(
                            self,
                        ).running_flag())
                    }))
            },
            final(self).running_flag() ==> old(self).running_flag(),
            index_extends(old(self).index_spec(), final(self).index_spec()),
    {
        if !self.running {
            return false;
        }
        let start = self.adapter.make_point(seed);
        let limit = self.adapter.trail_limit();
        let walked = Self::extend_trail(&self.adapter, start, limit);
        match walked {
            None => {
                // The trail exceeded the limit without a distinguished
                // point; a cycle is suspected, so the trail is discarded.
                self.stats.inc_bailouts();
                proof {
                    let ad = old(self).adapter_spec();
                    let sp = ad.spec_make_point(seed);
                    assert forall|j: nat| j <= ad.spec_trail_limit() implies !ad.spec_distinguishing(
                        #[trigger] walk(&ad, sp, j),
                    ) by {
                        assert(!self.adapter.spec_distinguishing(walk(&self.adapter, start, j)));
                    }
                }
                self.running
            },
            Some((end, length)) => {
                self.stats.inc_trails();
                self.stats.add_hashes(length);
                let info = TrailInfo { start, length };
                let ghost entries0 = self.trails.entries@;
                let ghost stats1 = self.stats.snapshot();
                let found = Self::find_entry(&self.adapter, &self.trails, end);
                let prior: Vec<TrailInfo<A::Point>> = match found {
                    None => {
                        self.trails.insert_new(end, info);
                        proof {
                            crate::index::lemma_index_sum_push(
                                entries0,
                                self.trails.entries@.last(),
                            );
                            crate::index::lemma_bucket_sum_singleton(info);
                            assert(self.trails.entries@.last().bucket@ =~= seq![info]);
                            assert(self.trails.entries@.drop_last() =~= entries0);
                        }
                        Vec::new()
                    },
                    Some(i) => {
                        let p = self.trails.append_at(i, info);
                        proof {
                            crate::index::lemma_index_sum_update(
                                entries0,
                                i as int,
                                self.trails.entries@[i as int],
                            );
                            crate::index::lemma_bucket_sum_push(
                                entries0[i as int].bucket@,
                                info,
                            );
                            assert(self.trails.entries@ =~= entries0.update(
                                i as int,
                                self.trails.entries@[i as int],
                            ));
                        }
                        p
                    },
                };
                proof {
                    assert(self.wf());
                    assert(index_extends(entries0, self.trails.entries@));
                    match found {
                        None => {
                            assert(!(exists|ii: int|
                                0 <= ii < entries0.len() && (#[trigger] entries0[ii].end)
                                    == end));
                            assert(prior@ =~= bucket_of(entries0, end));
                            assert(index_records(entries0, self.trails.entries@, end, info));
                        },
                        Some(i) => {
                            let ci = choose|ii: int|
                                0 <= ii < entries0.len() && (#[trigger] entries0[ii].end) == end;
                            assert(entries0[i as int].end == end);
                            assert(ci == i as int);
                            assert(prior@ == bucket_of(entries0, end));
                            assert(index_records(entries0, self.trails.entries@, end, info));
                        },
                    }
                }
                let ghost entries1 = self.trails.entries@;
                let mut idx: usize = 0;
                while idx < prior.len()
                    invariant
                        idx <= prior.len(),
                        self.wf(),
                        self.adapter == old(self).adapter,
                        self.trails.entries@ == entries1,
                        trail_valid(&self.adapter, info, end),
                        forall|j: int|
                            0 <= j < prior@.len() ==> trail_valid(
                                &self.adapter,
                                #[trigger] prior@[j],
                                end,
                            ),
                        self.stats.snapshot() == (Stats {
                            collisions: self.stats.snapshot().collisions,
                            robin_hoods: self.stats.snapshot().robin_hoods,
                            self_collisions: self.stats.snapshot().self_collisions,
                            ..stats1
                        }),
                        stats_le(stats1, self.stats.snapshot()),
                        self.stats.snapshot().collisions == sat_cap(
                            stats1.collisions + count_good_collisions(
                                &self.adapter,
                                prior@.subrange(0, idx as int),
                                info,
                            ),
                        ),
                        self.stats.snapshot().self_collisions == sat_cap(
                            stats1.self_collisions + count_self_collisions(
                                &self.adapter,
                                prior@.subrange(0, idx as int),
                                info,
                            ),
                        ),
                        self.stats.snapshot().robin_hoods == sat_cap(
                            stats1.robin_hoods + count_robin_hoods(
                                &self.adapter,
                                prior@.subrange(0, idx as int),
                                info,
                            ),
                        ),
                        prior@.len() == 0 ==> self.running == old(self).running,
                    decreases prior.len() - idx,
                {
                    let prev = prior[idx];
                    let res = Self::trace_collision(&self.adapter, &prev, &info);
                    proof {
                        assert(walk(&self.adapter, prev.start, prev.length as nat) == end);
                        assert(walk(&self.adapter, info.start, info.length as nat) == end);
                        lemma_trace_classifies(&self.adapter, prev, info, res);
                        lemma_counts_nonneg(
                            &self.adapter,
                            prior@.subrange(0, idx as int),
                            info,
                        );
                        assert(prior@.subrange(0, idx as int + 1).drop_last() =~= prior@.subrange(
                            0,
                            idx as int,
                        ));
                        assert(prior@.subrange(0, idx as int + 1).last() == prior@[idx as int]);
                    }
                    match res {
                        TraceResult::GoodCollision(x, y) => {
                            self.stats.inc_collisions();
                            match self.adapter.report_collision(x, y) {
                                ControlFlow::Break(_) => {
                                    self.running = false;
                                },
                                ControlFlow::Continue(_) => {},
                            }
                        },
                        TraceResult::SelfCollision(x, y) => {
                            self.stats.inc_self_collisions();
                            match self.adapter.report_self_collision(x, y) {
                                ControlFlow::Break(_) => {
                                    self.running = false;
                                },
                                ControlFlow::Continue(_) => {},
                            }
                        },
                        TraceResult::RobinHood(_merge) => {
                            self.stats.inc_robin_hoods();
                        },
                        TraceResult::NotFound => {
                            // Both summaries walk to `end`, so the trace
                            // always finds the merge: this arm cannot run.
                            proof {
                                lemma_trace_never_not_found(&self.adapter, prev, info, res);
                                assert(false);
                            }
                            self.stats.inc_errors();
                        },
                    }
                    idx = idx + 1;
                }
                proof {
                    let ad = old(self).adapter_spec();
                    let sp = ad.spec_make_point(seed);
                    let pre = old(self).stats_spec();
                    assert(ad == self.adapter);
                    assert(prior@.subrange(0, prior@.len() as int) =~= prior@);
                    assert(stats1.collisions == pre.collisions);
                    assert(stats1.self_collisions == pre.self_collisions);
                    assert(stats1.robin_hoods == pre.robin_hoods);
                    assert(trail_valid(
                        &ad,
                        (TrailInfo { start: sp, length }),
                        walk(&ad, sp, length as nat),
                    ));
                    assert(exists|len: u64|
                        #![trigger trail_valid(&ad, (TrailInfo { start: sp, length: len }), walk(&ad, sp, len as nat))]
                        {
                            let e = walk(&ad, sp, len as nat);
                            let t = (TrailInfo { start: sp, length: len });
                            let pb = bucket_of(old(self).index_spec(), e);
                            &&& len <= ad.spec_trail_limit()
                            &&& self.stats.snapshot().hashes == sat_add_spec(pre.hashes, len)
                            &&& trail_valid(&ad, t, e)
                            &&& index_records(old(self).index_spec(), self.index_spec(), e, t)
                            &&& self.stats.snapshot().collisions == sat_cap(
                                pre.collisions + count_good_collisions(&ad, pb, t),
                            )
                            &&& self.stats.snapshot().self_collisions == sat_cap(
                                pre.self_collisions + count_self_collisions(&ad, pb, t),
                            )
                            &&& self.stats.snapshot().robin_hoods == sat_cap(
                                pre.robin_hoods + count_robin_hoods(&ad, pb, t),
                            )
                            &&& (pb.len() == 0 ==> self.running == old(self).running)
                        });
                }
                self.running
            },
        }
    }

    /// Run up to `iterations` worker iterations, drawing a fresh random
    /// seed for each, and stopping early once the run flag goes false.
    #[verifier::loop_isolation(false)]
    pub fn worker(&mut self, iterations: u64) -> (active: bool)
        requires
            old(self).wf(),
        ensures
            final(self).wf(),
            final(self).adapter_spec() == old(self).adapter_spec(),
            active == final(self).running_flag(),
            !old(self).running_flag() ==> *final(self) == *old(self),
            stats_le(old(self).stats_spec(), final(self).stats_spec()),
            final(self).stats_spec().errors == old(self).stats_spec().errors,
            final(self).stats_spec().lock_contentions == old(
                self,
            ).stats_spec().lock_contentions,
            index_extends(old(self).index_spec(), final(self).index_spec()),
            final(self).running_flag() ==> {
                let pre = old(self).stats_spec();
                let post = final(self).stats_spec();
                ||| post.trails + post.bailouts == pre.trails + pre.bailouts + iterations
                ||| post.trails == u64::MAX
                ||| post.bailouts == u64::MAX
            },
    {
        let mut i: u64 = 0;
        while i < iterations
            invariant
                i <= iterations,
                self.wf(),
                self.adapter_spec() == old(self).adapter_spec(),
                !old(self).running_flag() ==> *self == *old(self),
                stats_le(old(self).stats_spec(), self.stats_spec()),
                self.stats_spec().errors == old(self).stats_spec().errors,
                self.stats_spec().lock_contentions == old(self).stats_spec().lock_contentions,
                index_extends(old(self).index_spec(), self.index_spec()),
                self.running_flag() ==> {
                    let pre = old(self).stats_spec();
                    let post = self.stats_spec();
                    ||| post.trails + post.bailouts == pre.trails + pre.bailouts + i
                    ||| post.trails == u64::MAX
                    ||| post.bailouts == u64::MAX
                },
            decreases iterations - i,
        {
            if !self.is_running() {
                return false;
            }
            let seed = random_seed();
            let _active = self.worker_step(seed);
            i = i + 1;
        }
        self.is_running()
    }

    /// Supervisor start transition: `running := true`.
    pub fn start(&mut self)
        ensures
            final(self).running_flag(),
            final(self).adapter_spec() == old(self).adapter_spec(),
            final(self).stats_spec() == old(self).stats_spec(),
            final(self).index_spec() == old(self).index_spec(),
            old(self).wf() ==> final(self).wf(),
    {
        self.running = true;
    }

    /// Supervisor stop transition: `running := false`. Workers observe the
    /// flag at the top of each iteration and then do no further work.
    pub fn stop(&mut self)
        ensures
            !final(self).running_flag(),
            final(self).adapter_spec() == old(self).adapter_spec(),
            final(self).stats_spec() == old(self).stats_spec(),
            final(self).index_spec() == old(self).index_spec(),
            old(self).wf() ==> final(self).wf(),
    {
        self.running = false;
    }

    /// Record one failed non-blocking acquire of the index lock. The
    /// single-threaded driver never calls this, so with one worker the
    /// `lock_contentions` counter stays at zero.
    pub fn note_contention(&mut self)
        ensures
            final(self).adapter_spec() == old(self).adapter_spec(),
            final(self).running_flag() == old(self).running_flag(),
            final(self).index_spec() == old(self).index_spec(),
            final(self).stats_spec() == (Stats {
                lock_contentions: sat_add_spec(old(self).stats_spec().lock_contentions, 1),
                ..old(self).stats_spec()
            }),
            stats_le(old(self).stats_spec(), final(self).stats_spec()),
            old(self).wf() ==> final(self).wf(),
    {
        self.stats.inc_lock_contentions();
    }

    /// Sequential supervisor: set the run flag, process up to `iterations`
    /// trails, then clear the flag. After `run` returns, `running` is
    /// always false; the result says whether the engine was still running
    /// when the iteration budget ran out, in which case every iteration
    /// did its work — one completed trail or one bailout each.
    pub fn run(&mut self, iterations: u64) -> (active: bool)
        requires
            old(self).wf(),
        ensures
            final(self).wf(),
            !final(self).running_flag(),
            final(self).adapter_spec() == old(self).adapter_spec(),
            stats_le(old(self).stats_spec(), final(self).stats_spec()),
            final(self).stats_spec().errors == old(self).stats_spec().errors,
            final(self).stats_spec().lock_contentions == old(
                self,
            ).stats_spec().lock_contentions,
            index_extends(old(self).index_spec(), final(self).index_spec()),
            active ==> {
                let pre = old(self).stats_spec();
                let post = final(self).stats_spec();
                ||| post.trails + post.bailouts == pre.trails + pre.bailouts + iterations
                ||| post.trails == u64::MAX
                ||| post.bailouts == u64::MAX
            },
    {
        self.start();
        let active = self.worker(iterations);
        self.stop();
        active
    }
}

/// Law: for every summary `{start, length}` stored in the index under key
/// `e`, iterating `length` walk steps from `start` yields exactly `e`, `e`
/// is distinguished, no earlier step on that walk is, and `length` is
/// within the adapter's trail limit. Holds of every engine the library
/// hands out, since all operations preserve well-formedness.
pub proof fn lemma_index_summaries_walk_to_key<A: HashAdapter>(c: &Collider<A>, i: int, j: int)
    requires
        c.wf(),
        0 <= i < c.index_spec().len(),
        0 <= j < c.index_spec()[i].bucket@.len(),
    ensures
        trail_valid(&c.adapter_spec(), c.index_spec()[i].bucket@[j], c.index_spec()[i].end),
        c.index_spec()[i].bucket@[j].length <= c.adapter_spec().spec_trail_limit(),
{
}

/// Law: the `hashes` counter covers the total length of every completed
/// trail recorded so far — exactly, until the counter saturates at
/// `u64::MAX`.
pub proof fn lemma_hashes_cover_recorded_trails<A: HashAdapter>(c: &Collider<A>)
    requires
        c.wf(),
    ensures
        index_hash_sum(c.index_spec()) <= c.stats_spec().hashes || c.stats_spec().hashes
            == u64::MAX,
{
    if c.stats_spec().hashes != u64::MAX {
        assert(index_hash_sum(c.index_spec()) == c.stats_spec().hashes);
    }
}

/// Relies on rand::random: one draw from the thread-local generator.
/// Nothing is promised of the value.
#[verifier::external_body]
fn random_seed() -> u64 {
    rand::random::<u64>()
}

} // verus!
