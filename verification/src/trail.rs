use vstd::prelude::*;

use crate::HashAdapter;

verus! {

/// Compact record of one completed walk: starting from `start`, exactly
/// `length` deterministic steps reach a distinguished point. The end point is
/// not stored; the trail index keys by it.
#[derive(Clone, Copy)]
pub struct TrailInfo<P> {
    pub start: P,
    pub length: u64,
}

/// Classification of a pair of trails that converged on one end point.
pub enum TraceResult<P> {
    /// A cross-variant merge: the two pre-images collide under opposite
    /// bifurcations, so they witness a genuine collision of variant A
    /// against variant B.
    GoodCollision(P, P),
    /// Both walks applied the same variant at the merge step; a convergence
    /// of one variant with itself, not a cross-variant collision.
    SelfCollision(P, P),
    /// The shorter trail is entirely a suffix of the longer: the walks were
    /// already equal once aligned, so no new information was gained.
    RobinHood(P),
    /// No merge was found in the common suffix; impossible when the two
    /// trails truly share an end point.
    NotFound,
}

/// One walk step from `p`: apply the hash variant selected by the
/// bifurcation of `p`.
pub open spec fn step_of<A: HashAdapter>(ad: &A, p: A::Point) -> A::Point {
    ad.spec_next(p, ad.spec_bifurcation(p))
}

/// The point reached after `n` walk steps from `p`.
pub open spec fn walk<A: HashAdapter>(ad: &A, p: A::Point, n: nat) -> A::Point
    decreases n,
{
    if n == 0 {
        p
    } else {
        walk(ad, step_of(ad, p), (n - 1) as nat)
    }
}

pub proof fn lemma_walk_snoc<A: HashAdapter>(ad: &A, p: A::Point, n: nat)
    ensures
        walk(ad, p, n + 1) == step_of(ad, walk(ad, p, n)),
    decreases n,
{
    if n == 0 {
        assert(walk(ad, p, 1) == walk(ad, step_of(ad, p), 0));
        assert(walk(ad, step_of(ad, p), 0) == step_of(ad, p));
    } else {
        lemma_walk_snoc(ad, step_of(ad, p), (n - 1) as nat);
        assert(walk(ad, p, n + 1) == walk(ad, step_of(ad, p), n));
    }
}

/// A trail summary is valid for end point `e` when its walk reaches `e` in
/// exactly `length` steps, `e` is distinguished, and no earlier point on the
/// walk is.
pub open spec fn trail_valid<A: HashAdapter>(ad: &A, t: TrailInfo<A::Point>, e: A::Point) -> bool {
    &&& walk(ad, t.start, t.length as nat) == e
    &&& ad.spec_distinguishing(e)
    &&& forall|j: nat| j < t.length ==> !ad.spec_distinguishing(#[trigger] walk(ad, t.start, j))
}

/// The length of the common suffix considered by trace-collision.
pub open spec fn common_len<P>(a: TrailInfo<P>, b: TrailInfo<P>) -> int {
    vstd::math::min(a.length as int, b.length as int)
}

/// The position on `t`'s walk that stands `k` steps past the alignment
/// point, where `m` is the common suffix length of the pair under trace.
pub open spec fn aligned_pos<A: HashAdapter>(
    ad: &A,
    t: TrailInfo<A::Point>,
    m: int,
    k: int,
) -> A::Point {
    walk(ad, t.start, (t.length - m + k) as nat)
}

/// The merge pre-images lie on the two walks, at the same distance `k`
/// past the alignment point (in either order), and `k` marks the first
/// merge: up to and including `k` the two walks are still apart.
pub open spec fn merge_on_walks<A: HashAdapter>(
    ad: &A,
    a: TrailInfo<A::Point>,
    b: TrailInfo<A::Point>,
    x: A::Point,
    y: A::Point,
) -> bool {
    let m = common_len(a, b);
    exists|k: int|
        #![auto]
        0 <= k < m && ((x == aligned_pos(ad, a, m, k) && y == aligned_pos(ad, b, m, k)) || (x
            == aligned_pos(ad, b, m, k) && y == aligned_pos(ad, a, m, k))) && (forall|kk: int|
            0 <= kk <= k ==> #[trigger] aligned_pos(ad, a, m, kk) != aligned_pos(ad, b, m, kk))
}

/// A merge exactly `k` steps past alignment: the successors of the two
/// walk positions coincide there, while the positions themselves stayed
/// apart through step `k`.
pub open spec fn merge_at<A: HashAdapter>(
    ad: &A,
    a: TrailInfo<A::Point>,
    b: TrailInfo<A::Point>,
    k: int,
) -> bool {
    let m = common_len(a, b);
    &&& 0 <= k < m
    &&& step_of(ad, aligned_pos(ad, a, m, k)) == step_of(ad, aligned_pos(ad, b, m, k))
    &&& forall|kk: int|
        0 <= kk <= k ==> #[trigger] aligned_pos(ad, a, m, kk) != aligned_pos(ad, b, m, kk)
}

/// The step at which the two walks first merge (unique when it exists).
pub open spec fn merge_step<A: HashAdapter>(
    ad: &A,
    a: TrailInfo<A::Point>,
    b: TrailInfo<A::Point>,
) -> int {
    choose|k: int| merge_at(ad, a, b, k)
}

/// Classification of a pair of summaries sharing an end point, as a
/// function of the adapter alone: already equal once aligned.
pub open spec fn pair_is_robin_hood<A: HashAdapter>(
    ad: &A,
    a: TrailInfo<A::Point>,
    b: TrailInfo<A::Point>,
) -> bool {
    let m = common_len(a, b);
    aligned_pos(ad, a, m, 0) == aligned_pos(ad, b, m, 0)
}

/// ... merging on opposite bifurcations: a cross-variant (good) collision.
pub open spec fn pair_is_good<A: HashAdapter>(
    ad: &A,
    a: TrailInfo<A::Point>,
    b: TrailInfo<A::Point>,
) -> bool {
    let m = common_len(a, b);
    let k = merge_step(ad, a, b);
    &&& !pair_is_robin_hood(ad, a, b)
    &&& ad.spec_bifurcation(aligned_pos(ad, a, m, k)) != ad.spec_bifurcation(
        aligned_pos(ad, b, m, k),
    )
}

/// ... merging on one and the same variant: a self-collision.
pub open spec fn pair_is_self<A: HashAdapter>(
    ad: &A,
    a: TrailInfo<A::Point>,
    b: TrailInfo<A::Point>,
) -> bool {
    !pair_is_robin_hood(ad, a, b) && !pair_is_good(ad, a, b)
}

/// How many summaries of `prior` form a good collision with `t`.
pub open spec fn count_good_collisions<A: HashAdapter>(
    ad: &A,
    prior: Seq<TrailInfo<A::Point>>,
    t: TrailInfo<A::Point>,
) -> int
    decreases prior.len(),
{
    if prior.len() == 0 {
        0
    } else {
        count_good_collisions(ad, prior.drop_last(), t) + (if pair_is_good(ad, prior.last(), t) {
            1int
        } else {
            0int
        })
    }
}

/// How many summaries of `prior` form a self-collision with `t`.
pub open spec fn count_self_collisions<A: HashAdapter>(
    ad: &A,
    prior: Seq<TrailInfo<A::Point>>,
    t: TrailInfo<A::Point>,
) -> int
    decreases prior.len(),
{
    if prior.len() == 0 {
        0
    } else {
        count_self_collisions(ad, prior.drop_last(), t) + (if pair_is_self(ad, prior.last(), t) {
            1int
        } else {
            0int
        })
    }
}

/// How many summaries of `prior` form a Robin Hood with `t`.
pub open spec fn count_robin_hoods<A: HashAdapter>(
    ad: &A,
    prior: Seq<TrailInfo<A::Point>>,
    t: TrailInfo<A::Point>,
) -> int
    decreases prior.len(),
{
    if prior.len() == 0 {
        0
    } else {
        count_robin_hoods(ad, prior.drop_last(), t) + (if pair_is_robin_hood(ad, prior.last(), t) {
            1int
        } else {
            0int
        })
    }
}

pub proof fn lemma_counts_nonneg<A: HashAdapter>(
    ad: &A,
    prior: Seq<TrailInfo<A::Point>>,
    t: TrailInfo<A::Point>,
)
    ensures
        count_good_collisions(ad, prior, t) >= 0,
        count_self_collisions(ad, prior, t) >= 0,
        count_robin_hoods(ad, prior, t) >= 0,
    decreases prior.len(),
{
    if prior.len() > 0 {
        lemma_counts_nonneg(ad, prior.drop_last(), t);
    }
}

/// Stepping one position past the alignment point applies the walk step.
pub proof fn lemma_aligned_step<A: HashAdapter>(ad: &A, t: TrailInfo<A::Point>, m: int, k: int)
    requires
        0 <= m <= t.length,
        0 <= k,
    ensures
        aligned_pos(ad, t, m, k + 1) == step_of(ad, aligned_pos(ad, t, m, k)),
{
    lemma_walk_snoc(ad, t.start, (t.length - m + k) as nat);
}

/// The first merge step is unique: a merge at `k` makes the positions at
/// `k + 1` equal, which any later first merge would forbid.
pub proof fn lemma_merge_at_unique<A: HashAdapter>(
    ad: &A,
    a: TrailInfo<A::Point>,
    b: TrailInfo<A::Point>,
    k1: int,
    k2: int,
)
    requires
        merge_at(ad, a, b, k1),
        merge_at(ad, a, b, k2),
    ensures
        k1 == k2,
{
    let m = common_len(a, b);
    if k1 < k2 {
        lemma_aligned_step(ad, a, m, k1);
        lemma_aligned_step(ad, b, m, k1);
        assert(aligned_pos(ad, a, m, k1 + 1) == aligned_pos(ad, b, m, k1 + 1));
        assert(false);
    } else if k2 < k1 {
        lemma_aligned_step(ad, a, m, k2);
        lemma_aligned_step(ad, b, m, k2);
        assert(aligned_pos(ad, a, m, k2 + 1) == aligned_pos(ad, b, m, k2 + 1));
        assert(false);
    }
}

/// Law: for summaries sharing an end point, the trace result is exactly
/// the classification the adapter's own functions dictate — Robin Hood
/// when the aligned positions coincide, a good collision when the first
/// merge crosses the bifurcation, a self-collision when it does not.
pub proof fn lemma_trace_classifies<A: HashAdapter>(
    ad: &A,
    a: TrailInfo<A::Point>,
    b: TrailInfo<A::Point>,
    r: TraceResult<A::Point>,
)
    requires
        trace_spec(ad, a, b, r),
        walk(ad, a.start, a.length as nat) == walk(ad, b.start, b.length as nat),
    ensures
        (r is RobinHood) == pair_is_robin_hood(ad, a, b),
        (r is GoodCollision) == pair_is_good(ad, a, b),
        (r is SelfCollision) == pair_is_self(ad, a, b),
{
    let m = common_len(a, b);
    match r {
        TraceResult::RobinHood(_p) => {
        },
        TraceResult::GoodCollision(x, y) => {
            let k0 = choose|k: int|
                #![auto]
                0 <= k < m && ((x == aligned_pos(ad, a, m, k) && y == aligned_pos(ad, b, m, k))
                    || (x == aligned_pos(ad, b, m, k) && y == aligned_pos(ad, a, m, k))) && (
                forall|kk: int|
                    0 <= kk <= k ==> #[trigger] aligned_pos(ad, a, m, kk) != aligned_pos(
                        ad,
                        b,
                        m,
                        kk,
                    ));
            assert(step_of(ad, x) == ad.spec_next(x, true));
            assert(step_of(ad, y) == ad.spec_next(y, false));
            assert(merge_at(ad, a, b, k0));
            lemma_merge_at_unique(ad, a, b, k0, merge_step(ad, a, b));
        },
        TraceResult::SelfCollision(x, y) => {
            let k0 = choose|k: int|
                #![auto]
                0 <= k < m && ((x == aligned_pos(ad, a, m, k) && y == aligned_pos(ad, b, m, k))
                    || (x == aligned_pos(ad, b, m, k) && y == aligned_pos(ad, a, m, k))) && (
                forall|kk: int|
                    0 <= kk <= k ==> #[trigger] aligned_pos(ad, a, m, kk) != aligned_pos(
                        ad,
                        b,
                        m,
                        kk,
                    ));
            assert(merge_at(ad, a, b, k0));
            lemma_merge_at_unique(ad, a, b, k0, merge_step(ad, a, b));
        },
        TraceResult::NotFound => {
            assert(false);
        },
    }
}

/// Everything trace-collision promises about its classification of the pair
/// `(a, b)`.
pub open spec fn trace_spec<A: HashAdapter>(
    ad: &A,
    a: TrailInfo<A::Point>,
    b: TrailInfo<A::Point>,
    r: TraceResult<A::Point>,
) -> bool {
    let m = common_len(a, b);
    let a0 = aligned_pos(ad, a, m, 0);
    let b0 = aligned_pos(ad, b, m, 0);
    &&& (r is RobinHood <==> a0 == b0)
    &&& (r matches TraceResult::RobinHood(p) ==> p == a0)
    &&& (r matches TraceResult::GoodCollision(x, y) ==> {
        &&& x != y
        &&& ad.spec_bifurcation(x)
        &&& !ad.spec_bifurcation(y)
        &&& ad.spec_next(x, true) == ad.spec_next(y, false)
        &&& merge_on_walks(ad, a, b, x, y)
    })
    &&& (r matches TraceResult::SelfCollision(x, y) ==> {
        &&& x != y
        &&& ad.spec_bifurcation(x) == ad.spec_bifurcation(y)
        &&& step_of(ad, x) == step_of(ad, y)
        &&& merge_on_walks(ad, a, b, x, y)
    })
    &&& (r is NotFound ==> walk(ad, a.start, a.length as nat) != walk(
        ad,
        b.start,
        b.length as nat,
    ))
}

/// Law: classification is complete. Trace-collision returns exactly one of
/// the four variants, and on two summaries that truly share an end point it
/// never returns NotFound — the walk is a deterministic function of the
/// start, so a merge always exists in the common suffix.
pub proof fn lemma_trace_never_not_found<A: HashAdapter>(
    ad: &A,
    a: TrailInfo<A::Point>,
    b: TrailInfo<A::Point>,
    r: TraceResult<A::Point>,
)
    requires
        trace_spec(ad, a, b, r),
        walk(ad, a.start, a.length as nat) == walk(ad, b.start, b.length as nat),
    ensures
        !(r is NotFound),
{
}

/// Law: swap symmetry. Whatever order the merge was discovered in, a
/// reported good collision `(x, y)` always satisfies
/// `next_point(x, true) == next_point(y, false)` with two distinct
/// pre-images.
pub proof fn lemma_good_collision_cross<A: HashAdapter>(
    ad: &A,
    a: TrailInfo<A::Point>,
    b: TrailInfo<A::Point>,
    x: A::Point,
    y: A::Point,
)
    requires
        trace_spec(ad, a, b, TraceResult::GoodCollision(x, y)),
    ensures
        ad.spec_next(x, true) == ad.spec_next(y, false),
        x != y,
{
}

/// Law: idempotent alignment. Tracing a summary against itself always
/// classifies as Robin Hood, at the summary's own start.
pub proof fn lemma_self_trace_robin_hood<A: HashAdapter>(
    ad: &A,
    t: TrailInfo<A::Point>,
    r: TraceResult<A::Point>,
)
    requires
        trace_spec(ad, t, t, r),
    ensures
        r is RobinHood,
        r matches TraceResult::RobinHood(p) ==> p == t.start,
{
    assert(common_len(t, t) == t.length as int);
    assert(aligned_pos(ad, t, t.length as int, 0) == walk(ad, t.start, 0));
}

/// Law: a uniform bifurcation can never yield a good collision. If the
/// bifurcation chooses the same variant at every point, every merge is a
/// self-collision or a Robin Hood.
pub proof fn lemma_uniform_bifurcation_no_cross<A: HashAdapter>(
    ad: &A,
    a: TrailInfo<A::Point>,
    b: TrailInfo<A::Point>,
    r: TraceResult<A::Point>,
)
    requires
        trace_spec(ad, a, b, r),
        forall|p: A::Point| #[trigger] ad.spec_bifurcation(p),
    ensures
        !(r is GoodCollision),
{
    match r {
        TraceResult::GoodCollision(x, y) => {
            assert(ad.spec_bifurcation(y));
        },
        _ => {},
    }
}

/// Law: when the distinguishing predicate holds of every point, every valid
/// trail has length zero — the start itself is already distinguished.
pub proof fn lemma_universal_distinguishing_zero_length<A: HashAdapter>(
    ad: &A,
    t: TrailInfo<A::Point>,
    e: A::Point,
)
    requires
        trail_valid(ad, t, e),
        forall|p: A::Point| #[trigger] ad.spec_distinguishing(p),
    ensures
        t.length == 0,
{
    if t.length > 0 {
        assert(!ad.spec_distinguishing(walk(ad, t.start, 0)));
    }
}

} // verus!
