use core::ops::ControlFlow;

use hash_collider::{printer_should_stop, Collider, HashAdapter, Stats, TraceResult, TrailInfo};

/// Walk that never moves; every point is distinguished.
struct IdentityWalk;

impl HashAdapter for IdentityWalk {
    type Point = u64;

    fn spec_make_point(&self, _seed: u64) -> u64 {
        7
    }

    fn spec_trail_limit(&self) -> u64 {
        5
    }

    fn spec_distinguishing(&self, _x: u64) -> bool {
        true
    }

    fn spec_bifurcation(&self, _x: u64) -> bool {
        true
    }

    fn spec_next(&self, x: u64, _bi: bool) -> u64 {
        x
    }

    fn make_point(&self, _seed: u64) -> u64 {
        7
    }

    fn trail_limit(&self) -> u64 {
        5
    }

    fn is_distinguishing(&self, _x: u64) -> bool {
        true
    }

    fn bifurcation(&self, _x: u64) -> bool {
        true
    }

    fn next_point(&self, x: u64, _bi: bool) -> u64 {
        x
    }

    fn eq_point(&self, a: u64, b: u64) -> bool {
        a == b
    }

    fn report_collision(&self, _a: u64, _b: u64) -> ControlFlow<(), ()> {
        ControlFlow::Continue(())
    }
}

/// Counting walk: steps `x + 1` regardless of variant, distinguished at 10
/// and beyond; starts are the seeds themselves.
struct CountUp;

impl HashAdapter for CountUp {
    type Point = u64;

    fn spec_make_point(&self, seed: u64) -> u64 {
        seed
    }

    fn spec_trail_limit(&self) -> u64 {
        64
    }

    fn spec_distinguishing(&self, x: u64) -> bool {
        x >= 10
    }

    fn spec_bifurcation(&self, x: u64) -> bool {
        x & 1 == 1
    }

    fn spec_next(&self, x: u64, _bi: bool) -> u64 {
        x + 1
    }

    fn make_point(&self, seed: u64) -> u64 {
        seed
    }

    fn trail_limit(&self) -> u64 {
        64
    }

    fn is_distinguishing(&self, x: u64) -> bool {
        x >= 10
    }

    fn bifurcation(&self, x: u64) -> bool {
        x & 1 == 1
    }

    fn next_point(&self, x: u64, _bi: bool) -> u64 {
        x + 1
    }

    fn eq_point(&self, a: u64, b: u64) -> bool {
        a == b
    }

    fn report_collision(&self, _a: u64, _b: u64) -> ControlFlow<(), ()> {
        ControlFlow::Continue(())
    }
}

/// Every point below 8 jumps straight to 8, which is distinguished. An odd
/// and an even start below 8 therefore merge on opposite bifurcations, and
/// a reported collision requests a stop.
struct JumpToEight;

impl HashAdapter for JumpToEight {
    type Point = u64;

    fn spec_make_point(&self, seed: u64) -> u64 {
        seed
    }

    fn spec_trail_limit(&self) -> u64 {
        16
    }

    fn spec_distinguishing(&self, x: u64) -> bool {
        x >= 8
    }

    fn spec_bifurcation(&self, x: u64) -> bool {
        x & 1 == 1
    }

    fn spec_next(&self, _x: u64, _bi: bool) -> u64 {
        8
    }

    fn make_point(&self, seed: u64) -> u64 {
        seed
    }

    fn trail_limit(&self) -> u64 {
        16
    }

    fn is_distinguishing(&self, x: u64) -> bool {
        x >= 8
    }

    fn bifurcation(&self, x: u64) -> bool {
        x & 1 == 1
    }

    fn next_point(&self, _x: u64, _bi: bool) -> u64 {
        8
    }

    fn eq_point(&self, a: u64, b: u64) -> bool {
        a == b
    }

    fn report_collision(&self, a: u64, b: u64) -> ControlFlow<(), ()> {
        assert!(a & 1 == 1);
        assert!(b & 1 == 0);
        ControlFlow::Break(())
    }
}

/// The bifurcation always picks variant A, while the two variants genuinely
/// differ: a merge can only ever be a self-collision.
struct UniformBifurcation;

impl HashAdapter for UniformBifurcation {
    type Point = u64;

    fn spec_make_point(&self, seed: u64) -> u64 {
        seed
    }

    fn spec_trail_limit(&self) -> u64 {
        64
    }

    fn spec_distinguishing(&self, x: u64) -> bool {
        x == 0
    }

    fn spec_bifurcation(&self, _x: u64) -> bool {
        true
    }

    fn spec_next(&self, x: u64, bi: bool) -> u64 {
        if bi {
            x >> 1
        } else {
            x.wrapping_mul(31).wrapping_add(17)
        }
    }

    fn make_point(&self, seed: u64) -> u64 {
        seed
    }

    fn trail_limit(&self) -> u64 {
        64
    }

    fn is_distinguishing(&self, x: u64) -> bool {
        x == 0
    }

    fn bifurcation(&self, _x: u64) -> bool {
        true
    }

    fn next_point(&self, x: u64, bi: bool) -> u64 {
        if bi {
            x >> 1
        } else {
            x.wrapping_mul(31).wrapping_add(17)
        }
    }

    fn eq_point(&self, a: u64, b: u64) -> bool {
        a == b
    }

    fn report_collision(&self, _a: u64, _b: u64) -> ControlFlow<(), ()> {
        ControlFlow::Continue(())
    }
}

/// A small pseudo-random walk over an 8-bit space, fully deterministic in
/// the seed, for reproducibility checks.
struct SmallSpace;

impl HashAdapter for SmallSpace {
    type Point = u64;

    fn spec_make_point(&self, seed: u64) -> u64 {
        seed & 0xFF
    }

    fn spec_trail_limit(&self) -> u64 {
        100
    }

    fn spec_distinguishing(&self, x: u64) -> bool {
        x & 0x7 == 0
    }

    fn spec_bifurcation(&self, x: u64) -> bool {
        x & 1 == 1
    }

    fn spec_next(&self, x: u64, bi: bool) -> u64 {
        let k = if bi { 1 } else { 3 };
        (x * x + k) % 251
    }

    fn make_point(&self, seed: u64) -> u64 {
        seed & 0xFF
    }

    fn trail_limit(&self) -> u64 {
        100
    }

    fn is_distinguishing(&self, x: u64) -> bool {
        x & 0x7 == 0
    }

    fn bifurcation(&self, x: u64) -> bool {
        x & 1 == 1
    }

    fn next_point(&self, x: u64, bi: bool) -> u64 {
        let k = if bi { 1 } else { 3 };
        (x * x + k) % 251
    }

    fn eq_point(&self, a: u64, b: u64) -> bool {
        a == b
    }

    fn report_collision(&self, _a: u64, _b: u64) -> ControlFlow<(), ()> {
        ControlFlow::Continue(())
    }
}

#[test]
fn new_engine_starts_clean() {
    let c = Collider::new(CountUp);
    let s = c.report_stats();
    assert_eq!(s.trails, 0);
    assert_eq!(s.hashes, 0);
    assert_eq!(s.collisions, 0);
    assert_eq!(s.robin_hoods, 0);
    assert_eq!(s.self_collisions, 0);
    assert_eq!(s.bailouts, 0);
    assert_eq!(s.errors, 0);
    assert_eq!(s.lock_contentions, 0);
    assert!(!c.is_running());
}

#[test]
fn worker_step_before_start_does_nothing() {
    let mut c = Collider::new(CountUp);
    let active = c.worker_step(3);
    assert!(!active);
    assert_eq!(c.report_stats().trails, 0);
}

#[test]
fn trail_lengths_add_up_to_hashes() {
    let mut c = Collider::new(CountUp);
    c.start();
    c.worker_step(3);
    c.worker_step(5);
    let s = c.report_stats();
    assert_eq!(s.trails, 2);
    // the walks take 7 and 5 steps to reach 10
    assert_eq!(s.hashes, 12);
    assert_eq!(s.bailouts, 0);
    assert_eq!(s.errors, 0);
}

#[test]
fn converging_trails_classify_as_robin_hood() {
    // 3 -> ... -> 10 (7 steps) and 5 -> ... -> 10 (5 steps): the shorter
    // walk is a suffix of the longer one.
    let mut c = Collider::new(CountUp);
    c.start();
    c.worker_step(3);
    c.worker_step(5);
    let s = c.report_stats();
    assert_eq!(s.robin_hoods, 1);
    assert_eq!(s.collisions, 0);
    assert_eq!(s.self_collisions, 0);
    assert_eq!(s.errors, 0);
}

#[test]
fn zero_trail_limit_bails_out_immediately() {
    struct ZeroLimit;
    impl HashAdapter for ZeroLimit {
        type Point = u64;

        fn spec_make_point(&self, seed: u64) -> u64 {
            seed
        }

        fn spec_trail_limit(&self) -> u64 {
            0
        }

        fn spec_distinguishing(&self, x: u64) -> bool {
            x == 0
        }

        fn spec_bifurcation(&self, x: u64) -> bool {
            x & 1 == 1
        }

        fn spec_next(&self, x: u64, _bi: bool) -> u64 {
            x + 1
        }
        fn make_point(&self, seed: u64) -> u64 {
            seed
        }
        fn trail_limit(&self) -> u64 {
            0
        }
        fn is_distinguishing(&self, x: u64) -> bool {
            x == 0
        }
        fn bifurcation(&self, x: u64) -> bool {
            x & 1 == 1
        }
        fn next_point(&self, x: u64, _bi: bool) -> u64 {
            x + 1
        }
        fn eq_point(&self, a: u64, b: u64) -> bool {
            a == b
        }
        fn report_collision(&self, _a: u64, _b: u64) -> ControlFlow<(), ()> {
            ControlFlow::Continue(())
        }
    }

    let mut c = Collider::new(ZeroLimit);
    c.start();
    // a start that is not already distinguishing bails out at once
    c.worker_step(5);
    let s = c.report_stats();
    assert_eq!(s.bailouts, 1);
    assert_eq!(s.trails, 0);
    // a start that is already distinguishing completes with length 0
    c.worker_step(0);
    let s = c.report_stats();
    assert_eq!(s.bailouts, 1);
    assert_eq!(s.trails, 1);
    assert_eq!(s.hashes, 0);
}

#[test]
fn universal_distinguishing_gives_zero_length_trails() {
    let mut c = Collider::new(IdentityWalk);
    // run draws random seeds, but every start is 7 and every trail has
    // length 0, so the counters are exact; nothing stops the run early,
    // so the whole iteration budget is spent
    let active = c.run(5);
    assert!(active);
    let s = c.report_stats();
    assert_eq!(s.trails, 5);
    assert_eq!(s.hashes, 0);
    // the five summaries share one bucket: 0 + 1 + 2 + 3 + 4 prior trails
    assert_eq!(s.robin_hoods, 10);
    assert_eq!(s.collisions, 0);
    assert_eq!(s.self_collisions, 0);
    assert_eq!(s.errors, 0);
    assert!(!c.is_running());
}

#[test]
fn run_leaves_running_false_and_no_contention() {
    let mut c = Collider::new(SmallSpace);
    c.run(20);
    assert!(!c.is_running());
    // one sequential worker never contends for the index lock
    assert_eq!(c.report_stats().lock_contentions, 0);
}

#[test]
fn seeded_runs_are_reproducible() {
    let seeds: Vec<u64> = (0..40).map(|i| i * 37 + 11).collect();
    let mut c1 = Collider::new(SmallSpace);
    let mut c2 = Collider::new(SmallSpace);
    c1.start();
    c2.start();
    for s in &seeds {
        c1.worker_step(*s);
    }
    for s in &seeds {
        c2.worker_step(*s);
    }
    assert_eq!(c1.report_stats(), c2.report_stats());
}

#[test]
fn counters_never_decrease() {
    let mut c = Collider::new(SmallSpace);
    c.start();
    let mut prev = c.report_stats();
    for seed in 0..60u64 {
        c.worker_step(seed * 13 + 1);
        let cur = c.report_stats();
        assert!(prev.trails <= cur.trails);
        assert!(prev.hashes <= cur.hashes);
        assert!(prev.collisions <= cur.collisions);
        assert!(prev.robin_hoods <= cur.robin_hoods);
        assert!(prev.self_collisions <= cur.self_collisions);
        assert!(prev.bailouts <= cur.bailouts);
        assert!(prev.errors <= cur.errors);
        assert!(prev.lock_contentions <= cur.lock_contentions);
        prev = cur;
    }
}

#[test]
fn reported_stop_halts_the_engine() {
    let mut c = Collider::new(JumpToEight);
    c.start();
    assert!(c.worker_step(1));
    // the second trail merges with the first on opposite bifurcations;
    // report_collision returns Break, which must stop the engine
    let active = c.worker_step(2);
    assert!(!active);
    assert!(!c.is_running());
    let s = c.report_stats();
    assert_eq!(s.collisions, 1);
    // once stopped, further steps do no work at all
    c.worker_step(4);
    assert_eq!(c.report_stats(), s);
}

#[test]
fn uniform_bifurcation_yields_only_self_collisions() {
    // 2 -> 1 -> 0 and 3 -> 1 -> 0 merge while both apply variant A
    let mut c = Collider::new(UniformBifurcation);
    c.start();
    c.worker_step(2);
    c.worker_step(3);
    let s = c.report_stats();
    assert_eq!(s.collisions, 0);
    assert_eq!(s.self_collisions, 1);
    assert_eq!(s.errors, 0);
}

#[test]
fn note_contention_counts_failed_acquires() {
    let mut c = Collider::new(CountUp);
    c.note_contention();
    c.note_contention();
    assert_eq!(c.report_stats().lock_contentions, 2);
}

#[test]
fn trace_of_identical_summaries_is_robin_hood() {
    let ad = CountUp;
    let t = TrailInfo { start: 4, length: 6 };
    let r = Collider::trace_collision(&ad, &t, &t);
    assert!(matches!(r, TraceResult::RobinHood(p) if p == 4));
}

#[test]
fn trace_of_suffix_trail_is_robin_hood() {
    let ad = CountUp;
    let a = TrailInfo { start: 5, length: 5 };
    let b = TrailInfo { start: 7, length: 3 };
    let r = Collider::trace_collision(&ad, &a, &b);
    assert!(matches!(r, TraceResult::RobinHood(p) if p == 7));
}

#[test]
fn trace_of_same_variant_merge_is_self_collision() {
    let ad = UniformBifurcation;
    let a = TrailInfo { start: 2, length: 2 };
    let b = TrailInfo { start: 3, length: 2 };
    let r = Collider::trace_collision(&ad, &a, &b);
    assert!(matches!(r, TraceResult::SelfCollision(2, 3)));
}

#[test]
fn trace_of_cross_variant_merge_is_good_collision() {
    let ad = JumpToEight;
    let odd = TrailInfo { start: 1, length: 1 };
    let even = TrailInfo { start: 2, length: 1 };
    let r = Collider::trace_collision(&ad, &odd, &even);
    match r {
        TraceResult::GoodCollision(x, y) => {
            // swap symmetry: the first pre-image takes variant A
            assert_eq!((x, y), (1, 2));
            assert_eq!(ad.next_point(x, true), ad.next_point(y, false));
        }
        _ => panic!("expected a good collision"),
    }
    // discovered in the other order, the arguments are swapped so the
    // contract still holds
    let r = Collider::trace_collision(&ad, &even, &odd);
    match r {
        TraceResult::GoodCollision(x, y) => {
            assert_eq!((x, y), (1, 2));
            assert_eq!(ad.next_point(x, true), ad.next_point(y, false));
        }
        _ => panic!("expected a good collision"),
    }
}

#[test]
fn trace_of_unrelated_walks_is_not_found() {
    let ad = IdentityWalk;
    let a = TrailInfo { start: 1, length: 1 };
    let b = TrailInfo { start: 2, length: 1 };
    let r = Collider::trace_collision(&ad, &a, &b);
    assert!(matches!(r, TraceResult::NotFound));
}

#[test]
fn extend_trail_walks_to_first_distinguished_point() {
    let ad = CountUp;
    let r = Collider::extend_trail(&ad, 3, 64);
    assert_eq!(r, Some((10, 7)));
    let r = Collider::extend_trail(&ad, 10, 64);
    assert_eq!(r, Some((10, 0)));
    let r = Collider::extend_trail(&ad, 0, 5);
    assert_eq!(r, None);
}

#[test]
fn printer_stop_rule() {
    assert!(!printer_should_stop(true, 0));
    assert!(printer_should_stop(true, 3));
    assert!(!printer_should_stop(false, 5));
}

fn stats_with_hashes(h: u64) -> Stats {
    Stats {
        trails: 0,
        hashes: h,
        collisions: 0,
        robin_hoods: 0,
        self_collisions: 0,
        bailouts: 0,
        errors: 0,
        lock_contentions: 0,
    }
}

#[test]
fn eta_without_hashes_has_no_estimate() {
    let s = stats_with_hashes(0);
    assert_eq!(s.estimate_time_to_hash(42, 1), None);
}

#[test]
fn eta_at_sqrt_of_space_is_about_a_second() {
    // hashes == sqrt(2^42) after one second: the estimate is a small
    // positive multiple of a second
    let s = stats_with_hashes(1 << 21);
    assert_eq!(s.estimate_time_to_hash(42, 1), Some(1));
}

#[test]
fn eta_exact_values() {
    let s = stats_with_hashes(1);
    assert_eq!(s.estimate_time_to_hash(42, 1), Some(5931638));
    let s = stats_with_hashes(16);
    assert_eq!(s.estimate_time_to_hash(8, 2), Some(2));
    // the widest supported space
    let s = stats_with_hashes(1 << 48);
    assert_eq!(s.estimate_time_to_hash(96, 1), Some(1));
}
