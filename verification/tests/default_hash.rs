use core::ops::ControlFlow;
use std::collections::hash_map::DefaultHasher;
use std::hash::Hasher;

use hash_collider::{Collider, HashAdapter, TraceResult, TrailInfo};

/// 64-bit default hash of a pair, truncated to 42 bits.
fn my_hash(data: (u64, u64)) -> u64 {
    let mut hasher = DefaultHasher::new();
    hasher.write_u64(data.0);
    hasher.write_u64(data.1);
    hasher.finish() & !(!0 << 42)
}

/// The 42-bit truncated default hash walk: variant A prefixes 0, variant B
/// prefixes 42; distinguished points have their 18 low bits zero.
struct TruncatedDefaultHash;

impl HashAdapter for TruncatedDefaultHash {
    type Point = u64;

    fn spec_make_point(&self, seed: u64) -> u64 {
        seed
    }

    fn spec_trail_limit(&self) -> u64 {
        0x3ffff * 20
    }

    fn spec_distinguishing(&self, x: u64) -> bool {
        x & 0x3ffff == 0
    }

    fn spec_bifurcation(&self, x: u64) -> bool {
        x & 1 != 0
    }

    fn spec_next(&self, x: u64, bi: bool) -> u64 {
        let prefix = if bi { 0 } else { 42 };
        my_hash((prefix, x))
    }

    fn make_point(&self, seed: u64) -> u64 {
        seed
    }

    fn trail_limit(&self) -> u64 {
        0x3ffff * 20
    }

    fn is_distinguishing(&self, x: u64) -> bool {
        x & 0x3ffff == 0
    }

    fn bifurcation(&self, x: u64) -> bool {
        x & 1 != 0
    }

    fn next_point(&self, x: u64, bi: bool) -> u64 {
        let prefix = if bi { 0 } else { 42 };
        my_hash((prefix, x))
    }

    fn eq_point(&self, a: u64, b: u64) -> bool {
        a == b
    }

    fn report_collision(&self, a: u64, b: u64) -> ControlFlow<(), ()> {
        println!("found collision! {:x?} {:x?}", a, b);
        ControlFlow::Break(())
    }
}

const PRE_A: u64 = 0xedcb60beda96782b;
const PRE_B: u64 = 0x9ecd6bc1caefa5f4;

#[test]
fn reference_pair_collides() {
    assert!(my_hash((0, PRE_A)) == my_hash((42, PRE_B)));
}

#[test]
fn reference_pair_classifies_as_good_collision() {
    // PRE_A is odd (variant A next), PRE_B is even (variant B next), and
    // their next points coincide: a cross-variant merge at step zero.
    let ad = TruncatedDefaultHash;
    let a = TrailInfo { start: PRE_A, length: 1 };
    let b = TrailInfo { start: PRE_B, length: 1 };
    match Collider::trace_collision(&ad, &a, &b) {
        TraceResult::GoodCollision(x, y) => {
            assert_eq!((x, y), (PRE_A, PRE_B));
            assert_eq!(ad.next_point(x, true), ad.next_point(y, false));
        }
        _ => panic!("expected a good collision"),
    }
}

#[test]
fn engine_seeded_with_reference_pair_reports_the_collision() {
    let mut c = Collider::new(TruncatedDefaultHash);
    c.start();
    c.worker_step(PRE_A);
    let active = c.worker_step(PRE_B);
    let s = c.report_stats();
    assert_eq!(s.collisions, 1);
    assert_eq!(s.errors, 0);
    // report_collision returned Break, which stops the engine
    assert!(!active);
    assert!(!c.is_running());
}
