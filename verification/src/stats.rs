use vstd::prelude::*;

use vstd::arithmetic::power2::{
    lemma2_to64, lemma2_to64_rest, lemma_pow2_adds, lemma_pow2_strictly_increases,
    lemma_pow2_unfold, pow2,
};

verus! {

/// One value-copy snapshot of the engine's eight diagnostic counters.
#[derive(Clone, Copy, Debug, PartialEq, Eq, Structural)]
pub struct Stats {
    pub trails: u64,
    pub hashes: u64,
    pub collisions: u64,
    pub robin_hoods: u64,
    pub self_collisions: u64,
    pub bailouts: u64,
    pub errors: u64,
    pub lock_contentions: u64,
}

/// The all-zero snapshot a fresh engine starts from.
pub open spec fn zero_stats() -> Stats {
    Stats {
        trails: 0,
        hashes: 0,
        collisions: 0,
        robin_hoods: 0,
        self_collisions: 0,
        bailouts: 0,
        errors: 0,
        lock_contentions: 0,
    }
}

/// Pointwise order on snapshots: every counter of `a` is at most the
/// matching counter of `b`.
pub open spec fn stats_le(a: Stats, b: Stats) -> bool {
    &&& a.trails <= b.trails
    &&& a.hashes <= b.hashes
    &&& a.collisions <= b.collisions
    &&& a.robin_hoods <= b.robin_hoods
    &&& a.self_collisions <= b.self_collisions
    &&& a.bailouts <= b.bailouts
    &&& a.errors <= b.errors
    &&& a.lock_contentions <= b.lock_contentions
}

/// Law: counters are monotone across time. Every mutating engine operation
/// ensures `stats_le(old, new)`, and `stats_le` chains across any sequence of
/// snapshots, so a counter read at an earlier snapshot never exceeds the same
/// counter read at a later one.
pub proof fn lemma_stats_le_trans(a: Stats, b: Stats, c: Stats)
    requires
        stats_le(a, b),
        stats_le(b, c),
    ensures
        stats_le(a, c),
{
}

/// An ideal (unsaturated) count, capped at the counter's range.
pub open spec fn sat_cap(n: int) -> u64 {
    if n > u64::MAX {
        u64::MAX
    } else if n < 0 {
        0
    } else {
        n as u64
    }
}

/// Saturating add: counters top out at `u64::MAX` instead of wrapping, so
/// they never decrease.
pub open spec fn sat_add_spec(a: u64, b: u64) -> u64 {
    if a + b <= u64::MAX {
        (a + b) as u64
    } else {
        u64::MAX
    }
}

pub fn sat_add(a: u64, b: u64) -> (r: u64)
    ensures
        r == sat_add_spec(a, b),
{
    if a <= u64::MAX - b {
        a + b
    } else {
        u64::MAX
    }
}

/// The engine's counter block. Mutated only by increments; `report` publishes
/// a value copy.
pub struct AtomicStats {
    trails: u64,
    hashes: u64,
    collisions: u64,
    robin_hoods: u64,
    self_collisions: u64,
    bailouts: u64,
    errors: u64,
    lock_contentions: u64,
}

impl AtomicStats {
    /// The current counter values as one snapshot.
    pub closed spec fn snapshot(&self) -> Stats {
        Stats {
            trails: self.trails,
            hashes: self.hashes,
            collisions: self.collisions,
            robin_hoods: self.robin_hoods,
            self_collisions: self.self_collisions,
            bailouts: self.bailouts,
            errors: self.errors,
            lock_contentions: self.lock_contentions,
        }
    }

    pub fn new() -> (s: Self)
        ensures
            s.snapshot() == zero_stats(),
    {
        AtomicStats {
            trails: 0,
            hashes: 0,
            collisions: 0,
            robin_hoods: 0,
            self_collisions: 0,
            bailouts: 0,
            errors: 0,
            lock_contentions: 0,
        }
    }

    pub fn report(&self) -> (s: Stats)
        ensures
            s == self.snapshot(),
    {
        Stats {
            trails: self.trails,
            hashes: self.hashes,
            collisions: self.collisions,
            robin_hoods: self.robin_hoods,
            self_collisions: self.self_collisions,
            bailouts: self.bailouts,
            errors: self.errors,
            lock_contentions: self.lock_contentions,
        }
    }

    pub fn inc_trails(&mut self)
        ensures
            final(self).snapshot() == (Stats {
                trails: sat_add_spec(old(self).snapshot().trails, 1),
                ..old(self).snapshot()
            }),
            stats_le(old(self).snapshot(), final(self).snapshot()),
    {
        self.trails = sat_add(self.trails, 1);
    }

    pub fn add_hashes(&mut self, n: u64)
        ensures
            final(self).snapshot() == (Stats {
                hashes: sat_add_spec(old(self).snapshot().hashes, n),
                ..old(self).snapshot()
            }),
            stats_le(old(self).snapshot(), final(self).snapshot()),
    {
        self.hashes = sat_add(self.hashes, n);
    }

    pub fn inc_collisions(&mut self)
        ensures
            final(self).snapshot() == (Stats {
                collisions: sat_add_spec(old(self).snapshot().collisions, 1),
                ..old(self).snapshot()
            }),
            stats_le(old(self).snapshot(), final(self).snapshot()),
    {
        self.collisions = sat_add(self.collisions, 1);
    }

    pub fn inc_robin_hoods(&mut self)
        ensures
            final(self).snapshot() == (Stats {
                robin_hoods: sat_add_spec(old(self).snapshot().robin_hoods, 1),
                ..old(self).snapshot()
            }),
            stats_le(old(self).snapshot(), final(self).snapshot()),
    {
        self.robin_hoods = sat_add(self.robin_hoods, 1);
    }

    pub fn inc_self_collisions(&mut self)
        ensures
            final(self).snapshot() == (Stats {
                self_collisions: sat_add_spec(old(self).snapshot().self_collisions, 1),
                ..old(self).snapshot()
            }),
            stats_le(old(self).snapshot(), final(self).snapshot()),
    {
        self.self_collisions = sat_add(self.self_collisions, 1);
    }

    pub fn inc_bailouts(&mut self)
        ensures
            final(self).snapshot() == (Stats {
                bailouts: sat_add_spec(old(self).snapshot().bailouts, 1),
                ..old(self).snapshot()
            }),
            stats_le(old(self).snapshot(), final(self).snapshot()),
    {
        self.bailouts = sat_add(self.bailouts, 1);
    }

    pub fn inc_errors(&mut self)
        ensures
            final(self).snapshot() == (Stats {
                errors: sat_add_spec(old(self).snapshot().errors, 1),
                ..old(self).snapshot()
            }),
            stats_le(old(self).snapshot(), final(self).snapshot()),
    {
        self.errors = sat_add(self.errors, 1);
    }

    pub fn inc_lock_contentions(&mut self)
        ensures
            final(self).snapshot() == (Stats {
                lock_contentions: sat_add_spec(old(self).snapshot().lock_contentions, 1),
                ..old(self).snapshot()
            }),
            stats_le(old(self).snapshot(), final(self).snapshot()),
    {
        self.lock_contentions = sat_add(self.lock_contentions, 1);
    }
}

/// Floor of the square root.
pub open spec fn sqrt_floor(n: nat) -> nat
    decreases n,
{
    if n == 0 {
        0
    } else {
        let r = sqrt_floor((n - 1) as nat);
        if (r + 1) * (r + 1) <= n {
            (r + 1) as nat
        } else {
            r
        }
    }
}

#[verifier::rlimit(50)]
pub proof fn lemma_sqrt_floor_bounds(n: nat)
    ensures
        sqrt_floor(n) * sqrt_floor(n) <= n,
        (sqrt_floor(n) + 1) * (sqrt_floor(n) + 1) > n,
    decreases n,
{
    if n > 0 {
        lemma_sqrt_floor_bounds((n - 1) as nat);
        let r = sqrt_floor((n - 1) as nat);
        if (r + 1) * (r + 1) <= n {
            assert(sqrt_floor(n) == r + 1);
            assert((r + 2) * (r + 2) > n) by (nonlinear_arith)
                requires
                    (r + 1) * (r + 1) > n - 1,
                    (r + 1) * (r + 1) <= n,
                    r >= 0,
            ;
        } else {
            assert(sqrt_floor(n) == r);
        }
    } else {
        assert(sqrt_floor(n) == 0);
        assert((sqrt_floor(n) + 1) * (sqrt_floor(n) + 1) > n) by (nonlinear_arith)
            requires
                sqrt_floor(n) == 0,
                n == 0,
        ;
    }
}

pub proof fn lemma_sqrt_floor_unique(n: nat, r: nat)
    requires
        r * r <= n,
        (r + 1) * (r + 1) > n,
    ensures
        r == sqrt_floor(n),
{
    lemma_sqrt_floor_bounds(n);
    let s = sqrt_floor(n);
    if r < s {
        assert((r + 1) * (r + 1) <= s * s) by (nonlinear_arith)
            requires
                0 <= r,
                r + 1 <= s,
        ;
    } else if s < r {
        assert((s + 1) * (s + 1) <= r * r) by (nonlinear_arith)
            requires
                0 <= s,
                s + 1 <= r,
        ;
    }
}

/// Integer square root by binary search.
pub fn isqrt_u128(n: u128) -> (r: u128)
    ensures
        r == sqrt_floor(n as nat),
{
    let mut lo: u128 = 0;
    let mut hi: u128 = 0xFFFF_FFFF_FFFF_FFFF;
    if n < hi {
        hi = n;
    }
    proof {
        assert((hi + 1) * (hi + 1) > n) by (nonlinear_arith)
            requires
                hi == n || (n >= 0xFFFF_FFFF_FFFF_FFFF && hi == 0xFFFF_FFFF_FFFF_FFFF),
                n <= u128::MAX,
                u128::MAX == 0xFFFF_FFFF_FFFF_FFFF_FFFF_FFFF_FFFF_FFFF,
        ;
    }
    while lo < hi
        invariant
            lo <= hi <= 0xFFFF_FFFF_FFFF_FFFF,
            lo * lo <= n,
            (hi + 1) * (hi + 1) > n,
        decreases hi - lo,
    {
        let mid = lo + (hi - lo + 1) / 2;
        proof {
            assert(mid * mid <= 0xFFFF_FFFF_FFFF_FFFF * 0xFFFF_FFFF_FFFF_FFFF)
                by (nonlinear_arith)
                requires
                    0 <= mid <= 0xFFFF_FFFF_FFFF_FFFF,
            ;
        }
        if mid * mid <= n {
            lo = mid;
        } else {
            hi = mid - 1;
        }
    }
    proof {
        lemma_sqrt_floor_unique(n as nat, lo as nat);
    }
    lo
}

/// The estimator's integer model: for a `2^bits` search space with `hashes`
/// hashes done in `elapsed_secs` seconds, the whole seconds until the
/// birthday bound expects one cross-variant collision, solving
/// `(h + rate * t)^2 - h^2 = 2 * 2^bits` and doubling for the two variants.
/// With no hashes yet the rate is zero and no estimate exists.
pub open spec fn eta_spec(bits: u8, hashes: u64, elapsed_secs: u64) -> Option<u64> {
    if hashes == 0 {
        None
    } else {
        let s = sqrt_floor((pow2((bits + 1) as nat) + hashes * hashes) as nat);
        let t = (s - hashes) * 2 * elapsed_secs / (hashes as int);
        if t <= u64::MAX {
            Some(t as u64)
        } else {
            Some(u64::MAX)
        }
    }
}

/// 2^e, computed by repeated doubling.
fn pow2_u128(e: u32) -> (r: u128)
    requires
        e <= 97,
    ensures
        r == pow2(e as nat),
{
    let mut i: u32 = 0;
    let mut r: u128 = 1;
    proof {
        lemma2_to64();
    }
    while i < e
        invariant
            i <= e <= 97,
            r == pow2(i as nat),
        decreases e - i,
    {
        proof {
            lemma_pow2_unfold((i + 1) as nat);
            lemma_pow2_strictly_increases((i + 1) as nat, 98);
            lemma_pow2_adds(64, 34);
            lemma2_to64();
            lemma2_to64_rest();
        }
        r = r * 2;
        i = i + 1;
    }
    r
}

impl Stats {
    /// Estimated seconds until the birthday bound expects one good
    /// collision in a `2^bits` search space, from this snapshot's hash
    /// count and the elapsed runtime. `None` when no hashes were counted
    /// yet (the rate is zero, so no finite estimate exists); saturates at
    /// `u64::MAX`. The bounds on the arguments keep all intermediate
    /// values inside 128-bit arithmetic.
    pub fn estimate_time_to_hash(&self, bits: u8, elapsed_secs: u64) -> (r: Option<u64>)
        requires
            bits <= 96,
            self.hashes < 0x8000_0000_0000_0000,
            elapsed_secs <= 0xFFFF_FFFF,
        ensures
            r == eta_spec(bits, self.hashes, elapsed_secs),
    {
        if self.hashes == 0 {
            return None;
        }
        let space2 = pow2_u128((bits as u32) + 1);
        let h = self.hashes as u128;
        proof {
            lemma_pow2_strictly_increases((bits + 1) as nat, 98);
            lemma_pow2_adds(64, 34);
            lemma2_to64();
            lemma2_to64_rest();
            assert(h * h < 0x4000_0000_0000_0000_0000_0000_0000_0000) by (nonlinear_arith)
                requires
                    0 <= h < 0x8000_0000_0000_0000,
            ;
        }
        let n = space2 + h * h;
        let s = isqrt_u128(n);
        proof {
            lemma_sqrt_floor_bounds(n as nat);
            assert(s >= h) by (nonlinear_arith)
                requires
                    s * s <= n,
                    (s + 1) * (s + 1) > n,
                    h * h <= n,
                    0 <= s,
                    0 <= h,
            ;
            assert(s < 0x1_0000_0000_0000_0000) by (nonlinear_arith)
                requires
                    s * s <= n,
                    n < 0x8000_0000_0000_0000_0000_0000_0000_0000,
                    0 <= s,
            ;
        }
        proof {
            assert(((s - h) * 2) * (elapsed_secs as u128) < 0x2_0000_0000_0000_0000_0000_0000)
                by (nonlinear_arith)
                requires
                    0 <= (s - h) * 2 < 0x2_0000_0000_0000_0000,
                    0 <= elapsed_secs <= 0xFFFF_FFFF,
            ;
        }
        let t = (s - h) * 2 * (elapsed_secs as u128) / h;
        if t <= 0xFFFF_FFFF_FFFF_FFFF {
            Some(t as u64)
        } else {
            Some(u64::MAX)
        }
    }
}

} // verus!
