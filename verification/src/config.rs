//! Engine configuration and the PRM* connection-radius policy.

use vstd::prelude::*;
use crate::geometry::MILLI;

verus! {

/// Largest vertex count the engine accepts (keeps every path cost far below
/// `usize::MAX`).
pub const MAX_VERTICES: usize = 65536;

/// Largest rectangle extent, in world units, the engine accepts (keeps all
/// squared distances within `u64`).
pub const MAX_EXTENT: usize = 1_000_000;

/// Largest worker count the engine accepts.
pub const MAX_THREADS: usize = 65536;

/// Immutable construction parameters of a roadmap.
#[derive(Clone, Copy, Debug)]
pub struct PrmConfig {
    /// Number of vertices sampled at construction.
    pub num_vertices: usize,
    /// Width of the configuration rectangle, in world units.
    pub width: usize,
    /// Height of the configuration rectangle, in world units.
    pub height: usize,
    /// Seed of the deterministic sampler.
    pub seed: [u8; 32],
    /// Kept for compatibility with older configurations; unused.
    pub use_viable_edges: bool,
    /// Kept for compatibility with older configurations; unused.
    pub use_blocked_per_obstacle: bool,
    /// Number of parallel worker slots.
    pub threads: usize,
}

impl PrmConfig {
    /// All counts and extents are non-zero.
    pub open spec fn positive(self) -> bool {
        self.num_vertices >= 1 && self.width >= 1 && self.height >= 1 && self.threads >= 1
    }

    /// All counts and extents fit the engine's arithmetic.
    pub open spec fn within_limits(self) -> bool {
        self.num_vertices <= MAX_VERTICES && self.width <= MAX_EXTENT
            && self.height <= MAX_EXTENT && self.threads <= MAX_THREADS
    }

    pub open spec fn valid(self) -> bool {
        self.positive() && self.within_limits()
    }

    /// The two configurations ask for the same roadmap.
    pub open spec fn equiv(self, other: PrmConfig) -> bool {
        self.num_vertices == other.num_vertices && self.width == other.width
            && self.height == other.height && self.seed@ == other.seed@
            && self.threads == other.threads
    }

    pub fn new(
        num_vertices: usize,
        width: usize,
        height: usize,
        seed: [u8; 32],
        threads: usize,
    ) -> (cfg: PrmConfig)
        ensures
            cfg.num_vertices == num_vertices,
            cfg.width == width,
            cfg.height == height,
            cfg.seed == seed,
            cfg.threads == threads,
            !cfg.use_viable_edges,
            !cfg.use_blocked_per_obstacle,
    {
        PrmConfig {
            num_vertices,
            width,
            height,
            seed,
            use_viable_edges: false,
            use_blocked_per_obstacle: false,
            threads,
        }
    }

    /// Decides `positive`.
    pub fn is_positive(&self) -> (r: bool)
        ensures
            r == self.positive(),
    {
        self.num_vertices >= 1 && self.width >= 1 && self.height >= 1 && self.threads >= 1
    }
}

/// The binary logarithm, rounded down (`log2(0)` is 0 by convention).
pub open spec fn log2(n: nat) -> nat
    decreases n,
{
    if n <= 1 {
        0
    } else {
        1 + log2(n / 2)
    }
}

/// Computes `log2`.
pub fn log2_exec(n: usize) -> (r: usize)
    ensures
        r == log2(n as nat),
{
    let mut m: usize = n;
    let mut r: usize = 0;
    proof {
        vstd::arithmetic::power2::lemma2_to64();
    }
    while m > 1
        invariant
            r + log2(m as nat) == log2(n as nat),
            m >= 1 ==> m * vstd::arithmetic::power2::pow2(r as nat) <= n,
            m == 0 ==> r == 0,
        decreases m,
    {
        proof {
            lemma_log2_step_bound(m as nat, r as nat, n as nat);
        }
        m = m / 2;
        r = r + 1;
    }
    r
}

/// One halving step keeps the product invariant of `log2_exec` and bounds
/// the counter.
proof fn lemma_log2_step_bound(m: nat, r: nat, n: nat)
    requires
        m > 1,
        m * vstd::arithmetic::power2::pow2(r) <= n,
        n < 0x1_0000_0000_0000_0000,
    ensures
        r < 64,
        (m / 2) * vstd::arithmetic::power2::pow2(r + 1) <= n,
{
    let p = vstd::arithmetic::power2::pow2(r);
    if r >= 64 {
        vstd::arithmetic::power2::lemma2_to64();
        if r > 64 {
            vstd::arithmetic::power2::lemma_pow2_strictly_increases(64, r);
        }
        assert(m * p >= p) by (nonlinear_arith)
            requires m >= 1, p >= 0;
    }
    assert(vstd::arithmetic::power2::pow2(r + 1) == 2 * p) by {
        vstd::arithmetic::power2::lemma_pow2_unfold(r + 1);
    }
    assert((m / 2) * (2 * p) <= m * p) by (nonlinear_arith)
        requires m > 1, p >= 0, 2 * (m / 2) <= m;
}

/// The squared PRM* connection radius, in squared coordinate steps.
///
/// The PRM* rule for dimension 2 gives `r*^2 = gamma^2 * log2(N) / N` with
/// `gamma^2 = 3 * mu_free / pi`, where `mu_free` is taken as half the
/// rectangle area.  The formula below states that exactly in integers, with
/// `pi` replaced by the rational approximation `355/113` and the area scaled
/// to squared coordinate steps.
pub open spec fn radius_sq_milli(cfg: PrmConfig) -> int {
    3 * cfg.width * cfg.height * log2(cfg.num_vertices as nat) * (MILLI * MILLI) * 113
        / (710 * cfg.num_vertices)
}

/// Computes `radius_sq_milli`.
pub fn radius_sq_milli_exec(cfg: &PrmConfig) -> (r2: u128)
    requires
        cfg.valid(),
    ensures
        r2 == radius_sq_milli(*cfg),
{
    let w = cfg.width as u128;
    let h = cfg.height as u128;
    let n = cfg.num_vertices as u128;
    let lg = log2_exec(cfg.num_vertices) as u128;
    proof {
        lemma_log2_le(cfg.num_vertices as nat);
        assert(w * h <= 1_000_000u128 * 1_000_000u128) by (nonlinear_arith)
            requires 0 <= w <= 1_000_000u128, 0 <= h <= 1_000_000u128;
    }
    let area = w * h;
    let t1 = 3 * area;
    proof {
        assert(t1 * lg <= 3_000_000_000_000u128 * 65536u128) by (nonlinear_arith)
            requires 0 <= t1 <= 3_000_000_000_000u128, 0 <= lg <= 65536u128;
    }
    let t2 = t1 * lg;
    let m2 = (MILLI as u128) * (MILLI as u128);
    proof {
        assert(t2 * m2 <= 196_608_000_000_000_000u128 * 1_000_000u128) by (nonlinear_arith)
            requires 0 <= t2 <= 196_608_000_000_000_000u128, m2 == 1_000_000u128;
    }
    let t3 = t2 * m2;
    let scaled = t3 * 113;
    let r2 = scaled / (710 * n);
    proof {
        assert(scaled as int / (710 * n as int) == radius_sq_milli(*cfg)) by (nonlinear_arith)
            requires
                scaled == ((3 * (w * h)) * lg) * 1_000_000 * 113,
                n == cfg.num_vertices,
                w == cfg.width,
                h == cfg.height,
                lg == log2(cfg.num_vertices as nat),
                radius_sq_milli(*cfg) == 3 * cfg.width * cfg.height
                    * log2(cfg.num_vertices as nat) * (MILLI * MILLI) * 113
                    / (710 * cfg.num_vertices);
    }
    r2
}

/// `log2(n)` is at most `n`.
pub proof fn lemma_log2_le(n: nat)
    ensures
        log2(n) <= n,
    decreases n,
{
    if n > 1 {
        lemma_log2_le(n / 2);
    }
}

} // verus!
