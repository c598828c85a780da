//! Deterministic point sampling.
//!
//! Vertex positions are derived from a ChaCha word stream seeded by the
//! configuration's 32-byte seed, so a configuration determines its vertex
//! set exactly.

use vstd::prelude::*;
use vstd::arithmetic::div_mod::lemma_mod_bound;
use rand::RngCore;
use rand::SeedableRng;
use crate::config::PrmConfig;
use crate::geometry::MILLI;
use crate::geometry::Point;

verus! {

/// The stream of `n` words drawn from a ChaCha generator seeded with `seed`.
pub uninterp spec fn chacha_words(seed: Seq<u8>, n: nat) -> Seq<u64>;

/// Relies on `rand_chacha::ChaCha8Rng`: `from_seed` is a pure function of
/// the seed, and successive `next_u64` calls yield a reproducible,
/// platform-independent word stream, so the words drawn are a function of
/// the seed and the count alone.
#[verifier::external_body]
fn chacha_word_stream(seed: &[u8; 32], n: usize) -> (words: Vec<u64>)
    ensures
        words@.len() == n,
        words@ == chacha_words(seed@, n as nat),
{
    let mut rng = rand_chacha::ChaCha8Rng::from_seed(*seed);
    let mut words = Vec::with_capacity(n);
    while words.len() < n {
        words.push(rng.next_u64());
    }
    words
}

/// The position of vertex `i`: each coordinate is one stream word reduced
/// into the rectangle, in coordinate steps.
pub open spec fn sample_point(cfg: PrmConfig, i: int) -> Point {
    let ws = chacha_words(cfg.seed@, (2 * cfg.num_vertices) as nat);
    Point {
        x: ((ws[2 * i] as int) % (cfg.width as int * MILLI as int)) as i64,
        y: ((ws[2 * i + 1] as int) % (cfg.height as int * MILLI as int)) as i64,
    }
}

/// A sampled coordinate lies inside the rectangle.
pub proof fn lemma_sample_point_bounds(cfg: PrmConfig, i: int)
    requires
        cfg.valid(),
    ensures
        0 <= sample_point(cfg, i).x < cfg.width as int * MILLI as int,
        0 <= sample_point(cfg, i).y < cfg.height as int * MILLI as int,
{
    let ws = chacha_words(cfg.seed@, (2 * cfg.num_vertices) as nat);
    lemma_mod_bound(ws[2 * i] as int, cfg.width as int * MILLI as int);
    lemma_mod_bound(ws[2 * i + 1] as int, cfg.height as int * MILLI as int);
}

/// Regenerates the full point stream of the configuration.
pub fn generate_points(cfg: &PrmConfig) -> (pts: Vec<Point>)
    requires
        cfg.valid(),
    ensures
        pts@.len() == cfg.num_vertices,
        forall|i: int| 0 <= i < cfg.num_vertices ==> pts@[i] == sample_point(*cfg, i),
{
    let n = cfg.num_vertices;
    let words = chacha_word_stream(&cfg.seed, 2 * n);
    let x_extent: u64 = (cfg.width as u64) * MILLI;
    let y_extent: u64 = (cfg.height as u64) * MILLI;
    let mut pts: Vec<Point> = Vec::new();
    let mut idx: usize = 0;
    while idx < n
        invariant
            cfg.valid(),
            n == cfg.num_vertices,
            words@ == chacha_words(cfg.seed@, (2 * cfg.num_vertices) as nat),
            words@.len() == 2 * n,
            x_extent == cfg.width as int * MILLI as int,
            y_extent == cfg.height as int * MILLI as int,
            idx <= n,
            pts@.len() == idx,
            forall|i: int| 0 <= i < idx ==> pts@[i] == sample_point(*cfg, i),
        decreases n - idx,
    {
        let x = (words[2 * idx] % x_extent) as i64;
        let y = (words[2 * idx + 1] % y_extent) as i64;
        pts.push(Point { x, y });
        proof {
            lemma_sample_point_bounds(*cfg, idx as int);
            assert(pts@[idx as int] == sample_point(*cfg, idx as int));
        }
        idx = idx + 1;
    }
    pts
}

} // verus!
