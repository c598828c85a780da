//! Roadmap construction: vertices, candidate edges, and the chunked builder.
//!
//! The candidate edge set is a pure function of the configuration: vertex
//! `i` connects to every vertex `j > i` whose squared distance is below the
//! PRM* threshold.  Workers cover contiguous chunks of the vertex range and
//! each regenerates the full point stream, so their concatenated output in
//! worker order equals the sequential scan.

use vstd::prelude::*;
use vstd::arithmetic::div_mod::lemma_fundamental_div_mod;
use crate::config::PrmConfig;
use crate::config::radius_sq_milli;
use crate::config::radius_sq_milli_exec;
use crate::geometry::Point;
use crate::geometry::dist2;
use crate::geometry::dist2_exec;
use crate::geometry::rounded_dist;
use crate::geometry::rounded_dist_exec;
use crate::sampler::sample_point;
use crate::sampler::generate_points;
use crate::sampler::lemma_sample_point_bounds;

verus! {

/// Index of a vertex, dense and stable.
pub type VertexIndex = usize;

/// Index of a candidate edge, dense and stable.
pub type EdgeIndex = usize;

/// An integer edge length or path cost, in world units.
pub type Distance = u64;

/// A sampled vertex.
#[derive(Clone, Copy, Debug, PartialEq, Eq, Structural)]
pub struct Vertex {
    /// Position, in coordinate steps.
    pub point: Point,
    /// The vertex's own dense index.
    pub index: VertexIndex,
}

/// A candidate edge: an unordered vertex pair stored as `(lower, higher)`,
/// its segment endpoints, and its rounded world-unit length.
#[derive(Clone, Copy, Debug, PartialEq, Eq)]
pub struct Edge {
    /// The two endpoint vertex indices, lower first.
    pub points: (VertexIndex, VertexIndex),
    /// Position of the first endpoint.
    pub a: Point,
    /// Position of the second endpoint.
    pub b: Point,
    /// Euclidean length rounded half away from zero to world units.
    pub length: Distance,
}

/// The vertex the sampler assigns to index `i`.
pub open spec fn spec_vertex(cfg: PrmConfig, i: int) -> Vertex {
    Vertex { point: sample_point(cfg, i), index: i as usize }
}

/// The candidate edge between vertices `i` and `j`.
pub open spec fn spec_edge(cfg: PrmConfig, i: int, j: int) -> Edge {
    let p = sample_point(cfg, i);
    let q = sample_point(cfg, j);
    Edge {
        points: (i as usize, j as usize),
        a: p,
        b: q,
        length: rounded_dist(dist2(p, q)) as u64,
    }
}

/// Vertices `i` and `j` are close enough to be connected.
pub open spec fn pair_connected(cfg: PrmConfig, i: int, j: int) -> bool {
    dist2(sample_point(cfg, i), sample_point(cfg, j)) < radius_sq_milli(cfg)
}

/// The candidate edges of row `i` whose second endpoint is at least `j`,
/// in ascending order of the second endpoint.
pub open spec fn row_edges(cfg: PrmConfig, i: int, j: int) -> Seq<Edge>
    decreases cfg.num_vertices - j,
{
    if j >= cfg.num_vertices {
        Seq::empty()
    } else {
        let rest = row_edges(cfg, i, j + 1);
        if pair_connected(cfg, i, j) {
            seq![spec_edge(cfg, i, j)] + rest
        } else {
            rest
        }
    }
}

/// The candidate edges of rows `s` up to (excluding) `e`, row by row.
pub open spec fn edges_rows(cfg: PrmConfig, s: int, e: int) -> Seq<Edge>
    decreases e - s,
{
    if s >= e {
        Seq::empty()
    } else {
        row_edges(cfg, s, s + 1) + edges_rows(cfg, s + 1, e)
    }
}

/// The full candidate edge list of the configuration, in construction
/// order: first endpoint ascending, then second endpoint ascending.
pub open spec fn candidate_edges(cfg: PrmConfig) -> Seq<Edge> {
    edges_rows(cfg, 0, cfg.num_vertices as int)
}

/// The fields of `e` are consistent with the sampled vertex set.
pub open spec fn edge_wf(cfg: PrmConfig, e: Edge) -> bool {
    &&& (e.points.0 as int) < (e.points.1 as int) < cfg.num_vertices
    &&& e.a == sample_point(cfg, e.points.0 as int)
    &&& e.b == sample_point(cfg, e.points.1 as int)
    &&& e.length == rounded_dist(dist2(e.a, e.b)) as u64
    &&& e == spec_edge(cfg, e.points.0 as int, e.points.1 as int)
    &&& pair_connected(cfg, e.points.0 as int, e.points.1 as int)
}

/// Splitting a row range anywhere gives the same edges.
pub proof fn lemma_edges_rows_concat(cfg: PrmConfig, a: int, b: int, c: int)
    requires
        a <= b <= c,
    ensures
        edges_rows(cfg, a, b) + edges_rows(cfg, b, c) == edges_rows(cfg, a, c),
    decreases b - a,
{
    if a >= b {
        assert(edges_rows(cfg, a, b) =~= Seq::<Edge>::empty());
        assert(edges_rows(cfg, a, b) + edges_rows(cfg, b, c) =~= edges_rows(cfg, b, c));
    } else {
        lemma_edges_rows_concat(cfg, a + 1, b, c);
        assert(edges_rows(cfg, a, b) + edges_rows(cfg, b, c)
            =~= row_edges(cfg, a, a + 1) + (edges_rows(cfg, a + 1, b) + edges_rows(cfg, b, c)));
    }
}

/// Every edge of a row suffix is well formed, belongs to row `i`, and the
/// second endpoints ascend strictly.
pub proof fn lemma_row_edges_props(cfg: PrmConfig, i: int, j: int)
    requires
        0 <= i < cfg.num_vertices,
        i < j,
    ensures
        forall|k: int| 0 <= k < row_edges(cfg, i, j).len()
            ==> edge_wf(cfg, #[trigger] row_edges(cfg, i, j)[k])
                && row_edges(cfg, i, j)[k].points.0 == i
                && j <= row_edges(cfg, i, j)[k].points.1 as int,
        forall|k1: int, k2: int| 0 <= k1 < k2 < row_edges(cfg, i, j).len()
            ==> (#[trigger] row_edges(cfg, i, j)[k1]).points.1
                < (#[trigger] row_edges(cfg, i, j)[k2]).points.1,
    decreases cfg.num_vertices - j,
{
    if j >= cfg.num_vertices {
    } else {
        lemma_row_edges_props(cfg, i, j + 1);
        let row = row_edges(cfg, i, j);
        let rest = row_edges(cfg, i, j + 1);
        if pair_connected(cfg, i, j) {
            assert(row == seq![spec_edge(cfg, i, j)] + rest);
            assert(row[0] == spec_edge(cfg, i, j));
            assert(forall|k: int| 1 <= k < row.len() ==> row[k] == rest[k - 1]);
            assert(edge_wf(cfg, spec_edge(cfg, i, j)));
        } else {
            assert(row == rest);
        }
    }
}

/// Every edge of a row range is well formed and the list is ordered
/// lexicographically by endpoint pair, strictly.
pub proof fn lemma_edges_rows_props(cfg: PrmConfig, s: int, e: int)
    requires
        0 <= s,
        e <= cfg.num_vertices,
    ensures
        forall|k: int| 0 <= k < edges_rows(cfg, s, e).len()
            ==> edge_wf(cfg, #[trigger] edges_rows(cfg, s, e)[k])
                && s <= edges_rows(cfg, s, e)[k].points.0 as int
                && (edges_rows(cfg, s, e)[k].points.0 as int) < e,
        forall|k1: int, k2: int| 0 <= k1 < k2 < edges_rows(cfg, s, e).len()
            ==> ((#[trigger] edges_rows(cfg, s, e)[k1]).points.0
                    < (#[trigger] edges_rows(cfg, s, e)[k2]).points.0
                || (edges_rows(cfg, s, e)[k1].points.0 == edges_rows(cfg, s, e)[k2].points.0
                    && edges_rows(cfg, s, e)[k1].points.1 < edges_rows(cfg, s, e)[k2].points.1)),
    decreases e - s,
{
    if s >= e {
    } else {
        lemma_edges_rows_props(cfg, s + 1, e);
        lemma_row_edges_props(cfg, s, s + 1);
        let all = edges_rows(cfg, s, e);
        let row = row_edges(cfg, s, s + 1);
        let rest = edges_rows(cfg, s + 1, e);
        assert(all == row + rest);
        assert(forall|k: int| 0 <= k < row.len() ==> all[k] == row[k]);
        assert(forall|k: int| row.len() <= k < all.len() ==> all[k] == rest[k - row.len()]);
    }
}

/// One worker's output: the vertices of its chunk and the candidate edges
/// of its rows, regenerated from the shared seed.
pub fn viable_edges_worker(cfg: &PrmConfig, start: usize, end: usize) -> (out: (
    Vec<Vertex>,
    Vec<Edge>,
))
    requires
        cfg.valid(),
        start <= end <= cfg.num_vertices,
    ensures
        out.0@.len() == end - start,
        forall|t: int| 0 <= t < end - start
            ==> out.0@[t] == spec_vertex(*cfg, start + t),
        out.1@ == edges_rows(*cfg, start as int, end as int),
{
    let n = cfg.num_vertices;
    let points = generate_points(cfg);
    let r2 = radius_sq_milli_exec(cfg);
    let mut vertices: Vec<Vertex> = Vec::new();
    let mut edges: Vec<Edge> = Vec::new();
    let mut i: usize = start;
    while i < end
        invariant
            cfg.valid(),
            n == cfg.num_vertices,
            start <= i <= end <= n,
            points@.len() == n,
            forall|t: int| 0 <= t < n ==> points@[t] == sample_point(*cfg, t),
            r2 == radius_sq_milli(*cfg),
            vertices@.len() == i - start,
            forall|t: int| 0 <= t < i - start
                ==> vertices@[t] == spec_vertex(*cfg, start + t),
            edges@ == edges_rows(*cfg, start as int, i as int),
        decreases end - i,
    {
        let p1 = points[i];
        vertices.push(Vertex { point: p1, index: i });
        let ghost edges_before = edges@;
        let mut j: usize = i + 1;
        while j < n
            invariant
                cfg.valid(),
                n == cfg.num_vertices,
                start <= i < end <= n,
                i < j <= n,
                points@.len() == n,
                forall|t: int| 0 <= t < n ==> points@[t] == sample_point(*cfg, t),
                r2 == radius_sq_milli(*cfg),
                p1 == sample_point(*cfg, i as int),
                edges@ + row_edges(*cfg, i as int, j as int)
                    == edges_before + row_edges(*cfg, i as int, i as int + 1),
            decreases n - j,
        {
            proof {
                lemma_sample_point_bounds(*cfg, i as int);
                lemma_sample_point_bounds(*cfg, j as int);
            }
            let p2 = points[j];
            let d2 = dist2_exec(&p1, &p2);
            if (d2 as u128) < r2 {
                let length = rounded_dist_exec(d2);
                let e = Edge { points: (i, j), a: p1, b: p2, length };
                proof {
                    assert(e == spec_edge(*cfg, i as int, j as int));
                    assert(row_edges(*cfg, i as int, j as int)
                        =~= seq![e] + row_edges(*cfg, i as int, j as int + 1));
                    assert(edges@.push(e) + row_edges(*cfg, i as int, j as int + 1)
                        =~= edges@ + row_edges(*cfg, i as int, j as int));
                }
                edges.push(e);
            } else {
                proof {
                    assert(row_edges(*cfg, i as int, j as int)
                        == row_edges(*cfg, i as int, j as int + 1));
                }
            }
            j = j + 1;
        }
        proof {
            assert(row_edges(*cfg, i as int, n as int) =~= Seq::<Edge>::empty());
            assert(edges@ + Seq::<Edge>::empty() =~= edges@);
            assert(edges@ =~= edges_before + row_edges(*cfg, i as int, i as int + 1));
            lemma_edges_rows_concat_step(*cfg, start as int, i as int);
        }
        i = i + 1;
    }
    (vertices, edges)
}

/// Appending row `i` to rows `[s, i)` gives rows `[s, i + 1)`.
proof fn lemma_edges_rows_concat_step(cfg: PrmConfig, s: int, i: int)
    requires
        s <= i,
    ensures
        edges_rows(cfg, s, i) + row_edges(cfg, i, i + 1) == edges_rows(cfg, s, i + 1),
{
    lemma_edges_rows_concat(cfg, s, i, i + 1);
    assert(edges_rows(cfg, i + 1, i + 1) =~= Seq::<Edge>::empty());
    assert(edges_rows(cfg, i, i + 1)
        =~= row_edges(cfg, i, i + 1) + edges_rows(cfg, i + 1, i + 1));
    assert(row_edges(cfg, i, i + 1) + Seq::<Edge>::empty() =~= row_edges(cfg, i, i + 1));
}

/// Builds the whole vertex and candidate edge set, worker chunk by worker
/// chunk, in deterministic order.
pub fn build_roadmap(cfg: &PrmConfig) -> (out: (Vec<Vertex>, Vec<Edge>))
    requires
        cfg.valid(),
    ensures
        out.0@.len() == cfg.num_vertices,
        forall|t: int| 0 <= t < cfg.num_vertices ==> out.0@[t] == spec_vertex(*cfg, t),
        out.1@ == candidate_edges(*cfg),
{
    let n = cfg.num_vertices;
    let w = cfg.threads;
    let chunk = (n + w - 1) / w;
    proof {
        lemma_fundamental_div_mod((n + w - 1) as int, w as int);
        vstd::arithmetic::div_mod::lemma_mod_bound((n + w - 1) as int, w as int);
        assert(chunk <= n) by (nonlinear_arith)
            requires
                w as int * chunk as int <= n + w - 1,
                1 <= w,
                1 <= n,
                0 <= chunk;
    }
    let mut all_vertices: Vec<Vertex> = Vec::new();
    let mut all_edges: Vec<Edge> = Vec::new();
    let mut covered: usize = 0;
    let mut k: usize = 0;
    while k < w
        invariant
            cfg.valid(),
            n == cfg.num_vertices,
            w == cfg.threads,
            1 <= w,
            chunk == (n + w - 1) / (w as int),
            chunk <= n,
            k <= w,
            covered <= n,
            covered == if k * chunk <= n { k * chunk } else { n as int },
            all_vertices@.len() == covered,
            forall|t: int| 0 <= t < covered ==> all_vertices@[t] == spec_vertex(*cfg, t),
            all_edges@ == edges_rows(*cfg, 0, covered as int),
        decreases w - k,
    {
        proof {
            assert((k as u64 + 1) * (chunk as u64) <= 65537u64 * 65536u64) by (nonlinear_arith)
                requires
                    0 <= k as u64 + 1 <= 65537u64,
                    0 <= chunk as u64 <= 65536u64;
        }
        let next_raw: u64 = (k as u64 + 1) * (chunk as u64);
        let next: usize = if next_raw > n as u64 { n } else { next_raw as usize };
        proof {
            assert(covered <= next) by (nonlinear_arith)
                requires
                    covered == if k * chunk <= n { k * chunk } else { n as int },
                    next == if (k + 1) * chunk > n { n as int } else { (k + 1) * chunk },
                    0 <= k,
                    0 <= chunk,
                    covered <= n;
        }
        let start = covered;
        let (mut vs, mut es) = viable_edges_worker(cfg, start, next);
        proof {
            lemma_edges_rows_concat(*cfg, 0, start as int, next as int);
        }
        all_vertices.append(&mut vs);
        all_edges.append(&mut es);
        covered = next;
        k = k + 1;
    }
    proof {
        lemma_fundamental_div_mod((n + w - 1) as int, w as int);
        vstd::arithmetic::div_mod::lemma_mod_bound((n + w - 1) as int, w as int);
        assert(w * chunk >= n) by (nonlinear_arith)
            requires
                w >= 1,
                n + w - 1 == w * chunk + ((n + w - 1) as int % (w as int)),
                0 <= (n + w - 1) as int % (w as int) < w;
        assert(covered == n);
    }
    (all_vertices, all_edges)
}

/// Two configurations asking for the same roadmap sample the same points.
pub proof fn lemma_sample_point_equiv(c1: PrmConfig, c2: PrmConfig, i: int)
    requires
        c1.equiv(c2),
    ensures
        sample_point(c1, i) == sample_point(c2, i),
{
    assert(c1.seed@ == c2.seed@);
}

/// Two configurations asking for the same roadmap emit the same row
/// suffix.
proof fn lemma_row_edges_equiv(c1: PrmConfig, c2: PrmConfig, i: int, j: int)
    requires
        c1.equiv(c2),
    ensures
        row_edges(c1, i, j) == row_edges(c2, i, j),
    decreases c1.num_vertices - j,
{
    if j < c1.num_vertices {
        lemma_row_edges_equiv(c1, c2, i, j + 1);
        lemma_sample_point_equiv(c1, c2, i);
        lemma_sample_point_equiv(c1, c2, j);
        assert(radius_sq_milli(c1) == radius_sq_milli(c2));
        assert(spec_edge(c1, i, j) == spec_edge(c2, i, j));
    }
}

/// Two configurations asking for the same roadmap emit the same rows.
proof fn lemma_edges_rows_equiv(c1: PrmConfig, c2: PrmConfig, s: int, e: int)
    requires
        c1.equiv(c2),
    ensures
        edges_rows(c1, s, e) == edges_rows(c2, s, e),
    decreases e - s,
{
    if s < e {
        lemma_edges_rows_equiv(c1, c2, s + 1, e);
        lemma_row_edges_equiv(c1, c2, s, s + 1);
    }
}

/// Two configurations asking for the same roadmap have the same candidate
/// edge list and the same vertices.
pub proof fn lemma_candidate_edges_equiv(c1: PrmConfig, c2: PrmConfig)
    requires
        c1.equiv(c2),
    ensures
        candidate_edges(c1) == candidate_edges(c2),
        forall|i: int| #[trigger] spec_vertex(c1, i) == spec_vertex(c2, i),
{
    lemma_edges_rows_equiv(c1, c2, 0, c1.num_vertices as int);
    assert forall|i: int| #[trigger] spec_vertex(c1, i) == spec_vertex(c2, i) by {
        lemma_sample_point_equiv(c1, c2, i);
    }
}

} // verus!
