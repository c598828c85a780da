//! The dynamic roadmap engine: candidate edges classified against the
//! obstacle set, per-edge blocking counts, per-obstacle blocked-edge lists,
//! and the incrementally maintained adjacency cache.

use vstd::prelude::*;
use vstd::pervasive::VecAdditionalExecFns;
use crate::config::PrmConfig;
use crate::geometry::Point;
use crate::geometry::Rect;
use crate::geometry::dist2;
use crate::geometry::seg_intersects_rect;
use crate::geometry::seg_intersects_rect_exec;
use crate::neighbors::NbrEntry;
use crate::neighbors::Neighbors;
use crate::neighbors::entry_count;
use crate::neighbors::filter_out;
use crate::neighbors::lemma_entry_count_push;
use crate::neighbors::lemma_filter_out_count;
use crate::obstacles::Obstacle;
use crate::obstacles::ObstacleId;
use crate::obstacles::ObstacleSet;
use crate::obstacles::ids_distinct;
use crate::obstacles::seq_contains_point;
use crate::roadmap::Edge;
use crate::roadmap::EdgeIndex;
use crate::roadmap::Vertex;
use crate::roadmap::VertexIndex;
use crate::roadmap::build_roadmap;
use crate::roadmap::candidate_edges;
use crate::roadmap::edge_wf;
use crate::roadmap::lemma_edges_rows_props;
use crate::roadmap::spec_vertex;
use crate::sampler::lemma_sample_point_bounds;

verus! {

/// What can go wrong at the engine's boundary.
#[derive(Clone, Copy, Debug, PartialEq, Eq, Structural)]
pub enum PrmError {
    /// A zero vertex count, extent, or worker count.
    ConfigInvalid,
    /// A parallel task failed; the surrounding phase is abandoned.
    WorkerFailed,
    /// An obstacle identifier not present in the engine.
    UnknownObstacle,
    /// A persisted image could not be decoded.
    PersistenceError,
}

/// The identifiers of the edges in `[from, to)` whose segment meets `r`,
/// ascending.
pub open spec fn blocked_range(edges: Seq<Edge>, r: Rect, from: int, to: int) -> Seq<EdgeIndex>
    decreases to - from,
{
    if from >= to {
        Seq::empty()
    } else {
        let rest = blocked_range(edges, r, from + 1, to);
        if seg_intersects_rect(edges[from].a, edges[from].b, r) {
            seq![from as usize] + rest
        } else {
            rest
        }
    }
}

/// The blocked-edge list of an obstacle: every intersecting edge, once,
/// ascending.
pub open spec fn blocked_of(edges: Seq<Edge>, r: Rect) -> Seq<EdgeIndex> {
    blocked_range(edges, r, 0, edges.len() as int)
}

/// Elements of a blocked range are the intersecting indices of the range,
/// in strictly ascending order.
pub proof fn lemma_blocked_range_props(edges: Seq<Edge>, r: Rect, from: int, to: int)
    requires
        0 <= from,
        to <= edges.len(),
        to <= usize::MAX,
    ensures
        forall|t: int| 0 <= t < blocked_range(edges, r, from, to).len()
            ==> from <= #[trigger] blocked_range(edges, r, from, to)[t] < to
                && seg_intersects_rect(
                    edges[blocked_range(edges, r, from, to)[t] as int].a,
                    edges[blocked_range(edges, r, from, to)[t] as int].b,
                    r,
                ),
        forall|t1: int, t2: int| 0 <= t1 < t2 < blocked_range(edges, r, from, to).len()
            ==> #[trigger] blocked_range(edges, r, from, to)[t1]
                < #[trigger] blocked_range(edges, r, from, to)[t2],
        forall|e: int| from <= e < to
            && seg_intersects_rect(edges[e].a, edges[e].b, r)
            ==> blocked_range(edges, r, from, to).contains(e as usize),
    decreases to - from,
{
    if from >= to {
    } else {
        lemma_blocked_range_props(edges, r, from + 1, to);
        let all = blocked_range(edges, r, from, to);
        let rest = blocked_range(edges, r, from + 1, to);
        if seg_intersects_rect(edges[from].a, edges[from].b, r) {
            assert(all == seq![from as usize] + rest);
            assert(all[0] == from as usize);
            assert(forall|t: int| 1 <= t < all.len() ==> all[t] == rest[t - 1]);
            assert forall|e: int| from <= e < to
                && seg_intersects_rect(edges[e].a, edges[e].b, r)
                implies all.contains(e as usize) by {
                if e == from {
                    assert(all[0] == e as usize);
                } else {
                    assert(rest.contains(e as usize));
                    let t = choose|t: int| 0 <= t < rest.len() && rest[t] == e as usize;
                    assert(all[t + 1] == e as usize);
                }
            }
        } else {
            assert(all == rest);
            assert forall|e: int| from <= e < to
                && seg_intersects_rect(edges[e].a, edges[e].b, r)
                implies all.contains(e as usize) by {
                assert(e != from);
                assert(rest.contains(e as usize));
            }
        }
    }
}

/// An edge index is in the blocked list exactly when its segment meets the
/// rectangle.
pub proof fn lemma_blocked_of_membership(edges: Seq<Edge>, r: Rect, e: int)
    requires
        0 <= e < edges.len(),
        edges.len() <= usize::MAX,
    ensures
        blocked_of(edges, r).contains(e as usize)
            <==> seg_intersects_rect(edges[e].a, edges[e].b, r),
{
    lemma_blocked_range_props(edges, r, 0, edges.len() as int);
    if blocked_of(edges, r).contains(e as usize) {
        let t = choose|t: int| 0 <= t < blocked_of(edges, r).len()
            && blocked_of(edges, r)[t] == e as usize;
        assert(seg_intersects_rect(edges[blocked_of(edges, r)[t] as int].a,
            edges[blocked_of(edges, r)[t] as int].b, r));
    }
}

/// How many obstacles of the sequence block the edge.
pub open spec fn count_blockers(obs: Seq<Obstacle>, e: Edge) -> nat
    decreases obs.len(),
{
    if obs.len() == 0 {
        0
    } else {
        count_blockers(obs.drop_last(), e) + (if seg_intersects_rect(e.a, e.b, obs.last().rect) {
            1nat
        } else {
            0nat
        })
    }
}

/// Appending one obstacle raises the count of the edges it blocks by one.
pub proof fn lemma_count_blockers_push(obs: Seq<Obstacle>, o: Obstacle, e: Edge)
    ensures
        count_blockers(obs.push(o), e) == count_blockers(obs, e)
            + (if seg_intersects_rect(e.a, e.b, o.rect) {
                1nat
            } else {
                0nat
            }),
{
    assert(obs.push(o).drop_last() =~= obs);
    assert(obs.push(o).last() == o);
}

/// Removing one obstacle lowers the count of the edges it blocks by one.
pub proof fn lemma_count_blockers_remove(obs: Seq<Obstacle>, t: int, e: Edge)
    requires
        0 <= t < obs.len(),
    ensures
        count_blockers(obs.remove(t), e) + (if seg_intersects_rect(e.a, e.b, obs[t].rect) {
            1nat
        } else {
            0nat
        }) == count_blockers(obs, e),
    decreases obs.len(),
{
    if t == obs.len() - 1 {
        assert(obs.remove(t) =~= obs.drop_last());
    } else {
        lemma_count_blockers_remove(obs.drop_last(), t, e);
        assert(obs.remove(t).drop_last() =~= obs.drop_last().remove(t));
        assert(obs.remove(t).last() == obs.last());
    }
}

/// The structural facts the adjacency proofs need of the edge list: the
/// endpoint pair is ordered and below `n`, and no two edges share a pair.
pub open spec fn edges_ok(edges: Seq<Edge>, n: int) -> bool {
    &&& forall|k: int| 0 <= k < edges.len()
        ==> ((#[trigger] edges[k]).points.0 as int) < (edges[k].points.1 as int) < n
    &&& forall|k1: int, k2: int| 0 <= k1 < k2 < edges.len()
        ==> (#[trigger] edges[k1]).points != (#[trigger] edges[k2]).points
}

/// The entry that edge `e` contributes to the list of vertex `u`.
pub open spec fn edge_entry(e: Edge, u: int, x: NbrEntry) -> bool {
    (e.points.0 == u && x == (e.points.1, e.length)) || (e.points.1 == u && x == (e.points.0,
    e.length))
}

/// Among the first `m` edges there is a free one contributing entry `x` at
/// vertex `u`.
pub open spec fn free_entry_exists(
    edges: Seq<Edge>,
    bc: Seq<usize>,
    m: int,
    u: int,
    x: NbrEntry,
) -> bool {
    exists|k: int| 0 <= k < m && bc[k] == 0 && edge_entry(edges[k], u, x)
}

/// The adjacency table `nb` matches the free subset of the first `m` edges
/// exactly: each entry occurs once at each endpoint of its free edge, and
/// nothing else occurs.
pub open spec fn nbrs_ok(
    edges: Seq<Edge>,
    bc: Seq<usize>,
    nb: Seq<Seq<NbrEntry>>,
    n: int,
    m: int,
) -> bool {
    &&& nb.len() == n
    &&& forall|u: int, x: NbrEntry| 0 <= u < n
        ==> #[trigger] entry_count(nb[u], x) == (if free_entry_exists(edges, bc, m, u, x) {
            1nat
        } else {
            0nat
        })
}

/// A concrete witness establishes `free_entry_exists`.
proof fn lemma_free_entry_intro(
    edges: Seq<Edge>,
    bc: Seq<usize>,
    m: int,
    u: int,
    x: NbrEntry,
    k: int,
)
    requires
        0 <= k < m,
        bc[k] == 0,
        edge_entry(edges[k], u, x),
    ensures
        free_entry_exists(edges, bc, m, u, x),
{
    assert(0 <= k < m && bc[k] == 0 && edge_entry(edges[k], u, x));
}

/// Two edges with the same unordered endpoint pair are the same edge.
pub proof fn lemma_pair_unique(edges: Seq<Edge>, n: int, k1: int, k2: int)
    requires
        edges_ok(edges, n),
        0 <= k1 < edges.len(),
        0 <= k2 < edges.len(),
        edges[k1].points == edges[k2].points,
    ensures
        k1 == k2,
{
    if k1 < k2 {
        assert(edges[k1].points != edges[k2].points);
    }
    if k2 < k1 {
        assert(edges[k2].points != edges[k1].points);
    }
}

/// The table after recording edge `e` at both endpoints.
pub open spec fn nb_after_add(nb: Seq<Seq<NbrEntry>>, e: Edge) -> Seq<Seq<NbrEntry>> {
    nb.update(e.points.0 as int, nb[e.points.0 as int].push((e.points.1, e.length)))
        .update(e.points.1 as int, nb[e.points.1 as int].push((e.points.0, e.length)))
}

/// The table after unrecording edge `e` at both endpoints.
pub open spec fn nb_after_remove(nb: Seq<Seq<NbrEntry>>, e: Edge) -> Seq<Seq<NbrEntry>> {
    nb.update(e.points.0 as int, filter_out(nb[e.points.0 as int], e.points.1))
        .update(e.points.1 as int, filter_out(nb[e.points.1 as int], e.points.0))
}

/// A witness for an entry whose neighbour field names the opposite endpoint
/// of `k0` can only be edge `k0` itself.
pub proof fn lemma_witness_is_k0(edges: Seq<Edge>, n: int, k0: int, u: int, x: NbrEntry, k: int)
    requires
        edges_ok(edges, n),
        0 <= k0 < edges.len(),
        0 <= k < edges.len(),
        u == edges[k0].points.0 as int && x.0 == edges[k0].points.1
            || u == edges[k0].points.1 as int && x.0 == edges[k0].points.0,
        edge_entry(edges[k], u, x),
    ensures
        k == k0,
{
    let e0 = edges[k0];
    let e = edges[k];
    if u == e0.points.0 as int && x.0 == e0.points.1 {
        if e.points.0 as int == u {
            assert(e.points == e0.points);
            lemma_pair_unique(edges, n, k, k0);
        } else {
            assert(e.points.1 as int == u);
            assert(e.points.0 == x.0);
            assert((e.points.0 as int) < (e.points.1 as int));
            assert((e0.points.0 as int) < (e0.points.1 as int));
            assert(false);
        }
    } else {
        if e.points.1 as int == u {
            assert(e.points == e0.points);
            lemma_pair_unique(edges, n, k, k0);
        } else {
            assert(e.points.0 as int == u);
            assert(e.points.1 == x.0);
            assert(false);
        }
    }
}

/// Blocking a free edge and dropping its entries keeps the adjacency table
/// exact.
pub proof fn lemma_nbrs_block(
    edges: Seq<Edge>,
    bc: Seq<usize>,
    nb: Seq<Seq<NbrEntry>>,
    n: int,
    k0: int,
    c: usize,
)
    requires
        edges_ok(edges, n),
        bc.len() == edges.len(),
        nbrs_ok(edges, bc, nb, n, edges.len() as int),
        0 <= k0 < edges.len(),
        bc[k0] == 0,
        c != 0,
    ensures
        nbrs_ok(edges, bc.update(k0, c), nb_after_remove(nb, edges[k0]), n, edges.len() as int),
{
    let e0 = edges[k0];
    let u0 = e0.points.0 as int;
    let v0 = e0.points.1 as int;
    let bc2 = bc.update(k0, c);
    let nb2 = nb_after_remove(nb, e0);
    let m = edges.len() as int;
    assert(u0 < v0 < n);
    assert forall|u: int, x: NbrEntry| 0 <= u < n implies #[trigger] entry_count(nb2[u], x)
        == (if free_entry_exists(edges, bc2, m, u, x) {
            1nat
        } else {
            0nat
        }) by {
        assert(entry_count(nb[u], x) == (if free_entry_exists(edges, bc, m, u, x) {
            1nat
        } else {
            0nat
        }));
        if u == u0 || u == v0 {
            let w = if u == u0 { e0.points.1 } else { e0.points.0 };
            assert(nb2[u] == filter_out(nb[u], w));
            lemma_filter_out_count(nb[u], w, x);
            if x.0 == w {
                if free_entry_exists(edges, bc2, m, u, x) {
                    let k = choose|k: int| 0 <= k < m && bc2[k] == 0 && edge_entry(edges[k], u, x);
                    lemma_witness_is_k0(edges, n, k0, u, x, k);
                    assert(bc2[k0] == c);
                    assert(false);
                }
            } else {
                if free_entry_exists(edges, bc, m, u, x) {
                    let k = choose|k: int| 0 <= k < m && bc[k] == 0 && edge_entry(edges[k], u, x);
                    assert(k != k0);
                    assert(bc2[k] == 0 && edge_entry(edges[k], u, x));
                    lemma_free_entry_intro(edges, bc2, m, u, x, k);
                }
                if free_entry_exists(edges, bc2, m, u, x) {
                    let k = choose|k: int| 0 <= k < m && bc2[k] == 0 && edge_entry(edges[k], u, x);
                    assert(k != k0);
                    assert(bc[k] == 0);
                    lemma_free_entry_intro(edges, bc, m, u, x, k);
                }
            }
        } else {
            assert(nb2[u] == nb[u]);
            if free_entry_exists(edges, bc, m, u, x) {
                let k = choose|k: int| 0 <= k < m && bc[k] == 0 && edge_entry(edges[k], u, x);
                assert(k != k0);
                lemma_free_entry_intro(edges, bc2, m, u, x, k);
            }
            if free_entry_exists(edges, bc2, m, u, x) {
                let k = choose|k: int| 0 <= k < m && bc2[k] == 0 && edge_entry(edges[k], u, x);
                assert(k != k0);
                lemma_free_entry_intro(edges, bc, m, u, x, k);
            }
        }
    }
}

/// Unblocking an edge and recording its entries keeps the adjacency table
/// exact.
pub proof fn lemma_nbrs_unblock(
    edges: Seq<Edge>,
    bc: Seq<usize>,
    nb: Seq<Seq<NbrEntry>>,
    n: int,
    k0: int,
)
    requires
        edges_ok(edges, n),
        bc.len() == edges.len(),
        nbrs_ok(edges, bc, nb, n, edges.len() as int),
        0 <= k0 < edges.len(),
        bc[k0] != 0,
    ensures
        nbrs_ok(edges, bc.update(k0, 0), nb_after_add(nb, edges[k0]), n, edges.len() as int),
{
    let e0 = edges[k0];
    let u0 = e0.points.0 as int;
    let v0 = e0.points.1 as int;
    let bc2 = bc.update(k0, 0);
    let nb2 = nb_after_add(nb, e0);
    let m = edges.len() as int;
    assert(u0 < v0 < n);
    assert forall|u: int, x: NbrEntry| 0 <= u < n implies #[trigger] entry_count(nb2[u], x)
        == (if free_entry_exists(edges, bc2, m, u, x) {
            1nat
        } else {
            0nat
        }) by {
        assert(entry_count(nb[u], x) == (if free_entry_exists(edges, bc, m, u, x) {
            1nat
        } else {
            0nat
        }));
        if u == u0 || u == v0 {
            let w = if u == u0 { e0.points.1 } else { e0.points.0 };
            let x0 = if u == u0 {
                (e0.points.1, e0.length)
            } else {
                (e0.points.0, e0.length)
            };
            assert(nb2[u] == nb[u].push(x0));
            lemma_entry_count_push(nb[u], x0, x);
            if x == x0 {
                if free_entry_exists(edges, bc, m, u, x) {
                    let k = choose|k: int| 0 <= k < m && bc[k] == 0 && edge_entry(edges[k], u, x);
                    lemma_witness_is_k0(edges, n, k0, u, x, k);
                    assert(false);
                }
                assert(bc2[k0] == 0 && edge_entry(edges[k0], u, x));
                lemma_free_entry_intro(edges, bc2, m, u, x, k0);
            } else {
                if x.0 == w {
                    if free_entry_exists(edges, bc, m, u, x) {
                        let k = choose|k: int| 0 <= k < m && bc[k] == 0
                            && edge_entry(edges[k], u, x);
                        lemma_witness_is_k0(edges, n, k0, u, x, k);
                        assert(bc[k0] != 0);
                        assert(false);
                    }
                    if free_entry_exists(edges, bc2, m, u, x) {
                        let k = choose|k: int| 0 <= k < m && bc2[k] == 0
                            && edge_entry(edges[k], u, x);
                        lemma_witness_is_k0(edges, n, k0, u, x, k);
                        assert(edge_entry(edges[k0], u, x));
                        assert(x == x0);
                        assert(false);
                    }
                } else {
                    if free_entry_exists(edges, bc, m, u, x) {
                        let k = choose|k: int| 0 <= k < m && bc[k] == 0
                            && edge_entry(edges[k], u, x);
                        assert(k != k0);
                        lemma_free_entry_intro(edges, bc2, m, u, x, k);
                    }
                    if free_entry_exists(edges, bc2, m, u, x) {
                        let k = choose|k: int| 0 <= k < m && bc2[k] == 0
                            && edge_entry(edges[k], u, x);
                        assert(k != k0);
                        lemma_free_entry_intro(edges, bc, m, u, x, k);
                    }
                }
            }
        } else {
            assert(nb2[u] == nb[u]);
            if free_entry_exists(edges, bc, m, u, x) {
                let k = choose|k: int| 0 <= k < m && bc[k] == 0 && edge_entry(edges[k], u, x);
                assert(k != k0);
                lemma_free_entry_intro(edges, bc2, m, u, x, k);
            }
            if free_entry_exists(edges, bc2, m, u, x) {
                let k = choose|k: int| 0 <= k < m && bc2[k] == 0 && edge_entry(edges[k], u, x);
                assert(k != k0);
                lemma_free_entry_intro(edges, bc, m, u, x, k);
            }
        }
    }
}

/// Extending the considered range over one more edge keeps the adjacency
/// table exact: a free edge is recorded, a blocked one is skipped.
pub proof fn lemma_nbrs_seed_step(
    edges: Seq<Edge>,
    bc: Seq<usize>,
    nb: Seq<Seq<NbrEntry>>,
    n: int,
    m: int,
)
    requires
        edges_ok(edges, n),
        bc.len() == edges.len(),
        nbrs_ok(edges, bc, nb, n, m),
        0 <= m < edges.len(),
    ensures
        bc[m] == 0 ==> nbrs_ok(edges, bc, nb_after_add(nb, edges[m]), n, m + 1),
        bc[m] != 0 ==> nbrs_ok(edges, bc, nb, n, m + 1),
{
    let e0 = edges[m];
    let u0 = e0.points.0 as int;
    let v0 = e0.points.1 as int;
    assert(u0 < v0 < n);
    if bc[m] != 0 {
        assert forall|u: int, x: NbrEntry| 0 <= u < n implies #[trigger] entry_count(nb[u], x)
            == (if free_entry_exists(edges, bc, m + 1, u, x) {
                1nat
            } else {
                0nat
            }) by {
            assert(entry_count(nb[u], x) == (if free_entry_exists(edges, bc, m, u, x) {
                1nat
            } else {
                0nat
            }));
            if free_entry_exists(edges, bc, m, u, x) {
                let k = choose|k: int| 0 <= k < m && bc[k] == 0 && edge_entry(edges[k], u, x);
                lemma_free_entry_intro(edges, bc, m + 1, u, x, k);
            }
            if free_entry_exists(edges, bc, m + 1, u, x) {
                let k = choose|k: int| 0 <= k < m + 1 && bc[k] == 0 && edge_entry(edges[k], u, x);
                assert(k != m);
                lemma_free_entry_intro(edges, bc, m, u, x, k);
            }
        }
    } else {
        let nb2 = nb_after_add(nb, e0);
        assert forall|u: int, x: NbrEntry| 0 <= u < n implies #[trigger] entry_count(nb2[u], x)
            == (if free_entry_exists(edges, bc, m + 1, u, x) {
                1nat
            } else {
                0nat
            }) by {
            assert(entry_count(nb[u], x) == (if free_entry_exists(edges, bc, m, u, x) {
                1nat
            } else {
                0nat
            }));
            if u == u0 || u == v0 {
                let x0 = if u == u0 {
                    (e0.points.1, e0.length)
                } else {
                    (e0.points.0, e0.length)
                };
                assert(nb2[u] == nb[u].push(x0));
                lemma_entry_count_push(nb[u], x0, x);
                if x == x0 {
                    if free_entry_exists(edges, bc, m, u, x) {
                        let k = choose|k: int| 0 <= k < m && bc[k] == 0
                            && edge_entry(edges[k], u, x);
                        lemma_witness_is_k0(edges, n, m, u, x, k);
                        assert(false);
                    }
                    assert(bc[m] == 0 && edge_entry(edges[m], u, x));
                    lemma_free_entry_intro(edges, bc, m + 1, u, x, m);
                } else {
                    if free_entry_exists(edges, bc, m, u, x) {
                        let k = choose|k: int| 0 <= k < m && bc[k] == 0
                            && edge_entry(edges[k], u, x);
                        lemma_free_entry_intro(edges, bc, m + 1, u, x, k);
                    }
                    if free_entry_exists(edges, bc, m + 1, u, x) {
                        let k = choose|k: int| 0 <= k < m + 1 && bc[k] == 0
                            && edge_entry(edges[k], u, x);
                        if k == m {
                            assert(edge_entry(edges[m], u, x));
                            assert(x == x0);
                            assert(false);
                        }
                        lemma_free_entry_intro(edges, bc, m, u, x, k);
                    }
                }
            } else {
                assert(nb2[u] == nb[u]);
                if free_entry_exists(edges, bc, m, u, x) {
                    let k = choose|k: int| 0 <= k < m && bc[k] == 0 && edge_entry(edges[k], u, x);
                    lemma_free_entry_intro(edges, bc, m + 1, u, x, k);
                }
                if free_entry_exists(edges, bc, m + 1, u, x) {
                    let k = choose|k: int| 0 <= k < m + 1 && bc[k] == 0
                        && edge_entry(edges[k], u, x);
                    if k == m {
                        assert(u == u0 || u == v0);
                        assert(false);
                    }
                    lemma_free_entry_intro(edges, bc, m, u, x, k);
                }
            }
        }
    }
}

/// The dynamic roadmap engine.
#[derive(Clone, Debug)]
pub struct DPrm {
    /// The sampled vertices, indexed by `VertexIndex`.
    pub vertices: Vec<Vertex>,
    /// The candidate edges, indexed by `EdgeIndex`; fixed after
    /// construction.
    pub edges: Vec<Edge>,
    /// The obstacles currently present.
    pub obstacles: ObstacleSet,
    /// Per obstacle, positionally matching `obstacles`: its identifier and
    /// the ascending list of edges it blocks.
    pub blocked_per_obstacle: Vec<(ObstacleId, Vec<EdgeIndex>)>,
    /// Per edge: how many present obstacles block it.
    pub blockings_per_edge: Vec<usize>,
    /// The construction parameters.
    pub cfg: PrmConfig,
    /// The adjacency cache over the free edges.
    pub neighbors: Neighbors,
}


/// `post` is `pre` with obstacle `o` inserted: `o` and its blocked list are
/// appended, every blocked edge's count is one higher, and the rest of the
/// state is unchanged.
pub open spec fn obstacle_inserted(pre: DPrm, o: Obstacle, post: DPrm) -> bool {
    &&& post.cfg == pre.cfg
    &&& post.vertices@ == pre.vertices@
    &&& post.edges@ == pre.edges@
    &&& post.obs_seq() == pre.obs_seq().push(o)
    &&& post.bpo_view() == pre.bpo_view().push(
        (o.id_spec(), blocked_of(pre.edges@, o.rect)),
    )
    &&& post.bc_seq().len() == pre.bc_seq().len()
    &&& forall|e: int| 0 <= e < post.edges@.len()
        ==> #[trigger] post.bc_seq()[e] == pre.bc_seq()[e]
            + (if seg_intersects_rect(post.edges@[e].a, post.edges@[e].b, o.rect) {
                1int
            } else {
                0int
            })
}

/// `post` is `pre` with the obstacle at position `k` removed: it and its
/// blocked list are gone, every edge it blocked has its count one lower,
/// and the rest of the state is unchanged.
pub open spec fn obstacle_removed(pre: DPrm, k: int, post: DPrm) -> bool {
    &&& 0 <= k < pre.obs_seq().len()
    &&& post.cfg == pre.cfg
    &&& post.vertices@ == pre.vertices@
    &&& post.edges@ == pre.edges@
    &&& post.obs_seq() == pre.obs_seq().remove(k)
    &&& post.bpo_view() == pre.bpo_view().remove(k)
    &&& post.bc_seq().len() == pre.bc_seq().len()
    &&& forall|e: int| 0 <= e < post.edges@.len()
        ==> #[trigger] post.bc_seq()[e] == pre.bc_seq()[e]
            - (if seg_intersects_rect(post.edges@[e].a, post.edges@[e].b,
                pre.obs_seq()[k].rect) {
                1int
            } else {
                0int
            })
}

impl DPrm {
    /// The obstacle sequence.
    pub open spec fn obs_seq(self) -> Seq<Obstacle> {
        self.obstacles.obstacles@
    }

    /// The per-obstacle blocked lists, as sequences.
    pub open spec fn bpo_view(self) -> Seq<(ObstacleId, Seq<EdgeIndex>)> {
        self.blocked_per_obstacle@.map_values(|p: (ObstacleId, Vec<EdgeIndex>)| (p.0, p.1@))
    }

    /// The per-edge blocking counts.
    pub open spec fn bc_seq(self) -> Seq<usize> {
        self.blockings_per_edge@
    }

    /// Edge `e` is currently free.
    pub open spec fn edge_free(self, e: int) -> bool {
        self.bc_seq()[e] == 0
    }

    /// The engine invariant: vertices and edges are the configuration's
    /// roadmap; blocked lists hold exactly the intersecting edges; counts
    /// agree with the obstacle set; the adjacency table covers exactly the
    /// free edges.
    pub open spec fn wf(self) -> bool {
        &&& self.cfg.valid()
        &&& self.edges@.len() <= usize::MAX
        &&& self.vertices@.len() == self.cfg.num_vertices
        &&& forall|i: int| 0 <= i < self.vertices@.len()
            ==> self.vertices@[i] == spec_vertex(self.cfg, i)
        &&& self.edges@ == candidate_edges(self.cfg)
        &&& self.obstacles.wf()
        &&& ids_distinct(self.obs_seq())
        &&& self.bpo_view().len() == self.obs_seq().len()
        &&& forall|k: int| 0 <= k < self.obs_seq().len()
            ==> (#[trigger] self.bpo_view()[k]).0 == self.obs_seq()[k].id_spec()
                && self.bpo_view()[k].1 == blocked_of(self.edges@, self.obs_seq()[k].rect)
        &&& self.bc_seq().len() == self.edges@.len()
        &&& forall|e: int| 0 <= e < self.edges@.len()
            ==> #[trigger] self.bc_seq()[e] == count_blockers(self.obs_seq(), self.edges@[e])
        &&& nbrs_ok(
            self.edges@,
            self.bc_seq(),
            self.neighbors@,
            self.cfg.num_vertices as int,
            self.edges@.len() as int,
        )
    }

    /// A well-formed engine's edge list is structurally sound.
    pub proof fn lemma_wf_edges(self)
        requires
            self.wf(),
        ensures
            edges_ok(self.edges@, self.cfg.num_vertices as int),
            forall|k: int| 0 <= k < self.edges@.len()
                ==> edge_wf(self.cfg, #[trigger] self.edges@[k]),
    {
        lemma_candidate_edges_ok(self.cfg);
    }

    /// The engine holds an obstacle with this identifier.
    pub open spec fn has_obstacle(self, oid: ObstacleId) -> bool {
        exists|k: int| 0 <= k < self.obs_seq().len()
            && (#[trigger] self.obs_seq()[k]).id_spec() == oid
    }

    /// Decides `has_obstacle`.
    pub fn contains_obstacle(&self, oid: ObstacleId) -> (r: bool)
        ensures
            r == self.has_obstacle(oid),
    {
        let n = self.obstacles.obstacles.len();
        let mut k: usize = 0;
        while k < n
            invariant
                n == self.obs_seq().len(),
                k <= n,
                forall|j: int| 0 <= j < k ==> (#[trigger] self.obs_seq()[j]).id_spec() != oid,
            decreases n - k,
        {
            if self.obstacles.obstacles[k].id() == oid {
                return true;
            }
            k = k + 1;
        }
        false
    }

    /// All edge endpoints are small enough for the exact geometry.
    pub proof fn lemma_wf_points_bounded(self)
        requires
            self.wf(),
        ensures
            forall|k: int| 0 <= k < self.edges@.len()
                ==> (#[trigger] self.edges@[k]).a.seg_bounded() && self.edges@[k].b.seg_bounded()
                    && self.edges@[k].a.dist_bounded() && self.edges@[k].b.dist_bounded(),
    {
        lemma_candidate_points_bounded(self.cfg);
    }

    /// Scans the edge range `[start, end)` and collects the identifiers of
    /// the edges blocked by the obstacle, ascending.
    pub fn find_blocked_by_obstacle_worker(&self, start: usize, end: usize, obstacle: &Obstacle)
        -> (blocked: Vec<EdgeIndex>)
        requires
            self.wf(),
            obstacle.wf(),
            start <= end <= self.edges@.len(),
        ensures
            blocked@ == blocked_range(self.edges@, obstacle.rect, start as int, end as int),
    {
        proof {
            self.lemma_wf_points_bounded();
        }
        scan_blocked_range(&self.edges, &obstacle.rect, start, end)
    }

    /// The edges blocked by the obstacle, ascending: chunked scan over the
    /// edge range, chunk results concatenated in order.  Mutates nothing.
    pub fn find_blocked_by_obstacle(&self, obstacle: &Obstacle) -> (blocked: Vec<EdgeIndex>)
        requires
            self.wf(),
            obstacle.wf(),
        ensures
            blocked@ == blocked_of(self.edges@, obstacle.rect),
            forall|e: int| 0 <= e < self.edges@.len()
                ==> (blocked@.contains(e as usize) <==> seg_intersects_rect(
                    (#[trigger] self.edges@[e]).a,
                    self.edges@[e].b,
                    obstacle.rect,
                )),
    {
        proof {
            self.lemma_wf_points_bounded();
        }
        let n = self.edges.len();
        let blocked = scan_blocked(&self.edges, &obstacle.rect, self.cfg.threads);
        proof {
            assert(self.edges@.len() == n);
            lemma_blocked_range_props(self.edges@, obstacle.rect, 0, self.edges@.len() as int);
            assert forall|e: int| 0 <= e < self.edges@.len()
                implies (blocked@.contains(e as usize) <==> seg_intersects_rect(
                    (#[trigger] self.edges@[e]).a,
                    self.edges@[e].b,
                    obstacle.rect,
                )) by {
                lemma_blocked_of_membership(self.edges@, obstacle.rect, e);
            }
        }
        blocked
    }
}

/// Edge endpoints of every candidate edge lie in the rectangle, so they are
/// small enough for the exact geometry.
pub proof fn lemma_candidate_points_bounded(cfg: PrmConfig)
    requires
        cfg.valid(),
    ensures
        forall|k: int| 0 <= k < candidate_edges(cfg).len()
            ==> (#[trigger] candidate_edges(cfg)[k]).a.seg_bounded()
                && candidate_edges(cfg)[k].b.seg_bounded()
                && candidate_edges(cfg)[k].a.dist_bounded()
                && candidate_edges(cfg)[k].b.dist_bounded(),
{
    lemma_edges_rows_props(cfg, 0, cfg.num_vertices as int);
    assert forall|k: int| 0 <= k < candidate_edges(cfg).len()
        implies (#[trigger] candidate_edges(cfg)[k]).a.seg_bounded()
            && candidate_edges(cfg)[k].b.seg_bounded()
            && candidate_edges(cfg)[k].a.dist_bounded()
            && candidate_edges(cfg)[k].b.dist_bounded() by {
        let e = candidate_edges(cfg)[k];
        assert(edge_wf(cfg, e));
        lemma_sample_point_bounds(cfg, e.points.0 as int);
        lemma_sample_point_bounds(cfg, e.points.1 as int);
    }
}

/// The candidate edge list is structurally sound.
pub proof fn lemma_candidate_edges_ok(cfg: PrmConfig)
    ensures
        edges_ok(candidate_edges(cfg), cfg.num_vertices as int),
        forall|k: int| 0 <= k < candidate_edges(cfg).len()
            ==> edge_wf(cfg, #[trigger] candidate_edges(cfg)[k]),
{
    lemma_edges_rows_props(cfg, 0, cfg.num_vertices as int);
}

/// Scans the edge range `[start, end)` for edges whose segment meets `r`.
fn scan_blocked_range(edges: &Vec<Edge>, r: &Rect, start: usize, end: usize)
    -> (out: Vec<EdgeIndex>)
    requires
        r.wf(),
        start <= end <= edges@.len(),
        forall|k: int| 0 <= k < edges@.len()
            ==> (#[trigger] edges@[k]).a.seg_bounded() && edges@[k].b.seg_bounded(),
    ensures
        out@ == blocked_range(edges@, *r, start as int, end as int),
{
    let mut out: Vec<EdgeIndex> = Vec::new();
    let mut i: usize = start;
    while i < end
        invariant
            r.wf(),
            start <= i <= end <= edges@.len(),
            forall|k: int| 0 <= k < edges@.len()
                ==> (#[trigger] edges@[k]).a.seg_bounded() && edges@[k].b.seg_bounded(),
            out@ + blocked_range(edges@, *r, i as int, end as int)
                == blocked_range(edges@, *r, start as int, end as int),
        decreases end - i,
    {
        let edge = &edges[i];
        if seg_intersects_rect_exec(&edge.a, &edge.b, r) {
            proof {
                assert(blocked_range(edges@, *r, i as int, end as int)
                    =~= seq![i as usize] + blocked_range(edges@, *r, i as int + 1, end as int));
                assert(out@.push(i as usize)
                        + blocked_range(edges@, *r, i as int + 1, end as int)
                    =~= out@ + blocked_range(edges@, *r, i as int, end as int));
            }
            out.push(i);
        } else {
            proof {
                assert(blocked_range(edges@, *r, i as int, end as int)
                    == blocked_range(edges@, *r, i as int + 1, end as int));
            }
        }
        i = i + 1;
    }
    proof {
        assert(blocked_range(edges@, *r, end as int, end as int) =~= Seq::<EdgeIndex>::empty());
        assert(out@ + Seq::<EdgeIndex>::empty() =~= out@);
    }
    out
}

/// The full blocked-edge scan, split into `threads` contiguous chunks whose
/// results are concatenated in chunk order.
fn scan_blocked(edges: &Vec<Edge>, r: &Rect, threads: usize) -> (blocked: Vec<EdgeIndex>)
    requires
        r.wf(),
        threads >= 1,
        forall|k: int| 0 <= k < edges@.len()
            ==> (#[trigger] edges@[k]).a.seg_bounded() && edges@[k].b.seg_bounded(),
    ensures
        blocked@ == blocked_of(edges@, *r),
{
    let n = edges.len();
    let w = threads;
    let chunk_wide: u128 = (n as u128 + w as u128 - 1) / (w as u128);
    proof {
        vstd::arithmetic::div_mod::lemma_fundamental_div_mod((n + w - 1) as int, w as int);
        vstd::arithmetic::div_mod::lemma_mod_bound((n + w - 1) as int, w as int);
        assert(chunk_wide <= n) by (nonlinear_arith)
            requires
                w as int * chunk_wide as int <= n + w - 1,
                1 <= w,
                0 <= n,
                0 <= chunk_wide;
    }
    let chunk = chunk_wide as usize;
    let mut blocked: Vec<EdgeIndex> = Vec::new();
    let mut covered: usize = 0;
    let mut k: usize = 0;
    proof {
        assert(w as int * chunk as int >= n) by (nonlinear_arith)
            requires
                w >= 1,
                n + w - 1 == w as int * chunk as int + ((n + w - 1) as int % (w as int)),
                0 <= (n + w - 1) as int % (w as int) < w;
        assert(blocked_range(edges@, *r, 0, 0) =~= Seq::<EdgeIndex>::empty());
    }
    while k < w
        invariant
            r.wf(),
            n == edges@.len(),
            w == threads,
            1 <= w,
            forall|t: int| 0 <= t < edges@.len()
                ==> (#[trigger] edges@[t]).a.seg_bounded() && edges@[t].b.seg_bounded(),
            chunk == (n + w - 1) / (w as int),
            w as int * chunk as int >= n,
            k <= w,
            covered <= n,
            covered == if k * chunk <= n { k * chunk } else { n as int },
            blocked@ == blocked_range(edges@, *r, 0, covered as int),
        decreases w - k,
    {
        let next: usize = if n - covered > chunk { covered + chunk } else { n };
        proof {
            assert((k as int + 1) * chunk == k as int * chunk + chunk) by (nonlinear_arith);
            assert(next == if (k + 1) * chunk <= n { (k + 1) * chunk } else { n as int });
        }
        let mut part = scan_blocked_range(edges, r, covered, next);
        proof {
            lemma_blocked_range_concat(edges@, *r, 0, covered as int, next as int);
        }
        blocked.append(&mut part);
        covered = next;
        k = k + 1;
    }
    proof {
        assert(covered == n);
    }
    blocked
}

/// Splitting a blocked range anywhere gives the same list.
pub proof fn lemma_blocked_range_concat(edges: Seq<Edge>, r: Rect, a: int, b: int, c: int)
    requires
        a <= b <= c,
    ensures
        blocked_range(edges, r, a, b) + blocked_range(edges, r, b, c)
            == blocked_range(edges, r, a, c),
    decreases b - a,
{
    if a >= b {
        assert(blocked_range(edges, r, a, b) =~= Seq::<EdgeIndex>::empty());
        assert(blocked_range(edges, r, a, b) + blocked_range(edges, r, b, c)
            =~= blocked_range(edges, r, b, c));
    } else {
        lemma_blocked_range_concat(edges, r, a + 1, b, c);
        if seg_intersects_rect(edges[a].a, edges[a].b, r) {
            assert(blocked_range(edges, r, a, b) + blocked_range(edges, r, b, c)
                =~= seq![a as usize]
                    + (blocked_range(edges, r, a + 1, b) + blocked_range(edges, r, b, c)));
        } else {
            assert(blocked_range(edges, r, a, b) + blocked_range(edges, r, b, c)
                =~= blocked_range(edges, r, a + 1, b) + blocked_range(edges, r, b, c));
        }
    }
}

/// The identifiers of the edges in `[from, to)` that meet `r` and whose
/// blocking count in `bc` is exactly `c`, ascending.
pub open spec fn transition_range(
    edges: Seq<Edge>,
    bc: Seq<usize>,
    r: Rect,
    c: usize,
    from: int,
    to: int,
) -> Seq<EdgeIndex>
    decreases to - from,
{
    if from >= to {
        Seq::empty()
    } else {
        let rest = transition_range(edges, bc, r, c, from + 1, to);
        if seg_intersects_rect(edges[from].a, edges[from].b, r) && bc[from] == c {
            seq![from as usize] + rest
        } else {
            rest
        }
    }
}

/// Elements of a transition range are the qualifying indices of the range,
/// in strictly ascending order.
pub proof fn lemma_transition_range_props(
    edges: Seq<Edge>,
    bc: Seq<usize>,
    r: Rect,
    c: usize,
    from: int,
    to: int,
)
    requires
        0 <= from,
        to <= edges.len(),
        to <= usize::MAX,
    ensures
        forall|t: int| 0 <= t < transition_range(edges, bc, r, c, from, to).len()
            ==> from <= #[trigger] transition_range(edges, bc, r, c, from, to)[t] < to
                && seg_intersects_rect(
                    edges[transition_range(edges, bc, r, c, from, to)[t] as int].a,
                    edges[transition_range(edges, bc, r, c, from, to)[t] as int].b,
                    r,
                )
                && bc[transition_range(edges, bc, r, c, from, to)[t] as int] == c,
        forall|t1: int, t2: int|
            0 <= t1 < t2 < transition_range(edges, bc, r, c, from, to).len()
                ==> #[trigger] transition_range(edges, bc, r, c, from, to)[t1]
                    < #[trigger] transition_range(edges, bc, r, c, from, to)[t2],
        forall|e: int| from <= e < to
            && seg_intersects_rect(edges[e].a, edges[e].b, r)
            && bc[e] == c
            ==> transition_range(edges, bc, r, c, from, to).contains(e as usize),
    decreases to - from,
{
    if from >= to {
    } else {
        lemma_transition_range_props(edges, bc, r, c, from + 1, to);
        let all = transition_range(edges, bc, r, c, from, to);
        let rest = transition_range(edges, bc, r, c, from + 1, to);
        if seg_intersects_rect(edges[from].a, edges[from].b, r) && bc[from] == c {
            assert(all == seq![from as usize] + rest);
            assert(all[0] == from as usize);
            assert(forall|t: int| 1 <= t < all.len() ==> all[t] == rest[t - 1]);
            assert forall|e: int| from <= e < to
                && seg_intersects_rect(edges[e].a, edges[e].b, r)
                && bc[e] == c
                implies all.contains(e as usize) by {
                if e == from {
                    assert(all[0] == e as usize);
                } else {
                    assert(rest.contains(e as usize));
                    let t = choose|t: int| 0 <= t < rest.len() && rest[t] == e as usize;
                    assert(all[t + 1] == e as usize);
                }
            }
        } else {
            assert(all == rest);
            assert forall|e: int| from <= e < to
                && seg_intersects_rect(edges[e].a, edges[e].b, r)
                && bc[e] == c
                implies all.contains(e as usize) by {
                assert(e != from);
                assert(rest.contains(e as usize));
            }
        }
    }
}

impl DPrm {
    /// Classifies every candidate edge against the obstacle set, derives
    /// the per-edge counts, and seeds the adjacency cache: the shared tail
    /// of construction and reload.
    pub(crate) fn assemble(cfg: PrmConfig, vertices: Vec<Vertex>, edges: Vec<Edge>, obstacles: ObstacleSet)
        -> (d: DPrm)
        requires
            cfg.valid(),
            vertices@.len() == cfg.num_vertices,
            forall|i: int| 0 <= i < vertices@.len() ==> vertices@[i] == spec_vertex(cfg, i),
            edges@ == candidate_edges(cfg),
            obstacles.wf(),
            ids_distinct(obstacles.obstacles@),
        ensures
            d.wf(),
            d.cfg == cfg,
            d.vertices@ == vertices@,
            d.edges@ == edges@,
            d.obs_seq() == obstacles.obstacles@,
    {
        proof {
            lemma_candidate_edges_ok(cfg);
            lemma_candidate_points_bounded(cfg);
        }
        let n_edges = edges.len();
        let n_obs = obstacles.obstacles.len();
        let mut bc: Vec<usize> = Vec::new();
        let mut e: usize = 0;
        while e < n_edges
            invariant
                cfg.valid(),
                edges@ == candidate_edges(cfg),
                obstacles.wf(),
                n_edges == edges@.len(),
                n_obs == obstacles.obstacles@.len(),
                forall|k: int| 0 <= k < edges@.len()
                    ==> (#[trigger] edges@[k]).a.seg_bounded() && edges@[k].b.seg_bounded(),
                e <= n_edges,
                bc@.len() == e,
                forall|t: int| 0 <= t < e
                    ==> #[trigger] bc@[t] == count_blockers(obstacles.obstacles@, edges@[t]),
            decreases n_edges - e,
        {
            let edge = &edges[e];
            let mut count: usize = 0;
            let mut t: usize = 0;
            while t < n_obs
                invariant
                    obstacles.wf(),
                    n_obs == obstacles.obstacles@.len(),
                    t <= n_obs,
                    edge.a.seg_bounded(),
                    edge.b.seg_bounded(),
                    count <= t,
                    count == count_blockers(obstacles.obstacles@.subrange(0, t as int), *edge),
                decreases n_obs - t,
            {
                proof {
                    assert(obstacles.obstacles@.subrange(0, t as int + 1).drop_last()
                        =~= obstacles.obstacles@.subrange(0, t as int));
                    assert(obstacles.obstacles@.subrange(0, t as int + 1).last()
                        == obstacles.obstacles@[t as int]);
                }
                if obstacles.obstacles[t].intersects(&edge.a, &edge.b) {
                    count = count + 1;
                }
                t = t + 1;
            }
            proof {
                assert(obstacles.obstacles@.subrange(0, n_obs as int) =~= obstacles.obstacles@);
            }
            bc.push(count);
            e = e + 1;
        }
        let mut bpo: Vec<(ObstacleId, Vec<EdgeIndex>)> = Vec::new();
        let mut k: usize = 0;
        while k < n_obs
            invariant
                cfg.valid(),
                edges@ == candidate_edges(cfg),
                obstacles.wf(),
                n_obs == obstacles.obstacles@.len(),
                forall|j: int| 0 <= j < edges@.len()
                    ==> (#[trigger] edges@[j]).a.seg_bounded() && edges@[j].b.seg_bounded(),
                k <= n_obs,
                bpo@.len() == k,
                forall|j: int| 0 <= j < k
                    ==> (#[trigger] bpo@[j]).0 == obstacles.obstacles@[j].id_spec()
                        && bpo@[j].1@ == blocked_of(edges@, obstacles.obstacles@[j].rect),
            decreases n_obs - k,
        {
            let o = obstacles.obstacles[k];
            let list = scan_blocked(&edges, &o.rect, cfg.threads);
            bpo.push((o.id(), list));
            k = k + 1;
        }
        let mut neighbors = Neighbors::with_vertices(cfg.num_vertices);
        proof {
            assert forall|u: int, x: NbrEntry| 0 <= u < cfg.num_vertices
                implies #[trigger] entry_count(neighbors@[u], x)
                    == (if free_entry_exists(edges@, bc@, 0, u, x) {
                        1nat
                    } else {
                        0nat
                    }) by {
                assert(neighbors@[u] =~= Seq::<NbrEntry>::empty());
                assert(entry_count(neighbors@[u], x) == 0);
                assert(!free_entry_exists(edges@, bc@, 0, u, x));
            }
            assert(nbrs_ok(edges@, bc@, neighbors@, cfg.num_vertices as int, 0));
        }
        let mut m: usize = 0;
        while m < n_edges
            invariant
                cfg.valid(),
                edges@ == candidate_edges(cfg),
                edges_ok(edges@, cfg.num_vertices as int),
                forall|kk: int| 0 <= kk < edges@.len()
                    ==> edge_wf(cfg, #[trigger] edges@[kk]),
                n_edges == edges@.len(),
                bc@.len() == n_edges,
                m <= n_edges,
                neighbors@.len() == cfg.num_vertices,
                nbrs_ok(edges@, bc@, neighbors@, cfg.num_vertices as int, m as int),
            decreases n_edges - m,
        {
            proof {
                lemma_nbrs_seed_step(edges@, bc@, neighbors@, cfg.num_vertices as int, m as int);
            }
            if bc[m] == 0 {
                let ghost prev_nb = neighbors@;
                let edge = &edges[m];
                proof {
                    assert(edge_wf(cfg, edges@[m as int]));
                }
                neighbors.add(edge);
                proof {
                    assert(neighbors@ == nb_after_add(prev_nb, edges@[m as int]));
                }
            }
            m = m + 1;
        }
        let d = DPrm {
            vertices,
            edges,
            obstacles,
            blocked_per_obstacle: bpo,
            blockings_per_edge: bc,
            cfg,
            neighbors,
        };
        proof {
            assert(d.bpo_view().len() == d.obs_seq().len());
            assert forall|j: int| 0 <= j < d.obs_seq().len()
                implies (#[trigger] d.bpo_view()[j]).0 == d.obs_seq()[j].id_spec()
                    && d.bpo_view()[j].1 == blocked_of(d.edges@, d.obs_seq()[j].rect) by {
                assert(d.bpo_view()[j] == (d.blocked_per_obstacle@[j].0,
                    d.blocked_per_obstacle@[j].1@));
            }
        }
        d
    }

    /// Builds an engine from a configuration and an initial obstacle set:
    /// samples the vertices, emits the candidate edges, classifies them
    /// against every obstacle, and seeds the adjacency cache.  Rejects a
    /// configuration with a zero count or extent.
    pub fn from_cfg(cfg: PrmConfig, obstacles: ObstacleSet) -> (r: Result<DPrm, PrmError>)
        requires
            cfg.within_limits(),
            obstacles.wf(),
            ids_distinct(obstacles.obstacles@),
        ensures
            r is Err <==> !cfg.positive(),
            r is Err ==> r == Result::<DPrm, PrmError>::Err(PrmError::ConfigInvalid),
            r matches Ok(d) ==> d.wf() && d.cfg == cfg && d.obs_seq() == obstacles.obstacles@,
    {
        if !cfg.is_positive() {
            return Err(PrmError::ConfigInvalid);
        }
        let (vertices, edges) = build_roadmap(&cfg);
        Ok(DPrm::assemble(cfg, vertices, edges, obstacles))
    }
}

/// An edge is blocked by at most as many obstacles as there are.
pub proof fn lemma_count_blockers_le(obs: Seq<Obstacle>, e: Edge)
    ensures
        count_blockers(obs, e) <= obs.len(),
    decreases obs.len(),
{
    if obs.len() > 0 {
        lemma_count_blockers_le(obs.drop_last(), e);
    }
}

/// Raising a blocking count that is already positive leaves the adjacency
/// table exact.
pub proof fn lemma_nbrs_bump(
    edges: Seq<Edge>,
    bc: Seq<usize>,
    nb: Seq<Seq<NbrEntry>>,
    n: int,
    k0: int,
    c: usize,
)
    requires
        bc.len() == edges.len(),
        nbrs_ok(edges, bc, nb, n, edges.len() as int),
        0 <= k0 < edges.len(),
        bc[k0] != 0,
        c != 0,
    ensures
        nbrs_ok(edges, bc.update(k0, c), nb, n, edges.len() as int),
{
    let bc2 = bc.update(k0, c);
    let m = edges.len() as int;
    assert forall|u: int, x: NbrEntry| 0 <= u < n implies #[trigger] entry_count(nb[u], x)
        == (if free_entry_exists(edges, bc2, m, u, x) {
            1nat
        } else {
            0nat
        }) by {
        assert(entry_count(nb[u], x) == (if free_entry_exists(edges, bc, m, u, x) {
            1nat
        } else {
            0nat
        }));
        if free_entry_exists(edges, bc, m, u, x) {
            let k = choose|k: int| 0 <= k < m && bc[k] == 0 && edge_entry(edges[k], u, x);
            assert(k != k0);
            lemma_free_entry_intro(edges, bc2, m, u, x, k);
        }
        if free_entry_exists(edges, bc2, m, u, x) {
            let k = choose|k: int| 0 <= k < m && bc2[k] == 0 && edge_entry(edges[k], u, x);
            assert(k != k0);
            lemma_free_entry_intro(edges, bc, m, u, x, k);
        }
    }
}

impl DPrm {
    /// Inserts the obstacle with a precomputed blocked-edge list (any order,
    /// duplicates allowed; it must cover exactly the intersecting edges) and
    /// updates counts and adjacency.  Returns the edges whose blocking count
    /// went zero to one, ascending.
    pub fn insert_blocked_by_obstacle(&mut self, obstacle: Obstacle, blockings: Vec<EdgeIndex>)
        -> (newly: Vec<EdgeIndex>)
        requires
            old(self).wf(),
            obstacle.wf(),
            !old(self).has_obstacle(obstacle.id_spec()),
            forall|t: int| 0 <= t < blockings@.len()
                ==> (#[trigger] blockings@[t]) < old(self).edges@.len(),
            forall|e: int| 0 <= e < old(self).edges@.len()
                ==> (blockings@.contains(e as usize) <==> seg_intersects_rect(
                    (#[trigger] old(self).edges@[e]).a,
                    old(self).edges@[e].b,
                    obstacle.rect,
                )),
        ensures
            final(self).wf(),
            final(self).cfg == old(self).cfg,
            final(self).vertices@ == old(self).vertices@,
            final(self).edges@ == old(self).edges@,
            final(self).obs_seq() == old(self).obs_seq().push(obstacle),
            final(self).bpo_view() == old(self).bpo_view().push(
                (obstacle.id_spec(), blocked_of(old(self).edges@, obstacle.rect)),
            ),
            final(self).bc_seq().len() == old(self).bc_seq().len(),
            forall|e: int| 0 <= e < final(self).edges@.len()
                ==> #[trigger] final(self).bc_seq()[e] == old(self).bc_seq()[e]
                    + (if seg_intersects_rect(final(self).edges@[e].a, final(self).edges@[e].b, obstacle.rect) {
                        1int
                    } else {
                        0int
                    }),
            newly@ == transition_range(
                old(self).edges@,
                old(self).bc_seq(),
                obstacle.rect,
                0,
                0,
                old(self).edges@.len() as int,
            ),
            obstacle_inserted(*old(self), obstacle, *final(self)),
    {
        proof {
            lemma_candidate_edges_ok(self.cfg);
        }
        let n_edges = self.edges.len();
        let n = self.cfg.num_vertices;
        let mut seen: Vec<bool> = Vec::new();
        let mut i: usize = 0;
        while i < n_edges
            invariant
                i <= n_edges,
                seen@.len() == i,
                forall|j: int| 0 <= j < i ==> !(#[trigger] seen@[j]),
            decreases n_edges - i,
        {
            seen.push(false);
            i = i + 1;
        }
        let n_blockings = blockings.len();
        let mut t: usize = 0;
        while t < n_blockings
            invariant
                n_blockings == blockings@.len(),
                t <= n_blockings,
                seen@.len() == n_edges,
                n_edges == self.edges@.len(),
                forall|tt: int| 0 <= tt < blockings@.len()
                    ==> (#[trigger] blockings@[tt]) < n_edges,
                forall|j: int| 0 <= j < n_edges
                    ==> ((#[trigger] seen@[j]) ==> blockings@.contains(j as usize)),
                forall|tt: int| 0 <= tt < t ==> seen@[#[trigger] blockings@[tt] as int],
            decreases n_blockings - t,
        {
            let x = blockings[t];
            seen.set(x, true);
            t = t + 1;
        }
        proof {
            assert forall|j: int| 0 <= j < n_edges
                implies ((#[trigger] seen@[j]) <==> seg_intersects_rect(self.edges@[j].a,
                    self.edges@[j].b, obstacle.rect)) by {
                if blockings@.contains(j as usize) {
                    let tt = choose|tt: int| 0 <= tt < blockings@.len()
                        && blockings@[tt] == j as usize;
                    assert(seen@[j]);
                }
            }
        }
        let ghost old_obs = self.obs_seq();
        proof {
            assert forall|k: int| 0 <= k < self.obs_seq().len()
                implies (#[trigger] self.obs_seq()[k]).id_spec() != obstacle.id_spec() by {
            }
        }
        self.obstacles.add(obstacle);
        let n_obs = self.obstacles.obstacles.len();
        let ghost bc0 = self.bc_seq();
        let mut canon: Vec<EdgeIndex> = Vec::new();
        let mut newly: Vec<EdgeIndex> = Vec::new();
        let mut e: usize = 0;
        proof {
            assert(canon@ + blocked_range(self.edges@, obstacle.rect, 0, n_edges as int)
                =~= blocked_of(self.edges@, obstacle.rect));
            assert(newly@ + transition_range(self.edges@, bc0, obstacle.rect, 0, 0,
                n_edges as int)
                =~= transition_range(self.edges@, bc0, obstacle.rect, 0, 0, n_edges as int));
        }
        while e < n_edges
            invariant
                old(self).wf(),
                obstacle.wf(),
                self.cfg == old(self).cfg,
                self.vertices@ == old(self).vertices@,
                self.edges@ == old(self).edges@,
                self.blocked_per_obstacle@ == old(self).blocked_per_obstacle@,
                self.obstacles.obstacles@ == old_obs.push(obstacle),
                old_obs == old(self).obs_seq(),
                bc0 == old(self).bc_seq(),
                n_obs == self.obstacles.obstacles@.len(),
                n_edges == self.edges@.len(),
                n == self.cfg.num_vertices,
                edges_ok(self.edges@, n as int),
                seen@.len() == n_edges,
                forall|j: int| 0 <= j < n_edges
                    ==> ((#[trigger] seen@[j]) <==> seg_intersects_rect(self.edges@[j].a,
                        self.edges@[j].b, obstacle.rect)),
                e <= n_edges,
                self.bc_seq().len() == n_edges,
                forall|j: int| 0 <= j < e
                    ==> #[trigger] self.bc_seq()[j] == bc0[j]
                        + (if seg_intersects_rect(self.edges@[j].a, self.edges@[j].b,
                            obstacle.rect) {
                            1int
                        } else {
                            0int
                        }),
                forall|j: int| e <= j < n_edges ==> #[trigger] self.bc_seq()[j] == bc0[j],
                canon@ + blocked_range(self.edges@, obstacle.rect, e as int, n_edges as int)
                    == blocked_of(self.edges@, obstacle.rect),
                newly@ + transition_range(self.edges@, bc0, obstacle.rect, 0, e as int,
                    n_edges as int)
                    == transition_range(self.edges@, bc0, obstacle.rect, 0, 0, n_edges as int),
                self.neighbors@.len() == n,
                nbrs_ok(self.edges@, self.bc_seq(), self.neighbors@, n as int,
                    n_edges as int),
            decreases n_edges - e,
        {
            if seen[e] {
                proof {
                    assert(blocked_range(self.edges@, obstacle.rect, e as int, n_edges as int)
                        =~= seq![e as usize] + blocked_range(self.edges@, obstacle.rect,
                            e as int + 1, n_edges as int));
                    assert(canon@.push(e as usize)
                            + blocked_range(self.edges@, obstacle.rect, e as int + 1,
                                n_edges as int)
                        =~= canon@ + blocked_range(self.edges@, obstacle.rect, e as int,
                            n_edges as int));
                }
                canon.push(e);
                let c = self.blockings_per_edge[e];
                proof {
                    lemma_count_blockers_le(old(self).obs_seq(), self.edges@[e as int]);
                }
                let ghost bc_pre = self.bc_seq();
                let ghost nb_pre = self.neighbors@;
                self.blockings_per_edge.set(e, c + 1);
                if c == 0 {
                    proof {
                        assert(transition_range(self.edges@, bc0, obstacle.rect, 0, e as int,
                            n_edges as int)
                            =~= seq![e as usize] + transition_range(self.edges@, bc0,
                                obstacle.rect, 0, e as int + 1, n_edges as int));
                        assert(newly@.push(e as usize)
                                + transition_range(self.edges@, bc0, obstacle.rect, 0,
                                    e as int + 1, n_edges as int)
                            =~= newly@ + transition_range(self.edges@, bc0, obstacle.rect, 0,
                                e as int, n_edges as int));
                    }
                    newly.push(e);
                    let edge = self.edges[e];
                    self.neighbors.remove(&edge);
                    proof {
                        lemma_nbrs_block(self.edges@, bc_pre, nb_pre, n as int, e as int, (c + 1) as usize);
                        assert(self.neighbors@ == nb_after_remove(nb_pre, self.edges@[e as int]));
                        assert(self.bc_seq() == bc_pre.update(e as int, (c + 1) as usize));
                    }
                } else {
                    proof {
                        assert(transition_range(self.edges@, bc0, obstacle.rect, 0, e as int,
                            n_edges as int)
                            == transition_range(self.edges@, bc0, obstacle.rect, 0, e as int + 1,
                                n_edges as int));
                        lemma_nbrs_bump(self.edges@, bc_pre, nb_pre, n as int, e as int, (c + 1) as usize);
                        assert(self.bc_seq() == bc_pre.update(e as int, (c + 1) as usize));
                    }
                }
            } else {
                proof {
                    assert(blocked_range(self.edges@, obstacle.rect, e as int, n_edges as int)
                        == blocked_range(self.edges@, obstacle.rect, e as int + 1,
                            n_edges as int));
                    assert(transition_range(self.edges@, bc0, obstacle.rect, 0, e as int,
                        n_edges as int)
                        == transition_range(self.edges@, bc0, obstacle.rect, 0, e as int + 1,
                            n_edges as int));
                }
            }
            e = e + 1;
        }
        proof {
            assert(blocked_range(self.edges@, obstacle.rect, n_edges as int, n_edges as int)
                =~= Seq::<EdgeIndex>::empty());
            assert(canon@ + Seq::<EdgeIndex>::empty() =~= canon@);
            assert(transition_range(self.edges@, bc0, obstacle.rect, 0, n_edges as int,
                n_edges as int) =~= Seq::<EdgeIndex>::empty());
            assert(newly@ + Seq::<EdgeIndex>::empty() =~= newly@);
        }
        let ghost bpo_before = self.bpo_view();
        self.blocked_per_obstacle.push((obstacle.id(), canon));
        proof {
            assert(self.bpo_view() =~= bpo_before.push(
                (obstacle.id_spec(), blocked_of(old(self).edges@, obstacle.rect))));
            assert forall|e2: int| 0 <= e2 < self.edges@.len()
                implies #[trigger] self.bc_seq()[e2] == count_blockers(self.obs_seq(),
                    self.edges@[e2]) by {
                lemma_count_blockers_push(old_obs, obstacle, self.edges@[e2]);
            }
            assert forall|k: int| 0 <= k < self.obs_seq().len()
                implies (#[trigger] self.bpo_view()[k]).0 == self.obs_seq()[k].id_spec()
                    && self.bpo_view()[k].1 == blocked_of(self.edges@, self.obs_seq()[k].rect)
                by {
                if k < self.obs_seq().len() - 1 {
                    assert(self.bpo_view()[k] == old(self).bpo_view()[k]);
                    assert(self.obs_seq()[k] == old_obs[k]);
                }
            }
        }
        newly
    }

    /// Removes the obstacle with the given identifier and updates counts
    /// and adjacency; returns the edges whose blocking count went one to
    /// zero, ascending.  An unknown identifier leaves the engine unchanged
    /// and returns an empty list.
    pub fn remove_obstacle(&mut self, oid: ObstacleId) -> (unblocked: Vec<EdgeIndex>)
        requires
            old(self).wf(),
        ensures
            final(self).wf(),
            final(self).cfg == old(self).cfg,
            final(self).vertices@ == old(self).vertices@,
            final(self).edges@ == old(self).edges@,
            !old(self).has_obstacle(oid) ==> final(self).obs_seq() == old(self).obs_seq()
                && final(self).bpo_view() == old(self).bpo_view()
                && final(self).bc_seq() == old(self).bc_seq()
                && final(self).neighbors@ == old(self).neighbors@
                && unblocked@ == Seq::<EdgeIndex>::empty(),
            old(self).has_obstacle(oid) ==> (exists|k: int|
                0 <= k < old(self).obs_seq().len()
                    && (#[trigger] old(self).obs_seq()[k]).id_spec() == oid
                    && final(self).obs_seq() == old(self).obs_seq().remove(k)
                    && final(self).bpo_view() == old(self).bpo_view().remove(k)
                    && (forall|e: int| 0 <= e < final(self).edges@.len()
                        ==> #[trigger] final(self).bc_seq()[e] == old(self).bc_seq()[e]
                            - (if seg_intersects_rect(final(self).edges@[e].a, final(self).edges@[e].b,
                                old(self).obs_seq()[k].rect) {
                                1int
                            } else {
                                0int
                            }))
                    && unblocked@ == transition_range(
                        old(self).edges@,
                        old(self).bc_seq(),
                        old(self).obs_seq()[k].rect,
                        1,
                        0,
                        old(self).edges@.len() as int,
                    )),
            old(self).has_obstacle(oid) ==> (exists|k: int|
                0 <= k < old(self).obs_seq().len()
                    && (#[trigger] old(self).obs_seq()[k]).id_spec() == oid
                    && obstacle_removed(*old(self), k, *final(self))),
    {
        proof {
            lemma_candidate_edges_ok(self.cfg);
        }
        let n_obs = self.obstacles.obstacles.len();
        let mut k: usize = 0;
        let mut found: bool = false;
        while !found && k < n_obs
            invariant
                n_obs == self.obs_seq().len(),
                k <= n_obs,
                found ==> k < n_obs && self.obs_seq()[k as int].id_spec() == oid,
                forall|j: int| 0 <= j < k ==> (#[trigger] self.obs_seq()[j]).id_spec() != oid,
            decreases n_obs - k + (if found { 0int } else { 1int }),
        {
            if self.obstacles.obstacles[k].id() == oid {
                found = true;
            } else {
                k = k + 1;
            }
        }
        if !found {
            proof {
                assert(!old(self).has_obstacle(oid));
            }
            return Vec::new();
        }
        let n_edges = self.edges.len();
        let n = self.cfg.num_vertices;
        let target = self.obstacles.obstacles[k];
        let entry = self.blocked_per_obstacle.remove(k);
        let removed = self.obstacles.obstacles.remove(k);
        let list = entry.1;
        let ghost old_obs = old(self).obs_seq();
        let ghost rect = old_obs[k as int].rect;
        let ghost bc0 = old(self).bc_seq();
        proof {
            assert(old(self).bpo_view()[k as int].1 == blocked_of(self.edges@, rect));
            assert(list@ == blocked_of(self.edges@, rect));
            lemma_blocked_range_props(self.edges@, rect, 0, n_edges as int);
            assert(self.bpo_view() =~= old(self).bpo_view().remove(k as int));
        }
        let mut seen: Vec<bool> = Vec::new();
        let mut i: usize = 0;
        while i < n_edges
            invariant
                i <= n_edges,
                seen@.len() == i,
                forall|j: int| 0 <= j < i ==> !(#[trigger] seen@[j]),
            decreases n_edges - i,
        {
            seen.push(false);
            i = i + 1;
        }
        let n_list = list.len();
        let mut t: usize = 0;
        while t < n_list
            invariant
                n_list == list@.len(),
                t <= n_list,
                seen@.len() == n_edges,
                n_edges == self.edges@.len(),
                list@ == blocked_of(self.edges@, rect),
                forall|tt: int| 0 <= tt < list@.len() ==> (#[trigger] list@[tt]) < n_edges,
                forall|j: int| 0 <= j < n_edges
                    ==> ((#[trigger] seen@[j]) ==> list@.contains(j as usize)),
                forall|tt: int| 0 <= tt < t ==> seen@[#[trigger] list@[tt] as int],
            decreases n_list - t,
        {
            proof {
                lemma_blocked_range_props(self.edges@, rect, 0, n_edges as int);
            }
            let x = list[t];
            seen.set(x, true);
            t = t + 1;
        }
        proof {
            lemma_blocked_range_props(self.edges@, rect, 0, n_edges as int);
            assert forall|j: int| 0 <= j < n_edges
                implies ((#[trigger] seen@[j]) <==> seg_intersects_rect(self.edges@[j].a,
                    self.edges@[j].b, rect)) by {
                lemma_blocked_of_membership(self.edges@, rect, j);
                if list@.contains(j as usize) {
                    let tt = choose|tt: int| 0 <= tt < list@.len() && list@[tt] == j as usize;
                    assert(seen@[j]);
                }
            }
        }
        let mut unblocked: Vec<EdgeIndex> = Vec::new();
        let mut e: usize = 0;
        proof {
            assert(unblocked@ + transition_range(self.edges@, bc0, rect, 1, 0, n_edges as int)
                =~= transition_range(self.edges@, bc0, rect, 1, 0, n_edges as int));
        }
        while e < n_edges
            invariant
                old(self).wf(),
                self.cfg == old(self).cfg,
                self.vertices@ == old(self).vertices@,
                self.edges@ == old(self).edges@,
                self.obstacles.obstacles@ == old_obs.remove(k as int),
                self.bpo_view() == old(self).bpo_view().remove(k as int),
                old_obs == old(self).obs_seq(),
                0 <= k < old_obs.len(),
                old_obs[k as int].id_spec() == oid,
                rect == old_obs[k as int].rect,
                bc0 == old(self).bc_seq(),
                n_edges == self.edges@.len(),
                n == self.cfg.num_vertices,
                edges_ok(self.edges@, n as int),
                seen@.len() == n_edges,
                forall|j: int| 0 <= j < n_edges
                    ==> ((#[trigger] seen@[j]) <==> seg_intersects_rect(self.edges@[j].a,
                        self.edges@[j].b, rect)),
                e <= n_edges,
                self.bc_seq().len() == n_edges,
                forall|j: int| 0 <= j < e
                    ==> #[trigger] self.bc_seq()[j] == bc0[j]
                        - (if seg_intersects_rect(self.edges@[j].a, self.edges@[j].b, rect) {
                            1int
                        } else {
                            0int
                        }),
                forall|j: int| e <= j < n_edges ==> #[trigger] self.bc_seq()[j] == bc0[j],
                unblocked@ + transition_range(self.edges@, bc0, rect, 1, e as int,
                    n_edges as int)
                    == transition_range(self.edges@, bc0, rect, 1, 0, n_edges as int),
                self.neighbors@.len() == n,
                nbrs_ok(self.edges@, self.bc_seq(), self.neighbors@, n as int,
                    n_edges as int),
            decreases n_edges - e,
        {
            if seen[e] {
                let c = self.blockings_per_edge[e];
                proof {
                    lemma_count_blockers_remove(old_obs, k as int, self.edges@[e as int]);
                    assert(bc0[e as int] == count_blockers(old_obs, self.edges@[e as int]));
                    assert(c >= 1);
                }
                let ghost bc_pre = self.bc_seq();
                let ghost nb_pre = self.neighbors@;
                self.blockings_per_edge.set(e, c - 1);
                if c == 1 {
                    proof {
                        assert(transition_range(self.edges@, bc0, rect, 1, e as int,
                            n_edges as int)
                            =~= seq![e as usize] + transition_range(self.edges@, bc0, rect, 1,
                                e as int + 1, n_edges as int));
                        assert(unblocked@.push(e as usize)
                                + transition_range(self.edges@, bc0, rect, 1, e as int + 1,
                                    n_edges as int)
                            =~= unblocked@ + transition_range(self.edges@, bc0, rect, 1,
                                e as int, n_edges as int));
                    }
                    unblocked.push(e);
                    let edge = self.edges[e];
                    self.neighbors.add(&edge);
                    proof {
                        lemma_nbrs_unblock(self.edges@, bc_pre, nb_pre, n as int, e as int);
                        assert(self.neighbors@ == nb_after_add(nb_pre, self.edges@[e as int]));
                        assert(self.bc_seq() == bc_pre.update(e as int, (c - 1) as usize));
                    }
                } else {
                    proof {
                        assert(transition_range(self.edges@, bc0, rect, 1, e as int,
                            n_edges as int)
                            == transition_range(self.edges@, bc0, rect, 1, e as int + 1,
                                n_edges as int));
                        lemma_nbrs_bump(self.edges@, bc_pre, nb_pre, n as int, e as int,
                            (c - 1) as usize);
                        assert(self.bc_seq() == bc_pre.update(e as int, (c - 1) as usize));
                    }
                }
            } else {
                proof {
                    assert(transition_range(self.edges@, bc0, rect, 1, e as int, n_edges as int)
                        == transition_range(self.edges@, bc0, rect, 1, e as int + 1,
                            n_edges as int));
                }
            }
            e = e + 1;
        }
        proof {
            assert(transition_range(self.edges@, bc0, rect, 1, n_edges as int, n_edges as int)
                =~= Seq::<EdgeIndex>::empty());
            assert(unblocked@ + Seq::<EdgeIndex>::empty() =~= unblocked@);
            old_obs.remove_ensures(k as int);
            old(self).bpo_view().remove_ensures(k as int);
            assert forall|e2: int| 0 <= e2 < self.edges@.len()
                implies #[trigger] self.bc_seq()[e2] == count_blockers(self.obs_seq(),
                    self.edges@[e2]) by {
                lemma_count_blockers_remove(old_obs, k as int, self.edges@[e2]);
            }
            assert forall|j: int| 0 <= j < self.obs_seq().len()
                implies (#[trigger] self.bpo_view()[j]).0 == self.obs_seq()[j].id_spec()
                    && self.bpo_view()[j].1 == blocked_of(self.edges@, self.obs_seq()[j].rect)
                by {
            }
        }
        unblocked
    }

    /// Inserts the obstacle, computing its blocked edges in-engine; an
    /// already-present identifier has its obstacle replaced.  Returns the
    /// newly blocked edges, ascending.
    pub fn insert_obstacle(&mut self, obstacle: Obstacle) -> (newly: Vec<EdgeIndex>)
        requires
            old(self).wf(),
            obstacle.wf(),
        ensures
            final(self).wf(),
            final(self).cfg == old(self).cfg,
            final(self).vertices@ == old(self).vertices@,
            final(self).edges@ == old(self).edges@,
            final(self).has_obstacle(obstacle.id_spec()),
            !old(self).has_obstacle(obstacle.id_spec())
                ==> obstacle_inserted(*old(self), obstacle, *final(self))
                    && newly@ == transition_range(
                        old(self).edges@,
                        old(self).bc_seq(),
                        obstacle.rect,
                        0,
                        0,
                        old(self).edges@.len() as int,
                    ),
            old(self).has_obstacle(obstacle.id_spec()) ==> (exists|k: int, mid: DPrm|
                0 <= k < old(self).obs_seq().len()
                    && (#[trigger] old(self).obs_seq()[k]).id_spec() == obstacle.id_spec()
                    && #[trigger] obstacle_removed(*old(self), k, mid)
                    && obstacle_inserted(mid, obstacle, *final(self))
                    && newly@ == transition_range(
                        mid.edges@,
                        mid.bc_seq(),
                        obstacle.rect,
                        0,
                        0,
                        mid.edges@.len() as int,
                    )),
    {
        let oid = obstacle.id();
        let ghost removed_at: int = 0;
        if self.contains_obstacle(oid) {
            let _ = self.remove_obstacle(oid);
            proof {
                let k = choose|k: int|
                    0 <= k < old(self).obs_seq().len()
                        && (#[trigger] old(self).obs_seq()[k]).id_spec() == oid
                        && obstacle_removed(*old(self), k, *self);
                removed_at = k;
                old(self).obs_seq().remove_ensures(k);
                assert forall|j: int| 0 <= j < self.obs_seq().len()
                    implies (#[trigger] self.obs_seq()[j]).id_spec() != oid by {
                    if j < k {
                        assert(self.obs_seq()[j] == old(self).obs_seq()[j]);
                    } else {
                        assert(self.obs_seq()[j] == old(self).obs_seq()[j + 1]);
                    }
                }
                assert(!self.has_obstacle(oid));
            }
        }
        let ghost mid = *self;
        let blocked = self.find_blocked_by_obstacle(&obstacle);
        let n_edges = self.edges.len();
        proof {
            assert(self.edges@.len() == n_edges);
            lemma_blocked_range_props(self.edges@, obstacle.rect, 0, self.edges@.len() as int);
        }
        let newly = self.insert_blocked_by_obstacle(obstacle, blocked);
        proof {
            assert(self.obs_seq()[self.obs_seq().len() - 1].id_spec() == obstacle.id_spec());
            if old(self).has_obstacle(obstacle.id_spec()) {
                assert(0 <= removed_at < old(self).obs_seq().len()
                    && old(self).obs_seq()[removed_at].id_spec() == obstacle.id_spec()
                    && obstacle_removed(*old(self), removed_at, mid)
                    && obstacle_inserted(mid, obstacle, *self)
                    && newly@ == transition_range(mid.edges@, mid.bc_seq(), obstacle.rect, 0, 0,
                        mid.edges@.len() as int));
            }
        }
        newly
    }
}

/// The edge identifiers in `[from, to)` whose blocking count is zero,
/// ascending.
pub open spec fn free_range(bc: Seq<usize>, from: int, to: int) -> Seq<EdgeIndex>
    decreases to - from,
{
    if from >= to {
        Seq::empty()
    } else {
        let rest = free_range(bc, from + 1, to);
        if bc[from] == 0 {
            seq![from as usize] + rest
        } else {
            rest
        }
    }
}

/// The edge identifiers in `[from, to)` whose blocking count is positive,
/// ascending.
pub open spec fn nonfree_range(bc: Seq<usize>, from: int, to: int) -> Seq<EdgeIndex>
    decreases to - from,
{
    if from >= to {
        Seq::empty()
    } else {
        let rest = nonfree_range(bc, from + 1, to);
        if bc[from] != 0 {
            seq![from as usize] + rest
        } else {
            rest
        }
    }
}

/// Elements of a free range are the free indices of the range, ascending.
pub proof fn lemma_free_range_props(bc: Seq<usize>, from: int, to: int)
    requires
        0 <= from,
        to <= bc.len(),
        to <= usize::MAX,
    ensures
        forall|t: int| 0 <= t < free_range(bc, from, to).len()
            ==> from <= #[trigger] free_range(bc, from, to)[t] < to
                && bc[free_range(bc, from, to)[t] as int] == 0,
        forall|t1: int, t2: int| 0 <= t1 < t2 < free_range(bc, from, to).len()
            ==> #[trigger] free_range(bc, from, to)[t1] < #[trigger] free_range(bc, from, to)[t2],
        forall|e: int| from <= e < to && bc[e] == 0
            ==> free_range(bc, from, to).contains(e as usize),
    decreases to - from,
{
    if from >= to {
    } else {
        lemma_free_range_props(bc, from + 1, to);
        let all = free_range(bc, from, to);
        let rest = free_range(bc, from + 1, to);
        if bc[from] == 0 {
            assert(all == seq![from as usize] + rest);
            assert(all[0] == from as usize);
            assert(forall|t: int| 1 <= t < all.len() ==> all[t] == rest[t - 1]);
            assert forall|e: int| from <= e < to && bc[e] == 0
                implies all.contains(e as usize) by {
                if e == from {
                    assert(all[0] == e as usize);
                } else {
                    assert(rest.contains(e as usize));
                    let t = choose|t: int| 0 <= t < rest.len() && rest[t] == e as usize;
                    assert(all[t + 1] == e as usize);
                }
            }
        } else {
            assert(all == rest);
            assert forall|e: int| from <= e < to && bc[e] == 0
                implies all.contains(e as usize) by {
                assert(e != from);
                assert(rest.contains(e as usize));
            }
        }
    }
}

impl DPrm {
    /// The currently free edges, ascending.
    pub fn get_all_free_edges(&self) -> (free: Vec<EdgeIndex>)
        requires
            self.wf(),
        ensures
            free@ == free_range(self.bc_seq(), 0, self.edges@.len() as int),
            forall|e: int| 0 <= e < self.edges@.len()
                ==> (free@.contains(e as usize) <==> self.bc_seq()[e] == 0),
    {
        let n = self.blockings_per_edge.len();
        let mut out: Vec<EdgeIndex> = Vec::new();
        let mut i: usize = 0;
        proof {
            assert(out@ + free_range(self.bc_seq(), 0, n as int)
                =~= free_range(self.bc_seq(), 0, n as int));
        }
        while i < n
            invariant
                self.wf(),
                n == self.bc_seq().len(),
                i <= n,
                out@ + free_range(self.bc_seq(), i as int, n as int)
                    == free_range(self.bc_seq(), 0, n as int),
            decreases n - i,
        {
            if self.blockings_per_edge[i] == 0 {
                proof {
                    assert(free_range(self.bc_seq(), i as int, n as int)
                        =~= seq![i as usize] + free_range(self.bc_seq(), i as int + 1, n as int));
                    assert(out@.push(i as usize)
                            + free_range(self.bc_seq(), i as int + 1, n as int)
                        =~= out@ + free_range(self.bc_seq(), i as int, n as int));
                }
                out.push(i);
            } else {
                proof {
                    assert(free_range(self.bc_seq(), i as int, n as int)
                        == free_range(self.bc_seq(), i as int + 1, n as int));
                }
            }
            i = i + 1;
        }
        proof {
            assert(free_range(self.bc_seq(), n as int, n as int) =~= Seq::<EdgeIndex>::empty());
            assert(out@ + Seq::<EdgeIndex>::empty() =~= out@);
            lemma_free_range_props(self.bc_seq(), 0, n as int);
            assert forall|e: int| 0 <= e < self.edges@.len()
                implies (out@.contains(e as usize) <==> self.bc_seq()[e] == 0) by {
                if out@.contains(e as usize) {
                    let t = choose|t: int| 0 <= t < out@.len() && out@[t] == e as usize;
                }
            }
        }
        out
    }

    /// The currently blocked edges, ascending.
    pub fn get_all_blocked(&self) -> (blocked: Vec<EdgeIndex>)
        requires
            self.wf(),
        ensures
            blocked@ == nonfree_range(self.bc_seq(), 0, self.edges@.len() as int),
    {
        let n = self.blockings_per_edge.len();
        let mut out: Vec<EdgeIndex> = Vec::new();
        let mut i: usize = 0;
        proof {
            assert(out@ + nonfree_range(self.bc_seq(), 0, n as int)
                =~= nonfree_range(self.bc_seq(), 0, n as int));
        }
        while i < n
            invariant
                self.wf(),
                n == self.bc_seq().len(),
                i <= n,
                out@ + nonfree_range(self.bc_seq(), i as int, n as int)
                    == nonfree_range(self.bc_seq(), 0, n as int),
            decreases n - i,
        {
            if self.blockings_per_edge[i] != 0 {
                proof {
                    assert(nonfree_range(self.bc_seq(), i as int, n as int)
                        =~= seq![i as usize]
                            + nonfree_range(self.bc_seq(), i as int + 1, n as int));
                    assert(out@.push(i as usize)
                            + nonfree_range(self.bc_seq(), i as int + 1, n as int)
                        =~= out@ + nonfree_range(self.bc_seq(), i as int, n as int));
                }
                out.push(i);
            } else {
                proof {
                    assert(nonfree_range(self.bc_seq(), i as int, n as int)
                        == nonfree_range(self.bc_seq(), i as int + 1, n as int));
                }
            }
            i = i + 1;
        }
        proof {
            assert(nonfree_range(self.bc_seq(), n as int, n as int)
                =~= Seq::<EdgeIndex>::empty());
            assert(out@ + Seq::<EdgeIndex>::empty() =~= out@);
        }
        out
    }

    /// The point lies in no present obstacle.
    pub fn is_free(&self, point: &Point) -> (r: bool)
        ensures
            r == !seq_contains_point(self.obs_seq(), *point),
    {
        !self.obstacles.contains(point)
    }

    /// Vertex `i`'s position lies in no present obstacle.
    pub open spec fn vertex_free(self, i: int) -> bool {
        !seq_contains_point(self.obs_seq(), self.vertices@[i].point)
    }

    /// The free vertex nearest to the point, earliest index on ties; with
    /// no free vertex, vertex 0 as a sentinel.
    pub fn get_nearest(&self, point: Point) -> (res: Vertex)
        requires
            self.wf(),
            point.dist_bounded(),
        ensures
            (exists|j: int| 0 <= j < self.vertices@.len() && self.vertex_free(j)) ==> {
                let i = res.index as int;
                &&& 0 <= i < self.vertices@.len()
                &&& res == self.vertices@[i]
                &&& self.vertex_free(i)
                &&& forall|j: int| 0 <= j < self.vertices@.len() && self.vertex_free(j)
                    ==> dist2(res.point, point) <= dist2(#[trigger] self.vertices@[j].point,
                        point)
                &&& forall|j: int| 0 <= j < i && self.vertex_free(j)
                    ==> dist2(#[trigger] self.vertices@[j].point, point)
                        > dist2(res.point, point)
            },
            !(exists|j: int| 0 <= j < self.vertices@.len() && self.vertex_free(j))
                ==> res == self.vertices@[0],
    {
        let n = self.vertices.len();
        let mut best: usize = 0;
        let mut best_d: u64 = 0;
        let mut found: bool = false;
        let mut i: usize = 0;
        while i < n
            invariant
                self.wf(),
                point.dist_bounded(),
                n == self.vertices@.len(),
                i <= n,
                found <==> (exists|j: int| 0 <= j < i && self.vertex_free(j)),
                found ==> {
                    &&& best < i
                    &&& self.vertex_free(best as int)
                    &&& best_d == dist2(self.vertices@[best as int].point, point)
                    &&& forall|j: int| 0 <= j < i && self.vertex_free(j)
                        ==> best_d <= dist2(#[trigger] self.vertices@[j].point, point)
                    &&& forall|j: int| 0 <= j < best && self.vertex_free(j)
                        ==> dist2(#[trigger] self.vertices@[j].point, point) > best_d
                },
            decreases n - i,
        {
            let v = self.vertices[i];
            proof {
                assert(v == spec_vertex(self.cfg, i as int));
                lemma_sample_point_bounds(self.cfg, i as int);
                assert(v.point.dist_bounded());
            }
            let d = crate::geometry::dist2_exec(&v.point, &point);
            if self.is_free(&v.point) {
                proof {
                    assert(self.vertex_free(i as int));
                }
                if !found || d < best_d {
                    best = i;
                    best_d = d;
                    found = true;
                }
                proof {
                    assert(exists|j: int| 0 <= j <= i && self.vertex_free(j));
                }
            } else {
                proof {
                    assert(!self.vertex_free(i as int));
                }
            }
            i = i + 1;
        }
        if found {
            proof {
                assert(self.vertices@[best as int] == spec_vertex(self.cfg, best as int));
                assert(self.vertices@[best as int].index == best);
            }
            self.vertices[best]
        } else {
            self.vertices[0]
        }
    }

    /// The free neighbours of a vertex with their distances; a vertex
    /// outside the table has none.
    pub fn successors(&self, v: VertexIndex) -> (r: Vec<NbrEntry>)
        ensures
            (v as int) < self.neighbors@.len() ==> r@ == self.neighbors@[v as int],
            (v as int) >= self.neighbors@.len() ==> r@ == Seq::<NbrEntry>::empty(),
    {
        self.neighbors.get(v)
    }

    /// How many vertices the roadmap has.
    pub fn num_vertices(&self) -> (r: usize)
        ensures
            r == self.vertices@.len(),
    {
        self.vertices.len()
    }

    /// How many candidate edges the roadmap has.
    pub fn num_edges(&self) -> (r: usize)
        ensures
            r == self.edges@.len(),
    {
        self.edges.len()
    }

    /// How many obstacles are present.
    pub fn num_obstacles(&self) -> (r: usize)
        ensures
            r == self.obs_seq().len(),
    {
        self.obstacles.obstacles.len()
    }
}

} // verus!
