//! Engine-level laws: consequences of the invariant and of the mutation
//! contracts that hold after any sequence of obstacle insertions and
//! removals.

use vstd::prelude::*;
use crate::dprm::DPrm;
use crate::dprm::blocked_of;
use crate::dprm::count_blockers;
use crate::dprm::edge_entry;
use crate::dprm::free_entry_exists;
use crate::dprm::lemma_blocked_of_membership;
use crate::dprm::obstacle_inserted;
use crate::dprm::obstacle_removed;
use crate::neighbors::NbrEntry;
use crate::neighbors::entry_count;
use crate::obstacles::Obstacle;
use crate::obstacles::ObstacleId;
use crate::roadmap::Edge;
use crate::roadmap::EdgeIndex;

verus! {

/// How many per-obstacle blocked lists contain the edge.
pub open spec fn count_bpo(bpo: Seq<(ObstacleId, Seq<EdgeIndex>)>, e: EdgeIndex) -> nat
    decreases bpo.len(),
{
    if bpo.len() == 0 {
        0
    } else {
        count_bpo(bpo.drop_last(), e) + (if bpo.last().1.contains(e) {
            1nat
        } else {
            0nat
        })
    }
}

/// With each list holding exactly the edges its obstacle blocks, the number
/// of lists containing an edge equals the number of obstacles blocking it.
proof fn lemma_count_bpo_eq(
    edges: Seq<Edge>,
    obs: Seq<Obstacle>,
    bpo: Seq<(ObstacleId, Seq<EdgeIndex>)>,
    e: int,
)
    requires
        bpo.len() == obs.len(),
        forall|k: int| 0 <= k < obs.len()
            ==> (#[trigger] bpo[k]).1 == blocked_of(edges, obs[k].rect),
        0 <= e < edges.len(),
        edges.len() <= usize::MAX,
    ensures
        count_bpo(bpo, e as usize) == count_blockers(obs, edges[e]),
    decreases obs.len(),
{
    if obs.len() > 0 {
        assert(forall|k: int| 0 <= k < obs.drop_last().len()
            ==> (#[trigger] bpo.drop_last()[k]).1
                == blocked_of(edges, obs.drop_last()[k].rect));
        lemma_count_bpo_eq(edges, obs.drop_last(), bpo.drop_last(), e);
        assert(bpo.last() == bpo[obs.len() - 1]);
        assert(bpo.last().1 == blocked_of(edges, obs.last().rect));
        lemma_blocked_of_membership(edges, obs.last().rect, e);
    }
}

/// Law: in every reachable engine state, the blocking count of an edge
/// equals the number of obstacles whose blocked-edge list contains it.
pub proof fn lemma_block_count_consistent(d: DPrm, e: int)
    requires
        d.wf(),
        0 <= e < d.edges@.len(),
    ensures
        d.bc_seq()[e] == count_bpo(d.bpo_view(), e as usize),
{
    lemma_count_bpo_eq(d.edges@, d.obs_seq(), d.bpo_view(), e);
}

/// Law: in every reachable engine state, a free edge appears exactly once
/// in the adjacency list of each of its endpoints, and a blocked edge in
/// neither.
pub proof fn lemma_adjacency_matches_block_count(d: DPrm, e: int)
    requires
        d.wf(),
        0 <= e < d.edges@.len(),
    ensures
        ({
            let edge = d.edges@[e];
            let xu = (edge.points.1, edge.length);
            let xv = (edge.points.0, edge.length);
            &&& d.bc_seq()[e] == 0 ==> entry_count(d.neighbors@[edge.points.0 as int], xu) == 1
                && entry_count(d.neighbors@[edge.points.1 as int], xv) == 1
            &&& d.bc_seq()[e] != 0 ==> entry_count(d.neighbors@[edge.points.0 as int], xu) == 0
                && entry_count(d.neighbors@[edge.points.1 as int], xv) == 0
        }),
{
    d.lemma_wf_edges();
    let edge = d.edges@[e];
    let u = edge.points.0 as int;
    let v = edge.points.1 as int;
    let xu = (edge.points.1, edge.length);
    let xv = (edge.points.0, edge.length);
    let m = d.edges@.len() as int;
    let n = d.cfg.num_vertices as int;
    assert(entry_count(d.neighbors@[u], xu)
        == (if free_entry_exists(d.edges@, d.bc_seq(), m, u, xu) {
            1nat
        } else {
            0nat
        }));
    assert(entry_count(d.neighbors@[v], xv)
        == (if free_entry_exists(d.edges@, d.bc_seq(), m, v, xv) {
            1nat
        } else {
            0nat
        }));
    if d.bc_seq()[e] == 0 {
        assert(edge_entry(d.edges@[e], u, xu));
        assert(0 <= e < m && d.bc_seq()[e] == 0 && edge_entry(d.edges@[e], u, xu));
        assert(free_entry_exists(d.edges@, d.bc_seq(), m, u, xu));
        assert(edge_entry(d.edges@[e], v, xv));
        assert(free_entry_exists(d.edges@, d.bc_seq(), m, v, xv));
    } else {
        if free_entry_exists(d.edges@, d.bc_seq(), m, u, xu) {
            let k = choose|k: int| 0 <= k < m && d.bc_seq()[k] == 0
                && edge_entry(d.edges@[k], u, xu);
            crate::dprm::lemma_witness_is_k0(d.edges@, n, e, u, xu, k);
            assert(false);
        }
        if free_entry_exists(d.edges@, d.bc_seq(), m, v, xv) {
            let k = choose|k: int| 0 <= k < m && d.bc_seq()[k] == 0
                && edge_entry(d.edges@[k], v, xv);
            crate::dprm::lemma_witness_is_k0(d.edges@, n, e, v, xv, k);
            assert(false);
        }
    }
}

/// Law: inserting an absent obstacle and then removing it restores the
/// obstacle set, the blocked lists, every blocking count, and the contents
/// of every adjacency list.
pub proof fn lemma_insert_remove_round_trip(
    pre: DPrm,
    o: Obstacle,
    mid: DPrm,
    post: DPrm,
    k: int,
)
    requires
        pre.wf(),
        mid.wf(),
        post.wf(),
        !pre.has_obstacle(o.id_spec()),
        obstacle_inserted(pre, o, mid),
        0 <= k < mid.obs_seq().len(),
        mid.obs_seq()[k].id_spec() == o.id_spec(),
        obstacle_removed(mid, k, post),
    ensures
        post.obs_seq() == pre.obs_seq(),
        post.bpo_view() == pre.bpo_view(),
        post.bc_seq() == pre.bc_seq(),
        forall|u: int, x: NbrEntry| 0 <= u < post.cfg.num_vertices
            ==> #[trigger] entry_count(post.neighbors@[u], x)
                == entry_count(pre.neighbors@[u], x),
{
    let np = pre.obs_seq().len() as int;
    if k < np {
        assert(mid.obs_seq()[k] == pre.obs_seq()[k]);
        assert(pre.obs_seq()[k].id_spec() == o.id_spec());
        assert(false);
    }
    assert(k == np);
    assert(post.obs_seq() =~= pre.obs_seq());
    assert(post.bpo_view() =~= pre.bpo_view());
    assert(post.bc_seq() =~= pre.bc_seq());
    let n = post.cfg.num_vertices as int;
    let m = post.edges@.len() as int;
    assert forall|u: int, x: NbrEntry| 0 <= u < post.cfg.num_vertices
        implies #[trigger] entry_count(post.neighbors@[u], x)
            == entry_count(pre.neighbors@[u], x) by {
        assert(entry_count(post.neighbors@[u], x)
            == (if free_entry_exists(post.edges@, post.bc_seq(), m, u, x) {
                1nat
            } else {
                0nat
            }));
        assert(entry_count(pre.neighbors@[u], x)
            == (if free_entry_exists(pre.edges@, pre.bc_seq(), m, u, x) {
                1nat
            } else {
                0nat
            }));
    }
}

/// Law: inserting two obstacles with distinct identifiers in either order
/// gives the same blocking counts, the same obstacle and blocked-list
/// collections, and the same adjacency contents.
pub proof fn lemma_disjoint_insert_commutes(
    pre: DPrm,
    o1: Obstacle,
    o2: Obstacle,
    a1: DPrm,
    b1: DPrm,
    a2: DPrm,
    b2: DPrm,
)
    requires
        pre.wf(),
        a1.wf(),
        b1.wf(),
        a2.wf(),
        b2.wf(),
        o1.id_spec() != o2.id_spec(),
        obstacle_inserted(pre, o1, a1),
        obstacle_inserted(a1, o2, b1),
        obstacle_inserted(pre, o2, a2),
        obstacle_inserted(a2, o1, b2),
    ensures
        b1.bc_seq() == b2.bc_seq(),
        b1.obs_seq().to_multiset() == b2.obs_seq().to_multiset(),
        b1.bpo_view().to_multiset() == b2.bpo_view().to_multiset(),
        forall|u: int, x: NbrEntry| 0 <= u < b1.cfg.num_vertices
            ==> #[trigger] entry_count(b1.neighbors@[u], x)
                == entry_count(b2.neighbors@[u], x),
{
    broadcast use vstd::seq_lib::group_to_multiset_ensures;

    assert(b1.bc_seq() =~= b2.bc_seq());
    assert(b1.obs_seq() =~= pre.obs_seq().push(o1).push(o2));
    assert(b2.obs_seq() =~= pre.obs_seq().push(o2).push(o1));
    assert(b1.obs_seq().to_multiset() =~= b2.obs_seq().to_multiset());
    let e1 = (o1.id_spec(), blocked_of(pre.edges@, o1.rect));
    let e2 = (o2.id_spec(), blocked_of(pre.edges@, o2.rect));
    assert(b1.bpo_view() =~= pre.bpo_view().push(e1).push(e2));
    assert(b2.bpo_view() =~= pre.bpo_view().push(e2).push(e1));
    assert(b1.bpo_view().to_multiset() =~= b2.bpo_view().to_multiset());
    let m = b1.edges@.len() as int;
    assert forall|u: int, x: NbrEntry| 0 <= u < b1.cfg.num_vertices
        implies #[trigger] entry_count(b1.neighbors@[u], x)
            == entry_count(b2.neighbors@[u], x) by {
        assert(entry_count(b1.neighbors@[u], x)
            == (if free_entry_exists(b1.edges@, b1.bc_seq(), m, u, x) {
                1nat
            } else {
                0nat
            }));
        assert(entry_count(b2.neighbors@[u], x)
            == (if free_entry_exists(b2.edges@, b2.bc_seq(), m, u, x) {
                1nat
            } else {
                0nat
            }));
    }
}

/// Law: two well-formed engines built over configurations asking for the
/// same roadmap and the same obstacle sequence agree on vertices, edges,
/// blocked lists, blocking counts, and the contents of every adjacency
/// list.
pub proof fn lemma_construction_deterministic(d1: DPrm, d2: DPrm)
    requires
        d1.wf(),
        d2.wf(),
        d1.cfg.equiv(d2.cfg),
        d1.obs_seq() == d2.obs_seq(),
    ensures
        d1.vertices@ == d2.vertices@,
        d1.edges@ == d2.edges@,
        d1.bpo_view() == d2.bpo_view(),
        d1.bc_seq() == d2.bc_seq(),
        forall|u: int, x: NbrEntry| 0 <= u < d1.cfg.num_vertices
            ==> #[trigger] entry_count(d1.neighbors@[u], x)
                == entry_count(d2.neighbors@[u], x),
{
    crate::roadmap::lemma_candidate_edges_equiv(d1.cfg, d2.cfg);
    assert forall|i: int| 0 <= i < d1.vertices@.len()
        implies d1.vertices@[i] == d2.vertices@[i] by {
        assert(d1.vertices@[i] == crate::roadmap::spec_vertex(d1.cfg, i));
        assert(d2.vertices@[i] == crate::roadmap::spec_vertex(d2.cfg, i));
    }
    assert(d1.vertices@ =~= d2.vertices@);
    assert(d1.bpo_view() =~= d2.bpo_view());
    assert(d1.bc_seq() =~= d2.bc_seq());
    let m = d1.edges@.len() as int;
    assert forall|u: int, x: NbrEntry| 0 <= u < d1.cfg.num_vertices
        implies #[trigger] entry_count(d1.neighbors@[u], x)
            == entry_count(d2.neighbors@[u], x) by {
        assert(entry_count(d1.neighbors@[u], x)
            == (if free_entry_exists(d1.edges@, d1.bc_seq(), m, u, x) {
                1nat
            } else {
                0nat
            }));
        assert(entry_count(d2.neighbors@[u], x)
            == (if free_entry_exists(d2.edges@, d2.bc_seq(), m, u, x) {
                1nat
            } else {
                0nat
            }));
    }
}

/// Law: an obstacle whose rectangle covers the whole sampling rectangle
/// blocks every candidate edge, so no edge is free.
pub proof fn lemma_covering_obstacle_blocks_all(d: DPrm, k: int)
    requires
        d.wf(),
        0 <= k < d.obs_seq().len(),
        d.obs_seq()[k].rect.x_min <= 0,
        d.obs_seq()[k].rect.y_min <= 0,
        d.cfg.width * (crate::geometry::MILLI as int) <= d.obs_seq()[k].rect.x_max + 1,
        d.cfg.height * (crate::geometry::MILLI as int) <= d.obs_seq()[k].rect.y_max + 1,
    ensures
        forall|e: int| 0 <= e < d.edges@.len() ==> #[trigger] d.bc_seq()[e] >= 1,
{
    d.lemma_wf_edges();
    let rect = d.obs_seq()[k].rect;
    assert forall|e: int| 0 <= e < d.edges@.len() implies #[trigger] d.bc_seq()[e] >= 1 by {
        let edge = d.edges@[e];
        assert(crate::roadmap::edge_wf(d.cfg, edge));
        crate::sampler::lemma_sample_point_bounds(d.cfg, edge.points.0 as int);
        assert(crate::geometry::in_rect(edge.a, rect));
        crate::geometry::lemma_endpoint_in_rect_intersects(edge.a, edge.b, rect);
        crate::dprm::lemma_count_blockers_remove(d.obs_seq(), k, edge);
        assert(d.bc_seq()[e] == count_blockers(d.obs_seq(), edge));
    }
}

} // verus!
