//! Shortest-path queries: A* over the adjacency cache with the
//! integer-rounded Euclidean heuristic.

use vstd::prelude::*;
use crate::dprm::DPrm;
use crate::dprm::edge_entry;
use crate::dprm::free_entry_exists;
use crate::geometry::dist2;
use crate::geometry::dist2_exec;
use crate::geometry::lemma_dist2_bound;
use crate::geometry::lemma_rounded_dist_bound;
use crate::geometry::rounded_dist;
use crate::geometry::rounded_dist_exec;
use crate::neighbors::NbrEntry;
use crate::neighbors::Neighbors;
use crate::neighbors::entry_count;
use crate::neighbors::lemma_entry_count_index;
use crate::roadmap::Distance;
use crate::roadmap::Vertex;
use crate::roadmap::VertexIndex;
use crate::roadmap::Edge;
use crate::roadmap::EdgeIndex;
use crate::roadmap::edge_wf;
use crate::sampler::lemma_sample_point_bounds;

verus! {

/// A found path: the visited vertices from start to goal and the total
/// integer cost.
#[derive(Clone, Debug)]
pub struct DPrmPath {
    /// The vertices along the path, start and goal included.
    pub vertices: Vec<Vertex>,
    /// The sum of the rounded edge lengths along the path.
    pub length: Distance,
}

/// The successor table holds a step from `u` to `v` with cost `w`.
pub open spec fn graph_step(g: Seq<Seq<NbrEntry>>, u: int, v: int, w: int) -> bool {
    0 <= u < g.len() && exists|t: int| 0 <= t < g[u].len()
        && (#[trigger] g[u][t]).0 == v && g[u][t].1 == w
}

/// `p` walks through `g` along successor steps whose costs sum to `c`.
pub open spec fn path_ok(g: Seq<Seq<NbrEntry>>, p: Seq<VertexIndex>, c: int) -> bool
    decreases p.len(),
{
    &&& p.len() >= 1
    &&& 0 <= (p[0] as int) < g.len()
    &&& (if p.len() == 1 {
        c == 0
    } else {
        exists|w: int| 0 <= w && #[trigger] graph_step(g, p[0] as int, p[1] as int, w)
            && path_ok(g, p.drop_first(), c - w)
    })
}

/// `t` can be walked to from `s`.
pub open spec fn reachable(g: Seq<Seq<NbrEntry>>, s: int, t: int) -> bool {
    exists|p: Seq<VertexIndex>, c: int| #[trigger] path_ok(g, p, c) && p[0] == s && p.last() == t
}

/// `c` is the least cost of any walk from `s` to `t`.
pub open spec fn is_min_cost(g: Seq<Seq<NbrEntry>>, s: int, t: int, c: int) -> bool {
    &&& (exists|p: Seq<VertexIndex>| #[trigger] path_ok(g, p, c) && p[0] == s && p.last() == t)
    &&& (forall|p: Seq<VertexIndex>, c2: int| #[trigger] path_ok(g, p, c2) && p[0] == s
        && p.last() == t ==> c2 >= c)
}

/// The heuristic never exceeds the cost of any walk to the goal.
pub open spec fn admissible(g: Seq<Seq<NbrEntry>>, h: Seq<Distance>, t: int) -> bool {
    forall|p: Seq<VertexIndex>, c: int| #[trigger] path_ok(g, p, c) && p.last() == t
        && (p[0] as int) < h.len() ==> h[p[0] as int] <= c
}

/// Every vertex on a walk lies in the table.
pub proof fn lemma_path_ok_bounds(g: Seq<Seq<NbrEntry>>, p: Seq<VertexIndex>, c: int)
    requires
        path_ok(g, p, c),
    ensures
        forall|t: int| 0 <= t < p.len() ==> 0 <= ((#[trigger] p[t]) as int) < g.len(),
    decreases p.len(),
{
    if p.len() > 1 {
        let w = choose|w: int| 0 <= w && graph_step(g, p[0] as int, p[1] as int, w)
            && path_ok(g, p.drop_first(), c - w);
        lemma_path_ok_bounds(g, p.drop_first(), c - w);
        assert(forall|t: int| 1 <= t < p.len() ==> p[t] == p.drop_first()[t - 1]);
    }
}

/// The successor table of a row vector, as the search's graph.
pub open spec fn deep_rows(nbrs: Seq<Vec<NbrEntry>>) -> Seq<Seq<NbrEntry>> {
    nbrs.map_values(|row: Vec<NbrEntry>| row@)
}

/// Relies on `pathfinding::directed::astar::astar` over the given successor
/// table: it returns a path exactly when the goal is reachable from the
/// start; a returned vertex list runs from the start to the goal along
/// successor steps whose costs sum to at most the returned cost; and when
/// the heuristic never overestimates, the returned cost is the least cost
/// of any path and the list's steps sum to exactly it.  The bounds on the
/// table size and on the weights keep every cost sum far below `u64::MAX`,
/// so the search cannot overflow.
#[verifier::external_body]
fn astar_search(nbrs: &Vec<Vec<NbrEntry>>, h: &Vec<Distance>, start: usize, goal: usize) -> (res:
    Option<(Vec<VertexIndex>, Distance)>)
    requires
        nbrs@.len() == h@.len(),
        (start as int) < nbrs@.len(),
        (goal as int) < nbrs@.len(),
        nbrs@.len() <= 0x1_0000_0000,
        forall|u: int, t: int| 0 <= u < nbrs@.len() && 0 <= t < nbrs@[u]@.len()
            ==> ((#[trigger] nbrs@[u]@[t]).0 as int) < nbrs@.len()
                && nbrs@[u]@[t].1 <= 0x40_0000,
        forall|u: int| 0 <= u < h@.len() ==> (#[trigger] h@[u]) <= 0x40_0000,
    ensures
        res is Some <==> reachable(deep_rows(nbrs@), start as int, goal as int),
        res matches Some(pc) ==> pc.0@.len() >= 1 && pc.0@[0] == start && pc.0@.last() == goal
            && (exists|c2: int| 0 <= c2 <= pc.1 && path_ok(deep_rows(nbrs@), pc.0@, c2)),
        (admissible(deep_rows(nbrs@), h@, goal as int) && res is Some) ==> (res matches Some(pc)
            ==> path_ok(deep_rows(nbrs@), pc.0@, pc.1 as int)
                && is_min_cost(deep_rows(nbrs@), start as int, goal as int, pc.1 as int)),
{
    pathfinding::directed::astar::astar(
        &start,
        |v: &usize| nbrs[*v].clone(),
        |v: &usize| h[*v],
        |v: &usize| *v == goal,
    )
}

/// The heuristic table towards `goal`: the rounded Euclidean distance from
/// each vertex to the goal vertex.
pub open spec fn heuristic_table(d: DPrm, goal: int) -> Seq<Distance> {
    Seq::new(
        d.vertices@.len() as nat,
        |v: int| rounded_dist(dist2(d.vertices@[v].point, d.vertices@[goal].point)) as u64,
    )
}

impl DPrm {
    /// The rounded Euclidean distance between two vertices, the A*
    /// heuristic.
    pub fn heuristic(&self, start: &VertexIndex, end: &VertexIndex) -> (r: Distance)
        requires
            self.wf(),
            (*start as int) < self.vertices@.len(),
            (*end as int) < self.vertices@.len(),
        ensures
            r == rounded_dist(dist2(self.vertices@[*start as int].point,
                self.vertices@[*end as int].point)) as u64,
            r <= 0x40_0000,
    {
        proof {
            assert(self.vertices@[*start as int] == crate::roadmap::spec_vertex(self.cfg,
                *start as int));
            assert(self.vertices@[*end as int] == crate::roadmap::spec_vertex(self.cfg,
                *end as int));
            lemma_sample_point_bounds(self.cfg, *start as int);
            lemma_sample_point_bounds(self.cfg, *end as int);
        }
        let p = self.vertices[*start].point;
        let q = self.vertices[*end].point;
        proof {
            assert(p.dist_bounded());
            assert(q.dist_bounded());
        }
        let d2 = dist2_exec(&p, &q);
        proof {
            lemma_dist2_bound(p, q);
            lemma_rounded_dist_bound(d2 as int);
        }
        rounded_dist_exec(d2)
    }

    /// The heuristic values of every vertex towards `goal`.
    fn heuristic_table_exec(&self, goal: VertexIndex) -> (h: Vec<Distance>)
        requires
            self.wf(),
            (goal as int) < self.vertices@.len(),
        ensures
            h@ == heuristic_table(*self, goal as int),
            forall|u: int| 0 <= u < h@.len() ==> (#[trigger] h@[u]) <= 0x40_0000,
    {
        let n = self.vertices.len();
        let mut h: Vec<Distance> = Vec::new();
        let mut v: usize = 0;
        while v < n
            invariant
                self.wf(),
                (goal as int) < n,
                n == self.vertices@.len(),
                v <= n,
                h@.len() == v,
                forall|u: int| 0 <= u < v
                    ==> #[trigger] h@[u] == heuristic_table(*self, goal as int)[u]
                        && h@[u] <= 0x40_0000,
            decreases n - v,
        {
            let hv = self.heuristic(&v, &goal);
            h.push(hv);
            v = v + 1;
        }
        proof {
            assert(h@ =~= heuristic_table(*self, goal as int));
        }
        h
    }

    /// Runs A* from `start` to `end` over the adjacency cache.  Returns a
    /// path and its cost exactly when `end` is reachable over free edges;
    /// when the heuristic is admissible for this roadmap, the returned cost
    /// is the least cost of any free path.
    pub fn run_astar(&self, start: &VertexIndex, end: &VertexIndex) -> (res: Option<DPrmPath>)
        requires
            self.wf(),
            (*start as int) < self.vertices@.len(),
            (*end as int) < self.vertices@.len(),
        ensures
            res is Some <==> reachable(self.neighbors@, *start as int, *end as int),
            res matches Some(path) ==> path.vertices@.len() >= 1
                && path.vertices@[0] == self.vertices@[*start as int]
                && path.vertices@.last() == self.vertices@[*end as int]
                && (exists|ids: Seq<VertexIndex>, c2: int|
                    #[trigger] path_ok(self.neighbors@, ids, c2)
                    && 0 <= c2 <= path.length
                    && ids.len() == path.vertices@.len()
                    && ids[0] == *start && ids.last() == *end
                    && (forall|t: int| 0 <= t < ids.len()
                        ==> path.vertices@[t] == self.vertices@[#[trigger] ids[t] as int])),
            (admissible(self.neighbors@, heuristic_table(*self, *end as int), *end as int)
                && res is Some) ==> (res matches Some(path)
                ==> is_min_cost(self.neighbors@, *start as int, *end as int,
                    path.length as int)),
    {
        proof {
            lemma_table_entries_bounded(*self, self.bc_seq(), self.neighbors@);
        }
        match search_table(self, &self.neighbors, *start, *end) {
            Option::None => Option::None,
            Option::Some((vs, cost)) => Option::Some(DPrmPath { vertices: vs, length: cost }),
        }
    }
}

/// Every entry of a table that matches the edge list through `nbrs_ok`
/// names a vertex of the roadmap and carries a bounded weight.
proof fn lemma_table_entries_bounded(d: DPrm, bc: Seq<usize>, nb: Seq<Seq<NbrEntry>>)
    requires
        d.wf(),
        crate::dprm::nbrs_ok(d.edges@, bc, nb, d.cfg.num_vertices as int,
            d.edges@.len() as int),
    ensures
        forall|u: int, t: int| 0 <= u < nb.len() && 0 <= t < nb[u].len()
            ==> ((#[trigger] nb[u][t]).0 as int) < d.cfg.num_vertices
                && nb[u][t].1 <= 0x40_0000,
{
    d.lemma_wf_edges();
    let m = d.edges@.len() as int;
    assert forall|u: int, t: int| 0 <= u < nb.len() && 0 <= t < nb[u].len()
        implies ((#[trigger] nb[u][t]).0 as int) < d.cfg.num_vertices
            && nb[u][t].1 <= 0x40_0000 by {
        let x = nb[u][t];
        lemma_entry_count_index(nb[u], t);
        assert(entry_count(nb[u], x) >= 1);
        assert(free_entry_exists(d.edges@, bc, m, u, x));
        let k = choose|k: int| 0 <= k < m && bc[k] == 0 && edge_entry(d.edges@[k], u, x);
        assert(edge_wf(d.cfg, d.edges@[k]));
        lemma_dist2_bound(d.edges@[k].a, d.edges@[k].b);
        lemma_rounded_dist_bound(dist2(d.edges@[k].a, d.edges@[k].b));
    }
}

/// Runs the search over an arbitrary successor table of the roadmap and
/// maps the found vertex indices back to vertices.
fn search_table(d: &DPrm, table: &Neighbors, start: usize, goal: usize) -> (res: Option<(
    Vec<Vertex>,
    Distance,
)>)
    requires
        d.wf(),
        table@.len() == d.vertices@.len(),
        (start as int) < d.vertices@.len(),
        (goal as int) < d.vertices@.len(),
        forall|u: int, t: int| 0 <= u < table@.len() && 0 <= t < table@[u].len()
            ==> ((#[trigger] table@[u][t]).0 as int) < table@.len()
                && table@[u][t].1 <= 0x40_0000,
    ensures
        res is Some <==> reachable(table@, start as int, goal as int),
        res matches Some(pc) ==> pc.0@.len() >= 1
            && pc.0@[0] == d.vertices@[start as int]
            && pc.0@.last() == d.vertices@[goal as int]
            && (exists|ids: Seq<VertexIndex>, c2: int|
                #[trigger] path_ok(table@, ids, c2)
                && 0 <= c2 <= pc.1
                && ids.len() == pc.0@.len()
                && ids[0] == start && ids.last() == goal
                && (forall|t: int| 0 <= t < ids.len()
                    ==> pc.0@[t] == d.vertices@[#[trigger] ids[t] as int])),
        (admissible(table@, heuristic_table(*d, goal as int), goal as int) && res is Some)
            ==> (res matches Some(pc)
            ==> is_min_cost(table@, start as int, goal as int, pc.1 as int)),
{
    let h = d.heuristic_table_exec(goal);
    proof {
        assert(deep_rows(table.inner@) =~= table@);
        assert forall|u: int, t: int|
            0 <= u < table.inner@.len() && 0 <= t < table.inner@[u]@.len()
            implies ((#[trigger] table.inner@[u]@[t]).0 as int) < table.inner@.len()
                && table.inner@[u]@[t].1 <= 0x40_0000 by {
            assert(table.inner@[u]@ == table@[u]);
        }
    }
    let result = astar_search(&table.inner, &h, start, goal);
    match result {
        Option::None => Option::None,
        Option::Some((ids, cost)) => {
            proof {
                let c2 = choose|c2: int| 0 <= c2 <= cost && path_ok(table@, ids@, c2);
                lemma_path_ok_bounds(table@, ids@, c2);
            }
            let m = ids.len();
            let mut vs: Vec<Vertex> = Vec::new();
            let mut t: usize = 0;
            while t < m
                invariant
                    d.wf(),
                    table@.len() == d.vertices@.len(),
                    m == ids@.len(),
                    t <= m,
                    forall|j: int| 0 <= j < m
                        ==> ((#[trigger] ids@[j]) as int) < table@.len(),
                    vs@.len() == t,
                    forall|j: int| 0 <= j < t
                        ==> #[trigger] vs@[j] == d.vertices@[ids@[j] as int],
                decreases m - t,
            {
                let id = ids[t];
                proof {
                    assert((ids@[t as int] as int) < d.vertices@.len());
                }
                vs.push(d.vertices[id]);
                t = t + 1;
            }
            Option::Some((vs, cost))
        },
    }
}

/// A blocking table that marks every edge free.
pub open spec fn zero_bc(n: nat) -> Seq<usize> {
    Seq::new(n, |i: int| 0usize)
}

/// `nb` is the adjacency table of the full candidate edge set, obstacles
/// ignored.
pub open spec fn candidate_adjacency(d: DPrm, nb: Seq<Seq<NbrEntry>>) -> bool {
    crate::dprm::nbrs_ok(
        d.edges@,
        zero_bc(d.edges@.len()),
        nb,
        d.cfg.num_vertices as int,
        d.edges@.len() as int,
    )
}

/// The successor entries that a scan of edges `[from, to)` yields for
/// vertex `s`, in scan order.
pub open spec fn scan_succ(edges: Seq<Edge>, s: VertexIndex, from: int, to: int) -> Seq<NbrEntry>
    decreases to - from,
{
    if from >= to {
        Seq::empty()
    } else {
        let rest = scan_succ(edges, s, from + 1, to);
        if edges[from].points.0 == s {
            seq![(edges[from].points.1, edges[from].length)] + rest
        } else if edges[from].points.1 == s {
            seq![(edges[from].points.0, edges[from].length)] + rest
        } else {
            rest
        }
    }
}

/// Builds the adjacency table of the full candidate edge set.
fn full_table(d: &DPrm) -> (nb: Neighbors)
    requires
        d.wf(),
    ensures
        nb@.len() == d.cfg.num_vertices,
        candidate_adjacency(*d, nb@),
{
    proof {
        d.lemma_wf_edges();
    }
    let ghost zbc = zero_bc(d.edges@.len());
    let n_edges = d.edges.len();
    let mut nb = Neighbors::with_vertices(d.cfg.num_vertices);
    proof {
        assert forall|u: int, x: NbrEntry| 0 <= u < d.cfg.num_vertices
            implies #[trigger] entry_count(nb@[u], x)
                == (if crate::dprm::free_entry_exists(d.edges@, zbc, 0, u, x) {
                    1nat
                } else {
                    0nat
                }) by {
            assert(nb@[u] =~= Seq::<NbrEntry>::empty());
            assert(entry_count(nb@[u], x) == 0);
            assert(!crate::dprm::free_entry_exists(d.edges@, zbc, 0, u, x));
        }
    }
    let mut m: usize = 0;
    while m < n_edges
        invariant
            d.wf(),
            zbc == zero_bc(d.edges@.len()),
            crate::dprm::edges_ok(d.edges@, d.cfg.num_vertices as int),
            forall|k: int| 0 <= k < d.edges@.len() ==> edge_wf(d.cfg, #[trigger] d.edges@[k]),
            n_edges == d.edges@.len(),
            m <= n_edges,
            nb@.len() == d.cfg.num_vertices,
            crate::dprm::nbrs_ok(d.edges@, zbc, nb@, d.cfg.num_vertices as int, m as int),
        decreases n_edges - m,
    {
        proof {
            crate::dprm::lemma_nbrs_seed_step(d.edges@, zbc, nb@, d.cfg.num_vertices as int,
                m as int);
        }
        let ghost prev_nb = nb@;
        let edge = &d.edges[m];
        proof {
            assert(edge_wf(d.cfg, d.edges@[m as int]));
        }
        nb.add(edge);
        proof {
            assert(nb@ == crate::dprm::nb_after_add(prev_nb, d.edges@[m as int]));
        }
        m = m + 1;
    }
    nb
}


/// The table after unrecording the listed edges, in order.
pub open spec fn after_removes(
    edges: Seq<Edge>,
    nb: Seq<Seq<NbrEntry>>,
    ids: Seq<EdgeIndex>,
) -> Seq<Seq<NbrEntry>>
    decreases ids.len(),
{
    if ids.len() == 0 {
        nb
    } else {
        crate::dprm::nb_after_remove(after_removes(edges, nb, ids.drop_last()),
            edges[ids.last() as int])
    }
}

/// The table after recording the listed edges, in order.
pub open spec fn after_adds(
    edges: Seq<Edge>,
    nb: Seq<Seq<NbrEntry>>,
    ids: Seq<EdgeIndex>,
) -> Seq<Seq<NbrEntry>>
    decreases ids.len(),
{
    if ids.len() == 0 {
        nb
    } else {
        crate::dprm::nb_after_add(after_adds(edges, nb, ids.drop_last()),
            edges[ids.last() as int])
    }
}

/// A found plan: the visited vertices and the total integer cost.
pub type AstarPath = (Vec<Vertex>, Distance);

/// A planner over the full candidate edge set, obstacles ignored: either a
/// per-query scan of all edges, or a prebuilt successor table.
#[derive(Clone, Debug)]
pub struct Astar {
    /// The underlying roadmap engine.
    pub prm: DPrm,
    /// Use the prebuilt table instead of the per-query scan.
    pub optimized: bool,
    /// The prebuilt successor table over all candidate edges.
    pub neighbours: Neighbors,
}

impl Astar {
    /// The planner's table matches the full candidate edge set.
    pub open spec fn table_ok(self) -> bool {
        self.neighbours@.len() == self.prm.cfg.num_vertices
            && candidate_adjacency(self.prm, self.neighbours@)
    }

    /// Wraps an engine; the successor table starts empty.
    pub fn new(prm: DPrm) -> (a: Astar)
        ensures
            a.prm == prm,
            !a.optimized,
            a.neighbours@.len() == 0,
    {
        Astar { prm, optimized: false, neighbours: Neighbors::new() }
    }

    /// Builds the successor table over all candidate edges, to speed the
    /// search up.
    pub fn init_neighbours(&mut self)
        requires
            old(self).prm.wf(),
        ensures
            final(self).prm == old(self).prm,
            final(self).optimized == old(self).optimized,
            final(self).table_ok(),
    {
        self.neighbours = full_table(&self.prm);
    }

    /// The rounded Euclidean distance between two vertices.
    pub fn heuristic(&self, start: VertexIndex, end: VertexIndex) -> (r: Distance)
        requires
            self.prm.wf(),
            (start as int) < self.prm.vertices@.len(),
            (end as int) < self.prm.vertices@.len(),
        ensures
            r == rounded_dist(dist2(self.prm.vertices@[start as int].point,
                self.prm.vertices@[end as int].point)) as u64,
    {
        self.prm.heuristic(&start, &end)
    }

    /// The successors of `start` found by scanning every candidate edge.
    pub fn basic_successors(&self, start: &VertexIndex) -> (succ: Vec<NbrEntry>)
        requires
            self.prm.wf(),
        ensures
            succ@ == scan_succ(self.prm.edges@, *start, 0, self.prm.edges@.len() as int),
    {
        let n = self.prm.edges.len();
        let mut succ: Vec<NbrEntry> = Vec::new();
        let mut i: usize = 0;
        proof {
            assert(succ@ + scan_succ(self.prm.edges@, *start, 0, n as int)
                =~= scan_succ(self.prm.edges@, *start, 0, n as int));
        }
        while i < n
            invariant
                self.prm.wf(),
                n == self.prm.edges@.len(),
                i <= n,
                succ@ + scan_succ(self.prm.edges@, *start, i as int, n as int)
                    == scan_succ(self.prm.edges@, *start, 0, n as int),
            decreases n - i,
        {
            let e = &self.prm.edges[i];
            if e.points.0 == *start {
                proof {
                    assert(scan_succ(self.prm.edges@, *start, i as int, n as int)
                        =~= seq![(e.points.1, e.length)]
                            + scan_succ(self.prm.edges@, *start, i as int + 1, n as int));
                    assert(succ@.push((e.points.1, e.length))
                            + scan_succ(self.prm.edges@, *start, i as int + 1, n as int)
                        =~= succ@ + scan_succ(self.prm.edges@, *start, i as int, n as int));
                }
                succ.push((e.points.1, e.length));
            } else if e.points.1 == *start {
                proof {
                    assert(scan_succ(self.prm.edges@, *start, i as int, n as int)
                        =~= seq![(e.points.0, e.length)]
                            + scan_succ(self.prm.edges@, *start, i as int + 1, n as int));
                    assert(succ@.push((e.points.0, e.length))
                            + scan_succ(self.prm.edges@, *start, i as int + 1, n as int)
                        =~= succ@ + scan_succ(self.prm.edges@, *start, i as int, n as int));
                }
                succ.push((e.points.0, e.length));
            } else {
                proof {
                    assert(scan_succ(self.prm.edges@, *start, i as int, n as int)
                        == scan_succ(self.prm.edges@, *start, i as int + 1, n as int));
                }
            }
            i = i + 1;
        }
        proof {
            assert(scan_succ(self.prm.edges@, *start, n as int, n as int)
                =~= Seq::<NbrEntry>::empty());
            assert(succ@ + Seq::<NbrEntry>::empty() =~= succ@);
        }
        succ
    }

    /// Plans over the prebuilt table of all candidate edges.
    pub fn run_optimized_astar(&self, start: Vertex, end: Vertex) -> (res: Option<AstarPath>)
        requires
            self.prm.wf(),
            self.table_ok(),
            (start.index as int) < self.prm.vertices@.len(),
            (end.index as int) < self.prm.vertices@.len(),
        ensures
            res is Some <==> reachable(self.neighbours@, start.index as int, end.index as int),
            res matches Some(pc) ==> pc.0@.len() >= 1
                && pc.0@[0] == self.prm.vertices@[start.index as int]
                && pc.0@.last() == self.prm.vertices@[end.index as int]
                && (exists|ids: Seq<VertexIndex>, c2: int|
                    #[trigger] path_ok(self.neighbours@, ids, c2)
                    && 0 <= c2 <= pc.1
                    && ids.len() == pc.0@.len()
                    && ids[0] == start.index && ids.last() == end.index
                    && (forall|t: int| 0 <= t < ids.len()
                        ==> pc.0@[t] == self.prm.vertices@[#[trigger] ids[t] as int])),
            (admissible(self.neighbours@, heuristic_table(self.prm, end.index as int),
                end.index as int) && res is Some) ==> (res matches Some(pc)
                ==> is_min_cost(self.neighbours@, start.index as int, end.index as int,
                    pc.1 as int)),
    {
        proof {
            lemma_table_entries_bounded(self.prm, zero_bc(self.prm.edges@.len()),
                self.neighbours@);
        }
        search_table(&self.prm, &self.neighbours, start.index, end.index)
    }

    /// Plans by scanning the full candidate edge set.
    pub fn run_basic_astar(&self, start: VertexIndex, end: VertexIndex) -> (res: Option<
        AstarPath,
    >)
        requires
            self.prm.wf(),
            (start as int) < self.prm.vertices@.len(),
            (end as int) < self.prm.vertices@.len(),
        ensures
            exists|g: Seq<Seq<NbrEntry>>|
                #[trigger] candidate_adjacency(self.prm, g)
                && (res is Some <==> reachable(g, start as int, end as int))
                && (res matches Some(pc) ==> pc.0@.len() >= 1
                    && pc.0@[0] == self.prm.vertices@[start as int]
                    && pc.0@.last() == self.prm.vertices@[end as int]
                    && (exists|ids: Seq<VertexIndex>, c2: int|
                        #[trigger] path_ok(g, ids, c2)
                        && 0 <= c2 <= pc.1
                        && ids.len() == pc.0@.len()
                        && ids[0] == start && ids.last() == end
                        && (forall|t: int| 0 <= t < ids.len()
                            ==> pc.0@[t] == self.prm.vertices@[#[trigger] ids[t] as int]))),
    {
        let table = full_table(&self.prm);
        proof {
            lemma_table_entries_bounded(self.prm, zero_bc(self.prm.edges@.len()), table@);
        }
        let res = search_table(&self.prm, &table, start, end);
        proof {
            let g = table@;
            assert(candidate_adjacency(self.prm, g)
                && (res is Some <==> reachable(g, start as int, end as int))
                && (res matches Some(pc) ==> pc.0@.len() >= 1
                    && pc.0@[0] == self.prm.vertices@[start as int]
                    && pc.0@.last() == self.prm.vertices@[end as int]
                    && (exists|ids: Seq<VertexIndex>, c2: int|
                        path_ok(g, ids, c2)
                        && 0 <= c2 <= pc.1
                        && ids.len() == pc.0@.len()
                        && ids[0] == start && ids.last() == end
                        && (forall|t: int| 0 <= t < ids.len()
                            ==> pc.0@[t] == self.prm.vertices@[ids[t] as int]))));
        }
        res
    }

    /// Plans between two vertices, over the prebuilt table when enabled.
    pub fn run_astar(&self, start: Vertex, end: Vertex) -> (res: Option<AstarPath>)
        requires
            self.prm.wf(),
            self.optimized ==> self.table_ok(),
            (start.index as int) < self.prm.vertices@.len(),
            (end.index as int) < self.prm.vertices@.len(),
        ensures
            self.optimized ==> (res is Some
                <==> reachable(self.neighbours@, start.index as int, end.index as int)),
            !self.optimized ==> (exists|g: Seq<Seq<NbrEntry>>|
                #[trigger] candidate_adjacency(self.prm, g)
                && (res is Some <==> reachable(g, start.index as int, end.index as int))),
    {
        if self.optimized {
            self.run_optimized_astar(start, end)
        } else {
            self.run_basic_astar(start.index, end.index)
        }
    }

    /// Unrecords the given edges from the prebuilt table.
    pub fn remove_edges(&mut self, edges: Vec<EdgeIndex>)
        requires
            old(self).prm.wf(),
            old(self).neighbours@.len() == old(self).prm.cfg.num_vertices,
            forall|t: int| 0 <= t < edges@.len()
                ==> (#[trigger] edges@[t]) < old(self).prm.edges@.len(),
        ensures
            final(self).prm == old(self).prm,
            final(self).optimized == old(self).optimized,
            final(self).neighbours@.len() == old(self).neighbours@.len(),
            old(self).optimized ==> final(self).neighbours@
                == after_removes(old(self).prm.edges@, old(self).neighbours@, edges@),
            !old(self).optimized ==> final(self).neighbours@ == old(self).neighbours@,
    {
        proof {
            self.prm.lemma_wf_edges();
        }
        if self.optimized {
            let n = edges.len();
            let mut t: usize = 0;
            while t < n
                invariant
                    self.prm == old(self).prm,
                    self.optimized == old(self).optimized,
                    self.prm.wf(),
                    self.neighbours@.len() == old(self).neighbours@.len(),
                    self.neighbours@.len() == self.prm.cfg.num_vertices,
                    n == edges@.len(),
                    t <= n,
                    self.neighbours@ == after_removes(self.prm.edges@, old(self).neighbours@,
                        edges@.subrange(0, t as int)),
                    forall|t2: int| 0 <= t2 < edges@.len()
                        ==> (#[trigger] edges@[t2]) < self.prm.edges@.len(),
                    forall|k: int| 0 <= k < self.prm.edges@.len()
                        ==> edge_wf(self.prm.cfg, #[trigger] self.prm.edges@[k]),
                decreases n - t,
            {
                let e = edges[t];
                let edge = self.prm.edges[e];
                proof {
                    assert(edge_wf(self.prm.cfg, self.prm.edges@[e as int]));
                    assert(edges@.subrange(0, t as int + 1).drop_last()
                        =~= edges@.subrange(0, t as int));
                    assert(edges@.subrange(0, t as int + 1).last() == e);
                }
                self.neighbours.remove(&edge);
                proof {
                    assert(self.neighbours@ == after_removes(self.prm.edges@,
                        old(self).neighbours@, edges@.subrange(0, t as int + 1)));
                }
                t = t + 1;
            }
            proof {
                assert(edges@.subrange(0, n as int) =~= edges@);
            }
        }
    }

    /// Records the given edges in the prebuilt table.
    pub fn insert_edges(&mut self, edges: Vec<EdgeIndex>)
        requires
            old(self).prm.wf(),
            old(self).neighbours@.len() == old(self).prm.cfg.num_vertices,
            forall|t: int| 0 <= t < edges@.len()
                ==> (#[trigger] edges@[t]) < old(self).prm.edges@.len(),
        ensures
            final(self).prm == old(self).prm,
            final(self).optimized == old(self).optimized,
            final(self).neighbours@.len() == old(self).neighbours@.len(),
            old(self).optimized ==> final(self).neighbours@
                == after_adds(old(self).prm.edges@, old(self).neighbours@, edges@),
            !old(self).optimized ==> final(self).neighbours@ == old(self).neighbours@,
    {
        proof {
            self.prm.lemma_wf_edges();
        }
        if self.optimized {
            let n = edges.len();
            let mut t: usize = 0;
            while t < n
                invariant
                    self.prm == old(self).prm,
                    self.optimized == old(self).optimized,
                    self.prm.wf(),
                    self.neighbours@.len() == old(self).neighbours@.len(),
                    self.neighbours@.len() == self.prm.cfg.num_vertices,
                    n == edges@.len(),
                    t <= n,
                    self.neighbours@ == after_adds(self.prm.edges@, old(self).neighbours@,
                        edges@.subrange(0, t as int)),
                    forall|t2: int| 0 <= t2 < edges@.len()
                        ==> (#[trigger] edges@[t2]) < self.prm.edges@.len(),
                    forall|k: int| 0 <= k < self.prm.edges@.len()
                        ==> edge_wf(self.prm.cfg, #[trigger] self.prm.edges@[k]),
                decreases n - t,
            {
                let e = edges[t];
                let edge = self.prm.edges[e];
                proof {
                    assert(edge_wf(self.prm.cfg, self.prm.edges@[e as int]));
                    assert(edges@.subrange(0, t as int + 1).drop_last()
                        =~= edges@.subrange(0, t as int));
                    assert(edges@.subrange(0, t as int + 1).last() == e);
                }
                self.neighbours.add(&edge);
                proof {
                    assert(self.neighbours@ == after_adds(self.prm.edges@,
                        old(self).neighbours@, edges@.subrange(0, t as int + 1)));
                }
                t = t + 1;
            }
            proof {
                assert(edges@.subrange(0, n as int) =~= edges@);
            }
        }
    }
}

} // verus!
