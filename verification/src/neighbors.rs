//! The adjacency cache: a vertex-indexed table of `(neighbour, distance)`
//! entries covering the currently free edges.
//!
//! Entry lists reflect the historical order of edge insertions and
//! removals; only their contents are specified.

use vstd::prelude::*;
use vstd::pervasive::VecAdditionalExecFns;
use vstd::multiset::Multiset;
use crate::roadmap::Distance;
use crate::roadmap::Edge;
use crate::roadmap::VertexIndex;

verus! {

/// One adjacency entry: the neighbour's vertex index and the edge's rounded
/// length.
pub type NbrEntry = (VertexIndex, Distance);

/// The entries of `s` whose neighbour index is not `v`.
pub open spec fn filter_out(s: Seq<NbrEntry>, v: VertexIndex) -> Seq<NbrEntry>
    decreases s.len(),
{
    if s.len() == 0 {
        Seq::empty()
    } else {
        let rest = filter_out(s.drop_last(), v);
        if s.last().0 == v {
            rest
        } else {
            rest.push(s.last())
        }
    }
}

/// How often `x` occurs in `s`.
pub open spec fn entry_count(s: Seq<NbrEntry>, x: NbrEntry) -> nat
    decreases s.len(),
{
    if s.len() == 0 {
        0
    } else {
        entry_count(s.drop_last(), x) + (if s.last() == x {
            1nat
        } else {
            0nat
        })
    }
}

/// Appending one entry raises exactly its own count by one.
pub proof fn lemma_entry_count_push(s: Seq<NbrEntry>, x: NbrEntry, y: NbrEntry)
    ensures
        entry_count(s.push(x), y) == entry_count(s, y) + (if x == y {
            1nat
        } else {
            0nat
        }),
{
    assert(s.push(x).drop_last() =~= s);
    assert(s.push(x).last() == x);
}

/// Filtering a neighbour out zeroes the counts of its entries and keeps
/// every other count.
pub proof fn lemma_filter_out_count(s: Seq<NbrEntry>, v: VertexIndex, x: NbrEntry)
    ensures
        entry_count(filter_out(s, v), x) == (if x.0 == v {
            0nat
        } else {
            entry_count(s, x)
        }),
    decreases s.len(),
{
    if s.len() == 0 {
    } else {
        lemma_filter_out_count(s.drop_last(), v, x);
        if s.last().0 != v {
            lemma_entry_count_push(filter_out(s.drop_last(), v), s.last(), x);
        }
    }
}

/// A present entry has a positive count.
pub proof fn lemma_entry_count_index(s: Seq<NbrEntry>, t: int)
    requires
        0 <= t < s.len(),
    ensures
        entry_count(s, s[t]) >= 1,
    decreases s.len(),
{
    if t == s.len() - 1 {
        assert(s.last() == s[t]);
    } else {
        lemma_entry_count_index(s.drop_last(), t);
    }
}

/// The adjacency cache.
#[derive(Clone, Debug)]
pub struct Neighbors {
    /// Entry lists, indexed by vertex.
    pub inner: Vec<Vec<NbrEntry>>,
}

impl View for Neighbors {
    type V = Seq<Seq<NbrEntry>>;

    open spec fn view(&self) -> Seq<Seq<NbrEntry>> {
        self.inner@.map_values(|row: Vec<NbrEntry>| row@)
    }
}

impl Neighbors {
    /// An empty cache with no vertices.
    pub fn new() -> (nb: Neighbors)
        ensures
            nb@.len() == 0,
    {
        Neighbors { inner: Vec::new() }
    }

    /// An empty cache covering `n` vertices.
    pub fn with_vertices(n: usize) -> (nb: Neighbors)
        ensures
            nb@.len() == n,
            forall|u: int| 0 <= u < n ==> #[trigger] nb@[u] == Seq::<NbrEntry>::empty(),
    {
        let mut inner: Vec<Vec<NbrEntry>> = Vec::new();
        let mut k: usize = 0;
        while k < n
            invariant
                k <= n,
                inner@.len() == k,
                forall|u: int| 0 <= u < k ==> (#[trigger] inner@[u])@ == Seq::<NbrEntry>::empty(),
            decreases n - k,
        {
            inner.push(Vec::new());
            k = k + 1;
        }
        Neighbors { inner }
    }

    /// The entries of vertex `v`; a vertex outside the table has none.
    pub fn get(&self, v: VertexIndex) -> (r: Vec<NbrEntry>)
        ensures
            (v as int) < self@.len() ==> r@ == self@[v as int],
            (v as int) >= self@.len() ==> r@ == Seq::<NbrEntry>::empty(),
    {
        if v < self.inner.len() {
            let src = &self.inner[v];
            let n = src.len();
            let mut out: Vec<NbrEntry> = Vec::new();
            let mut t: usize = 0;
            while t < n
                invariant
                    n == src@.len(),
                    t <= n,
                    src@ == self@[v as int],
                    out@ == src@.subrange(0, t as int),
                decreases n - t,
            {
                out.push(src[t]);
                t = t + 1;
            }
            proof {
                assert(src@.subrange(0, n as int) =~= src@);
            }
            out
        } else {
            Vec::new()
        }
    }

    /// Records the free edge `e`: appends one entry at each endpoint.
    pub fn add(&mut self, e: &Edge)
        requires
            (e.points.0 as int) < old(self)@.len(),
            (e.points.1 as int) < old(self)@.len(),
            e.points.0 != e.points.1,
        ensures
            final(self)@ == old(self)@
                .update(e.points.0 as int, old(self)@[e.points.0 as int].push((e.points.1, e.length)))
                .update(e.points.1 as int, old(self)@[e.points.1 as int].push((e.points.0, e.length))),
    {
        let u = e.points.0;
        let v = e.points.1;
        let mut row: Vec<NbrEntry> = Vec::new();
        self.inner.set_and_swap(u, &mut row);
        row.push((v, e.length));
        self.inner.set_and_swap(u, &mut row);
        let mut row2: Vec<NbrEntry> = Vec::new();
        self.inner.set_and_swap(v, &mut row2);
        row2.push((u, e.length));
        self.inner.set_and_swap(v, &mut row2);
        proof {
            assert(self@ =~~= old(self)@
                .update(e.points.0 as int, old(self)@[e.points.0 as int].push((e.points.1, e.length)))
                .update(e.points.1 as int, old(self)@[e.points.1 as int].push((e.points.0, e.length))));
        }
    }

    /// Unrecords the edge `e`: drops every entry naming the opposite
    /// endpoint, at both endpoints.
    pub fn remove(&mut self, e: &Edge)
        requires
            (e.points.0 as int) < old(self)@.len(),
            (e.points.1 as int) < old(self)@.len(),
            e.points.0 != e.points.1,
        ensures
            final(self)@ == old(self)@
                .update(e.points.0 as int, filter_out(old(self)@[e.points.0 as int], e.points.1))
                .update(e.points.1 as int, filter_out(old(self)@[e.points.1 as int], e.points.0)),
    {
        let u = e.points.0;
        let v = e.points.1;
        let row_u = self.remove_row(u, v);
        self.inner.set(u, row_u);
        let row_v = self.remove_row(v, u);
        self.inner.set(v, row_v);
        proof {
            assert(self@ =~~= old(self)@
                .update(e.points.0 as int, filter_out(old(self)@[e.points.0 as int], e.points.1))
                .update(e.points.1 as int, filter_out(old(self)@[e.points.1 as int], e.points.0)));
        }
    }

    /// Builds the entry list of `u` without the entries naming `v`.
    fn remove_row(&self, u: VertexIndex, v: VertexIndex) -> (row: Vec<NbrEntry>)
        requires
            (u as int) < self@.len(),
        ensures
            row@ == filter_out(self@[u as int], v),
    {
        let src = &self.inner[u];
        let n = src.len();
        let mut row: Vec<NbrEntry> = Vec::new();
        let mut t: usize = 0;
        while t < n
            invariant
                n == src@.len(),
                t <= n,
                src@ == self@[u as int],
                row@ == filter_out(src@.subrange(0, t as int), v),
            decreases n - t,
        {
            let x = src[t];
            proof {
                assert(src@.subrange(0, t as int + 1).drop_last()
                    =~= src@.subrange(0, t as int));
                assert(src@.subrange(0, t as int + 1).last() == x);
            }
            if x.0 != v {
                row.push(x);
            }
            t = t + 1;
        }
        proof {
            assert(src@.subrange(0, n as int) =~= src@);
        }
        row
    }
}

/// The occurrence count agrees with the multiset count.
pub proof fn lemma_entry_count_multiset(s: Seq<NbrEntry>, x: NbrEntry)
    ensures
        entry_count(s, x) == s.to_multiset().count(x),
    decreases s.len(),
{
    broadcast use vstd::seq_lib::group_to_multiset_ensures;

    if s.len() == 0 {
        assert(s.to_multiset() =~= Multiset::<NbrEntry>::empty());
    } else {
        lemma_entry_count_multiset(s.drop_last(), x);
        assert(s =~= s.drop_last().push(s.last()));
        assert(s.drop_last().push(s.last()).to_multiset()
            =~= s.drop_last().to_multiset().insert(s.last()));
    }
}

/// Two lists with equal occurrence counts for every entry have equal
/// length.
pub proof fn lemma_equal_counts_equal_len(s1: Seq<NbrEntry>, s2: Seq<NbrEntry>)
    requires
        forall|x: NbrEntry| #[trigger] entry_count(s1, x) == entry_count(s2, x),
    ensures
        s1.len() == s2.len(),
{
    broadcast use vstd::seq_lib::group_to_multiset_ensures;

    assert forall|x: NbrEntry| s1.to_multiset().count(x) == s2.to_multiset().count(x) by {
        lemma_entry_count_multiset(s1, x);
        lemma_entry_count_multiset(s2, x);
    }
    assert(s1.to_multiset() =~= s2.to_multiset());
    assert(s1.len() == s1.to_multiset().len());
    assert(s2.len() == s2.to_multiset().len());
}

} // verus!
