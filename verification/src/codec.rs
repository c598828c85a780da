//! Binary persistence: the engine as a single blob holding, in order, the
//! configuration, the vertices, the candidate edges, the obstacles, the
//! per-obstacle blocked lists, the per-edge blocking counts, and the
//! adjacency table.  All integers are little-endian.
//!
//! Reloading parses the configuration, the vertices, the edges, and the
//! obstacles, checks the derived sections against a rebuilt engine, and
//! returns the rebuilt engine, so a loaded engine is well formed by
//! construction.

use vstd::prelude::*;
use crate::config::PrmConfig;
use crate::config::MAX_EXTENT;
use crate::config::MAX_THREADS;
use crate::config::MAX_VERTICES;
use crate::dprm::DPrm;
use crate::dprm::PrmError;
use crate::neighbors::NbrEntry;
use crate::neighbors::entry_count;
use crate::neighbors::lemma_equal_counts_equal_len;
use crate::obstacles::Obstacle;
use crate::obstacles::ObstacleId;
use crate::obstacles::ObstacleSet;
use crate::roadmap::Edge;
use crate::roadmap::EdgeIndex;
use crate::roadmap::Vertex;

verus! {

/// The little-endian bytes of a 64-bit word.
pub open spec fn enc_u64(v: u64) -> Seq<u8> {
    seq![
        (v & 0xff) as u8,
        ((v >> 8) & 0xff) as u8,
        ((v >> 16) & 0xff) as u8,
        ((v >> 24) & 0xff) as u8,
        ((v >> 32) & 0xff) as u8,
        ((v >> 40) & 0xff) as u8,
        ((v >> 48) & 0xff) as u8,
        ((v >> 56) & 0xff) as u8,
    ]
}

/// The little-endian bytes of a signed 64-bit coordinate.
pub open spec fn enc_i64(v: i64) -> Seq<u8> {
    enc_u64(v as u64)
}

/// The little-endian bytes of a 128-bit identifier: low word first.
pub open spec fn enc_u128(v: u128) -> Seq<u8> {
    enc_u64((v & 0xffff_ffff_ffff_ffff) as u64) + enc_u64((v >> 64) as u64)
}

/// One vertex record: `{id, x, y}`.
pub open spec fn enc_vertex(v: Vertex) -> Seq<u8> {
    enc_u64(v.index as u64) + enc_i64(v.point.x) + enc_i64(v.point.y)
}

/// One edge record: `{id, u, v, length}`.
pub open spec fn enc_edge(id: int, e: Edge) -> Seq<u8> {
    enc_u64(id as u64) + enc_u64(e.points.0 as u64) + enc_u64(e.points.1 as u64)
        + enc_u64(e.length)
}

/// One obstacle record: `{id, x_min, y_min, x_max, y_max}`.
pub open spec fn enc_obstacle(o: Obstacle) -> Seq<u8> {
    enc_u128(o.id_spec()) + enc_i64(o.rect.x_min) + enc_i64(o.rect.y_min)
        + enc_i64(o.rect.x_max) + enc_i64(o.rect.y_max)
}

/// A list of 64-bit words, without a count.
pub open spec fn enc_u64_list(s: Seq<u64>) -> Seq<u8>
    decreases s.len(),
{
    if s.len() == 0 {
        Seq::empty()
    } else {
        enc_u64_list(s.drop_last()) + enc_u64(s.last())
    }
}

/// The edge-identifier list of one obstacle, as 64-bit words.
pub open spec fn ids_as_u64(ids: Seq<EdgeIndex>) -> Seq<u64> {
    ids.map_values(|e: EdgeIndex| e as u64)
}

/// One blocked-list record: `{oid, edge_id_count, edge_ids[]}`.
pub open spec fn enc_bpo_entry(p: (ObstacleId, Seq<EdgeIndex>)) -> Seq<u8> {
    enc_u128(p.0) + enc_u64(p.1.len() as u64) + enc_u64_list(ids_as_u64(p.1))
}

/// The configuration header.
pub open spec fn enc_cfg(cfg: PrmConfig) -> Seq<u8> {
    enc_u64(cfg.num_vertices as u64) + enc_u64(cfg.width as u64) + enc_u64(cfg.height as u64)
        + cfg.seed@ + enc_u64(cfg.threads as u64)
}


/// The 64-bit word held by eight little-endian bytes.
pub open spec fn dec_u64(b: Seq<u8>) -> u64 {
    (b[0] as u64) | ((b[1] as u64) << 8) | ((b[2] as u64) << 16) | ((b[3] as u64) << 24)
        | ((b[4] as u64) << 32) | ((b[5] as u64) << 40) | ((b[6] as u64) << 48)
        | ((b[7] as u64) << 56)
}

/// Decoding inverts encoding for 64-bit words.
pub proof fn lemma_dec_enc_u64(v: u64)
    ensures
        dec_u64(enc_u64(v)) == v,
{
    assert(((v & 0xff) as u8 as u64) | ((((v >> 8) & 0xff) as u8 as u64) << 8)
        | ((((v >> 16) & 0xff) as u8 as u64) << 16) | ((((v >> 24) & 0xff) as u8 as u64) << 24)
        | ((((v >> 32) & 0xff) as u8 as u64) << 32) | ((((v >> 40) & 0xff) as u8 as u64) << 40)
        | ((((v >> 48) & 0xff) as u8 as u64) << 48) | ((((v >> 56) & 0xff) as u8 as u64) << 56)
        == v) by (bit_vector);
}

/// Round trips through the unsigned image invert signed encoding.
pub proof fn lemma_dec_enc_i64(v: i64)
    ensures
        dec_u64(enc_i64(v)) as i64 == v,
{
    lemma_dec_enc_u64(v as u64);
    assert(v as u64 as i64 == v) by (bit_vector);
}

/// Recombining the two stored words inverts 128-bit encoding.
pub proof fn lemma_dec_enc_u128(v: u128)
    ensures
        ((dec_u64(enc_u128(v).subrange(8, 16)) as u128) << 64)
            | (dec_u64(enc_u128(v).subrange(0, 8)) as u128) == v,
{
    let lo = (v & 0xffff_ffff_ffff_ffff) as u64;
    let hi = (v >> 64) as u64;
    assert(enc_u128(v).subrange(0, 8) =~= enc_u64(lo));
    assert(enc_u128(v).subrange(8, 16) =~= enc_u64(hi));
    lemma_dec_enc_u64(lo);
    lemma_dec_enc_u64(hi);
    assert((((v >> 64) as u64 as u128) << 64) | ((v & 0xffff_ffff_ffff_ffff) as u64 as u128)
        == v) by (bit_vector);
}

/// Helpers that append one encoded value to the output buffer.
fn push_u64(out: &mut Vec<u8>, v: u64)
    ensures
        final(out)@ == old(out)@ + enc_u64(v),
{
    out.push((v & 0xff) as u8);
    out.push(((v >> 8) & 0xff) as u8);
    out.push(((v >> 16) & 0xff) as u8);
    out.push(((v >> 24) & 0xff) as u8);
    out.push(((v >> 32) & 0xff) as u8);
    out.push(((v >> 40) & 0xff) as u8);
    out.push(((v >> 48) & 0xff) as u8);
    out.push(((v >> 56) & 0xff) as u8);
    proof {
        assert(out@ =~= old(out)@ + enc_u64(v));
    }
}

fn push_i64(out: &mut Vec<u8>, v: i64)
    ensures
        final(out)@ == old(out)@ + enc_i64(v),
{
    push_u64(out, v as u64);
}

fn push_u128(out: &mut Vec<u8>, v: u128)
    ensures
        final(out)@ == old(out)@ + enc_u128(v),
{
    push_u64(out, (v & 0xffff_ffff_ffff_ffff) as u64);
    push_u64(out, (v >> 64) as u64);
    proof {
        assert(out@ =~= old(out)@ + enc_u128(v));
    }
}

/// Reads one little-endian 64-bit word, if the buffer is long enough.
fn read_u64(bytes: &Vec<u8>, pos: usize) -> (r: Option<(u64, usize)>)
    ensures
        r matches Some(p) ==> pos + 8 <= bytes@.len() && p.1 == pos + 8
            && p.0 == dec_u64(bytes@.subrange(pos as int, pos as int + 8)),
        r is None ==> pos + 8 > bytes@.len(),
{
    if pos > bytes.len() || bytes.len() - pos < 8 {
        return None;
    }
    let v = (bytes[pos] as u64)
        | ((bytes[pos + 1] as u64) << 8)
        | ((bytes[pos + 2] as u64) << 16)
        | ((bytes[pos + 3] as u64) << 24)
        | ((bytes[pos + 4] as u64) << 32)
        | ((bytes[pos + 5] as u64) << 40)
        | ((bytes[pos + 6] as u64) << 48)
        | ((bytes[pos + 7] as u64) << 56);
    proof {
        let b = bytes@.subrange(pos as int, pos as int + 8);
        assert(forall|t: int| 0 <= t < 8 ==> b[t] == bytes@[pos + t]);
        assert(v == dec_u64(b));
    }
    Some((v, pos + 8))
}

/// Reads one signed 64-bit coordinate.
fn read_i64(bytes: &Vec<u8>, pos: usize) -> (r: Option<(i64, usize)>)
    ensures
        r matches Some(p) ==> pos + 8 <= bytes@.len() && p.1 == pos + 8
            && p.0 == dec_u64(bytes@.subrange(pos as int, pos as int + 8)) as i64,
        r is None ==> pos + 8 > bytes@.len(),
{
    match read_u64(bytes, pos) {
        Some((v, p)) => Some((v as i64, p)),
        None => None,
    }
}

/// Reads one 128-bit identifier.
fn read_u128(bytes: &Vec<u8>, pos: usize) -> (r: Option<(u128, usize)>)
    ensures
        r matches Some(p) ==> pos + 16 <= bytes@.len() && p.1 == pos + 16
            && p.0 == ((dec_u64(bytes@.subrange(pos as int + 8, pos as int + 16)) as u128)
                << 64) | (dec_u64(bytes@.subrange(pos as int, pos as int + 8)) as u128),
        r is None ==> pos + 16 > bytes@.len(),
{
    match read_u64(bytes, pos) {
        Some((lo, p1)) => match read_u64(bytes, p1) {
            Some((hi, p2)) => Some((((hi as u128) << 64) | (lo as u128), p2)),
            None => None,
        },
        None => None,
    }
}

impl DPrm {
    /// Serializes everything before the adjacency section.
    #[verifier::rlimit(60)]
    fn encode_prefix(&self) -> (bytes: Vec<u8>)
        requires
            self.wf(),
        ensures
            bytes@ == enc_prefix(*self),
    {
        let mut out: Vec<u8> = Vec::new();
        push_u64(&mut out, self.cfg.num_vertices as u64);
        push_u64(&mut out, self.cfg.width as u64);
        push_u64(&mut out, self.cfg.height as u64);
        let mut si: usize = 0;
        while si < 32
            invariant
                si <= 32,
                out@ == enc_u64(self.cfg.num_vertices as u64) + enc_u64(self.cfg.width as u64)
                    + enc_u64(self.cfg.height as u64) + self.cfg.seed@.subrange(0, si as int),
            decreases 32 - si,
        {
            let b = self.cfg.seed[si];
            proof {
                assert(self.cfg.seed@.subrange(0, si as int + 1)
                    =~= self.cfg.seed@.subrange(0, si as int).push(b));
            }
            out.push(b);
            proof {
                assert(out@ =~= enc_u64(self.cfg.num_vertices as u64)
                    + enc_u64(self.cfg.width as u64) + enc_u64(self.cfg.height as u64)
                    + self.cfg.seed@.subrange(0, si as int + 1));
            }
            si = si + 1;
        }
        proof {
            assert(self.cfg.seed@.subrange(0, 32) =~= self.cfg.seed@);
        }
        push_u64(&mut out, self.cfg.threads as u64);
        proof {
            assert(out@ =~= enc_cfg(self.cfg));
        }
        let ghost base0 = out@;
        // vertices
        push_u64(&mut out, self.vertices.len() as u64);
        let nv = self.vertices.len();
        let mut i: usize = 0;
        proof {
            assert(out@ =~= base0 + enc_u64(self.vertices@.len() as u64)
                + enc_vertex_records(self.vertices@.subrange(0, 0)));
        }
        while i < nv
            invariant
                self.wf(),
                nv == self.vertices@.len(),
                i <= nv,
                out@ == base0 + enc_u64(self.vertices@.len() as u64)
                    + enc_vertex_records(self.vertices@.subrange(0, i as int)),
            decreases nv - i,
        {
            let v = self.vertices[i];
            push_u64(&mut out, v.index as u64);
            push_i64(&mut out, v.point.x);
            push_i64(&mut out, v.point.y);
            proof {
                assert(self.vertices@.subrange(0, i as int + 1).drop_last()
                    =~= self.vertices@.subrange(0, i as int));
                assert(self.vertices@.subrange(0, i as int + 1).last() == v);
                assert(out@ =~= base0 + enc_u64(self.vertices@.len() as u64)
                    + enc_vertex_records(self.vertices@.subrange(0, i as int + 1)));
            }
            i = i + 1;
        }
        proof {
            assert(self.vertices@.subrange(0, nv as int) =~= self.vertices@);
        }
        let ghost base1 = out@;
        // edges
        push_u64(&mut out, self.edges.len() as u64);
        let ne = self.edges.len();
        let mut j: usize = 0;
        proof {
            assert(out@ =~= base1 + enc_u64(self.edges@.len() as u64)
                + enc_edge_records(self.edges@.subrange(0, 0), 0));
        }
        while j < ne
            invariant
                self.wf(),
                ne == self.edges@.len(),
                j <= ne,
                out@ == base1 + enc_u64(self.edges@.len() as u64)
                    + enc_edge_records(self.edges@.subrange(0, j as int), 0),
            decreases ne - j,
        {
            let e = self.edges[j];
            push_u64(&mut out, j as u64);
            push_u64(&mut out, e.points.0 as u64);
            push_u64(&mut out, e.points.1 as u64);
            push_u64(&mut out, e.length);
            proof {
                assert(self.edges@.subrange(0, j as int + 1).drop_last()
                    =~= self.edges@.subrange(0, j as int));
                assert(self.edges@.subrange(0, j as int + 1).last() == e);
                assert(out@ =~= base1 + enc_u64(self.edges@.len() as u64)
                    + enc_edge_records(self.edges@.subrange(0, j as int + 1), 0));
            }
            j = j + 1;
        }
        proof {
            assert(self.edges@.subrange(0, ne as int) =~= self.edges@);
        }
        let ghost base2 = out@;
        // obstacles
        push_u64(&mut out, self.obstacles.obstacles.len() as u64);
        let no = self.obstacles.obstacles.len();
        let mut k: usize = 0;
        proof {
            assert(out@ =~= base2 + enc_u64(self.obs_seq().len() as u64)
                + enc_obstacle_records(self.obs_seq().subrange(0, 0)));
        }
        while k < no
            invariant
                self.wf(),
                no == self.obs_seq().len(),
                k <= no,
                out@ == base2 + enc_u64(self.obs_seq().len() as u64)
                    + enc_obstacle_records(self.obs_seq().subrange(0, k as int)),
            decreases no - k,
        {
            let o = self.obstacles.obstacles[k];
            push_u128(&mut out, o.id());
            push_i64(&mut out, o.rect.x_min);
            push_i64(&mut out, o.rect.y_min);
            push_i64(&mut out, o.rect.x_max);
            push_i64(&mut out, o.rect.y_max);
            proof {
                assert(self.obs_seq().subrange(0, k as int + 1).drop_last()
                    =~= self.obs_seq().subrange(0, k as int));
                assert(self.obs_seq().subrange(0, k as int + 1).last() == o);
                assert(out@ =~= base2 + enc_u64(self.obs_seq().len() as u64)
                    + enc_obstacle_records(self.obs_seq().subrange(0, k as int + 1)));
            }
            k = k + 1;
        }
        proof {
            assert(self.obs_seq().subrange(0, no as int) =~= self.obs_seq());
        }
        let ghost base3 = out@;
        // blocked lists
        push_u64(&mut out, self.blocked_per_obstacle.len() as u64);
        let nb = self.blocked_per_obstacle.len();
        let mut k2: usize = 0;
        proof {
            assert(out@ =~= base3 + enc_u64(self.bpo_view().len() as u64)
                + enc_bpo_records(self.bpo_view().subrange(0, 0)));
        }
        while k2 < nb
            invariant
                self.wf(),
                nb == self.bpo_view().len(),
                nb == self.blocked_per_obstacle@.len(),
                k2 <= nb,
                out@ == base3 + enc_u64(self.bpo_view().len() as u64)
                    + enc_bpo_records(self.bpo_view().subrange(0, k2 as int)),
            decreases nb - k2,
        {
            let oid = self.blocked_per_obstacle[k2].0;
            push_u128(&mut out, oid);
            let list_len = self.blocked_per_obstacle[k2].1.len();
            push_u64(&mut out, list_len as u64);
            let ghost rowbase = out@;
            let ghost ids = self.bpo_view()[k2 as int].1;
            let mut t: usize = 0;
            proof {
                assert(enc_u64_list(ids_as_u64(ids.subrange(0, 0))) =~= Seq::<u8>::empty());
                assert(out@ =~= rowbase + enc_u64_list(ids_as_u64(ids.subrange(0, 0))));
            }
            while t < list_len
                invariant
                    self.wf(),
                    k2 < nb,
                    nb == self.blocked_per_obstacle@.len(),
                    ids == self.bpo_view()[k2 as int].1,
                    list_len == ids.len(),
                    t <= list_len,
                    out@ == rowbase + enc_u64_list(ids_as_u64(ids.subrange(0, t as int))),
                decreases list_len - t,
            {
                let e = self.blocked_per_obstacle[k2].1[t];
                push_u64(&mut out, e as u64);
                proof {
                    assert(ids_as_u64(ids.subrange(0, t as int + 1)).drop_last()
                        =~= ids_as_u64(ids.subrange(0, t as int)));
                    assert(ids_as_u64(ids.subrange(0, t as int + 1)).last() == e as u64);
                    assert(out@ =~= rowbase
                        + enc_u64_list(ids_as_u64(ids.subrange(0, t as int + 1))));
                }
                t = t + 1;
            }
            proof {
                assert(ids.subrange(0, list_len as int) =~= ids);
                assert(self.bpo_view().subrange(0, k2 as int + 1).drop_last()
                    =~= self.bpo_view().subrange(0, k2 as int));
                assert(self.bpo_view().subrange(0, k2 as int + 1).last()
                    == self.bpo_view()[k2 as int]);
                assert(out@ =~= base3 + enc_u64(self.bpo_view().len() as u64)
                    + enc_bpo_records(self.bpo_view().subrange(0, k2 as int + 1)));
            }
            k2 = k2 + 1;
        }
        proof {
            assert(self.bpo_view().subrange(0, nb as int) =~= self.bpo_view());
        }
        let ghost base4 = out@;
        // blocking counts
        push_u64(&mut out, self.blockings_per_edge.len() as u64);
        let nc = self.blockings_per_edge.len();
        let mut c: usize = 0;
        proof {
            assert(out@ =~= base4 + enc_u64(self.bc_seq().len() as u64)
                + enc_bc_records(self.bc_seq().subrange(0, 0), 0));
        }
        while c < nc
            invariant
                self.wf(),
                nc == self.bc_seq().len(),
                c <= nc,
                out@ == base4 + enc_u64(self.bc_seq().len() as u64)
                    + enc_bc_records(self.bc_seq().subrange(0, c as int), 0),
            decreases nc - c,
        {
            let cv = self.blockings_per_edge[c];
            push_u64(&mut out, c as u64);
            push_u64(&mut out, cv as u64);
            proof {
                assert(self.bc_seq().subrange(0, c as int + 1).drop_last()
                    =~= self.bc_seq().subrange(0, c as int));
                assert(self.bc_seq().subrange(0, c as int + 1).last() == cv);
                assert(out@ =~= base4 + enc_u64(self.bc_seq().len() as u64)
                    + enc_bc_records(self.bc_seq().subrange(0, c as int + 1), 0));
            }
            c = c + 1;
        }
        proof {
            assert(self.bc_seq().subrange(0, nc as int) =~= self.bc_seq());
            assert(out@ =~= enc_prefix(*self));
        }
        out
    }

    /// Serializes the whole engine into the persisted layout.
    pub fn to_bytes(&self) -> (bytes: Vec<u8>)
        requires
            self.wf(),
        ensures
            bytes@ == enc_prefix(*self) + enc_nbr_table(self.neighbors@, 0),
    {
        let mut out: Vec<u8> = self.encode_prefix();
        let ghost base5 = out@;
        // adjacency
        push_u64(&mut out, self.neighbors.inner.len() as u64);
        let nn = self.neighbors.inner.len();
        let mut u: usize = 0;
        proof {
            assert(out@ =~= base5 + enc_u64(self.neighbors@.len() as u64)
                + enc_nbr_rows(self.neighbors@.subrange(0, 0), 0));
        }
        while u < nn
            invariant
                self.wf(),
                nn == self.neighbors@.len(),
                nn == self.neighbors.inner@.len(),
                u <= nn,
                out@ == base5 + enc_u64(self.neighbors@.len() as u64)
                    + enc_nbr_rows(self.neighbors@.subrange(0, u as int), 0),
            decreases nn - u,
        {
            push_u64(&mut out, u as u64);
            let row_len = self.neighbors.inner[u].len();
            push_u64(&mut out, row_len as u64);
            let ghost rowbase = out@;
            let ghost row = self.neighbors@[u as int];
            let mut t: usize = 0;
            proof {
                assert(self.neighbors.inner@[u as int]@ == row);
                assert(enc_nbr_entries(row.subrange(0, 0)) =~= Seq::<u8>::empty());
                assert(out@ =~= rowbase + enc_nbr_entries(row.subrange(0, 0)));
            }
            while t < row_len
                invariant
                    self.wf(),
                    u < nn,
                    nn == self.neighbors.inner@.len(),
                    row == self.neighbors@[u as int],
                    row == self.neighbors.inner@[u as int]@,
                    row_len == row.len(),
                    t <= row_len,
                    out@ == rowbase + enc_nbr_entries(row.subrange(0, t as int)),
                decreases row_len - t,
            {
                let entry = self.neighbors.inner[u][t];
                push_u64(&mut out, entry.0 as u64);
                push_u64(&mut out, entry.1);
                proof {
                    assert(row.subrange(0, t as int + 1).drop_last()
                        =~= row.subrange(0, t as int));
                    assert(row.subrange(0, t as int + 1).last() == entry);
                    assert(out@ =~= rowbase + enc_nbr_entries(row.subrange(0, t as int + 1)));
                }
                t = t + 1;
            }
            proof {
                assert(row.subrange(0, row_len as int) =~= row);
                assert(self.neighbors@.subrange(0, u as int + 1).drop_last()
                    =~= self.neighbors@.subrange(0, u as int));
                assert(self.neighbors@.subrange(0, u as int + 1).last() == row);
                assert(out@ =~= base5 + enc_u64(self.neighbors@.len() as u64)
                    + enc_nbr_rows(self.neighbors@.subrange(0, u as int + 1), 0));
            }
            u = u + 1;
        }
        proof {
            assert(self.neighbors@.subrange(0, nn as int) =~= self.neighbors@);
            assert(out@ =~= enc_prefix(*self) + enc_nbr_table(self.neighbors@, 0));
        }
        out
    }
}

/// The vertex records, in order.
pub open spec fn enc_vertex_records(vs: Seq<Vertex>) -> Seq<u8>
    decreases vs.len(),
{
    if vs.len() == 0 {
        Seq::empty()
    } else {
        enc_vertex_records(vs.drop_last()) + enc_vertex(vs.last())
    }
}

/// The vertex section: a count and the records.
pub open spec fn enc_vertex_list(vs: Seq<Vertex>) -> Seq<u8> {
    enc_u64(vs.len() as u64) + enc_vertex_records(vs)
}

/// The edge records from offset `base`, in order.
pub open spec fn enc_edge_records(es: Seq<Edge>, base: int) -> Seq<u8>
    decreases es.len(),
{
    if es.len() == 0 {
        Seq::empty()
    } else {
        enc_edge_records(es.drop_last(), base) + enc_edge(base + es.len() - 1, es.last())
    }
}

/// The edge section: a count and the records.
pub open spec fn enc_edge_list(es: Seq<Edge>, base: int) -> Seq<u8> {
    enc_u64(es.len() as u64) + enc_edge_records(es, base)
}

/// The obstacle records, in order.
pub open spec fn enc_obstacle_records(os: Seq<Obstacle>) -> Seq<u8>
    decreases os.len(),
{
    if os.len() == 0 {
        Seq::empty()
    } else {
        enc_obstacle_records(os.drop_last()) + enc_obstacle(os.last())
    }
}

/// The obstacle section: a count and the records.
pub open spec fn enc_obstacle_list(os: Seq<Obstacle>) -> Seq<u8> {
    enc_u64(os.len() as u64) + enc_obstacle_records(os)
}

/// The blocked-list records, in order.
pub open spec fn enc_bpo_records(bpo: Seq<(ObstacleId, Seq<EdgeIndex>)>) -> Seq<u8>
    decreases bpo.len(),
{
    if bpo.len() == 0 {
        Seq::empty()
    } else {
        enc_bpo_records(bpo.drop_last()) + enc_bpo_entry(bpo.last())
    }
}

/// The blocked-list section: a count and the records.
pub open spec fn enc_bpo_list(bpo: Seq<(ObstacleId, Seq<EdgeIndex>)>) -> Seq<u8> {
    enc_u64(bpo.len() as u64) + enc_bpo_records(bpo)
}

/// The blocking-count records from offset `base`, in order.
pub open spec fn enc_bc_records(bc: Seq<usize>, base: int) -> Seq<u8>
    decreases bc.len(),
{
    if bc.len() == 0 {
        Seq::empty()
    } else {
        enc_bc_records(bc.drop_last(), base) + enc_u64((base + bc.len() - 1) as u64)
            + enc_u64(bc.last() as u64)
    }
}

/// The blocking-count section: a count and the records.
pub open spec fn enc_bc_list(bc: Seq<usize>, base: int) -> Seq<u8> {
    enc_u64(bc.len() as u64) + enc_bc_records(bc, base)
}

/// The entries of one adjacency row.
pub open spec fn enc_nbr_entries(row: Seq<NbrEntry>) -> Seq<u8>
    decreases row.len(),
{
    if row.len() == 0 {
        Seq::empty()
    } else {
        enc_nbr_entries(row.drop_last()) + enc_u64(row.last().0 as u64) + enc_u64(row.last().1)
    }
}

/// The adjacency rows from vertex `base`, in order.
pub open spec fn enc_nbr_rows(nb: Seq<Seq<NbrEntry>>, base: int) -> Seq<u8>
    decreases nb.len(),
{
    if nb.len() == 0 {
        Seq::empty()
    } else {
        enc_nbr_rows(nb.drop_last(), base) + enc_u64((base + nb.len() - 1) as u64)
            + enc_u64(nb.last().len() as u64) + enc_nbr_entries(nb.last())
    }
}


/// Everything the image holds before the adjacency section.
pub open spec fn enc_prefix(d: DPrm) -> Seq<u8> {
    enc_cfg(d.cfg) + enc_vertex_list(d.vertices@) + enc_edge_list(d.edges@, 0)
        + enc_obstacle_list(d.obs_seq()) + enc_bpo_list(d.bpo_view())
        + enc_bc_list(d.bc_seq(), 0)
}

/// The adjacency section: a count and the rows.
pub open spec fn enc_nbr_table(nb: Seq<Seq<NbrEntry>>, base: int) -> Seq<u8> {
    enc_u64(nb.len() as u64) + enc_nbr_rows(nb, base)
}

/// The adjacency tail's shape: its count word and its total extent.
proof fn lemma_image_tail_shape(bytes: Seq<u8>, d0: DPrm)
    requires
        is_image(bytes, d0),
    ensures
        ({
            let pp = enc_prefix(d0).len() as int;
            &&& dec_u64(bytes.subrange(pp, pp + 8)) == d0.neighbors@.len() as u64
            &&& bytes.len() == pp + 8 + nbr_rows_off(d0.neighbors@, d0.neighbors@.len() as int)
            &&& nbr_rows_off(d0.neighbors@, d0.neighbors@.len() as int) >= 0
        }),
{
    lemma_image_tail(bytes, d0);
    lemma_nbr_rows_off_monotone(d0.neighbors@, d0.neighbors@.len() as int);
}

/// One adjacency row of the tail: its index word, its count word, and its
/// extent.
proof fn lemma_image_tail_row(bytes: Seq<u8>, d0: DPrm, u: int)
    requires
        is_image(bytes, d0),
        0 <= u < d0.neighbors@.len(),
    ensures
        ({
            let pp = enc_prefix(d0).len() as int;
            let nb = d0.neighbors@;
            let off = pp + 8 + nbr_rows_off(nb, u);
            &&& 0 <= nbr_rows_off(nb, u)
            &&& nbr_rows_off(nb, u + 1) == nbr_rows_off(nb, u) + 16 + 16 * nb[u].len()
            &&& off + 16 + 16 * nb[u].len() <= bytes.len()
            &&& dec_u64(bytes.subrange(off, off + 8)) == u as u64
            &&& dec_u64(bytes.subrange(off + 8, off + 16)) == nb[u].len() as u64
        }),
{
    lemma_image_tail(bytes, d0);
}

/// Decodes and validates the configuration header.
#[verifier::rlimit(100)]
fn parse_header(bytes: &Vec<u8>) -> (r: Result<PrmConfig, PrmError>)
    ensures
        r matches Ok(cfg) ==> cfg.valid() && !cfg.use_viable_edges
            && !cfg.use_blocked_per_obstacle,
        forall|d0: DPrm| #[trigger] is_image(bytes@, d0)
            ==> (r matches Ok(cfg) && cfg.equiv(d0.cfg)),
{
    let mut pos: usize = 0;
    let nv: u64;
    match read_u64(bytes, pos) {
        Some((v, p)) => {
            nv = v;
            pos = p;
        },
        None => {
            proof {
                assert forall|d0: DPrm| !is_image(bytes@, d0) by {
                    if is_image(bytes@, d0) {
                        lemma_image_header(bytes@, d0);
                    }
                }
            }
            return Err(PrmError::PersistenceError);
        },
    }
    let w: u64;
    match read_u64(bytes, pos) {
        Some((v, p)) => {
            w = v;
            pos = p;
        },
        None => {
            proof {
                assert forall|d0: DPrm| !is_image(bytes@, d0) by {
                    if is_image(bytes@, d0) {
                        lemma_image_header(bytes@, d0);
                    }
                }
            }
            return Err(PrmError::PersistenceError);
        },
    }
    let h: u64;
    match read_u64(bytes, pos) {
        Some((v, p)) => {
            h = v;
            pos = p;
        },
        None => {
            proof {
                assert forall|d0: DPrm| !is_image(bytes@, d0) by {
                    if is_image(bytes@, d0) {
                        lemma_image_header(bytes@, d0);
                    }
                }
            }
            return Err(PrmError::PersistenceError);
        },
    }
    if nv == 0 || nv > MAX_VERTICES as u64 || w == 0 || w > MAX_EXTENT as u64 || h == 0
        || h > MAX_EXTENT as u64 {
        proof {
            assert forall|d0: DPrm| !is_image(bytes@, d0) by {
                if is_image(bytes@, d0) {
                    lemma_image_header(bytes@, d0);
                }
            }
        }
        return Err(PrmError::PersistenceError);
    }
    let mut seed: [u8; 32] = [0; 32];
    if pos > bytes.len() || bytes.len() - pos < 32 {
        proof {
            assert forall|d0: DPrm| !is_image(bytes@, d0) by {
                if is_image(bytes@, d0) {
                    lemma_image_header(bytes@, d0);
                }
            }
        }
        return Err(PrmError::PersistenceError);
    }
    let total = bytes.len();
    let mut si: usize = 0;
    while si < 32
        invariant
            si <= 32,
            pos == 24,
            pos + 32 <= bytes@.len(),
            total == bytes@.len(),
            forall|t: int| 0 <= t < si ==> seed@[t] == bytes@[24 + t],
        decreases 32 - si,
    {
        seed.set(si, bytes[pos + si]);
        si = si + 1;
    }
    proof {
        assert(seed@ =~= bytes@.subrange(24, 56));
    }
    pos = pos + 32;
    let threads: u64;
    match read_u64(bytes, pos) {
        Some((v, p)) => {
            threads = v;
            pos = p;
        },
        None => {
            proof {
                assert forall|d0: DPrm| !is_image(bytes@, d0) by {
                    if is_image(bytes@, d0) {
                        lemma_image_header(bytes@, d0);
                    }
                }
            }
            return Err(PrmError::PersistenceError);
        },
    }
    if threads == 0 || threads > MAX_THREADS as u64 {
        proof {
            assert forall|d0: DPrm| !is_image(bytes@, d0) by {
                if is_image(bytes@, d0) {
                    lemma_image_header(bytes@, d0);
                }
            }
        }
        return Err(PrmError::PersistenceError);
    }
    let cfg = PrmConfig::new(nv as usize, w as usize, h as usize, seed, threads as usize);
    proof {
        assert forall|d0: DPrm| #[trigger] is_image(bytes@, d0)
            implies cfg.equiv(d0.cfg) by {
            lemma_image_header(bytes@, d0);
            assert(cfg.seed@ == d0.cfg.seed@);
        }
    }
    Ok(cfg)
}

/// Checks the vertex and edge section counts and returns the position and
/// count of the obstacle section.
#[verifier::rlimit(100)]
fn locate_obstacle_section(bytes: &Vec<u8>, nvert: usize, nedge: usize) -> (r: Result<
    (usize, usize),
    PrmError,
>)
    requires
        forall|d0: DPrm| #[trigger] is_image(bytes@, d0)
            ==> nvert == d0.vertices@.len() && nedge == d0.edges@.len(),
    ensures
        r matches Ok(oc) ==> oc.0 == 88 + 24 * nvert + 32 * nedge
            && oc.0 <= bytes@.len() && oc.1 <= bytes@.len(),
        forall|d0: DPrm| #[trigger] is_image(bytes@, d0)
            ==> (r matches Ok(oc) && oc.1 == d0.obs_seq().len()),
{
    let mut pos: usize = 64;
    let vcount: u64;
    match read_u64(bytes, pos) {
        Some((v, p)) => {
            vcount = v;
            pos = p;
        },
        None => {
            proof {
                assert forall|d0: DPrm| !is_image(bytes@, d0) by {
                    if is_image(bytes@, d0) {
                        lemma_image_header(bytes@, d0);
                    }
                }
            }
            return Err(PrmError::PersistenceError);
        },
    }
    if vcount != nvert as u64 {
        proof {
            assert forall|d0: DPrm| !is_image(bytes@, d0) by {
                if is_image(bytes@, d0) {
                    lemma_image_header(bytes@, d0);
                }
            }
        }
        return Err(PrmError::PersistenceError);
    }
    let vskip: u128 = 24u128 * (nvert as u128);
    if pos > bytes.len() || ((bytes.len() - pos) as u128) < vskip {
        proof {
            assert forall|d0: DPrm| !is_image(bytes@, d0) by {
                if is_image(bytes@, d0) {
                    lemma_image_header(bytes@, d0);
                }
            }
        }
        return Err(PrmError::PersistenceError);
    }
    pos = pos + (vskip as usize);
    let ecount: u64;
    match read_u64(bytes, pos) {
        Some((v, p)) => {
            ecount = v;
            pos = p;
        },
        None => {
            proof {
                assert forall|d0: DPrm| !is_image(bytes@, d0) by {
                    if is_image(bytes@, d0) {
                        lemma_image_header(bytes@, d0);
                    }
                }
            }
            return Err(PrmError::PersistenceError);
        },
    }
    if ecount != nedge as u64 {
        proof {
            assert forall|d0: DPrm| !is_image(bytes@, d0) by {
                if is_image(bytes@, d0) {
                    lemma_image_header(bytes@, d0);
                }
            }
        }
        return Err(PrmError::PersistenceError);
    }
    let eskip: u128 = 32u128 * (nedge as u128);
    if pos > bytes.len() || ((bytes.len() - pos) as u128) < eskip {
        proof {
            assert forall|d0: DPrm| !is_image(bytes@, d0) by {
                if is_image(bytes@, d0) {
                    lemma_image_header(bytes@, d0);
                }
            }
        }
        return Err(PrmError::PersistenceError);
    }
    pos = pos + (eskip as usize);
    let ocount64: u64;
    match read_u64(bytes, pos) {
        Some((v, p)) => {
            ocount64 = v;
            pos = p;
        },
        None => {
            proof {
                assert forall|d0: DPrm| !is_image(bytes@, d0) by {
                    if is_image(bytes@, d0) {
                        lemma_image_header(bytes@, d0);
                    }
                }
            }
            return Err(PrmError::PersistenceError);
        },
    }
    if ocount64 > bytes.len() as u64 {
        proof {
            assert forall|d0: DPrm| !is_image(bytes@, d0) by {
                if is_image(bytes@, d0) {
                    lemma_image_header(bytes@, d0);
                }
            }
        }
        return Err(PrmError::PersistenceError);
    }
    proof {
        assert forall|d0: DPrm| #[trigger] is_image(bytes@, d0)
            implies ocount64 as usize == d0.obs_seq().len() by {
            lemma_image_header(bytes@, d0);
        }
    }
    Ok((pos, ocount64 as usize))
}

/// Decodes and validates the obstacle records.
#[verifier::rlimit(100)]
fn parse_obstacle_records(bytes: &Vec<u8>, opos0: usize, ocount: usize) -> (r: Result<
    Vec<Obstacle>,
    PrmError,
>)
    requires
        forall|d0: DPrm| #[trigger] is_image(bytes@, d0)
            ==> opos0 == 88 + 24 * d0.vertices@.len() + 32 * d0.edges@.len()
                && ocount == d0.obs_seq().len(),
    ensures
        r matches Ok(v) ==> v@.len() == ocount
            && (forall|t: int| 0 <= t < v@.len() ==> (#[trigger] v@[t]).wf())
            && crate::obstacles::ids_distinct(v@),
        forall|d0: DPrm| #[trigger] is_image(bytes@, d0)
            ==> (r matches Ok(v) && v@ == d0.obs_seq()),
{
    let mut pos: usize = opos0;
    let mut obstacles: Vec<Obstacle> = Vec::new();
    let mut k: usize = 0;
    while k < ocount
        invariant
            k <= ocount,
            obstacles@.len() == k,
            pos == opos0 + 48 * k,
            forall|t: int| 0 <= t < k ==> (#[trigger] obstacles@[t]).wf(),
            crate::obstacles::ids_distinct(obstacles@),
            forall|d0: DPrm| #[trigger] is_image(bytes@, d0) ==> ({
                &&& opos0 == 88 + 24 * d0.vertices@.len() + 32 * d0.edges@.len()
                &&& ocount == d0.obs_seq().len()
                &&& obstacles@ == d0.obs_seq().subrange(0, k as int)
            }),
        decreases ocount - k,
    {
        let ghost k0 = k as int;
        let oid: u128;
        match read_u128(bytes, pos) {
            Some((v, p)) => {
                oid = v;
                pos = p;
            },
            None => {
                proof {
                    assert forall|d0: DPrm| !is_image(bytes@, d0) by {
                        if is_image(bytes@, d0) {
                            lemma_image_obstacle_rec(bytes@, d0, k0);
                        }
                    }
                }
                return Err(PrmError::PersistenceError);
            },
        }
        let x_min: i64;
        match read_i64(bytes, pos) {
            Some((v, p)) => {
                x_min = v;
                pos = p;
            },
            None => {
                proof {
                    assert forall|d0: DPrm| !is_image(bytes@, d0) by {
                        if is_image(bytes@, d0) {
                            lemma_image_obstacle_rec(bytes@, d0, k0);
                        }
                    }
                }
                return Err(PrmError::PersistenceError);
            },
        }
        let y_min: i64;
        match read_i64(bytes, pos) {
            Some((v, p)) => {
                y_min = v;
                pos = p;
            },
            None => {
                proof {
                    assert forall|d0: DPrm| !is_image(bytes@, d0) by {
                        if is_image(bytes@, d0) {
                            lemma_image_obstacle_rec(bytes@, d0, k0);
                        }
                    }
                }
                return Err(PrmError::PersistenceError);
            },
        }
        let x_max: i64;
        match read_i64(bytes, pos) {
            Some((v, p)) => {
                x_max = v;
                pos = p;
            },
            None => {
                proof {
                    assert forall|d0: DPrm| !is_image(bytes@, d0) by {
                        if is_image(bytes@, d0) {
                            lemma_image_obstacle_rec(bytes@, d0, k0);
                        }
                    }
                }
                return Err(PrmError::PersistenceError);
            },
        }
        let y_max: i64;
        match read_i64(bytes, pos) {
            Some((v, p)) => {
                y_max = v;
                pos = p;
            },
            None => {
                proof {
                    assert forall|d0: DPrm| !is_image(bytes@, d0) by {
                        if is_image(bytes@, d0) {
                            lemma_image_obstacle_rec(bytes@, d0, k0);
                        }
                    }
                }
                return Err(PrmError::PersistenceError);
            },
        }
        proof {
            assert forall|d0: DPrm| #[trigger] is_image(bytes@, d0)
                implies oid == d0.obs_seq()[k0].id_spec()
                    && x_min == d0.obs_seq()[k0].rect.x_min
                    && y_min == d0.obs_seq()[k0].rect.y_min
                    && x_max == d0.obs_seq()[k0].rect.x_max
                    && y_max == d0.obs_seq()[k0].rect.y_max
                    && d0.obs_seq()[k0].wf() by {
                lemma_image_obstacle_rec(bytes@, d0, k0);
            }
        }
        if x_min > x_max || y_min > y_max {
            proof {
                assert forall|d0: DPrm| !is_image(bytes@, d0) by {
                    if is_image(bytes@, d0) {
                    }
                }
            }
            return Err(PrmError::PersistenceError);
        }
        let limit = crate::geometry::SEG_COORD_LIMIT;
        if x_min < -limit || x_max > limit || y_min < -limit || y_max > limit {
            proof {
                assert forall|d0: DPrm| !is_image(bytes@, d0) by {
                    if is_image(bytes@, d0) {
                    }
                }
            }
            return Err(PrmError::PersistenceError);
        }
        // reject a duplicated identifier
        let mut t: usize = 0;
        while t < k
            invariant
                t <= k,
                k == obstacles@.len(),
                forall|t2: int| 0 <= t2 < t
                    ==> (#[trigger] obstacles@[t2]).id_spec() != oid,
                forall|d0: DPrm| #[trigger] is_image(bytes@, d0) ==> ({
                    &&& (k as int) < d0.obs_seq().len()
                    &&& oid == d0.obs_seq()[k as int].id_spec()
                    &&& obstacles@ == d0.obs_seq().subrange(0, k as int)
                }),
            decreases k - t,
        {
            if obstacles[t].id() == oid {
                proof {
                    assert forall|d0: DPrm| !is_image(bytes@, d0) by {
                        if is_image(bytes@, d0) {
                            assert(obstacles@[t as int] == d0.obs_seq()[t as int]);
                            assert(d0.obs_seq()[t as int].id_spec()
                                == d0.obs_seq()[k as int].id_spec());
                        }
                    }
                }
                return Err(PrmError::PersistenceError);
            }
            t = t + 1;
        }
        let o = Obstacle::with_id(
            crate::geometry::Point { x: x_min, y: y_min },
            crate::geometry::Point { x: x_max, y: y_max },
            oid,
        );
        proof {
            assert forall|d0: DPrm| #[trigger] is_image(bytes@, d0)
                implies obstacles@.push(o) == d0.obs_seq().subrange(0, k0 + 1) by {
                assert(o.rect == d0.obs_seq()[k0].rect);
                assert(o == d0.obs_seq()[k0]);
                assert(obstacles@.push(o) =~= d0.obs_seq().subrange(0, k0 + 1));
            }
        }
        obstacles.push(o);
        k = k + 1;
    }
    proof {
        assert forall|d0: DPrm| #[trigger] is_image(bytes@, d0)
            implies obstacles@ == d0.obs_seq() by {
            assert(obstacles@ =~= d0.obs_seq());
        }
    }
    Ok(obstacles)
}

/// Checks that the image's prefix is the canonical encoding of the rebuilt
/// engine and that its adjacency tail has the right shape and extent.
#[verifier::rlimit(100)]
fn check_image_rest(bytes: &Vec<u8>, d: &DPrm) -> (r: Result<(), PrmError>)
    requires
        d.wf(),
        forall|d0: DPrm| #[trigger] is_image(bytes@, d0)
            ==> enc_prefix(*d) == enc_prefix(d0)
                && d.neighbors@.len() == d0.neighbors@.len()
                && (forall|u2: int, x: NbrEntry| 0 <= u2 < d.cfg.num_vertices
                    ==> #[trigger] entry_count(d.neighbors@[u2], x)
                        == entry_count(d0.neighbors@[u2], x)),
    ensures
        r is Ok ==> enc_prefix(*d).len() <= bytes@.len()
            && bytes@.subrange(0, enc_prefix(*d).len() as int) == enc_prefix(*d),
        forall|d0: DPrm| #[trigger] is_image(bytes@, d0) ==> r is Ok,
{
    let prefix = d.encode_prefix();
    let m = prefix.len();
    if m > bytes.len() {
        proof {
            assert forall|d0: DPrm| !is_image(bytes@, d0) by {
                if is_image(bytes@, d0) {
                }
            }
        }
        return Err(PrmError::PersistenceError);
    }
    proof {
        assert forall|d0: DPrm| #[trigger] is_image(bytes@, d0)
            implies bytes@.subrange(0, m as int) == prefix@ by {
            lemma_concat_sub_left(enc_prefix(d0), enc_nbr_table(d0.neighbors@, 0), 0,
                m as int);
            assert(enc_prefix(d0).subrange(0, m as int) =~= enc_prefix(d0));
        }
    }
    let mut i2: usize = 0;
    while i2 < m
        invariant
            m == prefix@.len(),
            m <= bytes@.len(),
            i2 <= m,
            forall|t: int| 0 <= t < i2 ==> bytes@[t] == prefix@[t],
            forall|d0: DPrm| #[trigger] is_image(bytes@, d0)
                ==> bytes@.subrange(0, m as int) == prefix@,
        decreases m - i2,
    {
        if bytes[i2] != prefix[i2] {
            proof {
                assert forall|d0: DPrm| !is_image(bytes@, d0) by {
                    if is_image(bytes@, d0) {
                        assert(bytes@.subrange(0, m as int)[i2 as int] == bytes@[i2 as int]);
                    }
                }
            }
            return Err(PrmError::PersistenceError);
        }
        i2 = i2 + 1;
    }
    proof {
        assert(bytes@.subrange(0, m as int) =~= prefix@);
    }
    let mut pos: usize = m;
    // adjacency section: stored entry order is historical, so rows are
    // checked for shape only
    let ncount: u64;
    match read_u64(bytes, pos) {
        Some((v, p)) => {
            ncount = v;
            pos = p;
        },
        None => {
            proof {
                assert forall|d0: DPrm| !is_image(bytes@, d0) by {
                    if is_image(bytes@, d0) {
                        lemma_image_tail_shape(bytes@, d0);
                    }
                }
            }
            return Err(PrmError::PersistenceError);
        },
    }
    if ncount != d.neighbors.inner.len() as u64 {
        proof {
            assert forall|d0: DPrm| !is_image(bytes@, d0) by {
                if is_image(bytes@, d0) {
                    lemma_image_tail_shape(bytes@, d0);
                }
            }
        }
        return Err(PrmError::PersistenceError);
    }
    let n_rows = d.neighbors.inner.len();
    let mut u: usize = 0;
    while u < n_rows
        invariant
            d.wf(),
            m == prefix@.len(),
            m == enc_prefix(*d).len(),
            n_rows == d.neighbors.inner@.len(),
            u <= n_rows,
            forall|d0: DPrm| #[trigger] is_image(bytes@, d0) ==> ({
                &&& m == enc_prefix(d0).len()
                &&& n_rows == d0.neighbors@.len()
                &&& pos == m + 8 + nbr_rows_off(d0.neighbors@, u as int)
                &&& (forall|u2: int, x: NbrEntry| 0 <= u2 < d.cfg.num_vertices
                    ==> #[trigger] entry_count(d.neighbors@[u2], x)
                        == entry_count(d0.neighbors@[u2], x))
            }),
        decreases n_rows - u,
    {
        let ghost u0 = u as int;
        let vid: u64;
        match read_u64(bytes, pos) {
            Some((v, p)) => {
                vid = v;
                pos = p;
            },
            None => {
                proof {
                    assert forall|d0: DPrm| !is_image(bytes@, d0) by {
                        if is_image(bytes@, d0) {
                            lemma_image_tail_row(bytes@, d0, u0);
                        }
                    }
                }
                return Err(PrmError::PersistenceError);
            },
        }
        let cnt: u64;
        match read_u64(bytes, pos) {
            Some((v, p)) => {
                cnt = v;
                pos = p;
            },
            None => {
                proof {
                    assert forall|d0: DPrm| !is_image(bytes@, d0) by {
                        if is_image(bytes@, d0) {
                            lemma_image_tail_row(bytes@, d0, u0);
                        }
                    }
                }
                return Err(PrmError::PersistenceError);
            },
        }
        let row_len = d.neighbors.inner[u].len();
        proof {
            assert(d.neighbors@[u0] == d.neighbors.inner@[u0]@);
            assert((u0) < d.cfg.num_vertices);
        }
        if vid != u as u64 || cnt != row_len as u64 {
            proof {
                assert forall|d0: DPrm| !is_image(bytes@, d0) by {
                    if is_image(bytes@, d0) {
                        lemma_image_tail_row(bytes@, d0, u0);
                        lemma_equal_counts_equal_len(d.neighbors@[u0], d0.neighbors@[u0]);
                    }
                }
            }
            return Err(PrmError::PersistenceError);
        }
        let ghost row_base = pos;
        proof {
            assert forall|d0: DPrm| #[trigger] is_image(bytes@, d0)
                implies row_len == d0.neighbors@[u0].len()
                    && row_base == m + 8 + nbr_rows_off(d0.neighbors@, u0) + 16 by {
                lemma_equal_counts_equal_len(d.neighbors@[u0], d0.neighbors@[u0]);
            }
        }
        let mut t: usize = 0;
        while t < row_len
            invariant
                t <= row_len,
                pos == row_base + 16 * t,
                forall|d0: DPrm| #[trigger] is_image(bytes@, d0) ==> ({
                    &&& (u as int) < d0.neighbors@.len()
                    &&& row_len == d0.neighbors@[u as int].len()
                    &&& row_base == m + 8 + nbr_rows_off(d0.neighbors@, u as int) + 16
                    &&& m == enc_prefix(d0).len()
                }),
            decreases row_len - t,
        {
            match read_u64(bytes, pos) {
                Some((_v, p)) => {
                    pos = p;
                },
                None => {
                    proof {
                        assert forall|d0: DPrm| !is_image(bytes@, d0) by {
                            if is_image(bytes@, d0) {
                                lemma_image_tail_row(bytes@, d0, u as int);
                            }
                        }
                    }
                    return Err(PrmError::PersistenceError);
                },
            }
            match read_u64(bytes, pos) {
                Some((_v, p)) => {
                    pos = p;
                },
                None => {
                    proof {
                        assert forall|d0: DPrm| !is_image(bytes@, d0) by {
                            if is_image(bytes@, d0) {
                                lemma_image_tail_row(bytes@, d0, u as int);
                            }
                        }
                    }
                    return Err(PrmError::PersistenceError);
                },
            }
            t = t + 1;
        }
        proof {
            assert forall|d0: DPrm| #[trigger] is_image(bytes@, d0)
                implies pos == m + 8 + nbr_rows_off(d0.neighbors@, u0 + 1) by {
                lemma_image_tail_row(bytes@, d0, u0);
            }
        }
        u = u + 1;
    }
    if pos != bytes.len() {
        proof {
            assert forall|d0: DPrm| !is_image(bytes@, d0) by {
                if is_image(bytes@, d0) {
                    lemma_image_tail_shape(bytes@, d0);
                }
            }
        }
        return Err(PrmError::PersistenceError);
    }
    Ok(())
}

impl DPrm {
    /// Rebuilds an engine from a persisted image: the configuration and the
    /// obstacles are decoded, the roadmap and all derived state are
    /// reconstructed from them, and the image up to the adjacency section
    /// must equal the reconstruction's canonical encoding byte for byte
    /// (stored adjacency rows keep their historical entry order and are
    /// checked for shape).  Any mismatch yields `PersistenceError`; the
    /// canonical image of every well-formed engine is accepted and yields
    /// an engine that agrees with it on every component, adjacency rows up
    /// to entry order.
    #[verifier::rlimit(100)]
    pub fn from_bytes(bytes: &Vec<u8>) -> (r: Result<DPrm, PrmError>)
        ensures
            r matches Ok(d) ==> d.wf()
                && enc_prefix(d).len() <= bytes@.len()
                && bytes@.subrange(0, enc_prefix(d).len() as int) == enc_prefix(d),
            forall|d0: DPrm| #[trigger] is_image(bytes@, d0)
                ==> (r matches Ok(d) && d.cfg.equiv(d0.cfg)
                    && d.vertices@ == d0.vertices@
                    && d.edges@ == d0.edges@
                    && d.obs_seq() == d0.obs_seq()
                    && d.bpo_view() == d0.bpo_view()
                    && d.bc_seq() == d0.bc_seq()
                    && (forall|u: int, x: NbrEntry| 0 <= u < d.cfg.num_vertices
                        ==> #[trigger] entry_count(d.neighbors@[u], x)
                            == entry_count(d0.neighbors@[u], x))),
    {
        let cfg: PrmConfig;
        match parse_header(bytes) {
            Ok(c) => {
                cfg = c;
            },
            Err(e) => {
                return Err(e);
            },
        }
        let (vertices, edges) = crate::roadmap::build_roadmap(&cfg);
        proof {
            assert forall|d0: DPrm| #[trigger] is_image(bytes@, d0)
                implies vertices@ == d0.vertices@ && edges@ == d0.edges@ by {
                crate::roadmap::lemma_candidate_edges_equiv(cfg, d0.cfg);
                assert forall|i: int| 0 <= i < vertices@.len()
                    implies vertices@[i] == d0.vertices@[i] by {
                    assert(vertices@[i] == crate::roadmap::spec_vertex(cfg, i));
                    assert(d0.vertices@[i] == crate::roadmap::spec_vertex(d0.cfg, i));
                }
                assert(vertices@ =~= d0.vertices@);
            }
        }
        let opos0: usize;
        let ocount: usize;
        match locate_obstacle_section(bytes, vertices.len(), edges.len()) {
            Ok((p, c)) => {
                opos0 = p;
                ocount = c;
            },
            Err(e) => {
                return Err(e);
            },
        }
        let obstacles: Vec<Obstacle>;
        match parse_obstacle_records(bytes, opos0, ocount) {
            Ok(v) => {
                obstacles = v;
            },
            Err(e) => {
                return Err(e);
            },
        }
        let oset = ObstacleSet::from_vec(obstacles);
        let d = DPrm::assemble(cfg, vertices, edges, oset);
        proof {
            assert forall|d0: DPrm| #[trigger] is_image(bytes@, d0)
                implies d.cfg.equiv(d0.cfg) && d.vertices@ == d0.vertices@
                    && d.edges@ == d0.edges@ && d.obs_seq() == d0.obs_seq()
                    && d.bpo_view() == d0.bpo_view() && d.bc_seq() == d0.bc_seq()
                    && d.neighbors@.len() == d0.neighbors@.len()
                    && (forall|u: int, x: NbrEntry| 0 <= u < d.cfg.num_vertices
                        ==> #[trigger] entry_count(d.neighbors@[u], x)
                            == entry_count(d0.neighbors@[u], x))
                    && enc_prefix(d) == enc_prefix(d0) by {
                crate::laws::lemma_construction_deterministic(d, d0);
                assert(enc_cfg(d.cfg) == enc_cfg(d0.cfg));
                assert(enc_prefix(d) == enc_prefix(d0));
            }
        }
        match check_image_rest(bytes, &d) {
            Ok(()) => Ok(d),
            Err(e) => Err(e),
        }
    }
}

/// A subrange inside the left part of a concatenation.
proof fn lemma_concat_sub_left(a: Seq<u8>, b: Seq<u8>, i: int, j: int)
    requires
        0 <= i <= j <= a.len(),
    ensures
        (a + b).subrange(i, j) == a.subrange(i, j),
{
    assert((a + b).subrange(i, j) =~= a.subrange(i, j));
}

/// A subrange inside the right part of a concatenation.
proof fn lemma_concat_sub_right(a: Seq<u8>, b: Seq<u8>, i: int, j: int)
    requires
        0 <= i <= j <= b.len(),
    ensures
        (a + b).subrange(a.len() + i, a.len() + j) == b.subrange(i, j),
{
    assert((a + b).subrange(a.len() + i, a.len() + j) =~= b.subrange(i, j));
}

/// Sizes of the encoded sections.
pub proof fn lemma_enc_vertex_records_len(vs: Seq<Vertex>)
    ensures
        enc_vertex_records(vs).len() == 24 * vs.len(),
    decreases vs.len(),
{
    if vs.len() > 0 {
        lemma_enc_vertex_records_len(vs.drop_last());
    }
}

pub proof fn lemma_enc_edge_records_len(es: Seq<Edge>, base: int)
    ensures
        enc_edge_records(es, base).len() == 32 * es.len(),
    decreases es.len(),
{
    if es.len() > 0 {
        lemma_enc_edge_records_len(es.drop_last(), base);
    }
}

pub proof fn lemma_enc_obstacle_records_len(os: Seq<Obstacle>)
    ensures
        enc_obstacle_records(os).len() == 48 * os.len(),
    decreases os.len(),
{
    if os.len() > 0 {
        lemma_enc_obstacle_records_len(os.drop_last());
    }
}

pub proof fn lemma_enc_u64_list_len(ws: Seq<u64>)
    ensures
        enc_u64_list(ws).len() == 8 * ws.len(),
    decreases ws.len(),
{
    if ws.len() > 0 {
        lemma_enc_u64_list_len(ws.drop_last());
    }
}

/// The size of the blocked-list records.
pub open spec fn bpo_records_size(bpo: Seq<(ObstacleId, Seq<EdgeIndex>)>) -> int
    decreases bpo.len(),
{
    if bpo.len() == 0 {
        0
    } else {
        bpo_records_size(bpo.drop_last()) + 24 + 8 * bpo.last().1.len()
    }
}

pub proof fn lemma_enc_bpo_records_len(bpo: Seq<(ObstacleId, Seq<EdgeIndex>)>)
    ensures
        enc_bpo_records(bpo).len() == bpo_records_size(bpo),
        bpo_records_size(bpo) >= 0,
    decreases bpo.len(),
{
    if bpo.len() > 0 {
        lemma_enc_bpo_records_len(bpo.drop_last());
        lemma_enc_u64_list_len(ids_as_u64(bpo.last().1));
    }
}

pub proof fn lemma_enc_bc_records_len(bc: Seq<usize>, base: int)
    ensures
        enc_bc_records(bc, base).len() == 16 * bc.len(),
    decreases bc.len(),
{
    if bc.len() > 0 {
        lemma_enc_bc_records_len(bc.drop_last(), base);
    }
}

pub proof fn lemma_enc_nbr_entries_len(row: Seq<NbrEntry>)
    ensures
        enc_nbr_entries(row).len() == 16 * row.len(),
    decreases row.len(),
{
    if row.len() > 0 {
        lemma_enc_nbr_entries_len(row.drop_last());
    }
}

/// The byte offset of adjacency row `u` inside the encoded rows.
pub open spec fn nbr_rows_off(nb: Seq<Seq<NbrEntry>>, u: int) -> int
    decreases u,
{
    if u <= 0 {
        0
    } else {
        nbr_rows_off(nb, u - 1) + 16 + 16 * nb[u - 1].len()
    }
}

pub proof fn lemma_nbr_rows_off_monotone(nb: Seq<Seq<NbrEntry>>, u: int)
    requires
        0 <= u,
    ensures
        nbr_rows_off(nb, u) >= 0,
    decreases u,
{
    if u > 0 {
        lemma_nbr_rows_off_monotone(nb, u - 1);
    }
}

pub proof fn lemma_enc_nbr_rows_len(nb: Seq<Seq<NbrEntry>>, base: int)
    ensures
        enc_nbr_rows(nb, base).len() == nbr_rows_off(nb, nb.len() as int),
    decreases nb.len(),
{
    if nb.len() > 0 {
        lemma_enc_nbr_rows_len(nb.drop_last(), base);
        lemma_enc_nbr_entries_len(nb.last());
        assert(forall|t: int| 0 <= t < nb.len() - 1 ==> nb.drop_last()[t] == nb[t]);
        lemma_nbr_rows_off_congruent(nb.drop_last(), nb, (nb.len() - 1) as int);
    }
}

/// Row offsets agree on a common prefix.
pub proof fn lemma_nbr_rows_off_congruent(a: Seq<Seq<NbrEntry>>, b: Seq<Seq<NbrEntry>>, u: int)
    requires
        0 <= u,
        forall|t: int| 0 <= t < u ==> a[t] == b[t],
    ensures
        nbr_rows_off(a, u) == nbr_rows_off(b, u),
    decreases u,
{
    if u > 0 {
        lemma_nbr_rows_off_congruent(a, b, u - 1);
    }
}

/// The fields of obstacle record `k`, read out of the encoded records.
pub proof fn lemma_obstacle_records_layout(os: Seq<Obstacle>, k: int)
    requires
        0 <= k < os.len(),
    ensures
        enc_obstacle_records(os).subrange(48 * k, 48 * k + 48) == enc_obstacle(os[k]),
    decreases os.len(),
{
    lemma_enc_obstacle_records_len(os);
    if k == os.len() - 1 {
        lemma_enc_obstacle_records_len(os.drop_last());
        lemma_concat_sub_right(enc_obstacle_records(os.drop_last()), enc_obstacle(os.last()),
            0, 48);
        assert(enc_obstacle(os.last()).subrange(0, 48) =~= enc_obstacle(os.last()));
    } else {
        lemma_obstacle_records_layout(os.drop_last(), k);
        lemma_enc_obstacle_records_len(os.drop_last());
        lemma_concat_sub_left(enc_obstacle_records(os.drop_last()), enc_obstacle(os.last()),
            48 * k, 48 * k + 48);
    }
}

/// The header words and counts of one adjacency row, read out of the
/// encoded rows.
pub proof fn lemma_nbr_rows_layout(nb: Seq<Seq<NbrEntry>>, u: int)
    requires
        0 <= u < nb.len(),
    ensures
        nbr_rows_off(nb, u) + 16 + 16 * nb[u].len() == nbr_rows_off(nb, u + 1),
        nbr_rows_off(nb, u + 1) <= enc_nbr_rows(nb, 0).len(),
        0 <= nbr_rows_off(nb, u),
        enc_nbr_rows(nb, 0).subrange(nbr_rows_off(nb, u), nbr_rows_off(nb, u) + 8)
            == enc_u64(u as u64),
        enc_nbr_rows(nb, 0).subrange(nbr_rows_off(nb, u) + 8, nbr_rows_off(nb, u) + 16)
            == enc_u64(nb[u].len() as u64),
    decreases nb.len(),
{
    lemma_enc_nbr_rows_len(nb, 0);
    lemma_nbr_rows_off_monotone(nb, u);
    if u == nb.len() - 1 {
        lemma_enc_nbr_rows_len(nb.drop_last(), 0);
        assert(forall|t: int| 0 <= t < nb.len() - 1 ==> nb.drop_last()[t] == nb[t]);
        lemma_nbr_rows_off_congruent(nb.drop_last(), nb, u);
        let head = enc_nbr_rows(nb.drop_last(), 0);
        let mid = enc_u64((nb.len() - 1) as u64) + enc_u64(nb.last().len() as u64)
            + enc_nbr_entries(nb.last());
        assert(enc_nbr_rows(nb, 0) =~= head + mid);
        lemma_enc_nbr_entries_len(nb.last());
        lemma_concat_sub_right(head, mid, 0, 8);
        lemma_concat_sub_right(head, mid, 8, 16);
        assert(mid.subrange(0, 8) =~= enc_u64(u as u64));
        assert(mid.subrange(8, 16) =~= enc_u64(nb[u].len() as u64));
    } else {
        lemma_nbr_rows_layout(nb.drop_last(), u);
        lemma_enc_nbr_rows_len(nb.drop_last(), 0);
        assert(forall|t: int| 0 <= t < nb.len() - 1 ==> nb.drop_last()[t] == nb[t]);
        lemma_nbr_rows_off_congruent(nb.drop_last(), nb, u);
        lemma_nbr_rows_off_congruent(nb.drop_last(), nb, u + 1);
        let head = enc_nbr_rows(nb.drop_last(), 0);
        let mid = enc_u64((nb.len() - 1) as u64) + enc_u64(nb.last().len() as u64)
            + enc_nbr_entries(nb.last());
        assert(enc_nbr_rows(nb, 0) =~= head + mid);
        lemma_concat_sub_left(head, mid, nbr_rows_off(nb, u), nbr_rows_off(nb, u) + 8);
        lemma_concat_sub_left(head, mid, nbr_rows_off(nb, u) + 8, nbr_rows_off(nb, u) + 16);
    }
}

/// `bytes` is the canonical persisted image of the well-formed engine `d0`.
pub open spec fn is_image(bytes: Seq<u8>, d0: DPrm) -> bool {
    d0.wf() && bytes == enc_prefix(d0) + enc_nbr_table(d0.neighbors@, 0)
}

/// Some well-formed engine has `bytes` as its image.
pub open spec fn has_image(bytes: Seq<u8>) -> bool {
    exists|d0: DPrm| is_image(bytes, d0)
}

/// Header and section-count facts of an image: every fixed-offset word
/// decodes to the corresponding engine value.
#[verifier::rlimit(100)]
proof fn lemma_image_header(bytes: Seq<u8>, d0: DPrm)
    requires
        is_image(bytes, d0),
    ensures
        ({
            let nv = d0.vertices@.len() as int;
            let ne = d0.edges@.len() as int;
            let no = d0.obs_seq().len() as int;
            let ob0 = 80 + 24 * nv + 32 * ne;
            &&& enc_prefix(d0).len() == ob0 + 24 + 48 * no
                + bpo_records_size(d0.bpo_view()) + 16 * ne
            &&& bpo_records_size(d0.bpo_view()) >= 0
            &&& bytes.len() >= enc_prefix(d0).len() + 8
            &&& dec_u64(bytes.subrange(0, 8)) == d0.cfg.num_vertices as u64
            &&& dec_u64(bytes.subrange(8, 16)) == d0.cfg.width as u64
            &&& dec_u64(bytes.subrange(16, 24)) == d0.cfg.height as u64
            &&& bytes.subrange(24, 56) == d0.cfg.seed@
            &&& dec_u64(bytes.subrange(56, 64)) == d0.cfg.threads as u64
            &&& dec_u64(bytes.subrange(64, 72)) == nv as u64
            &&& dec_u64(bytes.subrange(72 + 24 * nv, 80 + 24 * nv)) == ne as u64
            &&& dec_u64(bytes.subrange(ob0, ob0 + 8)) == no as u64
        }),
{
    let nv = d0.vertices@.len() as int;
    let ne = d0.edges@.len() as int;
    let no = d0.obs_seq().len() as int;
    let ob0 = 80 + 24 * nv + 32 * ne;
    lemma_enc_vertex_records_len(d0.vertices@);
    lemma_enc_edge_records_len(d0.edges@, 0);
    lemma_enc_obstacle_records_len(d0.obs_seq());
    lemma_enc_bpo_records_len(d0.bpo_view());
    lemma_enc_bc_records_len(d0.bc_seq(), 0);
    assert(d0.cfg.seed@.len() == 32);
    assert(enc_cfg(d0.cfg).len() == 64);
    assert(d0.bc_seq().len() == ne);
    assert(enc_prefix(d0).len() == ob0 + 24 + 48 * no + bpo_records_size(d0.bpo_view())
        + 16 * ne);
    assert(bytes.len() == enc_prefix(d0).len() + 8
        + enc_nbr_rows(d0.neighbors@, 0).len());
    lemma_enc_nbr_rows_len(d0.neighbors@, 0);
    lemma_nbr_rows_off_monotone(d0.neighbors@, d0.neighbors@.len() as int);
    assert(bytes.subrange(0, 8) =~= enc_u64(d0.cfg.num_vertices as u64));
    assert(bytes.subrange(8, 16) =~= enc_u64(d0.cfg.width as u64));
    assert(bytes.subrange(16, 24) =~= enc_u64(d0.cfg.height as u64));
    assert(bytes.subrange(24, 56) =~= d0.cfg.seed@);
    assert(bytes.subrange(56, 64) =~= enc_u64(d0.cfg.threads as u64));
    assert(bytes.subrange(64, 72) =~= enc_u64(nv as u64));
    assert(bytes.subrange(72 + 24 * nv, 80 + 24 * nv) =~= enc_u64(ne as u64));
    assert(bytes.subrange(ob0, ob0 + 8) =~= enc_u64(no as u64));
    lemma_dec_enc_u64(d0.cfg.num_vertices as u64);
    lemma_dec_enc_u64(d0.cfg.width as u64);
    lemma_dec_enc_u64(d0.cfg.height as u64);
    lemma_dec_enc_u64(d0.cfg.threads as u64);
    lemma_dec_enc_u64(nv as u64);
    lemma_dec_enc_u64(ne as u64);
    lemma_dec_enc_u64(no as u64);
}

/// Obstacle record `k` of an image is the encoding of the engine's
/// obstacle `k`.
#[verifier::rlimit(100)]
proof fn lemma_image_obstacle_block(bytes: Seq<u8>, d0: DPrm, k: int)
    requires
        is_image(bytes, d0),
        0 <= k < d0.obs_seq().len(),
    ensures
        ({
            let rb = 88 + 24 * d0.vertices@.len() as int + 32 * d0.edges@.len() as int
                + 48 * k;
            &&& rb + 48 <= bytes.len()
            &&& bytes.subrange(rb, rb + 48) == enc_obstacle(d0.obs_seq()[k])
        }),
{
    let nv = d0.vertices@.len() as int;
    let ne = d0.edges@.len() as int;
    let no = d0.obs_seq().len() as int;
    let rb = 88 + 24 * nv + 32 * ne + 48 * k;
    lemma_enc_vertex_records_len(d0.vertices@);
    lemma_enc_edge_records_len(d0.edges@, 0);
    lemma_enc_obstacle_records_len(d0.obs_seq());
    lemma_enc_bpo_records_len(d0.bpo_view());
    lemma_enc_bc_records_len(d0.bc_seq(), 0);
    lemma_obstacle_records_layout(d0.obs_seq(), k);
    assert(d0.cfg.seed@.len() == 32);
    let c = enc_cfg(d0.cfg);
    let v = enc_vertex_list(d0.vertices@);
    let e = enc_edge_list(d0.edges@, 0);
    let o = enc_obstacle_list(d0.obs_seq());
    let b = enc_bpo_list(d0.bpo_view());
    let kk = enc_bc_list(d0.bc_seq(), 0);
    let z = ((c + v) + e);
    let y = z + o;
    let x = y + b;
    assert(c.len() == 64);
    assert(z.len() == 80 + 24 * nv + 32 * ne);
    assert(o.len() == 8 + 48 * no);
    assert(rb + 48 <= y.len());
    assert(enc_prefix(d0) == x + kk);
    lemma_concat_sub_left(enc_prefix(d0), enc_nbr_table(d0.neighbors@, 0), rb, rb + 48);
    assert(bytes.subrange(rb, rb + 48) == enc_prefix(d0).subrange(rb, rb + 48));
    lemma_concat_sub_left(x, kk, rb, rb + 48);
    assert(enc_prefix(d0).subrange(rb, rb + 48) == x.subrange(rb, rb + 48));
    lemma_concat_sub_left(y, b, rb, rb + 48);
    assert(x.subrange(rb, rb + 48) == y.subrange(rb, rb + 48));
    lemma_concat_sub_right(z, o, rb - z.len(), rb + 48 - z.len());
    assert(y.subrange(rb, rb + 48) == o.subrange(8 + 48 * k, 56 + 48 * k));
    assert(o == enc_u64(d0.obs_seq().len() as u64) + enc_obstacle_records(d0.obs_seq()));
    lemma_concat_sub_right(enc_u64(d0.obs_seq().len() as u64),
        enc_obstacle_records(d0.obs_seq()), 48 * k, 48 * k + 48);
    assert(o.subrange(8 + 48 * k, 56 + 48 * k)
        == enc_obstacle_records(d0.obs_seq()).subrange(48 * k, 48 * k + 48));
    assert(bytes.subrange(rb, rb + 48)
        == enc_obstacle_records(d0.obs_seq()).subrange(48 * k, 48 * k + 48));
}

/// The field subranges of one encoded obstacle record decode to its
/// fields.
proof fn lemma_obstacle_rec_fields(o: Obstacle)
    ensures
        ({
            let rec = enc_obstacle(o);
            &&& rec.len() == 48
            &&& ((dec_u64(rec.subrange(8, 16)) as u128) << 64)
                | (dec_u64(rec.subrange(0, 8)) as u128) == o.id_spec()
            &&& dec_u64(rec.subrange(16, 24)) as i64 == o.rect.x_min
            &&& dec_u64(rec.subrange(24, 32)) as i64 == o.rect.y_min
            &&& dec_u64(rec.subrange(32, 40)) as i64 == o.rect.x_max
            &&& dec_u64(rec.subrange(40, 48)) as i64 == o.rect.y_max
        }),
{
    let rec = enc_obstacle(o);
    assert(rec.subrange(0, 8) =~= enc_u64((o.id_spec() & 0xffff_ffff_ffff_ffff) as u64));
    assert(rec.subrange(8, 16) =~= enc_u64((o.id_spec() >> 64) as u64));
    assert(rec.subrange(16, 24) =~= enc_u64(o.rect.x_min as u64));
    assert(rec.subrange(24, 32) =~= enc_u64(o.rect.y_min as u64));
    assert(rec.subrange(32, 40) =~= enc_u64(o.rect.x_max as u64));
    assert(rec.subrange(40, 48) =~= enc_u64(o.rect.y_max as u64));
    lemma_dec_enc_u128(o.id_spec());
    assert(enc_u128(o.id_spec()).subrange(0, 8)
        =~= enc_u64((o.id_spec() & 0xffff_ffff_ffff_ffff) as u64));
    assert(enc_u128(o.id_spec()).subrange(8, 16) =~= enc_u64((o.id_spec() >> 64) as u64));
    lemma_dec_enc_i64(o.rect.x_min);
    lemma_dec_enc_i64(o.rect.y_min);
    lemma_dec_enc_i64(o.rect.x_max);
    lemma_dec_enc_i64(o.rect.y_max);
}

/// The fields of obstacle record `k` of an image decode to the fields of
/// the engine's obstacle `k`.
#[verifier::rlimit(100)]
#[verifier::spinoff_prover]
proof fn lemma_image_obstacle_rec(bytes: Seq<u8>, d0: DPrm, k: int)
    requires
        is_image(bytes, d0),
        0 <= k < d0.obs_seq().len(),
    ensures
        ({
            let nv = d0.vertices@.len() as int;
            let ne = d0.edges@.len() as int;
            let rb = 88 + 24 * nv + 32 * ne + 48 * k;
            let o = d0.obs_seq()[k];
            &&& rb + 48 <= bytes.len()
            &&& ((dec_u64(bytes.subrange(rb + 8, rb + 16)) as u128) << 64)
                | (dec_u64(bytes.subrange(rb, rb + 8)) as u128) == o.id_spec()
            &&& dec_u64(bytes.subrange(rb + 16, rb + 24)) as i64 == o.rect.x_min
            &&& dec_u64(bytes.subrange(rb + 24, rb + 32)) as i64 == o.rect.y_min
            &&& dec_u64(bytes.subrange(rb + 32, rb + 40)) as i64 == o.rect.x_max
            &&& dec_u64(bytes.subrange(rb + 40, rb + 48)) as i64 == o.rect.y_max
        }),
{
    let nv = d0.vertices@.len() as int;
    let ne = d0.edges@.len() as int;
    let rb = 88 + 24 * nv + 32 * ne + 48 * k;
    let o = d0.obs_seq()[k];
    lemma_image_obstacle_block(bytes, d0, k);
    lemma_obstacle_rec_fields(o);
    let rec = enc_obstacle(o);
    assert(bytes.subrange(rb, rb + 8) =~= rec.subrange(0, 8));
    assert(bytes.subrange(rb + 8, rb + 16) =~= rec.subrange(8, 16));
    assert(bytes.subrange(rb + 16, rb + 24) =~= rec.subrange(16, 24));
    assert(bytes.subrange(rb + 24, rb + 32) =~= rec.subrange(24, 32));
    assert(bytes.subrange(rb + 32, rb + 40) =~= rec.subrange(32, 40));
    assert(bytes.subrange(rb + 40, rb + 48) =~= rec.subrange(40, 48));
}

/// The adjacency tail of an image: the table's row count, and per row its
/// index word, its entry count, and the extent of its entries.
#[verifier::rlimit(100)]
proof fn lemma_image_tail(bytes: Seq<u8>, d0: DPrm)
    requires
        is_image(bytes, d0),
    ensures
        ({
            let pp = enc_prefix(d0).len() as int;
            let nb = d0.neighbors@;
            &&& dec_u64(bytes.subrange(pp, pp + 8)) == nb.len() as u64
            &&& bytes.len() == pp + 8 + nbr_rows_off(nb, nb.len() as int)
            &&& (forall|u: int| 0 <= u < nb.len() ==> {
                let off = pp + 8 + nbr_rows_off(nb, u);
                &&& 0 <= #[trigger] nbr_rows_off(nb, u)
                &&& nbr_rows_off(nb, u + 1) == nbr_rows_off(nb, u) + 16 + 16 * nb[u].len()
                &&& off + 16 + 16 * nb[u].len() <= bytes.len()
                &&& dec_u64(bytes.subrange(off, off + 8)) == u as u64
                &&& dec_u64(bytes.subrange(off + 8, off + 16)) == nb[u].len() as u64
            })
        }),
{
    let pp = enc_prefix(d0).len() as int;
    let nb = d0.neighbors@;
    let rows = enc_nbr_rows(nb, 0);
    lemma_enc_nbr_rows_len(nb, 0);
    assert(bytes.len() == pp + 8 + rows.len());
    assert(bytes.subrange(pp, pp + 8) =~= enc_u64(nb.len() as u64));
    lemma_dec_enc_u64(nb.len() as u64);
    assert forall|u: int| 0 <= u < nb.len() implies {
        let off = pp + 8 + nbr_rows_off(nb, u);
        &&& 0 <= #[trigger] nbr_rows_off(nb, u)
        &&& nbr_rows_off(nb, u + 1) == nbr_rows_off(nb, u) + 16 + 16 * nb[u].len()
        &&& off + 16 + 16 * nb[u].len() <= bytes.len()
        &&& dec_u64(bytes.subrange(off, off + 8)) == u as u64
        &&& dec_u64(bytes.subrange(off + 8, off + 16)) == nb[u].len() as u64
    } by {
        let off = pp + 8 + nbr_rows_off(nb, u);
        lemma_nbr_rows_layout(nb, u);
        assert(bytes.subrange(off, off + 8)
            =~= rows.subrange(nbr_rows_off(nb, u), nbr_rows_off(nb, u) + 8));
        assert(bytes.subrange(off + 8, off + 16)
            =~= rows.subrange(nbr_rows_off(nb, u) + 8, nbr_rows_off(nb, u) + 16));
        lemma_dec_enc_u64(u as u64);
        lemma_dec_enc_u64(nb[u].len() as u64);
    }
}

} // verus!
