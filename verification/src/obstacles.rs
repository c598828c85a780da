//! Obstacles: axis-aligned rectangles with identity, and an indexed set of
//! them with aggregate containment and intersection queries.

use vstd::prelude::*;
use crate::geometry::Point;
use crate::geometry::Rect;
use crate::geometry::in_rect;
use crate::geometry::in_rect_exec;
use crate::geometry::seg_intersects_rect;
use crate::geometry::seg_intersects_rect_exec;
use vstd::pervasive::VecAdditionalExecFns;

verus! {

/// Identifier of an obstacle, unique per obstacle creation.
pub type ObstacleId = u128;

/// An axis-aligned rectangular obstacle with its identifier.
#[derive(Clone, Copy, Debug)]
pub struct Obstacle {
    /// The closed rectangle covered by the obstacle.
    pub rect: Rect,
    /// The obstacle's identifier.
    pub id: ObstacleId,
}

impl Obstacle {
    /// The obstacle's identifier, for contracts.
    pub open spec fn id_spec(self) -> ObstacleId {
        self.id
    }

    pub open spec fn wf(self) -> bool {
        self.rect.wf()
    }

    /// Builds the obstacle spanned by two opposite corners, with the
    /// placeholder identifier 0.
    pub fn new(c1: Point, c2: Point) -> (o: Obstacle)
        ensures
            o.rect == Rect::spec_from_corners(c1, c2),
            o.id_spec() == 0,
            c1.seg_bounded() && c2.seg_bounded() ==> o.wf(),
    {
        Obstacle { rect: Rect::from_corners(c1, c2), id: 0 }
    }

    /// Builds the obstacle spanned by two opposite corners, with the given
    /// identifier.
    pub fn with_id(c1: Point, c2: Point, id: ObstacleId) -> (o: Obstacle)
        ensures
            o.rect == Rect::spec_from_corners(c1, c2),
            o.id_spec() == id,
            c1.seg_bounded() && c2.seg_bounded() ==> o.wf(),
    {
        Obstacle { rect: Rect::from_corners(c1, c2), id }
    }

    pub fn id(&self) -> (r: ObstacleId)
        ensures
            r == self.id_spec(),
    {
        self.id
    }

    /// The obstacle contains the point.
    pub fn contains(&self, point: &Point) -> (r: bool)
        ensures
            r == in_rect(*point, self.rect),
    {
        in_rect_exec(point, &self.rect)
    }

    /// The obstacle's rectangle meets the closed segment from `a` to `b`.
    pub fn intersects(&self, a: &Point, b: &Point) -> (r: bool)
        requires
            a.seg_bounded(),
            b.seg_bounded(),
            self.wf(),
        ensures
            r == seg_intersects_rect(*a, *b, self.rect),
    {
        seg_intersects_rect_exec(a, b, &self.rect)
    }
}

/// A collection of obstacles keyed by `ObstacleId`.
#[derive(Clone, Debug)]
pub struct ObstacleSet {
    pub obstacles: Vec<Obstacle>,
}

/// Some obstacle of the sequence contains the point.
pub open spec fn seq_contains_point(obs: Seq<Obstacle>, p: Point) -> bool {
    exists|k: int| 0 <= k < obs.len() && in_rect(p, obs[k].rect)
}

/// Some obstacle of the sequence meets the segment.
pub open spec fn seq_intersects_seg(obs: Seq<Obstacle>, a: Point, b: Point) -> bool {
    exists|k: int| 0 <= k < obs.len() && seg_intersects_rect(a, b, obs[k].rect)
}

/// All identifiers in the sequence are distinct.
pub open spec fn ids_distinct(obs: Seq<Obstacle>) -> bool {
    forall|k1: int, k2: int|
        0 <= k1 < k2 < obs.len() ==> obs[k1].id_spec() != obs[k2].id_spec()
}

impl ObstacleSet {
    pub open spec fn wf(self) -> bool {
        forall|k: int| 0 <= k < self.obstacles@.len() ==> (#[trigger] self.obstacles@[k]).wf()
    }

    /// An empty set.
    pub fn new() -> (s: ObstacleSet)
        ensures
            s.obstacles@.len() == 0,
            s.wf(),
    {
        ObstacleSet { obstacles: Vec::new() }
    }

    /// Wraps a list of obstacles.
    pub fn from_vec(obstacles: Vec<Obstacle>) -> (s: ObstacleSet)
        ensures
            s.obstacles == obstacles,
    {
        ObstacleSet { obstacles }
    }

    /// Any obstacle contains the point.
    pub fn contains(&self, point: &Point) -> (r: bool)
        ensures
            r == seq_contains_point(self.obstacles@, *point),
    {
        let n = self.obstacles.len();
        let mut k: usize = 0;
        while k < n
            invariant
                n == self.obstacles@.len(),
                k <= n,
                forall|j: int| 0 <= j < k ==> !in_rect(*point, self.obstacles@[j].rect),
            decreases n - k,
        {
            if self.obstacles[k].contains(point) {
                return true;
            }
            k = k + 1;
        }
        false
    }

    /// Any obstacle meets the closed segment from `a` to `b`.
    pub fn intersects(&self, a: &Point, b: &Point) -> (r: bool)
        requires
            a.seg_bounded(),
            b.seg_bounded(),
            self.wf(),
        ensures
            r == seq_intersects_seg(self.obstacles@, *a, *b),
    {
        let n = self.obstacles.len();
        let mut k: usize = 0;
        while k < n
            invariant
                n == self.obstacles@.len(),
                k <= n,
                a.seg_bounded(),
                b.seg_bounded(),
                self.wf(),
                forall|j: int| 0 <= j < k ==> !seg_intersects_rect(*a, *b, self.obstacles@[j].rect),
            decreases n - k,
        {
            if self.obstacles[k].intersects(a, b) {
                return true;
            }
            k = k + 1;
        }
        false
    }

    /// Adds the obstacle; an already-present identifier has its obstacle
    /// replaced silently.
    pub fn add(&mut self, obstacle: Obstacle)
        ensures
            (forall|k: int| 0 <= k < old(self).obstacles@.len()
                ==> (#[trigger] old(self).obstacles@[k]).id_spec() != obstacle.id_spec())
                ==> final(self).obstacles@ == old(self).obstacles@.push(obstacle),
            (exists|k: int| 0 <= k < old(self).obstacles@.len()
                && (#[trigger] old(self).obstacles@[k]).id_spec() == obstacle.id_spec())
                ==> (exists|k: int| 0 <= k < old(self).obstacles@.len()
                    && old(self).obstacles@[k].id_spec() == obstacle.id_spec()
                    && final(self).obstacles@ == old(self).obstacles@.update(k, obstacle)),
    {
        let n = self.obstacles.len();
        let mut k: usize = 0;
        while k < n
            invariant
                n == self.obstacles@.len(),
                k <= n,
                self == old(self),
                forall|j: int| 0 <= j < k
                    ==> (#[trigger] self.obstacles@[j]).id_spec() != obstacle.id_spec(),
            decreases n - k,
        {
            if self.obstacles[k].id() == obstacle.id() {
                self.obstacles.set(k, obstacle);
                return;
            }
            k = k + 1;
        }
        self.obstacles.push(obstacle);
    }

    /// Removes the given obstacle, keyed by its identifier; an absent
    /// identifier is a no-op.
    pub fn remove(&mut self, obstacle: &Obstacle)
        ensures
            final(self).obstacles@
                == old(self).obstacles@.filter(|o: Obstacle| o.id_spec() != obstacle.id_spec()),
    {
        self.remove_by_id(obstacle.id());
    }

    /// Removes the obstacle with the given identifier, if present.
    pub fn remove_by_id(&mut self, oid: ObstacleId)
        ensures
            final(self).obstacles@
                == old(self).obstacles@.filter(|o: Obstacle| o.id_spec() != oid),
    {
        let n = self.obstacles.len();
        let mut kept: Vec<Obstacle> = Vec::new();
        let mut k: usize = 0;
        proof {
            assert(self.obstacles@.subrange(0, 0)
                .filter(|x: Obstacle| x.id_spec() != oid) =~= Seq::<Obstacle>::empty()) by {
                reveal(Seq::filter);
            }
        }
        while k < n
            invariant
                n == self.obstacles@.len(),
                k <= n,
                kept@ == self.obstacles@.subrange(0, k as int)
                    .filter(|o: Obstacle| o.id_spec() != oid),
            decreases n - k,
        {
            let o = self.obstacles[k];
            proof {
                let pred = |x: Obstacle| x.id_spec() != oid;
                let s = self.obstacles@.subrange(0, k as int + 1);
                reveal(Seq::filter);
                assert(s.drop_last() =~= self.obstacles@.subrange(0, k as int));
                assert(s.last() == o);
                assert(s.filter(pred) == if pred(o) {
                    s.drop_last().filter(pred).push(o)
                } else {
                    s.drop_last().filter(pred)
                });
            }
            if !(o.id() == oid) {
                kept.push(o);
            }
            k = k + 1;
        }
        proof {
            assert(self.obstacles@.subrange(0, n as int) =~= self.obstacles@);
        }
        self.obstacles = kept;
    }
}

} // verus!
