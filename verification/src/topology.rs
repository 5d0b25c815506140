//! The level-topology validator: capacity limits, player and exit counts,
//! bounding-box size and vertex counts, checked in that order with the
//! first failure reported. Box arithmetic runs in exact IEEE doubles over
//! the stored coordinate bit patterns.

use vstd::prelude::*;

use crate::fp::{fp_add, fp_add_exec, fp_gt, fp_gt_exec, fp_neg, fp_neg_exec, fp_sub};
use crate::lev::{Level, LevelData, ObjectType, PolygonData};
use crate::shared::Position;

verus! {

/// The bit pattern of the double 188, the largest allowed width and height.
pub const B188: u64 = 0x4067_8000_0000_0000;

/// Topology related errors.
#[derive(Debug, PartialEq)]
pub enum TopologyError {
    /// Polygon has too few vertices, with the list of the offending
    /// polygons' indexes.
    InvalidVertexCount(Vec<usize>),
    /// Too many objects, with the excess object count.
    MaxObjects(usize),
    /// Too many pictures, with the excess picture count.
    MaxPictures(usize),
    /// Too many polygons, with the excess polygon count.
    MaxPolygons(usize),
    /// Too many or too few players, with the player count.
    InvalidPlayerCount(usize),
    /// Missing exit.
    MissingExit,
    /// Level is too wide, with the excess width as a double bit pattern.
    TooWide(u64),
    /// Level is too high, with the excess height as a double bit pattern.
    TooHigh(u64),
}

/// How many objects of the sequence are players.
pub open spec fn player_count(s: Seq<crate::lev::ObjectData>) -> int
    decreases s.len(),
{
    if s.len() == 0 {
        0
    } else {
        player_count(s.drop_last()) + if s.last().object_type is Player {
            1int
        } else {
            0int
        }
    }
}

/// How many objects of the sequence are exits.
pub open spec fn exit_count(s: Seq<crate::lev::ObjectData>) -> int
    decreases s.len(),
{
    if s.len() == 0 {
        0
    } else {
        exit_count(s.drop_last()) + if s.last().object_type is Exit {
            1int
        } else {
            0int
        }
    }
}

/// One fold step of the bounding box: widens the running extrema by one
/// vertex, comparing in IEEE double order.
pub open spec fn box_step(acc: (u64, u64, u64, u64), v: Position<u64>) -> (u64, u64, u64, u64) {
    (
        if fp_gt(v.x, acc.0) {
            v.x
        } else {
            acc.0
        },
        if fp_gt(acc.1, v.x) {
            v.x
        } else {
            acc.1
        },
        if fp_gt(v.y, acc.2) {
            v.y
        } else {
            acc.2
        },
        if fp_gt(acc.3, v.y) {
            v.y
        } else {
            acc.3
        },
    )
}

/// The extrema `(max_x, min_x, max_y, min_y)` over one polygon's vertices,
/// from the given start.
pub open spec fn poly_box(acc: (u64, u64, u64, u64), s: Seq<Position<u64>>) -> (u64, u64, u64, u64)
    decreases s.len(),
{
    if s.len() == 0 {
        acc
    } else {
        box_step(poly_box(acc, s.drop_last()), s.last())
    }
}

/// The extrema over all polygons, seeded with zero: an empty level has a
/// degenerate zero box.
pub open spec fn level_box_from(acc: (u64, u64, u64, u64), s: Seq<PolygonData>) -> (
    u64,
    u64,
    u64,
    u64,
)
    decreases s.len(),
{
    if s.len() == 0 {
        acc
    } else {
        poly_box(level_box_from(acc, s.drop_last()), s.last().vertices)
    }
}

/// The level's bounding-box extrema `(max_x, min_x, max_y, min_y)`.
pub open spec fn level_box(l: LevelData) -> (u64, u64, u64, u64) {
    level_box_from((0u64, 0u64, 0u64, 0u64), l.polygons)
}

/// The level's width: the bounding box's extent from the left-most to the
/// right-most vertex, in IEEE double arithmetic.
pub open spec fn level_width(l: LevelData) -> u64 {
    fp_sub(level_box(l).0, level_box(l).1)
}

/// The level's height, measured the same way over y.
pub open spec fn level_height(l: LevelData) -> u64 {
    fp_sub(level_box(l).2, level_box(l).3)
}

/// The indexes of polygons with fewer than three vertices.
pub open spec fn bad_polygons(s: Seq<PolygonData>) -> Seq<int> {
    Seq::new(s.len(), |i: int| i).filter(|i: int| s[i].vertices.len() < 3)
}

/// What checking the topology gives: the first failed rule in checking
/// order, or nothing.
pub open spec fn topology_spec(l: LevelData) -> Option<TopologyError> {
    if l.polygons.len() > 1000 {
        Some(TopologyError::MaxPolygons((l.polygons.len() - 1000) as usize))
    } else if l.objects.len() > 252 {
        Some(TopologyError::MaxObjects((l.objects.len() - 252) as usize))
    } else if l.pictures.len() > 5000 {
        Some(TopologyError::MaxPictures((l.pictures.len() - 5000) as usize))
    } else if player_count(l.objects) != 1 {
        Some(TopologyError::InvalidPlayerCount(player_count(l.objects) as usize))
    } else if exit_count(l.objects) < 1 {
        Some(TopologyError::MissingExit)
    } else if fp_gt(level_width(l), B188) {
        Some(TopologyError::TooWide(fp_sub(level_width(l), B188)))
    } else if fp_gt(level_height(l), B188) {
        Some(TopologyError::TooHigh(fp_sub(level_height(l), B188)))
    } else if bad_polygons(l.polygons).len() > 0 {
        Option::None  // stands for the vertex-count error; the payload is checked separately
    } else {
        Option::None
    }
}

/// Whether the vertex-count rule is the first to fail.
pub open spec fn vertex_rule_fails(l: LevelData) -> bool {
    &&& l.polygons.len() <= 1000
    &&& l.objects.len() <= 252
    &&& l.pictures.len() <= 5000
    &&& player_count(l.objects) == 1
    &&& exit_count(l.objects) >= 1
    &&& !fp_gt(level_width(l), B188)
    &&& !fp_gt(level_height(l), B188)
    &&& bad_polygons(l.polygons).len() > 0
}

impl Level {
    /// Width of level based on the left- and right-most vertices.
    pub fn width(&self) -> (r: u64)
        ensures
            r == level_width(self@),
    {
        let b = self.bounding_box();
        fp_add_exec(b.0, fp_neg_exec(b.1))
    }

    /// Height of level based on the top- and bottom-most vertices.
    pub fn height(&self) -> (r: u64)
        ensures
            r == level_height(self@),
    {
        let b = self.bounding_box();
        fp_add_exec(b.2, fp_neg_exec(b.3))
    }

    /// The bounding-box extrema `(max_x, min_x, max_y, min_y)` over all
    /// polygon vertices, seeded with zero.
    pub fn bounding_box(&self) -> (r: (u64, u64, u64, u64))
        ensures
            r == level_box(self@),
    {
        let ghost l = self@;
        let mut acc: (u64, u64, u64, u64) = (0, 0, 0, 0);
        let mut i: usize = 0;
        while i < self.polygons.len()
            invariant
                i <= self.polygons@.len(),
                l == self@,
                acc == level_box_from((0u64, 0u64, 0u64, 0u64), l.polygons.subrange(0, i as int)),
            decreases self.polygons@.len() - i,
        {
            let p = &self.polygons[i];
            let mut j: usize = 0;
            while j < p.vertices.len()
                invariant
                    j <= p.vertices@.len(),
                    p == &self.polygons@[i as int],
                    i < self.polygons@.len(),
                    l == self@,
                    acc == poly_box(
                        level_box_from(
                            (0u64, 0u64, 0u64, 0u64),
                            l.polygons.subrange(0, i as int),
                        ),
                        p.vertices@.subrange(0, j as int),
                    ),
                decreases p.vertices@.len() - j,
            {
                let v = p.vertices[j];
                let max_x = if fp_gt_exec(v.x, acc.0) {
                    v.x
                } else {
                    acc.0
                };
                let min_x = if fp_gt_exec(acc.1, v.x) {
                    v.x
                } else {
                    acc.1
                };
                let max_y = if fp_gt_exec(v.y, acc.2) {
                    v.y
                } else {
                    acc.2
                };
                let min_y = if fp_gt_exec(acc.3, v.y) {
                    v.y
                } else {
                    acc.3
                };
                proof {
                    assert(p.vertices@.subrange(0, j + 1).drop_last() =~= p.vertices@.subrange(
                        0,
                        j as int,
                    ));
                    assert(p.vertices@.subrange(0, j + 1).last() == v);
                }
                acc = (max_x, min_x, max_y, min_y);
                j += 1;
            }
            proof {
                assert(p.vertices@.subrange(0, p.vertices@.len() as int) =~= p.vertices@);
                assert(l.polygons.subrange(0, i + 1).drop_last() =~= l.polygons.subrange(
                    0,
                    i as int,
                ));
                assert(l.polygons.subrange(0, i + 1).last() == l.polygons[i as int]);
                assert(l.polygons[i as int] == self.polygons@[i as int]@);
            }
            i += 1;
        }
        proof {
            assert(l.polygons.subrange(0, l.polygons.len() as int) =~= l.polygons);
        }
        acc
    }

    /// Check topology of level: capacity limits, exactly one player, at
    /// least one exit, a bounding box no more than 188 units wide or high,
    /// and at least three vertices per polygon, failing on the first rule
    /// broken.
    pub fn check_topology(&self) -> (r: Result<(), TopologyError>)
        ensures
            match r {
                Ok(()) => topology_spec(self@) is None && !vertex_rule_fails(self@),
                Err(e) => match e {
                    TopologyError::InvalidVertexCount(v) => vertex_rule_fails(self@)
                        && v@.map_values(|x: usize| x as int) == bad_polygons(self@.polygons),
                    _ => topology_spec(self@) == Some(e),
                },
            },
    {
        let ghost l = self@;
        if self.polygons.len() > 1000 {
            return Err(TopologyError::MaxPolygons(self.polygons.len() - 1000));
        }
        if self.objects.len() > 252 {
            return Err(TopologyError::MaxObjects(self.objects.len() - 252));
        }
        if self.pictures.len() > 5000 {
            return Err(TopologyError::MaxPictures(self.pictures.len() - 5000));
        }
        let mut players: usize = 0;
        let mut exits: usize = 0;
        let mut i: usize = 0;
        while i < self.objects.len()
            invariant
                i <= self.objects@.len(),
                l == self@,
                players == player_count(l.objects.subrange(0, i as int)),
                exits == exit_count(l.objects.subrange(0, i as int)),
                players <= i && exits <= i,
            decreases self.objects@.len() - i,
        {
            let is_player = match self.objects[i].object_type {
                ObjectType::Player => true,
                _ => false,
            };
            let is_exit = match self.objects[i].object_type {
                ObjectType::Exit => true,
                _ => false,
            };
            if is_player {
                players += 1;
            }
            if is_exit {
                exits += 1;
            }
            proof {
                assert(l.objects.subrange(0, i + 1).drop_last() =~= l.objects.subrange(
                    0,
                    i as int,
                ));
                assert(l.objects.subrange(0, i + 1).last() == l.objects[i as int]);
                assert(l.objects[i as int] == self.objects@[i as int]@);
            }
            i += 1;
        }
        proof {
            assert(l.objects.subrange(0, l.objects.len() as int) =~= l.objects);
        }
        if players != 1 {
            return Err(TopologyError::InvalidPlayerCount(players));
        }
        if exits < 1 {
            return Err(TopologyError::MissingExit);
        }
        let w = self.width();
        if fp_gt_exec(w, B188) {
            return Err(TopologyError::TooWide(crate::fp::fp_add_exec(
                w,
                crate::fp::fp_neg_exec(B188),
            )));
        }
        let h = self.height();
        if fp_gt_exec(h, B188) {
            return Err(TopologyError::TooHigh(crate::fp::fp_add_exec(
                h,
                crate::fp::fp_neg_exec(B188),
            )));
        }
        // Vertex counts: collect the indexes of too-small polygons.
        let mut bad: Vec<usize> = Vec::new();
        let mut k: usize = 0;
        while k < self.polygons.len()
            invariant
                k <= self.polygons@.len(),
                l == self@,
                bad@.map_values(|x: usize| x as int) =~= Seq::new(k as nat, |q: int| q).filter(
                    |q: int| l.polygons[q].vertices.len() < 3,
                ),
            decreases self.polygons@.len() - k,
        {
            let ghost pre = bad@.map_values(|x: usize| x as int);
            if self.polygons[k].vertices.len() < 3 {
                bad.push(k);
            }
            proof {
                let small = Seq::new(k as nat, |q: int| q);
                let idx = Seq::new((k + 1) as nat, |q: int| q);
                assert(idx =~= small.push(k as int));
                small.lemma_filter_push(k as int, |q: int| l.polygons[q].vertices.len() < 3);
                assert(l.polygons[k as int] == self.polygons@[k as int]@);
                if l.polygons[k as int].vertices.len() < 3 {
                    assert(bad@.map_values(|x: usize| x as int) =~= pre.push(k as int));
                } else {
                    assert(bad@.map_values(|x: usize| x as int) =~= pre);
                }
            }
            k += 1;
        }
        if bad.len() > 0 {
            return Err(TopologyError::InvalidVertexCount(bad));
        }
        Ok(())
    }
}

} // verus!
