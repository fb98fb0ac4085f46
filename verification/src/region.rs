//! Axis-aligned rectangles over the index space, and how one is cut in four.

use vstd::prelude::*;
use crate::coord::{clamp_i32, saturate, Coord};

verus! {

/// One of the four parts a region is cut into at its midpoint. West and
/// south are the low sides of the x and y axes.
#[derive(Clone, Copy, Debug, PartialEq, Eq, Hash, Structural)]
pub enum Quadrant {
    SouthWest,
    SouthEast,
    NorthWest,
    NorthEast,
}

impl Quadrant {
    /// Whether the quadrant lies on the high side of the x axis.
    pub open spec fn is_east(self) -> bool {
        self == Quadrant::SouthEast || self == Quadrant::NorthEast
    }

    /// Whether the quadrant lies on the high side of the y axis.
    pub open spec fn is_north(self) -> bool {
        self == Quadrant::NorthWest || self == Quadrant::NorthEast
    }
}

/// The borders of a region that a point has come close to.
#[derive(Clone, Copy, Debug, PartialEq, Eq, Hash, Structural)]
pub struct Sides {
    pub west: bool,
    pub east: bool,
    pub south: bool,
    pub north: bool,
}

/// A rectangle with both borders included. Operations never change a
/// region; each returns a new one.
#[derive(Clone, Copy, Debug, PartialEq, Eq, Hash, Structural)]
pub struct Region {
    pub min: Coord,
    pub max: Coord,
}

impl Region {
    /// The corners are in order on both axes.
    pub open spec fn wf(self) -> bool {
        self.min.x <= self.max.x && self.min.y <= self.max.y
    }

    /// What `new` computes.
    pub open spec fn spec_new(a: Coord, b: Coord) -> Region {
        Region {
            min: Coord {
                x: if a.x <= b.x { a.x } else { b.x },
                y: if a.y <= b.y { a.y } else { b.y },
            },
            max: Coord {
                x: if a.x <= b.x { b.x } else { a.x },
                y: if a.y <= b.y { b.y } else { a.y },
            },
        }
    }

    /// The region spanned by two corners, given in any order.
    pub fn new(a: Coord, b: Coord) -> (r: Region)
        ensures
            r == Region::spec_new(a, b),
            r.wf(),
    {
        Region {
            min: Coord {
                x: if a.x <= b.x { a.x } else { b.x },
                y: if a.y <= b.y { a.y } else { b.y },
            },
            max: Coord {
                x: if a.x <= b.x { b.x } else { a.x },
                y: if a.y <= b.y { b.y } else { a.y },
            },
        }
    }

    /// What `around` computes.
    pub open spec fn spec_around(center: Coord, size: Coord) -> Region {
        Region::spec_new(
            center.spec_minus(size.spec_divided_by(2)),
            center.spec_plus(size.spec_divided_by(2)),
        )
    }

    /// The region that reaches half of `size` from `center` to every
    /// side, on each axis by the half of that component of `size`.
    pub fn around(center: Coord, size: Coord) -> (r: Region)
        ensures
            r == Region::spec_around(center, size),
            r.wf(),
    {
        let half = size.divided_by(2);
        Region::new(center.minus(half), center.plus(half))
    }

    /// Whether `p` lies in the region, borders included.
    pub open spec fn spec_contains(self, p: Coord) -> bool {
        self.min.x <= p.x <= self.max.x && self.min.y <= p.y <= self.max.y
    }

    /// Whether `p` lies in the region, borders included.
    pub fn contains(&self, p: Coord) -> (r: bool)
        ensures
            r == self.spec_contains(p),
    {
        self.min.x <= p.x && p.x <= self.max.x && self.min.y <= p.y && p.y <= self.max.y
    }

    /// Whether the closed ranges of the two regions overlap on both axes.
    pub open spec fn spec_intersects(self, other: Region) -> bool {
        self.min.x <= other.max.x && other.min.x <= self.max.x && self.min.y <= other.max.y
            && other.min.y <= self.max.y
    }

    /// Whether the two regions share a point. A shared border counts.
    pub fn intersects(&self, other: &Region) -> (r: bool)
        ensures
            r == self.spec_intersects(*other),
    {
        self.min.x <= other.max.x && other.min.x <= self.max.x && self.min.y <= other.max.y
            && other.min.y <= self.max.y
    }

    /// What `with_margin` computes.
    pub open spec fn spec_with_margin(self, m: i32) -> Region {
        Region::spec_new(
            Coord {
                x: clamp_i32(self.min.x - m) as i32,
                y: clamp_i32(self.min.y - m) as i32,
            },
            Coord {
                x: clamp_i32(self.max.x + m) as i32,
                y: clamp_i32(self.max.y + m) as i32,
            },
        )
    }

    /// The region grown by `m` on every side. A negative `m` shrinks it;
    /// corners that pass each other are put back in order. A side that
    /// would leave the index space stays at its border.
    pub fn with_margin(&self, m: i32) -> (r: Region)
        ensures
            r == self.spec_with_margin(m),
            r.wf(),
    {
        let low = Coord::clamped(self.min.x as i64 - m as i64, self.min.y as i64 - m as i64);
        let high = Coord::clamped(self.max.x as i64 + m as i64, self.max.y as i64 + m as i64);
        Region::new(low, high)
    }

    /// What `midpoint` computes: the mean of the corners, rounded down.
    pub open spec fn spec_midpoint(self) -> Coord {
        Coord {
            x: ((self.min.x + self.max.x) / 2) as i32,
            y: ((self.min.y + self.max.y) / 2) as i32,
        }
    }

    /// The point where the region is cut in four.
    pub fn midpoint(&self) -> (c: Coord)
        ensures
            c == self.spec_midpoint(),
    {
        Coord { x: mean(self.min.x, self.max.x), y: mean(self.min.y, self.max.y) }
    }

    /// What `nearest` computes.
    pub open spec fn spec_nearest(self, p: Coord) -> Coord {
        Coord {
            x: if p.x < self.min.x {
                self.min.x
            } else if p.x > self.max.x {
                self.max.x
            } else {
                p.x
            },
            y: if p.y < self.min.y {
                self.min.y
            } else if p.y > self.max.y {
                self.max.y
            } else {
                p.y
            },
        }
    }

    /// The point of the region that is nearest to `p`: `p` itself where
    /// the region contains it.
    pub fn nearest(&self, p: Coord) -> (c: Coord)
        ensures
            c == self.spec_nearest(p),
            self.wf() ==> self.spec_contains(c),
            self.spec_contains(p) ==> c == p,
    {
        Coord {
            x: if p.x < self.min.x {
                self.min.x
            } else if p.x > self.max.x {
                self.max.x
            } else {
                p.x
            },
            y: if p.y < self.min.y {
                self.min.y
            } else if p.y > self.max.y {
                self.max.y
            } else {
                p.y
            },
        }
    }

    /// The quadrant that `p` is filed under: a point on a split line
    /// belongs to the high side.
    pub open spec fn spec_quadrant_of(self, p: Coord) -> Quadrant {
        let mid = self.spec_midpoint();
        if p.x >= mid.x {
            if p.y >= mid.y {
                Quadrant::NorthEast
            } else {
                Quadrant::SouthEast
            }
        } else {
            if p.y >= mid.y {
                Quadrant::NorthWest
            } else {
                Quadrant::SouthWest
            }
        }
    }

    /// The quadrant that `p` is filed under: a point on a split line
    /// belongs to the high side.
    pub fn quadrant_of(&self, p: Coord) -> (k: Quadrant)
        ensures
            k == self.spec_quadrant_of(p),
    {
        let mid = self.midpoint();
        if p.x >= mid.x {
            if p.y >= mid.y {
                Quadrant::NorthEast
            } else {
                Quadrant::SouthEast
            }
        } else {
            if p.y >= mid.y {
                Quadrant::NorthWest
            } else {
                Quadrant::SouthWest
            }
        }
    }

    /// The part of the region on the `k` side of its midpoint, the split
    /// lines included.
    pub open spec fn spec_quadrant(self, k: Quadrant) -> Region {
        let mid = self.spec_midpoint();
        Region {
            min: Coord {
                x: if k.is_east() { mid.x } else { self.min.x },
                y: if k.is_north() { mid.y } else { self.min.y },
            },
            max: Coord {
                x: if k.is_east() { self.max.x } else { mid.x },
                y: if k.is_north() { self.max.y } else { mid.y },
            },
        }
    }

    /// The part of the region on the `k` side of its midpoint, the split
    /// lines included.
    pub fn quadrant(&self, k: Quadrant) -> (r: Region)
        ensures
            r == self.spec_quadrant(k),
            self.wf() ==> r.wf(),
    {
        let mid = self.midpoint();
        let east = match k {
            Quadrant::SouthEast | Quadrant::NorthEast => true,
            _ => false,
        };
        let north = match k {
            Quadrant::NorthWest | Quadrant::NorthEast => true,
            _ => false,
        };
        Region {
            min: Coord {
                x: if east { mid.x } else { self.min.x },
                y: if north { mid.y } else { self.min.y },
            },
            max: Coord {
                x: if east { self.max.x } else { mid.x },
                y: if north { self.max.y } else { mid.y },
            },
        }
    }

    /// What `sides_within` computes.
    pub open spec fn spec_sides_within(self, p: Coord, margin: i32) -> Sides {
        Sides {
            west: p.x < self.min.x + margin,
            east: p.x > self.max.x - margin,
            south: p.y < self.min.y + margin,
            north: p.y > self.max.y - margin,
        }
    }

    /// The borders that `p` is less than `margin` inside of, or beyond.
    /// A body that heads for such a border is due to turn.
    pub fn sides_within(&self, p: Coord, margin: i32) -> (s: Sides)
        ensures
            s == self.spec_sides_within(p, margin),
    {
        Sides {
            west: (p.x as i64) < self.min.x as i64 + margin as i64,
            east: (p.x as i64) > self.max.x as i64 - margin as i64,
            south: (p.y as i64) < self.min.y as i64 + margin as i64,
            north: (p.y as i64) > self.max.y as i64 - margin as i64,
        }
    }

    /// The components of the two corners: low x, low y, high x, high y.
    pub fn corners(&self) -> (c: (i32, i32, i32, i32))
        ensures
            c == (self.min.x, self.min.y, self.max.x, self.max.y),
    {
        (self.min.x, self.min.y, self.max.x, self.max.y)
    }
}

/// The mean of two components, rounded down.
fn mean(a: i32, b: i32) -> (r: i32)
    ensures
        r as int == (a + b) / 2,
{
    let sum: i64 = a as i64 + b as i64;
    if sum >= 0 {
        saturate(sum / 2)
    } else {
        saturate(-((1 - sum) / 2))
    }
}

/// Two regions in order intersect exactly when some point lies in both.
pub proof fn lemma_intersects_iff_shared_point(a: Region, b: Region)
    requires
        a.wf(),
        b.wf(),
    ensures
        a.spec_intersects(b) <==> exists|p: Coord| a.spec_contains(p) && b.spec_contains(p),
{
    if a.spec_intersects(b) {
        let p = Coord {
            x: if a.min.x >= b.min.x { a.min.x } else { b.min.x },
            y: if a.min.y >= b.min.y { a.min.y } else { b.min.y },
        };
        assert(a.spec_contains(p) && b.spec_contains(p));
    }
}

/// The four quadrants of a region cover it and nothing else, and every
/// point of it is filed under one quadrant, which contains it. Two
/// quadrants share only points of a split line, and those are filed under
/// the high side.
pub proof fn lemma_quadrants_partition(r: Region, p: Coord)
    requires
        r.wf(),
    ensures
        forall|k: Quadrant| #[trigger] r.spec_quadrant(k).wf(),
        r.spec_contains(p) <==> exists|k: Quadrant| #[trigger] r.spec_quadrant(k).spec_contains(p),
        r.spec_contains(p) ==> r.spec_quadrant(r.spec_quadrant_of(p)).spec_contains(p),
        forall|j: Quadrant, k: Quadrant|
            j != k && #[trigger] r.spec_quadrant(j).spec_contains(p) && #[trigger] r.spec_quadrant(
                k,
            ).spec_contains(p) ==> p.x == r.spec_midpoint().x || p.y == r.spec_midpoint().y,
        p.x == r.spec_midpoint().x ==> r.spec_quadrant_of(p).is_east(),
        p.y == r.spec_midpoint().y ==> r.spec_quadrant_of(p).is_north(),
{
    if r.spec_contains(p) {
        assert(r.spec_quadrant(r.spec_quadrant_of(p)).spec_contains(p));
    }
}

/// Margins grow with their size: the region with the smaller margin lies
/// within the one with the larger, as long as the two margins together do
/// not cut away more than the region's extent on either axis. (Past that,
/// the smaller margin turns the region inside out into a box that the
/// larger one no longer covers.)
pub proof fn lemma_margin_monotonic(r: Region, m1: i32, m2: i32, p: Coord)
    requires
        r.wf(),
        m1 < m2,
        (r.max.x - r.min.x) + m1 + m2 >= 0,
        (r.max.y - r.min.y) + m1 + m2 >= 0,
        r.spec_with_margin(m1).spec_contains(p),
    ensures
        r.spec_with_margin(m2).spec_contains(p),
{
}

} // verus!
