//! Points of the index space.

use vstd::prelude::*;

verus! {

/// The nearest value to `v` that an `i32` can hold.
pub open spec fn clamp_i32(v: int) -> int {
    if v < i32::MIN as int {
        i32::MIN as int
    } else if v > i32::MAX as int {
        i32::MAX as int
    } else {
        v
    }
}

/// The quotient of `a` by `d`, rounded toward zero.
pub open spec fn quotient_toward_zero(a: int, d: int) -> int
    recommends
        d != 0,
{
    if a >= 0 && d > 0 {
        a / d
    } else if a < 0 && d > 0 {
        -((-a) / d)
    } else if a >= 0 {
        -(a / (-d))
    } else {
        (-a) / (-d)
    }
}

/// Brings a wide integer into the range of a coordinate component.
pub fn saturate(v: i64) -> (r: i32)
    ensures
        r as int == clamp_i32(v as int),
{
    if v < i32::MIN as i64 {
        i32::MIN
    } else if v > i32::MAX as i64 {
        i32::MAX
    } else {
        v as i32
    }
}

/// A point of the index space. Its components are exact integers, so that
/// region bounds and split lines never drift.
#[derive(Clone, Copy, Debug, PartialEq, Eq, Hash, Structural)]
pub struct Coord {
    pub x: i32,
    pub y: i32,
}

impl Coord {
    /// The point with the given components.
    pub fn new(x: i32, y: i32) -> (c: Coord)
        ensures
            c.x == x,
            c.y == y,
    {
        Coord { x, y }
    }

    /// The point nearest to `(x, y)` among those the index space holds:
    /// each component is clamped, never wrapped.
    pub fn clamped(x: i64, y: i64) -> (c: Coord)
        ensures
            c.x as int == clamp_i32(x as int),
            c.y as int == clamp_i32(y as int),
    {
        Coord { x: saturate(x), y: saturate(y) }
    }

    /// What `plus` computes.
    pub open spec fn spec_plus(self, other: Coord) -> Coord {
        Coord {
            x: clamp_i32(self.x + other.x) as i32,
            y: clamp_i32(self.y + other.y) as i32,
        }
    }

    /// Component-wise sum; a component that leaves the index space stays at
    /// its border.
    pub fn plus(self, other: Coord) -> (c: Coord)
        ensures
            c == self.spec_plus(other),
    {
        Coord {
            x: saturate(self.x as i64 + other.x as i64),
            y: saturate(self.y as i64 + other.y as i64),
        }
    }

    /// What `minus` computes.
    pub open spec fn spec_minus(self, other: Coord) -> Coord {
        Coord {
            x: clamp_i32(self.x - other.x) as i32,
            y: clamp_i32(self.y - other.y) as i32,
        }
    }

    /// Component-wise difference; a component that leaves the index space
    /// stays at its border.
    pub fn minus(self, other: Coord) -> (c: Coord)
        ensures
            c == self.spec_minus(other),
    {
        Coord {
            x: saturate(self.x as i64 - other.x as i64),
            y: saturate(self.y as i64 - other.y as i64),
        }
    }

    /// What `divided_by` computes.
    pub open spec fn spec_divided_by(self, d: i32) -> Coord
        recommends
            d != 0,
    {
        Coord {
            x: clamp_i32(quotient_toward_zero(self.x as int, d as int)) as i32,
            y: clamp_i32(quotient_toward_zero(self.y as int, d as int)) as i32,
        }
    }

    /// Divides both components by `d`, rounding toward zero.
    pub fn divided_by(self, d: i32) -> (c: Coord)
        requires
            d != 0,
        ensures
            c == self.spec_divided_by(d),
    {
        Coord { x: divide(self.x, d), y: divide(self.y, d) }
    }
}

/// One component of `Coord::divided_by`.
fn divide(a: i32, d: i32) -> (r: i32)
    requires
        d != 0,
    ensures
        r as int == clamp_i32(quotient_toward_zero(a as int, d as int)),
{
    let wide_a: i64 = a as i64;
    let wide_d: i64 = d as i64;
    let size_a: i64 = if wide_a < 0 { -wide_a } else { wide_a };
    let size_d: i64 = if wide_d < 0 { -wide_d } else { wide_d };
    let size_q: i64 = size_a / size_d;
    assert(0 <= size_q <= size_a) by (nonlinear_arith)
        requires
            size_q == size_a / size_d,
            size_a >= 0,
            size_d > 0,
    ;
    if (wide_a < 0) == (wide_d < 0) {
        saturate(size_q)
    } else {
        saturate(-size_q)
    }
}

/// Clamping keeps the order of what it clamps: a conversion that ends in
/// `Coord::clamped` never swaps two positions on an axis.
pub proof fn lemma_clamp_monotonic(a: int, b: int)
    requires
        a <= b,
    ensures
        clamp_i32(a) <= clamp_i32(b),
{
}

} // verus!
