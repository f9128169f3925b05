//! Points in surface coordinates.
use vstd::prelude::*;

verus! {

/// A position in the coordinates of a surface.
#[derive(Clone, Copy, Debug, PartialEq, Eq, Structural)]
pub struct Point {
    pub x: i32,
    pub y: i32,
}

/// The size of an area in the coordinates of a surface.
#[derive(Clone, Copy, Debug, PartialEq, Eq, Structural)]
pub struct Extent {
    pub w: i32,
    pub h: i32,
}

/// An area in the coordinates of a surface.
#[derive(Clone, Copy, Debug, PartialEq, Eq, Structural)]
pub struct Rectangle {
    pub loc: Point,
    pub size: Extent,
}

/// The number that `x` stands for modulo 2^32, taken as an `i32`.
pub open spec fn wrap32(x: int) -> i32 {
    if x > i32::MAX {
        (x - 0x1_0000_0000) as i32
    } else if x < i32::MIN {
        (x + 0x1_0000_0000) as i32
    } else {
        x as i32
    }
}

impl Point {
    /// The sum of two positions, coordinate by coordinate, in two's complement.
    pub open spec fn plus(self, other: Point) -> Point {
        Point { x: wrap32(self.x + other.x), y: wrap32(self.y + other.y) }
    }

    /// The difference of two positions, coordinate by coordinate, in two's complement.
    pub open spec fn minus(self, other: Point) -> Point {
        Point { x: wrap32(self.x - other.x), y: wrap32(self.y - other.y) }
    }

    pub open spec fn spec_origin() -> Point {
        Point { x: 0, y: 0 }
    }

    /// The point at the given coordinates.
    pub fn new(x: i32, y: i32) -> (r: Point)
        ensures
            r == (Point { x, y }),
    {
        Point { x, y }
    }

    /// Moves a point by the coordinates of another one.
    pub fn translate(self, other: Point) -> (r: Point)
        ensures
            r == self.plus(other),
    {
        Point { x: self.x.wrapping_add(other.x), y: self.y.wrapping_add(other.y) }
    }

    /// Takes back a [`Point::translate`] by `other`.
    pub fn translate_back(self, other: Point) -> (r: Point)
        ensures
            r == self.minus(other),
    {
        Point { x: self.x.wrapping_sub(other.x), y: self.y.wrapping_sub(other.y) }
    }
}

/// Positions form a group under translation.
pub proof fn point_laws(a: Point, b: Point, c: Point)
    ensures
        a.plus(b).plus(c) == a.plus(b.plus(c)),
        a.plus(b).minus(b) == a,
        a.minus(b).plus(b) == a,
        a.plus(Point::spec_origin()) == a,
        Point::spec_origin().plus(a) == a,
{
}

} // verus!
