use vstd::prelude::*;
use vstd::std_specs::cmp::PartialEqSpecImpl;
use crate::number::Number;

verus! {

/// A point of the plane.
#[derive(Clone, Copy, Debug)]
pub struct Point {
    pub x: Number,
    pub y: Number,
}

/// A circle, by its center and radius.
#[derive(Clone, Copy, Debug)]
pub struct Circle {
    pub center: Point,
    pub radius: Number,
}

/// The closed set of shapes that a canvas draws.
#[derive(Clone, Copy, Debug)]
pub enum Shapes {
    Circle(Circle),
}

impl PartialEq for Point {
    fn eq(&self, other: &Point) -> (r: bool) {
        self.x == other.x && self.y == other.y
    }
}

impl PartialEqSpecImpl for Point {
    open spec fn obeys_eq_spec() -> bool {
        true
    }

    open spec fn eq_spec(&self, other: &Point) -> bool {
        self.same(*other)
    }
}

impl PartialEq for Circle {
    fn eq(&self, other: &Circle) -> (r: bool) {
        self.center == other.center && self.radius == other.radius
    }
}

impl PartialEqSpecImpl for Circle {
    open spec fn obeys_eq_spec() -> bool {
        true
    }

    open spec fn eq_spec(&self, other: &Circle) -> bool {
        self.same(*other)
    }
}

impl PartialEq for Shapes {
    fn eq(&self, other: &Shapes) -> (r: bool) {
        match (self, other) {
            (Shapes::Circle(a), Shapes::Circle(b)) => a == b,
        }
    }
}

impl PartialEqSpecImpl for Shapes {
    open spec fn obeys_eq_spec() -> bool {
        true
    }

    open spec fn eq_spec(&self, other: &Shapes) -> bool {
        match (*self, *other) {
            (Shapes::Circle(a), Shapes::Circle(b)) => a.same(b),
        }
    }
}

impl Point {
    /// That the two points are equal: their coordinates are, as doubles.
    pub open spec fn same(self, other: Point) -> bool {
        self.x.same(other.x) && self.y.same(other.y)
    }

    /// The origin, both coordinates positive zero.
    pub open spec fn origin() -> Point {
        Point { x: Number::zero(), y: Number::zero() }
    }

    /// The point at `x` and `y`.
    pub fn new(x: Number, y: Number) -> (r: Point)
        ensures
            r == (Point { x, y }),
    {
        Point { x, y }
    }
}

impl Default for Point {
    fn default() -> (r: Point)
        ensures
            r == Point::origin(),
    {
        Point { x: Number { bits: 0 }, y: Number { bits: 0 } }
    }
}

impl Circle {
    /// That the two circles are equal: their centers and their radii are.
    pub open spec fn same(self, other: Circle) -> bool {
        self.center.same(other.center) && self.radius.same(other.radius)
    }

    /// The circle of radius zero at the origin.
    pub open spec fn empty() -> Circle {
        Circle { center: Point::origin(), radius: Number::zero() }
    }

    /// The circle around `center` with radius `radius`.
    pub fn new(center: Point, radius: Number) -> (r: Circle)
        ensures
            r == (Circle { center, radius }),
    {
        Circle { center, radius }
    }
}

impl Default for Circle {
    fn default() -> (r: Circle)
        ensures
            r == Circle::empty(),
    {
        Circle { center: Point { x: Number { bits: 0 }, y: Number { bits: 0 } }, radius: Number { bits: 0 } }
    }
}

impl Default for Shapes {
    fn default() -> (r: Shapes)
        ensures
            r == Shapes::Circle(Circle::empty()),
    {
        Shapes::Circle(Circle { center: Point { x: Number { bits: 0 }, y: Number { bits: 0 } }, radius: Number { bits: 0 } })
    }
}

impl Shapes {
    /// The circle that this shape is.
    pub fn get_shape(&self) -> (r: &Circle)
        ensures
            *self == Shapes::Circle(*r),
    {
        match self {
            Shapes::Circle(shape) => shape,
        }
    }
}

} // verus!
