//! The capability contract a stored entity type must satisfy, and a
//! minimal entity type that satisfies it.

use vstd::prelude::*;
use crate::bound::Point;

verus! {

/// A stored value must expose a 2D position; the index never looks at
/// anything else in it.
pub trait Position {
    /// The entity's position, as specifications see it.
    spec fn spec_position(&self) -> Point;

    /// Returns the entity's position.
    fn position(&self) -> (p: Point)
        ensures
            p == self.spec_position(),
    ;
}

/// A bare point entity: an entity that is nothing but its position.
#[derive(Clone, Copy, PartialEq, Eq, Debug)]
pub struct Point2D {
    pub x: i64,
    pub y: i64,
}

impl Point2D {
    /// Builds the point entity at `(x, y)`.
    pub fn new(x: i64, y: i64) -> (p: Point2D)
        ensures
            p == (Point2D { x, y }),
    {
        Point2D { x, y }
    }
}

impl Position for Point2D {
    open spec fn spec_position(&self) -> Point {
        (self.x, self.y)
    }

    fn position(&self) -> (p: Point) {
        (self.x, self.y)
    }
}

} // verus!
