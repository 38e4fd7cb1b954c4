//! Positioned items. The tree stores any type that can report a `Point`;
//! `Item` is the ready-made wrapper pairing a point with a borrowed datum.

use vstd::prelude::*;
use crate::geometry::Point;

verus! {

/// The capability the quadtree asks of its element type: a position.
pub trait Position {
    /// The position, as seen by specifications.
    spec fn spec_position(&self) -> Point;

    fn position(&self) -> (p: Point)
        ensures
            p == self.spec_position(),
    ;
}

/// A point together with a borrowed reference to caller-owned data.
/// The tree never owns or copies the data, only the coordinate pair.
#[derive(Debug)]
pub struct Item<'a, T> {
    pub point: Point,
    pub data: &'a T,
}

impl<'a, T> Item<'a, T> {
    pub fn new(point: Point, data: &'a T) -> (item: Self)
        ensures
            item.point == point,
            item.data == data,
    {
        Item { point, data }
    }

    pub fn data(&self) -> (d: &'a T)
        ensures
            d == self.data,
    {
        self.data
    }

    pub fn deref(&self) -> (d: &'a T)
        ensures
            d == self.data,
    {
        self.data
    }
}

impl<'a, T> Position for Item<'a, T> {
    open spec fn spec_position(&self) -> Point {
        self.point
    }

    fn position(&self) -> (p: Point) {
        self.point
    }
}

} // verus!
