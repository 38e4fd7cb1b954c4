//! An in-memory spatial index: a quadtree over a bounded two-dimensional
//! region with integer coordinates. Items carrying a position are inserted
//! with `put`; `query` returns references to every item inside a given
//! rectangle, pruning subtrees by bounding-rectangle intersection. A node
//! splits into four quadrant children the first time it overflows its
//! capacity, unless it already sits at its maximum depth.

pub mod geometry;
pub mod item;
pub mod tree;

pub use geometry::Point;
pub use geometry::Rectangle;
pub use item::Item;
pub use item::Position;
pub use tree::Children;
pub use tree::Options;
pub use tree::Quadtree;
