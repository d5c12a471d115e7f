//! A region quadtree over a bounded two-dimensional integer domain.
//!
//! The index stores point-like entities and answers rectangular region
//! queries, pruning subtrees whose bounds cannot intersect the query.

pub mod bound;
pub mod entity;
pub mod laws;
pub mod tree;

pub use bound::Bound;
pub use bound::Point;
pub use entity::Point2D;
pub use entity::Position;
pub use tree::CAPACITY;
pub use tree::QuadTree;
