//! A region quadtree over a square domain of unsigned integer coordinates.
//!
//! The tree owns its nodes outright; a node is named by its path from the root,
//! one quadrant index per level (0 top-left, 1 top-right, 2 bottom-right,
//! 3 bottom-left). Observers are identified by number and attached per node;
//! each change is delivered to the observers from the changed node up to the
//! root, nearest first, as notifications that the caller takes from the tree.

use vstd::prelude::*;

pub mod events;
pub mod geometry;
pub mod laws;
pub mod node;
pub mod quadtree;
pub mod update;

pub use events::{EventType, Notification};
pub use geometry::{Point2, AABB2};
pub use node::{Classification, Node, QuadNode};
pub use quadtree::RegionQuadtree;
