//! Spatial collision detection for 2D games: axis-aligned rectangles on an
//! integer grid, a static quadtree over a fixed world, and the per-tick
//! collision query built on both.

pub mod aabb;
pub mod collision;
pub mod collision_laws;
pub mod first_match;
pub mod full_scan;
pub mod node_set;
pub mod random;
pub mod rect2d;
pub mod spatial_index;
pub mod static_quadtree;
pub mod tree_laws;
pub mod tree_layout;
pub mod tree_structure;

pub use aabb::AxisAlignedBoundingBox;
pub use collision::{check_collisions, Body, OnCollision};
pub use first_match::collisions;
pub use full_scan::{collisions_AABB, CollisionPass};
pub use random::{RandomNumberGenerator, RandomPlugin};
pub use rect2d::{Point, Rect2D};
pub use static_quadtree::{StaticQuadTree, StaticQuadTreeNode};
