//! Constraint-dependency and resolution engine for planar geometric
//! constructions.
//!
//! A sketch holds points and lines whose definitions may refer to other
//! objects ("this point sits at parameter `t` along that line", "this point
//! is the intersection of two lines").  The engine keeps a dependency graph
//! over those definitions, recomputes concrete coordinates in dependency
//! order after every edit, and maintains a spatial index for snapping and
//! hit-testing.  All coordinates are exact integers within a bounded
//! workspace, so every computation here is exact and fully specified.

pub mod geom;
pub mod graph;
pub mod interact;
pub mod snap;
pub mod solver;
pub mod spatial;
pub mod store;
pub mod viewport;

pub use geom::Vector2;
