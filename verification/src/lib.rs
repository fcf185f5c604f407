//! Incremental hierarchical-transform propagation for a scene graph held as
//! flat, relation-tagged records in a component store.
//!
//! Each entity carries a local transform (translation, rotation, scale) and a
//! derived world-space matrix. One tick finds the entities whose local
//! transform or parent relation changed, gathers them and their descendants
//! into a forest of disjoint trees, and recomputes exactly those world
//! matrices top-down.

pub mod math;
pub mod transform;
pub mod world;
pub mod systems;
