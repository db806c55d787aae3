//! A verified tile-world core: the map-document model, the diamond
//! isometric coordinate transform, collision-grid extraction, the
//! layer reconciler, and the movement gate that consumes the
//! collision grid.

pub mod collision;
pub mod document;
pub mod layers;
pub mod movement;
pub mod reconcile;
pub mod transform;
