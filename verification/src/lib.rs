//! A stateless, timeline-driven animation engine: the scene graph, its
//! entity hierarchy and its component registry.

pub mod scene;
pub mod story;
