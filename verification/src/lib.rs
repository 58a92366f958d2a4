//! A declarative UI element library with a verified retained-tree core.
//!
//! Application code describes the desired widget tree each frame as an
//! immutable value (an [`elements::Elem`]); the library reconciles that
//! description against a persistent retained tree of [`node::Node`]s,
//! preserving per-node state, layout results and interaction state across
//! frames. Pointer input is hit-tested and routed through the retained tree
//! with implicit capture; rendering walks the tree and emits plain draw
//! commands for an external sink.

pub mod channel;
pub mod elements;
pub mod geom;
pub mod input;
pub mod laws;
pub mod node;
pub mod shape;
