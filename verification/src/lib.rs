//! A document tree and style-cascade engine for a structured vector-graphics
//! format: typed nodes in an arena, a top-down cascade that resolves each
//! node's computed style from its parent's, a draw dispatcher with per-node
//! failure isolation, and a bidirectional view over a node's children.

pub mod attributes;
pub mod error;
pub mod matrix;
pub mod node;
pub mod property_bag;
pub mod state;
pub mod surface;
