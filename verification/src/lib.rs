//! A library for lossless syntax trees, with machine-checked contracts.
//!
//! The crate holds the *green* layer: immutable, position-independent trees of nodes and tokens,
//! the interners that share equal subtrees, the builder that assembles trees from parser events,
//! and the bookkeeping of the pooled storage that compact trees can be placed in.

pub mod green;
pub mod text;
pub mod utility_types;

pub use crate::green::{
    Checkpoint, Children, GreenNode, GreenNodeBuilder, GreenNodeData, GreenToken, GreenTokenData,
    NodeCache, SharedNodeCache, SyntaxKind,
};
pub use crate::green::pools::{trim_memory, Pools};
pub use crate::text::{TextRange, TextSize};
pub use crate::utility_types::NodeOrToken;
