//! Green trees: immutable trees of nodes and tokens that know their lengths but not their
//! positions.

use vstd::prelude::*;

pub mod allocator;
pub mod backend;
pub mod builder;
pub mod cached;
pub mod children;
pub mod edit;
pub mod element;
pub mod hash;
pub mod identity;
pub mod layout;
pub mod layout_laws;
pub mod matching;
pub mod node;
pub mod node_cache;
pub mod node_head;
pub mod node_image;
pub mod packed_child;
pub mod page;
pub mod pool;
pub mod pools;
pub mod search;
pub mod shared_cache;
pub mod sharing_laws;
pub mod storage_laws;
pub mod tables;
pub mod token;
pub mod token_head;
pub mod tree;
pub mod tree_laws;

pub use crate::green::builder::{Checkpoint, GreenNodeBuilder};
pub use crate::green::children::Children;
pub use crate::green::node::{GreenNode, GreenNodeData};
pub use crate::green::node_cache::NodeCache;
pub use crate::green::shared_cache::SharedNodeCache;
pub use crate::green::token::{GreenToken, GreenTokenData};

verus! {

/// SyntaxKind is a type tag for each token or node.
#[derive(Debug, Clone, Copy, PartialEq, Eq, PartialOrd, Ord, Hash, Structural)]
pub struct SyntaxKind(pub u16);

} // verus!
