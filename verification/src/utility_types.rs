//! Small types used throughout the crate.

use vstd::prelude::*;

verus! {

/// Either a node or a token.
#[derive(Debug, Copy, PartialEq, Eq, Hash)]
pub enum NodeOrToken<N, T> {
    Node(N),
    Token(T),
}

impl<N: Clone, T: Clone> Clone for NodeOrToken<N, T> {
    fn clone(&self) -> (copy: NodeOrToken<N, T>)
        ensures
            match self {
                NodeOrToken::Node(node) => copy is Node && cloned(*node, copy->Node_0),
                NodeOrToken::Token(token) => copy is Token && cloned(*token, copy->Token_0),
            },
    {
        match self {
            NodeOrToken::Node(node) => NodeOrToken::Node(node.clone()),
            NodeOrToken::Token(token) => NodeOrToken::Token(token.clone()),
        }
    }
}

impl<N, T> NodeOrToken<N, T> {
    /// The node, if this is one.
    pub fn into_node(self) -> (node: Option<N>)
        ensures
            node == (match self {
                NodeOrToken::Node(node) => Some(node),
                NodeOrToken::Token(_) => None,
            }),
    {
        match self {
            NodeOrToken::Node(node) => Some(node),
            NodeOrToken::Token(_) => None,
        }
    }

    /// The token, if this is one.
    pub fn into_token(self) -> (token: Option<T>)
        ensures
            token == (match self {
                NodeOrToken::Node(_) => None,
                NodeOrToken::Token(token) => Some(token),
            }),
    {
        match self {
            NodeOrToken::Node(_) => None,
            NodeOrToken::Token(token) => Some(token),
        }
    }
}

} // verus!
