//! Elements: what a node has as a child, a node or a token.

use crate::green::node::GreenNode;
use crate::green::token::GreenToken;
use crate::green::tree::Tree;
use crate::green::SyntaxKind;
use crate::text::TextSize;
use crate::utility_types::NodeOrToken;
use vstd::prelude::*;

verus! {

/// A node or a token.
pub type GreenElement = NodeOrToken<GreenNode, GreenToken>;

/// A borrowed node or token.
pub type GreenElementRef<'a> = NodeOrToken<&'a GreenNode, &'a GreenToken>;

impl NodeOrToken<GreenNode, GreenToken> {
    /// The element as a tree.
    pub open spec fn view(&self) -> Tree {
        match self {
            NodeOrToken::Node(node) => node@,
            NodeOrToken::Token(token) => token@,
        }
    }

    /// The element, borrowed.
    pub open spec fn as_ref(&self) -> GreenElementRef<'_> {
        match self {
            NodeOrToken::Node(node) => NodeOrToken::Node(node),
            NodeOrToken::Token(token) => NodeOrToken::Token(token),
        }
    }

    /// Borrows the element.
    pub fn as_deref(&self) -> (element: GreenElementRef<'_>)
        ensures
            element == self.as_ref(),
            element@ == self@,
            element is Node == self is Node,
    {
        match self {
            NodeOrToken::Node(node) => NodeOrToken::Node(node),
            NodeOrToken::Token(token) => NodeOrToken::Token(token),
        }
    }

    /// A node is a node as a tree, too, and so is a token a token.
    pub proof fn lemma_variant(&self)
        ensures
            self is Node == self@ is Node,
    {
        match self {
            NodeOrToken::Node(node) => node.lemma_is_node(),
            NodeOrToken::Token(token) => token.lemma_is_token(),
        }
    }

    /// Returns kind of this element.
    pub fn kind(&self) -> (kind: SyntaxKind)
        ensures
            kind == self@.kind(),
    {
        match self {
            NodeOrToken::Node(node) => node.kind(),
            NodeOrToken::Token(token) => token.kind(),
        }
    }

    /// Returns the length of the text covered by this element.
    pub fn text_len(&self) -> (len: TextSize)
        ensures
            len.bytes() == self@.text_len(),
    {
        match self {
            NodeOrToken::Node(node) => node.text_len(),
            NodeOrToken::Token(token) => token.text_len(),
        }
    }
}

impl<'a> NodeOrToken<&'a GreenNode, &'a GreenToken> {
    /// The element as a tree.
    pub open spec fn view(&self) -> Tree {
        match self {
            NodeOrToken::Node(node) => node@,
            NodeOrToken::Token(token) => token@,
        }
    }

    /// Whether the two are the same tree.
    pub fn same(left: GreenElementRef<'a>, right: GreenElementRef<'a>) -> (same: bool)
        ensures
            same == (left@ == right@),
    {
        match (left, right) {
            (NodeOrToken::Node(left), NodeOrToken::Node(right)) => *left == *right,
            (NodeOrToken::Token(left), NodeOrToken::Token(right)) => *left == *right,
            (NodeOrToken::Node(node), NodeOrToken::Token(token))
            | (NodeOrToken::Token(token), NodeOrToken::Node(node)) => {
                proof {
                    token.lemma_is_token();
                    node.lemma_is_node();
                }
                false
            },
        }
    }

    /// A handle of one's own to the element.
    pub fn to_owned(self) -> (element: GreenElement)
        ensures
            element.as_ref() == self,
            element@ == self@,
            element is Node == self is Node,
    {
        match self {
            NodeOrToken::Node(node) => NodeOrToken::Node(node.clone()),
            NodeOrToken::Token(token) => NodeOrToken::Token(token.clone()),
        }
    }

    /// Returns kind of this element.
    pub fn kind(self) -> (kind: SyntaxKind)
        ensures
            kind == self@.kind(),
    {
        match self {
            NodeOrToken::Node(node) => node.kind(),
            NodeOrToken::Token(token) => token.kind(),
        }
    }

    /// Returns the length of the text covered by this element.
    pub fn text_len(self) -> (len: TextSize)
        ensures
            len.bytes() == self@.text_len(),
    {
        match self {
            NodeOrToken::Node(node) => node.text_len(),
            NodeOrToken::Token(token) => token.text_len(),
        }
    }
}

impl From<GreenNode> for NodeOrToken<GreenNode, GreenToken> {
    fn from(node: GreenNode) -> (element: GreenElement) {
        NodeOrToken::Node(node)
    }
}

impl vstd::std_specs::convert::FromSpecImpl<GreenNode> for NodeOrToken<GreenNode, GreenToken> {
    open spec fn obeys_from_spec() -> bool {
        true
    }

    open spec fn from_spec(node: GreenNode) -> GreenElement {
        NodeOrToken::Node(node)
    }
}

impl From<GreenToken> for NodeOrToken<GreenNode, GreenToken> {
    fn from(token: GreenToken) -> (element: GreenElement) {
        NodeOrToken::Token(token)
    }
}

impl vstd::std_specs::convert::FromSpecImpl<GreenToken> for NodeOrToken<GreenNode, GreenToken> {
    open spec fn obeys_from_spec() -> bool {
        true
    }

    open spec fn from_spec(token: GreenToken) -> GreenElement {
        NodeOrToken::Token(token)
    }
}

} // verus!
