//! Whether a node or a token that is already there is the one that is asked for.

use crate::green::element::GreenElementRef;
use crate::green::node::{GreenNode, GreenNodeData};
use crate::green::token::{GreenToken, GreenTokenData};
use crate::green::tree::Tree;
use crate::green::SyntaxKind;
use crate::text::text_eq;
use crate::utility_types::NodeOrToken;
use vstd::prelude::*;

verus! {

/// A node or token in an interner that does not record digests.
#[derive(Debug)]
pub struct NoHash<T>(pub T);

/// A node or token in an interner, with the digest under which it is found.
#[derive(Debug)]
pub struct Hashed<T> {
    pub hash: u64,
    pub value: T,
}

impl<'a> NodeOrToken<&'a GreenNode, &'a GreenToken> {
    /// The trees that the elements are.
    pub open spec fn trees(elements: Seq<GreenElementRef<'a>>) -> Seq<Tree> {
        elements.map_values(|element: GreenElementRef<'a>| element@)
    }

    /// Whether the two are one and the same element.
    pub fn is_same(left: GreenElementRef<'a>, right: GreenElementRef<'a>) -> (same: bool)
        ensures
            same ==> left == right,
            GreenElementRef::is_same_gives(left, right, same),
            left is Node != right is Node ==> !same,
    {
        match (left, right) {
            (NodeOrToken::Node(left), NodeOrToken::Node(right)) => left.is_same(right),
            (NodeOrToken::Token(left), NodeOrToken::Token(right)) => left.is_same(right),
            _ => false,
        }
    }

    /// Whether `same` is an answer to the question if the two are one and the same element: two
    /// nodes are asked whether they share an allocation, and so are two tokens; a node and a token
    /// never do.
    pub closed spec fn is_same_gives(
        left: GreenElementRef<'a>,
        right: GreenElementRef<'a>,
        same: bool,
    ) -> bool {
        match (left, right) {
            (NodeOrToken::Node(left), NodeOrToken::Node(right)) => left.is_same_gives(right, same),
            (NodeOrToken::Token(left), NodeOrToken::Token(right)) => left.is_same_gives(
                right,
                same,
            ),
            _ => !same,
        }
    }

    /// Two elements are told to be the same only if they are two nodes or two tokens that were
    /// asked whether they share one allocation.
    pub(crate) proof fn lemma_same_is_asked(
        left: GreenElementRef<'a>,
        right: GreenElementRef<'a>,
        same: bool,
    )
        requires
            GreenElementRef::is_same_gives(left, right, same),
        ensures
            left is Node && right is Node ==> left->Node_0.is_same_gives(right->Node_0, same),
            left is Token && right is Token ==> left->Token_0.is_same_gives(right->Token_0, same),
            left is Node != right is Node ==> !same,
    {
    }
}

/// Whether the node has this kind and these very children.
pub fn has_children(node: &GreenNodeData, kind: SyntaxKind, children: &[GreenElementRef<'_>]) -> (
    matches: bool)
    ensures
        matches ==> node@ == (Tree::Node { kind, children: GreenElementRef::trees(children@) }),
        matches ==> forall|i: int|
            0 <= i < children@.len() ==> node.child_at(i) == #[trigger] children@[i],
        matches ==> forall|i: int|
            0 <= i < children@.len() ==> #[trigger] GreenElementRef::is_same_gives(
                node.child_at(i),
                children@[i],
                true,
            ),
        !matches ==> {
            ||| node@.kind() != kind
            ||| node@.children().len() != children@.len()
            ||| exists|i: int|
                0 <= i < children@.len() && #[trigger] GreenElementRef::is_same_gives(
                    node.child_at(i),
                    children@[i],
                    false,
                )
        },
{
    if node.kind() != kind || node.child_count() != children.len() {
        return false;
    }
    let mut index: usize = 0;
    while index < children.len()
        invariant
            index <= children@.len(),
            node@ is Node,
            node@.kind() == kind,
            node@.children().len() == children@.len(),
            forall|i: int| 0 <= i < index ==> node@.children()[i] == children@[i]@,
            forall|i: int| 0 <= i < index ==> node.child_at(i) == #[trigger] children@[i],
            forall|i: int|
                0 <= i < index ==> #[trigger] GreenElementRef::is_same_gives(
                    node.child_at(i),
                    children@[i],
                    true,
                ),
        decreases children@.len() - index,
    {
        if !GreenElementRef::is_same(node.child_ref(index), children[index]) {
            return false;
        }
        index = index + 1;
    }
    proof {
        assert(node@.children() =~= GreenElementRef::trees(children@));
    }
    true
}

/// Whether the node has this kind, and children equal to these.
pub fn node_matches(node: &GreenNodeData, kind: SyntaxKind, children: &[GreenElementRef<'_>]) -> (
    matches: bool)
    ensures
        matches == (node@ == (Tree::Node { kind, children: GreenElementRef::trees(children@) })),
{
    let ghost asked = GreenElementRef::trees(children@);
    if node.kind() != kind || node.child_count() != children.len() {
        return false;
    }
    let mut index: usize = 0;
    while index < children.len()
        invariant
            index <= children@.len(),
            node@ is Node,
            node@.kind() == kind,
            node@.children().len() == children@.len(),
            asked == GreenElementRef::trees(children@),
            forall|i: int| 0 <= i < index ==> node@.children()[i] == asked[i],
        decreases children@.len() - index,
    {
        if !GreenElementRef::same(node.child_ref(index), children[index]) {
            assert(node@.children()[index as int] != asked[index as int]);
            return false;
        }
        index = index + 1;
    }
    proof {
        assert(node@.children() =~= asked);
    }
    true
}

/// Whether the token has this kind and this text.
pub fn token_matches(token: &GreenTokenData, kind: SyntaxKind, text: &str) -> (matches: bool)
    ensures
        matches == (token@ == (Tree::Token { kind, text: text@ })),
{
    token.kind() == kind && text_eq(token.text(), text)
}

/// Whether the entry has this digest and its node this kind, and children equal to these.
pub fn node_entry_matches(
    entry: &Hashed<GreenNode>,
    hash: u64,
    kind: SyntaxKind,
    children: &[GreenElementRef<'_>],
) -> (matches: bool)
    ensures
        matches == (entry.hash == hash && entry.value@ == (Tree::Node {
            kind,
            children: GreenElementRef::trees(children@),
        })),
{
    entry.hash == hash && node_matches(&entry.value, kind, children)
}

/// Whether the entry has this digest and its token this kind and this text.
pub fn token_entry_matches(
    entry: &Hashed<GreenToken>,
    hash: u64,
    kind: SyntaxKind,
    text: &str,
) -> (matches: bool)
    ensures
        matches == (entry.hash == hash && entry.value@ == (Tree::Token { kind, text: text@ })),
{
    entry.hash == hash && token_matches(&entry.value, kind, text)
}

/// Whether the entry has this digest and its node is equal to this one.
pub fn node_entry_is(entry: &Hashed<GreenNode>, hash: u64, node: &GreenNode) -> (matches: bool)
    ensures
        matches == (entry.hash == hash && entry.value@ == node@),
{
    entry.hash == hash && entry.value == *node
}

/// Whether the entry has this digest and its token is equal to this one.
pub fn token_entry_is(entry: &Hashed<GreenToken>, hash: u64, token: &GreenToken) -> (matches: bool)
    ensures
        matches == (entry.hash == hash && entry.value@ == token@),
{
    entry.hash == hash && entry.value == *token
}

} // verus!
