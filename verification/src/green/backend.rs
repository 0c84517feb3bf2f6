//! Where a builder gets its nodes and tokens from, and where it keeps those that are not yet part
//! of a node.

use crate::green::cached::{cached_node_hash, node_weight, CachedElement};
use crate::green::element::GreenElement;
use crate::green::hash::{fx_node_digest, token_hash_parts};
use crate::green::layout::{token_weight, token_weight_spec};
use crate::green::node::GreenNode;
use crate::green::node_cache::{NodeCache, MAX_CACHED_CHILDREN};
use crate::green::shared_cache::{
    SharedNodeCache, MAX_SHARED_NODE_CHILDREN, MAX_SHARED_SUBTREE_WEIGHT, MAX_SHARED_TOKEN_LEN,
};
use crate::green::token::GreenToken;
use crate::green::tree::Tree;
use crate::green::SyntaxKind;
use crate::utility_types::NodeOrToken;
use vstd::prelude::*;
use vstd::utf8::*;

verus! {

/// Elements that come from an interner that builders share, as far as they are eligible, and from
/// one that belongs to this builder otherwise.
pub struct SharedCacheBackend<'cache> {
    local: NodeCache,
    shared: &'cache SharedNodeCache,
    children: Vec<CachedElement>,
}

impl<'cache> SharedCacheBackend<'cache> {
    /// The elements that are not yet part of a node.
    pub closed spec fn view(&self) -> Seq<CachedElement> {
        self.children@
    }

    /// The interner that belongs to this builder.
    pub closed spec fn local_cache(self) -> NodeCache {
        self.local
    }

    /// The interner that builders share.
    pub closed spec fn shared_cache(self) -> &'cache SharedNodeCache {
        self.shared
    }

    /// The trees whose nodes this builder has interned for itself.
    pub open spec fn local_nodes(self) -> Set<Tree> {
        self.local_cache().nodes()
    }

    /// The trees whose tokens this builder has interned for itself.
    pub open spec fn local_tokens(self) -> Set<Tree> {
        self.local_cache().tokens()
    }

    /// Whether one backend became the other when a token was added. A token that builders share
    /// comes from the interner that they share, which is asked for it under its digest and charged
    /// for it with its weight; any other one comes from the interner of this builder.
    pub open spec fn token_step(
        before: SharedCacheBackend<'cache>,
        after: SharedCacheBackend<'cache>,
        kind: SyntaxKind,
        text: Seq<char>,
    ) -> bool {
        let shares = SharedCacheBackend::shares_token(text);
        let token = after@.last();
        &&& after@.len() == before@.len() + 1
        &&& after@.drop_last() == before@
        &&& token@ == (Tree::Token { kind, text })
        &&& token.is_interned()
        &&& token.hash_spec() == token@.digest()
        &&& token.is_shareable() == shares
        &&& token.weight() == (if shares {
            token_weight_spec(encode_utf8(text).len())
        } else {
            0
        })
        &&& after.shared_cache() == before.shared_cache()
        &&& token.element() matches NodeOrToken::Token(handle) && (if shares {
            &&& before.shared_cache().token_asked(token@.digest(), handle, token.weight() as int)
            &&& after.local_cache() == before.local_cache()
        } else {
            NodeCache::token_step(before.local_cache(), after.local_cache(), handle)
        })
    }

    /// Whether one backend became the other when a node was made of the elements from `first_child`
    /// on. A node that builders share comes from the interner that they share, which is asked for
    /// it under its digest and charged for it with its weight; any other one comes from the
    /// interner of this builder, and holds these very elements.
    pub open spec fn node_step(
        before: SharedCacheBackend<'cache>,
        after: SharedCacheBackend<'cache>,
        kind: SyntaxKind,
        first_child: int,
    ) -> bool {
        let children = before@.skip(first_child);
        let shares = SharedCacheBackend::shares_node(children);
        let node = after@.last();
        &&& after@.len() == first_child + 1
        &&& after@.drop_last() == before@.take(first_child)
        &&& node@ == (Tree::Node { kind, children: CachedElement::trees(children) })
        &&& node.is_shareable() == shares
        &&& node.is_interned() == (shares || NodeCache::caches_shared(children))
        &&& node.hash_spec() == (if node.is_interned() {
            node@.digest()
        } else {
            0
        })
        &&& node.weight() == (if shares {
            CachedElement::node_weight_spec(children)
        } else {
            0
        })
        &&& after.shared_cache() == before.shared_cache()
        &&& node.element() matches NodeOrToken::Node(handle) && (if shares {
            &&& before.shared_cache().node_asked(
                node@.digest(),
                handle,
                CachedElement::elements(children),
                node.weight() as int,
            )
            &&& after.local_cache() == before.local_cache()
        } else {
            &&& handle.elements() == CachedElement::elements(children)
            &&& NodeCache::node_step(
                before.local_cache(),
                after.local_cache(),
                node.hash_spec(),
                handle,
                node.is_interned(),
            )
        })
    }

    /// Whether a backend whose only element is a node is finished with `root`: the node itself, or
    /// one that was newly made of its elements if builders share the node.
    pub open spec fn finishes_with(self, root: GreenNode) -> bool {
        &&& root@ == self@[0]@
        &&& self@[0].element() matches NodeOrToken::Node(node) && (if self@[0].is_shareable() {
            &&& root.elements() == node.elements()
            &&& exists|children: Vec<GreenElement>|
                #[trigger] call_ensures(GreenNode::new, (node@.kind(), children), root)
                    && children@ == node.elements()
        } else {
            root == node
        })
    }

    /// Whether builders share a node with these children: if there are few of them, builders share
    /// each one, and all together do not weigh too much.
    pub open spec fn shares_node(children: Seq<CachedElement>) -> bool {
        &&& children.len() <= MAX_SHARED_NODE_CHILDREN
        &&& CachedElement::all_shareable(children)
        &&& CachedElement::node_weight_spec(children) <= MAX_SHARED_SUBTREE_WEIGHT
    }

    /// Whether builders share a token with this text.
    pub open spec fn shares_token(text: Seq<char>) -> bool {
        encode_utf8(text).len() <= MAX_SHARED_TOKEN_LEN
    }

    /// A backend without elements.
    pub fn new(cache: &'cache SharedNodeCache) -> (backend: SharedCacheBackend<'cache>)
        ensures
            backend@ == Seq::<CachedElement>::empty(),
            backend.shared_cache() == cache,
            backend.local_nodes() == Set::<Tree>::empty(),
            backend.local_tokens() == Set::<Tree>::empty(),
    {
        SharedCacheBackend { local: NodeCache::default(), shared: cache, children: Vec::new() }
    }

    /// How many elements are not yet part of a node.
    pub fn len(&self) -> (len: usize)
        ensures
            len == self@.len(),
    {
        self.children.len()
    }

    /// The elements that are not yet part of a node.
    pub fn children(&self) -> (children: &[CachedElement])
        ensures
            children@ == self@,
    {
        self.children.as_slice()
    }

    /// Adds an element.
    pub fn push(&mut self, element: CachedElement)
        ensures
            final(self)@ == old(self)@.push(element),
            final(self).local_cache() == old(self).local_cache(),
            final(self).shared_cache() == old(self).shared_cache(),
    {
        self.children.push(element);
    }

    /// Takes the last element away.
    pub fn pop(&mut self) -> (element: Option<CachedElement>)
        ensures
            old(self)@.len() == 0 ==> element is None && final(self)@ == old(self)@,
            old(self)@.len() > 0 ==> element == Some(old(self)@.last()) && final(self)@
                == old(self)@.drop_last(),
            final(self).local_cache() == old(self).local_cache(),
            final(self).shared_cache() == old(self).shared_cache(),
    {
        self.children.pop()
    }

    /// Makes a node of the elements from `first_child` on.
    pub fn node(&mut self, kind: SyntaxKind, first_child: usize)
        requires
            first_child <= old(self)@.len(),
            old(self)@.len() - first_child <= u32::MAX,
            Tree::total_len(CachedElement::trees(old(self)@.skip(first_child as int)))
                <= u32::MAX,
        ensures
            SharedCacheBackend::node_step(*old(self), *final(self), kind, first_child as int),
            final(self).local_nodes() == (if !final(self)@.last().is_shareable()
                && final(self)@.last().is_interned() {
                old(self).local_nodes().insert(final(self)@.last()@)
            } else {
                old(self).local_nodes()
            }),
            final(self).local_tokens() == old(self).local_tokens(),
    {
        let ghost tail = old(self)@.skip(first_child as int);
        let children_ref = vstd::slice::slice_subrange(
            self.children.as_slice(),
            first_child,
            self.children.len(),
        );
        proof {
            assert(children_ref@ =~= tail);
        }
        if children_ref.len() <= MAX_SHARED_NODE_CHILDREN {
            if let Some(retained_weight) = node_weight(children_ref) {
                if retained_weight <= MAX_SHARED_SUBTREE_WEIGHT {
                    let hash: u64 = cached_node_hash(kind, children_ref);
                    let node = self.shared.node(
                        hash,
                        kind,
                        &mut self.children,
                        first_child,
                        retained_weight,
                    );
                    self.children.push(
                        CachedElement::shared(hash, retained_weight, NodeOrToken::Node(node)),
                    );
                    proof {
                        assert(self@.drop_last() =~= old(self)@.take(first_child as int));
                    }
                    return;
                }
            }
        }
        let node = self.local.shared_node(kind, &mut self.children, first_child);
        self.children.push(node);
        proof {
            assert(self@.drop_last() =~= old(self)@.take(first_child as int));
        }
    }

    /// Adds a token.
    pub fn token(&mut self, kind: SyntaxKind, text: &str)
        requires
            encode_utf8(text@).len() <= u32::MAX,
        ensures
            SharedCacheBackend::token_step(*old(self), *final(self), kind, text@),
            final(self).local_tokens() == (if SharedCacheBackend::shares_token(text@) {
                old(self).local_tokens()
            } else {
                old(self).local_tokens().insert(final(self)@.last()@)
            }),
            final(self).local_nodes() == old(self).local_nodes(),
    {
        let token = if text.as_bytes().len() <= MAX_SHARED_TOKEN_LEN {
            let hash: u64 = token_hash_parts(kind, text);
            let retained_weight: u32 = token_weight(text);
            let token = self.shared.token(hash, kind, text, retained_weight);
            CachedElement::shared(hash, retained_weight, NodeOrToken::Token(token))
        } else {
            self.local.shared_token(kind, text)
        };
        self.children.push(token);
        proof {
            assert(self@.drop_last() =~= old(self)@);
        }
    }

    /// The node that is left, as a root of its own: a node that builders share is copied.
    pub fn finish(self) -> (root: GreenNode)
        requires
            self@.len() == 1,
            self@[0].is_node(),
        ensures
            self.finishes_with(root),
    {
        let mut children = self.children;
        let root = children.pop().unwrap();
        let shareable = root.shareable();
        let node = root.into_green().into_node().unwrap();
        if shareable {
            node.limits();
            let children = node.owned_children();
            proof {
                assert(children@.len() == GreenNode::trees(children@).len());
            }
            let make = GreenNode::new;
            make(node.kind(), children)
        } else {
            node
        }
    }
}

/// What an interner that is not shared holds, and with which digests the elements of a builder came
/// from it.
#[verifier::ext_equal]
pub struct Interned {
    pub nodes: Set<Tree>,
    pub tokens: Set<Tree>,
    pub digests: Seq<u64>,
}

impl Interned {
    /// What an interner holds, without elements.
    pub open spec fn of(cache: NodeCache) -> Interned {
        Interned { nodes: cache.nodes(), tokens: cache.tokens(), digests: Seq::empty() }
    }

    /// An interner that holds nothing, without elements.
    pub open spec fn empty() -> Interned {
        Interned { nodes: Set::empty(), tokens: Set::empty(), digests: Seq::empty() }
    }

    /// After one more token.
    pub open spec fn token(self, token: Tree) -> Interned {
        Interned {
            tokens: self.tokens.insert(token),
            digests: self.digests.push(token.digest()),
            ..self
        }
    }

    /// Whether a node is interned whose children came with these digests.
    pub open spec fn caches(digests: Seq<u64>) -> bool {
        &&& digests.len() <= MAX_CACHED_CHILDREN
        &&& forall|i: int| 0 <= i < digests.len() ==> #[trigger] digests[i] != 0
    }

    /// After the elements from `first_child` on became a node.
    pub open spec fn node(self, node: Tree, first_child: int) -> Interned {
        let digests = self.digests.skip(first_child);
        if Interned::caches(digests) {
            Interned {
                nodes: self.nodes.insert(node),
                digests: self.digests.take(first_child).push(
                    fx_node_digest(usize::BITS, node.kind().0, digests),
                ),
                ..self
            }
        } else {
            Interned { digests: self.digests.take(first_child).push(0), ..self }
        }
    }
}

impl Interned {
    /// Whether a tree is interned.
    pub open spec fn holds(self, tree: Tree) -> bool {
        self.nodes.contains(tree) || self.tokens.contains(tree)
    }

    /// Whether the children of every node that is interned are interned, too, and so is each of the
    /// elements that has a digest, which is then its own.
    pub open spec fn deep(self, elements: Seq<Tree>) -> bool {
        &&& self.digests.len() == elements.len()
        &&& forall|i: int|
            0 <= i < elements.len() && #[trigger] self.digests[i] != 0 ==> self.holds(elements[i])
                && self.digests[i] == elements[i].digest()
        &&& forall|node: Tree, i: int|
            #![trigger self.nodes.contains(node), node.children()[i]]
            self.nodes.contains(node) && 0 <= i < node.children().len() ==> self.holds(
                node.children()[i],
            )
    }

    /// If the children of every interned node are interned, they still are after one more token.
    pub proof fn lemma_token_stays_deep(self, elements: Seq<Tree>, token: Tree)
        requires
            self.deep(elements),
        ensures
            self.token(token).deep(elements.push(token)),
    {
        let after = self.token(token);
        assert forall|i: int|
            0 <= i < elements.push(token).len() && #[trigger] after.digests[i]
                != 0 implies after.holds(elements.push(token)[i]) && after.digests[i]
            == elements.push(token)[i].digest() by {
            if i < elements.len() {
                assert(self.digests[i] == after.digests[i]);
            }
        }
        assert forall|node: Tree, i: int|
            #![trigger after.nodes.contains(node), node.children()[i]]
            after.nodes.contains(node) && 0 <= i < node.children().len() implies after.holds(
            node.children()[i],
        ) by {
            assert(self.nodes.contains(node));
            assert(self.holds(node.children()[i]));
        }
    }

    /// If the children of every interned node are interned, they still are after elements became a
    /// node.
    pub proof fn lemma_node_stays_deep(self, elements: Seq<Tree>, node: Tree, first_child: int)
        requires
            self.deep(elements),
            0 <= first_child <= elements.len(),
            node is Node,
            node.children() == elements.skip(first_child),
        ensures
            self.node(node, first_child).deep(elements.take(first_child).push(node)),
    {
        let digests = self.digests.skip(first_child);
        let after = self.node(node, first_child);
        let rest = elements.take(first_child).push(node);
        assert forall|i: int|
            0 <= i < rest.len() && #[trigger] after.digests[i] != 0 implies after.holds(rest[i])
            && after.digests[i] == rest[i].digest() by {
            if i < first_child {
                assert(self.digests[i] == after.digests[i]);
            } else if Interned::caches(digests) {
                let children = node.children();
                assert forall|k: int| 0 <= k < children.len() implies #[trigger] digests[k]
                    == children[k].digest() by {
                    assert(digests.len() == children.len() && digests[k] != 0);
                    assert(self.digests[first_child + k] != 0);
                }
                Tree::lemma_digests(children, children.len());
                assert(digests =~= Tree::digests(children));
            }
        }
        assert forall|held: Tree, i: int|
            #![trigger after.nodes.contains(held), held.children()[i]]
            after.nodes.contains(held) && 0 <= i < held.children().len() implies after.holds(
            held.children()[i],
        ) by {
            if self.nodes.contains(held) {
                assert(self.holds(held.children()[i]));
            } else {
                assert(held == node && Interned::caches(digests));
                assert(digests[i] != 0);
                assert(self.digests[first_child + i] != 0);
            }
        }
    }
}

/// The elements of a builder, and the interner that they come from.
pub enum CacheBackend<'cache> {
    /// An interner that belongs to the builder.
    Own(NodeCache, Vec<(u64, GreenElement)>),
    /// An interner that outlives the builder.
    Borrowed(&'cache mut NodeCache, Vec<(u64, GreenElement)>),
    /// An interner that builders share.
    Shared(SharedCacheBackend<'cache>),
}

impl<'cache> CacheBackend<'cache> {
    /// The elements that are not yet part of a node, as trees.
    pub open spec fn view(&self) -> Seq<Tree> {
        match self {
            CacheBackend::Own(_, children) => NodeCache::trees(children@),
            CacheBackend::Borrowed(_, children) => NodeCache::trees(children@),
            CacheBackend::Shared(backend) => CachedElement::trees(backend@),
        }
    }

    /// The elements that are not yet part of a node.
    pub open spec fn elements(self) -> Seq<GreenElement> {
        match self {
            CacheBackend::Own(_, children) => NodeCache::elements(children@),
            CacheBackend::Borrowed(_, children) => NodeCache::elements(children@),
            CacheBackend::Shared(backend) => CachedElement::elements(backend@),
        }
    }

    /// The interner that was lent to the builder, if one was.
    pub open spec fn lent(self) -> Option<&'cache mut NodeCache> {
        match self {
            CacheBackend::Borrowed(cache, _) => Some(cache),
            _ => None,
        }
    }

    /// Whether one backend became the other when a token was added.
    pub open spec fn token_step(
        before: CacheBackend<'cache>,
        after: CacheBackend<'cache>,
        kind: SyntaxKind,
        text: Seq<char>,
    ) -> bool {
        &&& after.elements().len() == before.elements().len() + 1
        &&& after.elements().drop_last() == before.elements()
        &&& after.elements().last() matches NodeOrToken::Token(token) && token@ == (Tree::Token {
            kind,
            text,
        }) && match (before, after) {
            (CacheBackend::Own(before, _), CacheBackend::Own(after, _)) => NodeCache::token_step(
                before,
                after,
                token,
            ),
            (
                CacheBackend::Borrowed(before, _),
                CacheBackend::Borrowed(after, _),
            ) => NodeCache::token_step(*before, *after, token),
            (
                CacheBackend::Shared(before),
                CacheBackend::Shared(after),
            ) => SharedCacheBackend::token_step(before, after, kind, text),
            _ => false,
        }
    }

    /// Whether one backend became the other when a node was made of the elements from `first_child`
    /// on.
    pub open spec fn node_step(
        before: CacheBackend<'cache>,
        after: CacheBackend<'cache>,
        kind: SyntaxKind,
        first_child: int,
    ) -> bool {
        let tail = before.elements().skip(first_child);
        &&& after.elements().len() == first_child + 1
        &&& after.elements().drop_last() == before.elements().take(first_child)
        &&& after.elements().last() matches NodeOrToken::Node(node) && node@ == (Tree::Node {
            kind,
            children: GreenNode::trees(tail),
        }) && match (before, after) {
            (CacheBackend::Own(before, children), CacheBackend::Own(after, made)) => {
                &&& node.elements() == tail
                &&& NodeCache::node_step(
                    before,
                    after,
                    made@.last().0,
                    node,
                    NodeCache::caches(children@.skip(first_child)),
                )
            },
            (CacheBackend::Borrowed(before, children), CacheBackend::Borrowed(after, made)) => {
                &&& node.elements() == tail
                &&& NodeCache::node_step(
                    *before,
                    *after,
                    made@.last().0,
                    node,
                    NodeCache::caches(children@.skip(first_child)),
                )
            },
            (
                CacheBackend::Shared(before),
                CacheBackend::Shared(after),
            ) => SharedCacheBackend::node_step(before, after, kind, first_child),
            _ => false,
        }
    }

    /// Whether a backend whose only element is a node is finished with `root`.
    pub open spec fn finishes_with(self, root: GreenNode) -> bool {
        &&& root@ == self@[0]
        &&& match self {
            CacheBackend::Shared(backend) => backend.finishes_with(root),
            _ => self.elements()[0] == NodeOrToken::<GreenNode, GreenToken>::Node(root),
        }
    }

    /// The interner and the digests of the elements, if the interner is not shared.
    pub open spec fn interned(self) -> Option<Interned> {
        match self {
            CacheBackend::Own(cache, children) => Some(
                Interned { digests: NodeCache::hashes(children@), ..Interned::of(cache) },
            ),
            CacheBackend::Borrowed(cache, children) => Some(
                Interned { digests: NodeCache::hashes(children@), ..Interned::of(*cache) },
            ),
            CacheBackend::Shared(_) => None,
        }
    }

    /// How many elements are not yet part of a node.
    pub fn len(&self) -> (len: usize)
        ensures
            len == self@.len(),
    {
        match self {
            CacheBackend::Own(_, children) => children.len(),
            CacheBackend::Borrowed(_, children) => children.len(),
            CacheBackend::Shared(backend) => backend.len(),
        }
    }

    /// Adds a token.
    pub fn token(&mut self, kind: SyntaxKind, text: &str)
        requires
            encode_utf8(text@).len() <= u32::MAX,
        ensures
            final(self)@ == old(self)@.push(Tree::Token { kind, text: text@ }),
            final(self).interned() == (match old(self).interned() {
                Some(interned) => Some(interned.token(Tree::Token { kind, text: text@ })),
                None => None,
            }),
            CacheBackend::token_step(*old(self), *final(self), kind, text@),
            match (old(self).lent(), final(self).lent()) {
                (Some(before), Some(after)) => *final(after) == *final(before),
                (None, None) => true,
                _ => false,
            },
    {
        match self {
            CacheBackend::Own(cache, children) => {
                let (hash, token) = cache.token(kind, text);
                children.push((hash, NodeOrToken::Token(token)));
            },
            CacheBackend::Borrowed(cache, children) => {
                let (hash, token) = cache.token(kind, text);
                children.push((hash, NodeOrToken::Token(token)));
            },
            CacheBackend::Shared(backend) => {
                backend.token(kind, text);
            },
        }
        proof {
            let token = Tree::Token { kind, text: text@ };
            assert(self@ =~= old(self)@.push(token));
            assert(self.elements().drop_last() =~= old(self).elements());
            match self {
                CacheBackend::Shared(after) => after@.last().lemma_element(),
                _ => {},
            }
            match (self.interned(), old(self).interned()) {
                (Some(after), Some(before)) => {
                    assert(after.digests =~= before.token(token).digests);
                },
                _ => {},
            }
        }
    }

    /// Makes a node of the elements from `first_child` on.
    pub fn node(&mut self, kind: SyntaxKind, first_child: usize)
        requires
            first_child <= old(self)@.len(),
            old(self)@.len() - first_child <= u32::MAX,
            Tree::total_len(old(self)@.skip(first_child as int)) <= u32::MAX,
        ensures
            final(self)@ == old(self)@.take(first_child as int).push(
                Tree::Node { kind, children: old(self)@.skip(first_child as int) },
            ),
            final(self).interned() == (match old(self).interned() {
                Some(interned) => Some(
                    interned.node(
                        Tree::Node { kind, children: old(self)@.skip(first_child as int) },
                        first_child as int,
                    ),
                ),
                None => None,
            }),
            CacheBackend::node_step(*old(self), *final(self), kind, first_child as int),
            match (old(self).lent(), final(self).lent()) {
                (Some(before), Some(after)) => *final(after) == *final(before),
                (None, None) => true,
                _ => false,
            },
    {
        let ghost before = *self;
        proof {
            before.lemma_skip(first_child as int);
        }
        match self {
            CacheBackend::Own(cache, children) => {
                let (hash, node) = cache.node(kind, children, first_child);
                children.push((hash, NodeOrToken::Node(node)));
            },
            CacheBackend::Borrowed(cache, children) => {
                let (hash, node) = cache.node(kind, children, first_child);
                children.push((hash, NodeOrToken::Node(node)));
            },
            CacheBackend::Shared(backend) => {
                backend.node(kind, first_child);
            },
        }
        proof {
            match self {
                CacheBackend::Shared(after) => {
                    assert(after@ =~= after@.drop_last().push(after@.last()));
                    after@.last().lemma_element();
                },
                _ => {},
            }
            assert(self@ =~= old(self)@.take(first_child as int).push(
                Tree::Node { kind, children: old(self)@.skip(first_child as int) },
            ));
            assert(self.elements().drop_last() =~= before.elements().take(first_child as int));
            before.lemma_skip_elements(first_child as int);
            let node = Tree::Node { kind, children: old(self)@.skip(first_child as int) };
            match (self.interned(), old(self).interned()) {
                (Some(after), Some(earlier)) => {
                    before.lemma_skip_digests(first_child as int);
                    assert(after.digests =~= earlier.node(node, first_child as int).digests);
                },
                _ => {},
            }
        }
    }

    proof fn lemma_skip_elements(self, first_child: int)
        requires
            0 <= first_child <= self@.len(),
        ensures
            GreenNode::trees(self.elements().skip(first_child)) == self@.skip(first_child),
            match self {
                CacheBackend::Own(_, children) | CacheBackend::Borrowed(_, children) =>
                    NodeCache::elements(children@.skip(first_child)) == self.elements().skip(
                        first_child,
                    ),
                CacheBackend::Shared(_) => true,
            },
    {
        match self {
            CacheBackend::Own(_, children) | CacheBackend::Borrowed(_, children) => {
                assert(NodeCache::elements(children@.skip(first_child)) =~= self.elements().skip(
                    first_child,
                ));
            },
            CacheBackend::Shared(backend) => {
                assert forall|i: int| 0 <= i < backend@.len() implies (
                #[trigger] backend@[i]).element()@ == backend@[i]@ by {
                    backend@[i].lemma_element();
                }
            },
        }
        assert(GreenNode::trees(self.elements().skip(first_child)) =~= self@.skip(first_child));
    }

    proof fn lemma_skip_digests(self, first_child: int)
        requires
            0 <= first_child <= self@.len(),
        ensures
            match self {
                CacheBackend::Own(_, children) | CacheBackend::Borrowed(_, children) => {
                    let digests = NodeCache::hashes(children@).skip(first_child);
                    &&& NodeCache::hashes(children@.skip(first_child)) == digests
                    &&& NodeCache::caches(children@.skip(first_child)) == Interned::caches(digests)
                },
                CacheBackend::Shared(_) => true,
            },
    {
        match self {
            CacheBackend::Own(_, children) | CacheBackend::Borrowed(_, children) => {
                let tail = children@.skip(first_child);
                let digests = NodeCache::hashes(children@).skip(first_child);
                assert(NodeCache::hashes(tail) =~= digests);
                assert forall|i: int| 0 <= i < tail.len() implies (#[trigger] tail[i]).0
                    == digests[i] by {}
                if Interned::caches(digests) {
                    assert forall|i: int| 0 <= i < tail.len() implies (#[trigger] tail[i]).0
                        != 0 by {
                        assert(digests[i] != 0);
                    }
                }
                if NodeCache::caches(tail) {
                    assert forall|i: int| 0 <= i < digests.len() implies #[trigger] digests[i]
                        != 0 by {
                        assert(tail[i].0 != 0);
                    }
                }
            },
            CacheBackend::Shared(_) => {},
        }
    }

    proof fn lemma_skip(self, first_child: int)
        requires
            0 <= first_child <= self@.len(),
        ensures
            match self {
                CacheBackend::Own(_, children) => NodeCache::trees(children@.skip(first_child))
                    == self@.skip(first_child),
                CacheBackend::Borrowed(_, children) => NodeCache::trees(
                    children@.skip(first_child),
                ) == self@.skip(first_child),
                CacheBackend::Shared(backend) => CachedElement::trees(backend@.skip(first_child))
                    == self@.skip(first_child),
            },
    {
        match self {
            CacheBackend::Own(_, children) => {
                assert(NodeCache::trees(children@.skip(first_child)) =~= self@.skip(first_child));
            },
            CacheBackend::Borrowed(_, children) => {
                assert(NodeCache::trees(children@.skip(first_child)) =~= self@.skip(first_child));
            },
            CacheBackend::Shared(backend) => {
                assert(CachedElement::trees(backend@.skip(first_child)) =~= self@.skip(
                    first_child,
                ));
            },
        }
    }

    /// The node that is left.
    pub fn finish(self) -> (root: GreenNode)
        requires
            self@.len() == 1,
            self@[0] is Node,
        ensures
            self.finishes_with(root),
            self.lent() matches Some(held) ==> *final(held) == *held,
    {
        match self {
            CacheBackend::Own(_, children) => CacheBackend::finish_local(children),
            CacheBackend::Borrowed(_, children) => CacheBackend::finish_local(children),
            CacheBackend::Shared(backend) => {
                proof {
                    backend@[0].lemma_variant();
                }
                backend.finish()
            },
        }
    }

    fn finish_local(children: Vec<(u64, GreenElement)>) -> (root: GreenNode)
        requires
            children@.len() == 1,
            children@[0].1@ is Node,
        ensures
            root@ == children@[0].1@,
            children@[0].1 == NodeOrToken::<GreenNode, GreenToken>::Node(root),
    {
        let mut children = children;
        let (_, root) = children.remove(0);
        proof {
            root.lemma_variant();
        }
        root.into_node().unwrap()
    }
}

} // verus!
