//! The interner of a builder: equal trees that it has seen before are used again.

use crate::green::cached::{cached_node_hash, CachedElement};
use crate::green::element::{GreenElement, GreenElementRef};
use crate::green::hash::{fx_node_digest, node_hash_parts, token_hash_parts};
use crate::green::node::GreenNode;
use crate::green::tables::{all_differ, held_nodes, held_tokens, NodeTable, TokenTable};
use crate::green::token::GreenToken;
use crate::green::tree::Tree;
use crate::green::SyntaxKind;
use crate::utility_types::NodeOrToken;
use vstd::prelude::*;
use vstd::utf8::*;

verus! {

/// The largest number of children of a node that is interned.
pub const MAX_CACHED_CHILDREN: usize = 3;

/// Interner for GreenTokens and GreenNodes
///
/// A node is found by the digests of its children, which are known when the node is finished, and
/// not by a digest of everything below it.
#[derive(Debug)]
pub struct NodeCache {
    nodes: NodeTable,
    tokens: TokenTable,
}

impl Default for NodeCache {
    fn default() -> (cache: NodeCache)
        ensures
            cache.nodes() == Set::<Tree>::empty(),
            cache.tokens() == Set::<Tree>::empty(),
            cache.entered() == Set::<(u64, GreenNode)>::empty(),
            cache.token_handles() == Map::<Tree, GreenToken>::empty(),
            cache.orderly(),
    {
        let cache = NodeCache { nodes: NodeTable::new(), tokens: TokenTable::new() };
        proof {
            assert(cache.node_handles() =~= Set::<GreenNode>::empty());
            assert(cache.nodes() =~= Set::<Tree>::empty());
            assert(cache.token_handles() =~= Map::<Tree, GreenToken>::empty());
        }
        cache
    }
}

impl NodeCache {
    /// The nodes that are interned, each with the digest under which it is to be found again.
    pub closed spec fn entered(self) -> Set<(u64, GreenNode)> {
        held_nodes(self.nodes)
    }

    /// The nodes that are interned.
    pub open spec fn node_handles(self) -> Set<GreenNode> {
        self.entered().map(|entry: (u64, GreenNode)| entry.1)
    }

    /// The tokens that are interned, each under the tree that it is.
    pub closed spec fn token_handles(self) -> Map<Tree, GreenToken> {
        held_tokens(self.tokens)
    }

    /// The trees whose nodes are interned.
    pub open spec fn nodes(self) -> Set<Tree> {
        self.node_handles().map(|node: GreenNode| node@)
    }

    /// The trees whose tokens are interned.
    pub open spec fn tokens(self) -> Set<Tree> {
        self.token_handles().dom()
    }

    /// Whether all nodes and tokens that are interned here are so in `later`, too.
    pub open spec fn is_kept_by(self, later: NodeCache) -> bool {
        &&& self.entered().subset_of(later.entered())
        &&& forall|tree: Tree| #[trigger]
            self.token_handles().contains_key(tree) ==> {
                &&& later.token_handles().contains_key(tree)
                &&& later.token_handles()[tree] == self.token_handles()[tree]
            }
    }

    /// Whether one cache became the other when `token` was asked for: a token that is interned is
    /// handed out again, any other one is interned.
    pub open spec fn token_step(before: NodeCache, after: NodeCache, token: GreenToken) -> bool {
        &&& after.token_handles() == (if before.token_handles().contains_key(token@) {
            before.token_handles()
        } else {
            before.token_handles().insert(token@, token)
        })
        &&& token == after.token_handles()[token@]
        &&& after.entered() == before.entered()
    }

    /// Whether `found` is an answer of this cache when asked, under the digest `hash`, for a node
    /// with this kind that holds these very elements.
    pub closed spec fn finds(
        self,
        hash: u64,
        kind: SyntaxKind,
        elements: Seq<GreenElement>,
        found: Option<GreenNode>,
    ) -> bool {
        exists|children: &[GreenElementRef<'_>]|
            #[trigger] call_ensures(NodeTable::find, (&self.nodes, hash, kind, children), found)
                && children@ == elements.map_values(|element: GreenElement| element.as_ref())
    }

    /// What it means that a cache finds a node, or that it does not.
    pub proof fn lemma_finds(
        self,
        hash: u64,
        kind: SyntaxKind,
        elements: Seq<GreenElement>,
        found: Option<GreenNode>,
    )
        requires
            self.finds(hash, kind, elements, found),
        ensures
            found matches Some(node) ==> {
                &&& self.node_handles().contains(node)
                &&& node@ == (Tree::Node { kind, children: GreenNode::trees(elements) })
                &&& node.elements() == elements
            },
            found is None && hash == (Tree::Node {
                kind,
                children: GreenNode::trees(elements),
            }).digest() ==> all_differ(
                self.entered(),
                hash,
                kind,
                elements.map_values(|element: GreenElement| element.as_ref()),
            ),
    {
        let children = choose|children: &[GreenElementRef<'_>]|
            #[trigger] call_ensures(NodeTable::find, (&self.nodes, hash, kind, children), found)
                && children@ == elements.map_values(|element: GreenElement| element.as_ref());
        assert(GreenElementRef::trees(children@) =~= GreenNode::trees(elements));
        match found {
            Some(node) => {
                let entered = choose|entered: u64| #[trigger]
                    self.entered().contains((entered, node));
                let handle = |entry: (u64, GreenNode)| entry.1;
                assert(handle((entered, node)) == node);
                assert(self.node_handles().contains(node));
                node.lemma_elements();
                assert(node.elements().len() == GreenNode::trees(node.elements()).len());
                assert(elements.len() == GreenNode::trees(elements).len());
                assert forall|i: int| 0 <= i < elements.len() implies node.elements()[i]
                    == elements[i] by {
                    assert(node.elements()[i].as_ref() == children@[i]);
                }
                assert(node.elements() =~= elements);
            },
            None => {},
        }
    }

    /// Whether one cache became the other when `node` was asked for. If it may be `cached`, it is
    /// the one that was found, if any was; otherwise it is a new one, which is entered under the
    /// digest `hash`, where it was looked for.
    pub open spec fn node_step(
        before: NodeCache,
        after: NodeCache,
        hash: u64,
        node: GreenNode,
        cached: bool,
    ) -> bool {
        &&& cached ==> exists|found: Option<GreenNode>|
            #[trigger] before.finds(hash, node@.kind(), node.elements(), found) && match found {
                Some(held) => node == held && after.entered() == before.entered(),
                None => after.entered() == before.entered().insert((hash, node)),
            }
        &&& !cached ==> after.entered() == before.entered()
        &&& after.token_handles() == before.token_handles()
    }

    /// What one cache keeps of another, and a third one of it, the third one keeps of the first.
    pub proof fn lemma_kept_on(self, later: NodeCache, last: NodeCache)
        requires
            self.is_kept_by(later),
            later.is_kept_by(last),
        ensures
            self.is_kept_by(last),
    {
    }

    /// However often a token is asked for, and whatever else is asked for in between, it is the
    /// token that was handed out first.
    pub proof fn lemma_one_token(self, later: NodeCache, tree: Tree)
        requires
            self.token_handles().contains_key(tree),
            self.is_kept_by(later),
        ensures
            later.token_handles().contains_key(tree),
            later.token_handles()[tree] == self.token_handles()[tree],
    {
    }

    /// Whether each of the elements is told to be the very element that it is.
    pub open spec fn recognized(elements: Seq<GreenElement>) -> bool {
        forall|i: int|
            0 <= i < elements.len() ==> !GreenElementRef::is_same_gives(
                (#[trigger] elements[i]).as_ref(),
                elements[i].as_ref(),
                false,
            )
    }

    /// Whether every node is entered under its own digest, and no two of them have the same kind
    /// and hold the same elements.
    pub open spec fn orderly(self) -> bool {
        &&& forall|hash: u64, node: GreenNode| #[trigger]
            self.entered().contains((hash, node)) ==> hash == node@.digest()
        &&& forall|left: GreenNode, right: GreenNode|
            #![trigger self.node_handles().contains(left), self.node_handles().contains(right)]
            self.node_handles().contains(left) && self.node_handles().contains(right)
                && left@.kind() == right@.kind() && left.elements() == right.elements() ==> left
                == right
    }

    /// A node that is asked for again, under its digest and with elements that are recognized, is
    /// the node that was handed out before, and nothing is added. A cache that is orderly stays so.
    pub proof fn lemma_one_node(before: NodeCache, after: NodeCache, node: GreenNode)
        requires
            before.orderly(),
            NodeCache::node_step(before, after, node@.digest(), node, true),
            NodeCache::recognized(node.elements()),
        ensures
            after.orderly(),
            after.node_handles().contains(node),
            forall|first: GreenNode| #[trigger]
                before.node_handles().contains(first) && first@.kind() == node@.kind()
                    && first.elements() == node.elements() ==> node == first && after.entered()
                    == before.entered(),
    {
        let hash = node@.digest();
        let kind = node@.kind();
        let elements = node.elements();
        let found = choose|found: Option<GreenNode>|
            #[trigger] before.finds(hash, kind, elements, found) && match found {
                Some(held) => node == held && after.entered() == before.entered(),
                None => after.entered() == before.entered().insert((hash, node)),
            };
        before.lemma_finds(hash, kind, elements, found);
        node.lemma_elements();
        node.lemma_is_node();
        let handle = |entry: (u64, GreenNode)| entry.1;
        let children = elements.map_values(|element: GreenElement| element.as_ref());
        if found is None {
            assert forall|first: GreenNode| #[trigger]
                before.node_handles().contains(first) implies first@.kind() != kind
                || first.elements() != elements by {
                if first@.kind() == kind && first.elements() == elements {
                    first.lemma_elements();
                    first.lemma_is_node();
                    assert(first@ == node@);
                    let entry = choose|entry: (u64, GreenNode)|
                        before.entered().contains(entry) && handle(entry) == first;
                    assert(before.entered().contains((entry.0, first)));
                    assert(before.entered().contains((hash, first)));
                    assert(GreenElementRef::trees(children) =~= GreenNode::trees(elements));
                    let i = choose|i: int|
                        0 <= i < children.len() && #[trigger] GreenElementRef::is_same_gives(
                            first.elements()[i].as_ref(),
                            children[i],
                            false,
                        );
                    assert(children[i] == elements[i].as_ref());
                    assert(false);
                }
            }
            NodeCache::lemma_one_node_more(before, after, node);
        }
    }

    /// A node that was handed out once is handed out again whenever it is asked for, whatever else
    /// was asked for in between, and nothing is added.
    pub proof fn lemma_node_again(
        earlier: NodeCache,
        before: NodeCache,
        after: NodeCache,
        first: GreenNode,
        node: GreenNode,
    )
        requires
            earlier.node_handles().contains(first),
            earlier.is_kept_by(before),
            before.orderly(),
            NodeCache::node_step(before, after, node@.digest(), node, true),
            NodeCache::recognized(node.elements()),
            first@.kind() == node@.kind(),
            first.elements() == node.elements(),
        ensures
            node == first,
            after.entered() == before.entered(),
    {
        let handle = |entry: (u64, GreenNode)| entry.1;
        let entry = choose|entry: (u64, GreenNode)|
            earlier.entered().contains(entry) && handle(entry) == first;
        assert(before.entered().contains(entry) && handle(entry) == first);
        assert(before.node_handles().contains(first));
        NodeCache::lemma_one_node(before, after, node);
    }

    proof fn lemma_one_node_more(before: NodeCache, after: NodeCache, node: GreenNode)
        requires
            after.entered() == before.entered() && before.node_handles().contains(node) || exists|
                hash: u64,
            | after.entered() == #[trigger] before.entered().insert((hash, node)),
        ensures
            after.node_handles() == before.node_handles().insert(node),
            after.nodes() == before.nodes().insert(node@),
    {
        if after.entered() == before.entered() && before.node_handles().contains(node) {
            assert(before.node_handles().insert(node) =~= before.node_handles());
        } else {
            let hash = choose|hash: u64|
                after.entered() == #[trigger] before.entered().insert((hash, node));
            let handle = |entry: (u64, GreenNode)| entry.1;
            assert forall|held: GreenNode| before.node_handles().insert(node).contains(
                held,
            ) implies after.node_handles().contains(held) by {
                let entry = if held == node {
                    (hash, node)
                } else {
                    choose|entry: (u64, GreenNode)|
                        before.entered().contains(entry) && handle(entry) == held
                };
                assert(after.entered().contains(entry) && handle(entry) == held);
            }
            assert(after.node_handles() =~= before.node_handles().insert(node));
        }
        let tree_of = |node: GreenNode| node@;
        assert forall|tree: Tree| before.nodes().insert(node@).contains(
            tree,
        ) implies after.nodes().contains(tree) by {
            if tree == node@ {
                assert(after.node_handles().contains(node));
            } else {
                let held = choose|held: GreenNode|
                    before.node_handles().contains(held) && tree_of(held) == tree;
                assert(after.node_handles().contains(held));
            }
        }
        assert(after.nodes() =~= before.nodes().insert(node@));
    }

    /// The elements that elements with digests are.
    pub open spec fn elements(elements: Seq<(u64, GreenElement)>) -> Seq<GreenElement> {
        elements.map_values(|element: (u64, GreenElement)| element.1)
    }

    /// The trees that elements with digests are.
    pub open spec fn trees(elements: Seq<(u64, GreenElement)>) -> Seq<Tree> {
        elements.map_values(|element: (u64, GreenElement)| element.1@)
    }

    /// The digests of elements with digests.
    pub open spec fn hashes(elements: Seq<(u64, GreenElement)>) -> Seq<u64> {
        elements.map_values(|element: (u64, GreenElement)| element.0)
    }

    /// Whether a node with these children is interned: if there are few of them and each one comes
    /// with a digest.
    pub open spec fn caches(elements: Seq<(u64, GreenElement)>) -> bool {
        &&& elements.len() <= MAX_CACHED_CHILDREN
        &&& forall|i: int| 0 <= i < elements.len() ==> (#[trigger] elements[i]).0 != 0
    }

    /// Whether a node with these children is interned: if there are few of them and all are.
    pub open spec fn caches_shared(elements: Seq<CachedElement>) -> bool {
        &&& elements.len() <= MAX_CACHED_CHILDREN
        &&& CachedElement::all_interned(elements)
    }

    /// If the elements come with their own digests, so does the node that is made of them.
    pub proof fn lemma_digest(kind: SyntaxKind, elements: Seq<(u64, GreenElement)>)
        requires
            forall|i: int|
                0 <= i < elements.len() ==> (#[trigger] elements[i]).0 == elements[i].1@.digest(),
        ensures
            fx_node_digest(usize::BITS, kind.0, NodeCache::hashes(elements)) == (Tree::Node {
                kind,
                children: NodeCache::trees(elements),
            }).digest(),
    {
        let trees = NodeCache::trees(elements);
        Tree::lemma_digests(trees, trees.len());
        assert(NodeCache::hashes(elements) =~= Tree::digests(trees));
    }

    /// The interned node with this kind and these children; a new one if there is none yet.
    fn intern(&mut self, hash: u64, kind: SyntaxKind, children: Vec<GreenElement>) -> (node:
        GreenNode)
        requires
            children@.len() <= u32::MAX,
            Tree::total_len(GreenNode::trees(children@)) <= u32::MAX,
        ensures
            node@ == (Tree::Node { kind, children: GreenNode::trees(children@) }),
            node.elements() == children@,
            final(self).nodes() == old(self).nodes().insert(node@),
            NodeCache::node_step(*old(self), *final(self), hash, node, true),
    {
        let mut greens: Vec<GreenElementRef<'_>> = Vec::new();
        let mut index: usize = 0;
        while index < children.len()
            invariant
                index <= children@.len(),
                greens@.len() == index,
                forall|i: int| 0 <= i < index ==> #[trigger] greens@[i] == children@[i].as_ref(),
                forall|i: int| 0 <= i < index ==> (#[trigger] greens@[i])@ == children@[i]@,
            decreases children@.len() - index,
        {
            greens.push(children[index].as_deref());
            index = index + 1;
        }
        proof {
            assert(GreenElementRef::trees(greens@) =~= GreenNode::trees(children@));
        }
        let find = NodeTable::find;
        let found = find(&self.nodes, hash, kind, greens.as_slice());
        proof {
            assert(greens@ =~= children@.map_values(|element: GreenElement| element.as_ref()));
            assert(self.finds(hash, kind, children@, found));
        }
        if let Some(node) = found {
            proof {
                self.lemma_finds(hash, kind, children@, found);
                NodeCache::lemma_one_node_more(*old(self), *self, node);
                assert(old(self).finds(hash, node@.kind(), node.elements(), found));
            }
            return node;
        }
        let node = GreenNode::new(kind, children);
        self.nodes.insert(hash, node.clone());
        proof {
            assert(self.entered() == old(self).entered().insert((hash, node)));
            NodeCache::lemma_one_node_more(*old(self), *self, node);
            assert(old(self).finds(hash, node@.kind(), node.elements(), found));
        }
        node
    }

    /// Takes the elements from `first_child` on out of `children` and makes a node of them, with
    /// its digest; the digest of a node that is not interned is zero.
    pub fn node(
        &mut self,
        kind: SyntaxKind,
        children: &mut Vec<(u64, GreenElement)>,
        first_child: usize,
    ) -> (node: (u64, GreenNode))
        requires
            first_child <= old(children)@.len(),
            old(children)@.len() - first_child <= u32::MAX,
            Tree::total_len(NodeCache::trees(old(children)@.skip(first_child as int)))
                <= u32::MAX,
        ensures
            final(children)@ == old(children)@.take(first_child as int),
            node.1@ == (Tree::Node {
                kind,
                children: NodeCache::trees(old(children)@.skip(first_child as int)),
            }),
            node.0 == (if NodeCache::caches(old(children)@.skip(first_child as int)) {
                fx_node_digest(
                    usize::BITS,
                    kind.0,
                    NodeCache::hashes(old(children)@.skip(first_child as int)),
                )
            } else {
                0
            }),
            final(self).nodes() == (if NodeCache::caches(
                old(children)@.skip(first_child as int),
            ) {
                old(self).nodes().insert(node.1@)
            } else {
                old(self).nodes()
            }),
            node.1.elements() == NodeCache::elements(old(children)@.skip(first_child as int)),
            NodeCache::node_step(
                *old(self),
                *final(self),
                node.0,
                node.1,
                NodeCache::caches(old(children)@.skip(first_child as int)),
            ),
            old(self).is_kept_by(*final(self)),
    {
        let tail: Vec<(u64, GreenElement)> = children.split_off(first_child);
        let ghost all = old(children)@.skip(first_child as int);
        proof {
            assert(tail@ =~= all);
        }
        let mut cacheable = tail.len() <= MAX_CACHED_CHILDREN;
        let mut words: Vec<u64> = Vec::new();
        let mut greens: Vec<GreenElement> = Vec::new();
        for element in it: tail
            invariant
                it.seq() == all,
                cacheable == (all.len() <= MAX_CACHED_CHILDREN && forall|i: int|
                    0 <= i < it.index() ==> (#[trigger] all[i]).0 != 0),
                words@ == NodeCache::hashes(all.take(it.index())),
                greens@ == NodeCache::elements(all.take(it.index())),
                GreenNode::trees(greens@) == NodeCache::trees(all.take(it.index())),
        {
            let ghost before = greens@;
            let (hash, green) = element;
            if hash == 0 {
                cacheable = false;
            }
            words.push(hash);
            greens.push(green);
            proof {
                assert(words@ =~= NodeCache::hashes(all.take(it.index() + 1)));
                assert(greens@ =~= NodeCache::elements(all.take(it.index() + 1)));
                assert(GreenNode::trees(greens@) =~= GreenNode::trees(before).push(green@));
                assert(NodeCache::trees(all.take(it.index() + 1)) =~= NodeCache::trees(
                    all.take(it.index()),
                ).push(all[it.index()].1@));
            }
        }
        proof {
            assert(all.take(all.len() as int) =~= all);
            assert(greens@.len() == GreenNode::trees(greens@).len());
        }
        if !cacheable {
            return (0, GreenNode::new(kind, greens));
        }
        let hash: u64 = node_hash_parts(kind, words.as_slice());
        let node = self.intern(hash, kind, greens);
        (hash, node)
    }

    /// The interned token with this kind and text, a new one if there is none yet, and its digest.
    pub fn token(&mut self, kind: SyntaxKind, text: &str) -> (token: (u64, GreenToken))
        requires
            encode_utf8(text@).len() <= u32::MAX,
        ensures
            token.1@ == (Tree::Token { kind, text: text@ }),
            token.0 == token.1@.digest(),
            final(self).tokens() == old(self).tokens().insert(token.1@),
            NodeCache::token_step(*old(self), *final(self), token.1),
            old(self).is_kept_by(*final(self)),
    {
        let hash: u64 = token_hash_parts(kind, text);
        if let Some(token) = self.tokens.find(hash, kind, text) {
            proof {
                assert(self.tokens().insert(token@) =~= self.tokens());
            }
            return (hash, token);
        }
        let token = GreenToken::new(kind, text);
        self.tokens.insert(hash, token.clone());
        (hash, token)
    }

    /// Takes the elements from `first_child` on out of `children` and makes a node of them.
    pub fn shared_node(
        &mut self,
        kind: SyntaxKind,
        children: &mut Vec<CachedElement>,
        first_child: usize,
    ) -> (node: CachedElement)
        requires
            first_child <= old(children)@.len(),
            old(children)@.len() - first_child <= u32::MAX,
            Tree::total_len(CachedElement::trees(old(children)@.skip(first_child as int)))
                <= u32::MAX,
        ensures
            final(children)@ == old(children)@.take(first_child as int),
            node@ == (Tree::Node {
                kind,
                children: CachedElement::trees(old(children)@.skip(first_child as int)),
            }),
            node.is_node(),
            node.is_interned() == NodeCache::caches_shared(
                old(children)@.skip(first_child as int),
            ),
            node.hash_spec() == (if node.is_interned() {
                node@.digest()
            } else {
                0
            }),
            !node.is_shareable(),
            node.weight() == 0,
            final(self).nodes() == (if node.is_interned() {
                old(self).nodes().insert(node@)
            } else {
                old(self).nodes()
            }),
            node.element() matches NodeOrToken::Node(handle) && {
                &&& handle.elements() == CachedElement::elements(
                    old(children)@.skip(first_child as int),
                )
                &&& NodeCache::node_step(
                    *old(self),
                    *final(self),
                    node.hash_spec(),
                    handle,
                    node.is_interned(),
                )
            },
            old(self).is_kept_by(*final(self)),
    {
        let tail: Vec<CachedElement> = children.split_off(first_child);
        proof {
            assert(tail@ =~= old(children)@.skip(first_child as int));
        }
        let mut cacheable = tail.len() <= MAX_CACHED_CHILDREN;
        let mut index: usize = 0;
        while cacheable && index < tail.len()
            invariant
                index <= tail@.len(),
                cacheable ==> tail@.len() <= MAX_CACHED_CHILDREN,
                cacheable ==> forall|i: int|
                    0 <= i < index ==> (#[trigger] tail@[i]).is_interned(),
                !cacheable ==> !NodeCache::caches_shared(tail@),
            decreases tail@.len() - index,
        {
            if !tail[index].interned() {
                cacheable = false;
            }
            index = index + 1;
        }
        if !cacheable {
            let greens = CachedElement::into_greens(tail);
            proof {
                assert(greens@.len() == GreenNode::trees(greens@).len());
            }
            let node = GreenNode::new(kind, greens);
            return CachedElement::local(0, false, NodeOrToken::Node(node));
        }
        let hash: u64 = cached_node_hash(kind, tail.as_slice());
        let greens = CachedElement::into_greens(tail);
        proof {
            assert(greens@.len() == GreenNode::trees(greens@).len());
        }
        let node = self.intern(hash, kind, greens);
        CachedElement::local(hash, true, NodeOrToken::Node(node))
    }

    /// The interned token with this kind and text; a new one if there is none yet.
    pub fn shared_token(&mut self, kind: SyntaxKind, text: &str) -> (token: CachedElement)
        requires
            encode_utf8(text@).len() <= u32::MAX,
        ensures
            token@ == (Tree::Token { kind, text: text@ }),
            !token.is_node(),
            token.is_interned(),
            token.hash_spec() == token@.digest(),
            !token.is_shareable(),
            token.weight() == 0,
            final(self).tokens() == old(self).tokens().insert(token@),
            token.element() matches NodeOrToken::Token(handle) && NodeCache::token_step(
                *old(self),
                *final(self),
                handle,
            ),
            old(self).is_kept_by(*final(self)),
    {
        let (hash, token) = self.token(kind, text);
        CachedElement::local(hash, true, NodeOrToken::Token(token))
    }
}

} // verus!
