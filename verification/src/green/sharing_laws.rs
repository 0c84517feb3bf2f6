//! Laws of interners and builders: which nodes and tokens are handed out again, which ones builders
//! share, and what a shared interner keeps.

use crate::green::backend::{CacheBackend, Interned, SharedCacheBackend};
use crate::green::cached::CachedElement;
use crate::green::element::{GreenElement, GreenElementRef};
use crate::green::hash::fx_node_digest;
use crate::green::layout::{own_node_weight, token_weight_spec};
use crate::green::node::GreenNode;
use crate::green::node_cache::NodeCache;
use crate::green::shared_cache::{
    NodeShardData, NodeShardLimits, ShardModel, ShardUsage, SharedNodeCache, TokenShardData,
    TokenShardLimits,
};
use crate::green::token::GreenToken;
use crate::green::tree::Tree;
use crate::green::SyntaxKind;
use crate::utility_types::NodeOrToken;
use vstd::prelude::*;
use vstd::rwlock::RwLockPredicate;
use vstd::utf8::*;

verus! {

/// A node is interned if and only if it has at most three children and each of them came with a
/// digest.
pub proof fn lemma_small_nodes_are_interned(elements: Seq<(u64, GreenElement)>)
    ensures
        NodeCache::caches(elements) <==> elements.len() <= 3 && forall|i: int|
            0 <= i < elements.len() ==> (#[trigger] elements[i]).0 != 0,
        NodeCache::caches(elements) <==> Interned::caches(NodeCache::hashes(elements)),
{
    let hashes = NodeCache::hashes(elements);
    assert(forall|i: int| 0 <= i < elements.len() ==> hashes[i] == (#[trigger] elements[i]).0);
    assert(forall|i: int| 0 <= i < elements.len() ==> #[trigger] hashes[i] == elements[i].0);
}

/// What is said of digests by [`lemma_small_nodes_are_interned`] holds of the digests by
/// themselves.
pub proof fn lemma_few_digests_are_interned(digests: Seq<u64>)
    ensures
        Interned::caches(digests) <==> digests.len() <= 3 && forall|i: int|
            0 <= i < digests.len() ==> #[trigger] digests[i] != 0,
{
}

/// A node that is not shared between builders is interned if and only if it has at most three
/// children and all of them are interned.
pub proof fn lemma_small_local_nodes_are_interned(elements: Seq<CachedElement>)
    ensures
        NodeCache::caches_shared(elements) <==> elements.len() <= 3 && forall|i: int|
            0 <= i < elements.len() ==> (#[trigger] elements[i]).is_interned(),
{
}

impl<'cache> CacheBackend<'cache> {
    /// The interner, if it is not one that builders share.
    pub open spec fn cache(self) -> Option<NodeCache> {
        match self {
            CacheBackend::Own(cache, _) => Some(cache),
            CacheBackend::Borrowed(cache, _) => Some(*cache),
            CacheBackend::Shared(_) => None,
        }
    }
}

/// What is kept beside each other belongs together: the elements of a builder, the trees that they
/// are and the digests that they came with.
pub proof fn lemma_elements_of_builder<'cache>(backend: CacheBackend<'cache>, i: int)
    requires
        0 <= i < backend.elements().len(),
    ensures
        backend@.len() == backend.elements().len(),
        backend.cache() is Some ==> {
            &&& backend@[i] == backend.elements()[i]@
            &&& backend.interned().unwrap().digests.len() == backend.elements().len()
        },
        backend matches CacheBackend::Own(_, children) ==> backend.elements()[i] == children@[i].1
            && backend.interned().unwrap().digests[i] == children@[i].0,
        backend matches CacheBackend::Borrowed(_, children) ==> backend.elements()[i]
            == children@[i].1 && backend.interned().unwrap().digests[i] == children@[i].0,
        backend matches CacheBackend::Shared(shared) ==> backend.elements()[i]
            == shared@[i].element() && backend@[i] == shared@[i]@,
{
}

/// Adding a token leaves all elements as they are and puts one more behind them: the token. Which
/// interner the builder uses does not change.
pub proof fn lemma_token_step<'cache>(
    before: CacheBackend<'cache>,
    after: CacheBackend<'cache>,
    kind: SyntaxKind,
    text: Seq<char>,
)
    requires
        CacheBackend::token_step(before, after, kind, text),
    ensures
        after.elements().len() == before.elements().len() + 1,
        forall|i: int|
            0 <= i < before.elements().len() ==> #[trigger] after.elements()[i]
                == before.elements()[i],
        after.elements().last() matches NodeOrToken::Token(token) && token@ == (Tree::Token {
            kind,
            text,
        }),
        before is Own <==> after is Own,
        before is Shared <==> after is Shared,
        before.cache() is Some ==> ({
            let token = after.elements().last()->Token_0;
            let held = before.cache().unwrap().token_handles();
            let holds = after.cache().unwrap().token_handles();
            &&& held.contains_key(token@) ==> token == held[token@] && holds == held
            &&& !held.contains_key(token@) ==> holds == held.insert(token@, token)
            &&& after.cache().unwrap().entered() == before.cache().unwrap().entered()
        }),
        before matches CacheBackend::Shared(shared) ==> SharedCacheBackend::token_step(
            shared,
            after->Shared_0,
            kind,
            text,
        ),
{
    assert forall|i: int| 0 <= i < before.elements().len() implies #[trigger] after.elements()[i]
        == before.elements()[i] by {
        assert(after.elements().drop_last()[i] == before.elements()[i]);
    }
}

/// Making a node leaves the elements in front of it as they are and puts the node in the place of
/// the others. Unless builders share it, it holds these very elements. Which interner the builder
/// uses does not change, nor do the tokens in it.
pub proof fn lemma_node_step<'cache>(
    before: CacheBackend<'cache>,
    after: CacheBackend<'cache>,
    kind: SyntaxKind,
    first_child: int,
)
    requires
        0 <= first_child <= before.elements().len(),
        CacheBackend::node_step(before, after, kind, first_child),
    ensures
        after.elements().len() == first_child + 1,
        forall|i: int|
            0 <= i < first_child ==> #[trigger] after.elements()[i] == before.elements()[i],
        after.elements().last() matches NodeOrToken::Node(node) && {
            &&& node@.kind() == kind
            &&& node@.children().len() == before.elements().len() - first_child
            &&& forall|i: int|
                first_child <= i < before.elements().len() ==> node@.children()[i - first_child] == (
                #[trigger] before.elements()[i])@
            &&& before.cache() is Some ==> node.elements() == before.elements().skip(first_child)
        },
        before is Own <==> after is Own,
        before is Shared <==> after is Shared,
        before.cache() is Some ==> ({
            let node = after.elements().last()->Node_0;
            let held = before.cache().unwrap();
            let holds = after.cache().unwrap();
            &&& holds.token_handles() == held.token_handles()
            &&& holds.entered() == held.entered() || exists|hash: u64|
                holds.entered() == #[trigger] held.entered().insert((hash, node))
        }),
        before matches CacheBackend::Shared(shared) ==> SharedCacheBackend::node_step(
            shared,
            after->Shared_0,
            kind,
            first_child,
        ),
{
    assert forall|i: int| 0 <= i < first_child implies #[trigger] after.elements()[i]
        == before.elements()[i] by {
        assert(after.elements().drop_last()[i] == before.elements()[i]);
    }
    let node = after.elements().last()->Node_0;
    let tail = before.elements().skip(first_child);
    assert(forall|i: int|
        first_child <= i < before.elements().len() ==> #[trigger] before.elements()[i] == tail[i
            - first_child]);
}

/// What asking an interner for a node does to it: the tokens stay, and a node that may not be
/// interned changes nothing. One that may be is held afterwards, and at most that one comes in.
pub proof fn lemma_node_held(
    before: NodeCache,
    after: NodeCache,
    hash: u64,
    node: GreenNode,
    cached: bool,
)
    requires
        NodeCache::node_step(before, after, hash, node, cached),
    ensures
        after.token_handles() == before.token_handles(),
        !cached ==> after.entered() == before.entered(),
        cached ==> after.node_handles().contains(node),
        cached ==> after.entered() == before.entered() || after.entered() == before.entered().insert(
            (hash, node),
        ),
{
    if cached {
        let found = choose|found: Option<GreenNode>|
            #[trigger] before.finds(hash, node@.kind(), node.elements(), found) && match found {
                Some(held) => node == held && after.entered() == before.entered(),
                None => after.entered() == before.entered().insert((hash, node)),
            };
        before.lemma_finds(hash, node@.kind(), node.elements(), found);
        let handle = |entry: (u64, GreenNode)| entry.1;
        match found {
            Some(_) => {
                let entry = choose|entry: (u64, GreenNode)|
                    before.entered().contains(entry) && handle(entry) == node;
                assert(after.entered().contains(entry) && handle(entry) == node);
            },
            None => {
                let entry = (hash, node);
                assert(after.entered().contains(entry) && handle(entry) == node);
            },
        }
    }
}

/// A token that is asked for again, however much was interned in between, is the token that was
/// handed out first, whatever its kind and its text are. Nothing is added for it.
pub proof fn lemma_same_token_twice(
    before: NodeCache,
    after: NodeCache,
    later: NodeCache,
    last: NodeCache,
    first: GreenToken,
    second: GreenToken,
)
    requires
        NodeCache::token_step(before, after, first),
        forall|tree: Tree| #[trigger]
            after.token_handles().contains_key(tree) ==> later.token_handles().contains_key(tree)
                && later.token_handles()[tree] == after.token_handles()[tree],
        NodeCache::token_step(later, last, second),
        first@ == second@,
    ensures
        first == second,
        last.token_handles() == later.token_handles(),
        last.entered() == later.entered(),
{
    assert(after.token_handles().contains_key(first@));
}

/// Whatever a builder does, its interner keeps what it holds.
pub proof fn lemma_steps_keep<'cache>(
    before: CacheBackend<'cache>,
    after: CacheBackend<'cache>,
    kind: SyntaxKind,
    text: Seq<char>,
    first_child: int,
)
    requires
        before.cache() is Some,
        CacheBackend::token_step(before, after, kind, text) || CacheBackend::node_step(
            before,
            after,
            kind,
            first_child,
        ),
    ensures
        after.cache() is Some,
        before.cache().unwrap().entered().subset_of(after.cache().unwrap().entered()),
        forall|tree: Tree| #[trigger]
            before.cache().unwrap().token_handles().contains_key(tree) ==> {
                &&& after.cache().unwrap().token_handles().contains_key(tree)
                &&& after.cache().unwrap().token_handles()[tree]
                    == before.cache().unwrap().token_handles()[tree]
            },
{
}

/// A node of at most three elements, each of which came with its own digest, that a builder
/// finishes a second time with the same interner is the very node that was handed out the first
/// time, whatever its kind is and whatever was interned in between, and nothing is added for it.
///
/// The interner must hold its nodes under their own digests and none of them twice, as it does from
/// the start, and the elements must be told to be the very elements that they are.
pub proof fn lemma_same_node_twice<'a, 'b>(
    before: CacheBackend<'a>,
    after: CacheBackend<'a>,
    later: CacheBackend<'b>,
    last: CacheBackend<'b>,
    kind: SyntaxKind,
    i: int,
    j: int,
)
    requires
        before.cache() is Some,
        later.cache() is Some,
        0 <= i <= before.elements().len(),
        0 <= j <= later.elements().len(),
        CacheBackend::node_step(before, after, kind, i),
        after.interned() == Some(
            before.interned().unwrap().node(Tree::Node { kind, children: before@.skip(i) }, i),
        ),
        CacheBackend::node_step(later, last, kind, j),
        last.interned() == Some(
            later.interned().unwrap().node(Tree::Node { kind, children: later@.skip(j) }, j),
        ),
        before.elements().skip(i) == later.elements().skip(j),
        before.elements().len() - i <= 3,
        forall|k: int|
            i <= k < before.elements().len() ==> {
                &&& #[trigger] before.interned().unwrap().digests[k] == before.elements()[k]@.digest()
                &&& before.interned().unwrap().digests[k] != 0
            },
        forall|k: int|
            j <= k < later.elements().len() ==> {
                &&& #[trigger] later.interned().unwrap().digests[k] == later.elements()[k]@.digest()
                &&& later.interned().unwrap().digests[k] != 0
            },
        before.cache().unwrap().orderly(),
        later.cache().unwrap().orderly(),
        after.cache().unwrap().entered().subset_of(later.cache().unwrap().entered()),
        forall|k: int|
            i <= k < before.elements().len() ==> !GreenElementRef::is_same_gives(
                (#[trigger] before.elements()[k]).as_ref(),
                before.elements()[k].as_ref(),
                false,
            ),
    ensures
        after.elements().last() is Node,
        last.elements().last() == after.elements().last(),
        last.cache().unwrap().entered() == later.cache().unwrap().entered(),
{
    let tail = before.elements().skip(i);
    let first = after.elements().last()->Node_0;
    let second = last.elements().last()->Node_0;
    lemma_one_handle(before, after, kind, i);
    lemma_one_handle(later, last, kind, j);
    assert forall|k: int| 0 <= k < tail.len() implies !GreenElementRef::is_same_gives(
        (#[trigger] tail[k]).as_ref(),
        tail[k].as_ref(),
        false,
    ) by {
        assert(tail[k] == before.elements()[i + k]);
    }
    NodeCache::lemma_one_node(before.cache().unwrap(), after.cache().unwrap(), first);
    let handle = |entry: (u64, GreenNode)| entry.1;
    let entry = choose|entry: (u64, GreenNode)|
        after.cache().unwrap().entered().contains(entry) && handle(entry) == first;
    assert(later.cache().unwrap().entered().contains(entry) && handle(entry) == first);
    assert(later.cache().unwrap().node_handles().contains(first));
    NodeCache::lemma_one_node(later.cache().unwrap(), last.cache().unwrap(), second);
}

/// How a small node is asked for: under its own digest, and so that it is interned.
proof fn lemma_one_handle<'cache>(
    before: CacheBackend<'cache>,
    after: CacheBackend<'cache>,
    kind: SyntaxKind,
    i: int,
)
    requires
        before.cache() is Some,
        0 <= i <= before.elements().len(),
        CacheBackend::node_step(before, after, kind, i),
        after.interned() == Some(
            before.interned().unwrap().node(Tree::Node { kind, children: before@.skip(i) }, i),
        ),
        before.elements().len() - i <= 3,
        forall|k: int|
            i <= k < before.elements().len() ==> {
                &&& #[trigger] before.interned().unwrap().digests[k] == before.elements()[k]@.digest()
                &&& before.interned().unwrap().digests[k] != 0
            },
    ensures
        after.cache() is Some,
        after.elements().last() matches NodeOrToken::Node(node) && {
            &&& node@.kind() == kind
            &&& node.elements() == before.elements().skip(i)
            &&& NodeCache::node_step(
                before.cache().unwrap(),
                after.cache().unwrap(),
                node@.digest(),
                node,
                true,
            )
        },
{
    let node = after.elements().last()->Node_0;
    let tail = before.elements().skip(i);
    let digests = before.interned().unwrap().digests.skip(i);
    let trees = GreenNode::trees(tail);
    let entries = match before {
        CacheBackend::Own(_, children) => children@,
        CacheBackend::Borrowed(_, children) => children@,
        CacheBackend::Shared(_) => Seq::empty(),
    };
    let made = match after {
        CacheBackend::Own(_, children) => children@,
        CacheBackend::Borrowed(_, children) => children@,
        CacheBackend::Shared(_) => Seq::empty(),
    };
    assert(before.interned().unwrap().digests == NodeCache::hashes(entries));
    assert(after.interned().unwrap().digests == NodeCache::hashes(made));
    assert forall|k: int| 0 <= k < entries.skip(i).len() implies (#[trigger] entries.skip(i)[k]).0
        != 0 by {
        assert(before.interned().unwrap().digests[i + k] == entries[i + k].0);
    }
    lemma_small_nodes_are_interned(entries.skip(i));
    assert forall|k: int| 0 <= k < digests.len() implies #[trigger] digests[k] == trees[k].digest()
        && digests[k] != 0 by {
        assert(before.interned().unwrap().digests[i + k] == before.elements()[i + k]@.digest());
    }
    Tree::lemma_digests(trees, trees.len());
    assert(digests =~= Tree::digests(trees));
    lemma_few_digests_are_interned(digests);
    assert(made.last().0 == NodeCache::hashes(made).last());
    assert(made.last().0 == node@.digest());
}

/// A node of more than three elements, or with an element that came without a digest, is a new one,
/// and the interner stays as it is.
pub proof fn lemma_large_nodes_are_new<'cache>(
    before: CacheBackend<'cache>,
    after: CacheBackend<'cache>,
    kind: SyntaxKind,
    i: int,
)
    requires
        before.cache() is Some,
        0 <= i <= before.elements().len(),
        CacheBackend::node_step(before, after, kind, i),
        before.elements().len() - i > 3 || exists|k: int|
            i <= k < before.elements().len() && #[trigger] before.interned().unwrap().digests[k] == 0,
    ensures
        after.cache().unwrap().entered() == before.cache().unwrap().entered(),
        after.cache().unwrap().token_handles() == before.cache().unwrap().token_handles(),
{
    let entries = match before {
        CacheBackend::Own(_, children) => children@,
        CacheBackend::Borrowed(_, children) => children@,
        CacheBackend::Shared(_) => Seq::empty(),
    };
    if before.elements().len() - i <= 3 {
        let k = choose|k: int|
            i <= k < before.elements().len() && #[trigger] before.interned().unwrap().digests[k]
                == 0;
        assert(entries.skip(i)[k - i].0 == 0);
    }
}

/// What an interner keeps of another one: all nodes, each under the same digest, all tokens, and
/// which handles it hands out for them.
pub proof fn lemma_kept(cache: NodeCache, later: NodeCache)
    ensures
        cache.is_kept_by(later) <==> (forall|hash: u64, node: GreenNode| #[trigger]
            cache.entered().contains((hash, node)) ==> later.entered().contains((hash, node))) && (
        forall|tree: Tree| #[trigger]
            cache.token_handles().contains_key(tree) ==> later.token_handles().contains_key(tree)
                && later.token_handles()[tree] == cache.token_handles()[tree]),
        cache.is_kept_by(later) ==> cache.tokens().subset_of(later.tokens()),
        cache.is_kept_by(later) ==> cache.nodes().subset_of(later.nodes()),
{
    if cache.is_kept_by(later) {
        let handle = |entry: (u64, GreenNode)| entry.1;
        let tree_of = |node: GreenNode| node@;
        assert forall|tree: Tree| cache.nodes().contains(tree) implies later.nodes().contains(
            tree,
        ) by {
            let node = choose|node: GreenNode|
                cache.node_handles().contains(node) && tree_of(node) == tree;
            let entry = choose|entry: (u64, GreenNode)|
                cache.entered().contains(entry) && handle(entry) == node;
            assert(later.entered().contains(entry) && handle(entry) == node);
            assert(later.node_handles().contains(node) && tree_of(node) == tree);
        }
    }
    if forall|hash: u64, node: GreenNode| #[trigger]
        cache.entered().contains((hash, node)) ==> later.entered().contains((hash, node)) {
        assert forall|entry: (u64, GreenNode)|
            cache.entered().contains(entry) implies later.entered().contains(entry) by {
            assert(cache.entered().contains((entry.0, entry.1)));
        }
    }
}

/// What a builder's interner holds after one more token: that token, whatever it is, and all that
/// it held before; and the token comes with its digest.
pub proof fn lemma_interned_token(interned: Interned, token: Tree)
    ensures
        interned.token(token).tokens == interned.tokens.insert(token),
        interned.token(token).nodes == interned.nodes,
        interned.token(token).digests == interned.digests.push(token.digest()),
{
}

/// What a builder's interner holds after one more node: that node, whatever its kind is, if it has
/// at most three children that all came with a digest; then the node comes with a digest, too, made
/// of its kind and theirs. Any other node comes without a digest and is not held.
pub proof fn lemma_interned_node(interned: Interned, node: Tree, first_child: int)
    requires
        0 <= first_child <= interned.digests.len(),
    ensures
        ({
            let after = interned.node(node, first_child);
            let few = interned.digests.len() - first_child <= 3 && forall|k: int|
                first_child <= k < interned.digests.len() ==> #[trigger] interned.digests[k] != 0;
            &&& after.tokens == interned.tokens
            &&& after.digests.len() == first_child + 1
            &&& after.digests.take(first_child) == interned.digests.take(first_child)
            &&& few ==> after.nodes == interned.nodes.insert(node) && after.digests[first_child]
                == fx_node_digest(
                usize::BITS,
                node.kind().0,
                interned.digests.subrange(first_child, interned.digests.len() as int),
            )
            &&& !few ==> after.nodes == interned.nodes && after.digests[first_child] == 0
        }),
{
    let digests = interned.digests.skip(first_child);
    let after = interned.node(node, first_child);
    lemma_few_digests_are_interned(digests);
    assert(digests =~= interned.digests.subrange(first_child, interned.digests.len() as int));
    assert(forall|k: int|
        first_child <= k < interned.digests.len() ==> #[trigger] interned.digests[k] == digests[k
            - first_child]);
    assert(forall|k: int|
        0 <= k < digests.len() ==> #[trigger] digests[k] == interned.digests[first_child + k]);
    assert(after.digests.take(first_child) =~= interned.digests.take(first_child));
}

/// A builder is finished with the node that it made, unless builders share that node: then the root
/// was newly made, with the kind of that node and of the same elements, whatever its kind is.
pub proof fn lemma_finished<'cache>(backend: SharedCacheBackend<'cache>, root: GreenNode)
    requires
        backend.finishes_with(root),
    ensures
        root@ == backend@[0]@,
        backend@[0].is_shareable() ==> exists|children: Vec<GreenElement>|
            #[trigger] call_ensures(GreenNode::new, (root@.kind(), children), root) && children@
                == root.elements(),
        backend@[0].is_shareable() ==> (backend@[0].element() matches NodeOrToken::Node(node)
            && node.elements() == root.elements()),
        !backend@[0].is_shareable() ==> backend@[0].element() == NodeOrToken::<
            GreenNode,
            GreenToken,
        >::Node(root),
{
    let node = backend@[0].element()->Node_0;
    root.lemma_elements();
    node.lemma_elements();
    root.lemma_is_node();
    node.lemma_is_node();
    if backend@[0].is_shareable() {
        let children = choose|children: Vec<GreenElement>|
            #[trigger] call_ensures(GreenNode::new, (node@.kind(), children), root) && children@
                == node.elements();
        assert(root@ == (Tree::Node { kind: node@.kind(), children: GreenNode::trees(children@) }));
        assert(call_ensures(GreenNode::new, (root@.kind(), children), root));
    }
}

/// What is said by [`lemma_finished`] holds of every builder with an interner that builders share;
/// any other builder is finished with the very node that it made.
pub proof fn lemma_finished_builder<'cache>(backend: CacheBackend<'cache>, root: GreenNode)
    requires
        backend.finishes_with(root),
    ensures
        root@ == backend@[0],
        backend matches CacheBackend::Shared(shared) ==> {
            &&& shared@[0].is_shareable() ==> exists|children: Vec<GreenElement>|
                #[trigger] call_ensures(GreenNode::new, (root@.kind(), children), root)
                    && children@ == root.elements()
            &&& !shared@[0].is_shareable() ==> shared@[0].element() == NodeOrToken::<
                GreenNode,
                GreenToken,
            >::Node(root)
        },
        !(backend is Shared) ==> backend.elements()[0] == NodeOrToken::<
            GreenNode,
            GreenToken,
        >::Node(root),
{
    match backend {
        CacheBackend::Shared(shared) => lemma_finished(shared, root),
        _ => {},
    }
}

/// Builders share a token if and only if its text has at most eight bytes.
pub proof fn lemma_shared_tokens<'cache>(text: Seq<char>)
    ensures
        SharedCacheBackend::<'cache>::shares_token(text) <==> encode_utf8(text).len() <= 8,
{
}

/// Builders share a node if and only if it has no children, or one that builders share, and all of
/// it together weighs at most 1024.
pub proof fn lemma_shared_nodes<'cache>(children: Seq<CachedElement>)
    ensures
        children.len() == 0 ==> (SharedCacheBackend::<'cache>::shares_node(children)
            <==> own_node_weight(0) <= 1024),
        children.len() == 1 ==> (SharedCacheBackend::<'cache>::shares_node(children)
            <==> children[0].is_shareable() && own_node_weight(1) + children[0].weight() <= 1024),
        children.len() > 1 ==> !SharedCacheBackend::<'cache>::shares_node(children),
{
    reveal_with_fuel(CachedElement::weight_before, 2);
}

/// A node weighs as much as its own storage and all of its children together, or as much as can be
/// counted; one more child adds its weight.
pub proof fn lemma_weight_of_parts(children: Seq<CachedElement>, child: CachedElement)
    ensures
        CachedElement::weight_before(Seq::empty(), 0) == 0,
        CachedElement::weight_before(children.push(child), children.len() + 1)
            == CachedElement::weight_before(children, children.len()) + child.weight(),
        CachedElement::node_weight_spec(children) == own_node_weight(children.len())
            + CachedElement::weight_before(children, children.len())
            || CachedElement::node_weight_spec(children) == 0xffff_ffff <= own_node_weight(
            children.len(),
        ) + CachedElement::weight_before(children, children.len()),
        CachedElement::node_weight_spec(children) <= 0xffff_ffff,
{
    lemma_weight_prefix(children, child, children.len());
}

proof fn lemma_weight_prefix(children: Seq<CachedElement>, child: CachedElement, n: nat)
    requires
        n <= children.len(),
    ensures
        CachedElement::weight_before(children.push(child), n) == CachedElement::weight_before(
            children,
            n,
        ),
    decreases n,
{
    if n > 0 {
        lemma_weight_prefix(children, child, (n - 1) as nat);
    }
}

/// Where a token of a builder with a shared interner comes from: if its text has at most eight
/// bytes, from that interner, which is asked for it under its digest; otherwise from the interner
/// of the builder.
pub proof fn lemma_token_source<'cache>(
    before: SharedCacheBackend<'cache>,
    after: SharedCacheBackend<'cache>,
    kind: SyntaxKind,
    text: Seq<char>,
)
    requires
        SharedCacheBackend::token_step(before, after, kind, text),
    ensures
        after@.drop_last() == before@,
        after@.last()@ == (Tree::Token { kind, text }),
        after@.last().is_interned(),
        after@.last().is_shareable() <==> encode_utf8(text).len() <= 8,
        after@.last().hash_spec() == (Tree::Token { kind, text }).digest(),
        after@.last().weight() == (if encode_utf8(text).len() <= 8 {
            token_weight_spec(encode_utf8(text).len())
        } else {
            0
        }),
        after.shared_cache() == before.shared_cache(),
        after@.last().element() matches NodeOrToken::Token(token) && {
            &&& encode_utf8(text).len() <= 8 ==> {
                &&& before.shared_cache().token_asked(
                    (Tree::Token { kind, text }).digest(),
                    token,
                    after@.last().weight() as int,
                )
                &&& after.local_cache() == before.local_cache()
            }
            &&& encode_utf8(text).len() > 8 ==> {
                &&& after.local_cache().token_handles().contains_key(Tree::Token { kind, text })
                &&& after.local_cache().token_handles()[Tree::Token { kind, text }] == token
                &&& after.local_cache().entered() == before.local_cache().entered()
            }
        },
{
    after@.last().lemma_element();
}

/// Where a node of a builder with a shared interner comes from: if it has no children, or one that
/// builders share, and does not weigh more than 1024, from that interner, which is asked for it
/// under its digest; otherwise it holds the elements that it was made of, and is interned if it has
/// at most three children, all of which are.
pub proof fn lemma_node_source<'cache>(
    before: SharedCacheBackend<'cache>,
    after: SharedCacheBackend<'cache>,
    kind: SyntaxKind,
    first_child: int,
)
    requires
        0 <= first_child <= before@.len(),
        SharedCacheBackend::node_step(before, after, kind, first_child),
    ensures
        after@.drop_last() == before@.take(first_child),
        after@.last()@.kind() == kind,
        after@.last()@.children() == CachedElement::trees(before@.skip(first_child)),
        after.shared_cache() == before.shared_cache(),
        after@.last().is_shareable() <==> {
            ||| before@.len() == first_child && own_node_weight(0) <= 1024
            ||| before@.len() == first_child + 1 && before@[first_child].is_shareable()
                && own_node_weight(1) + before@[first_child].weight() <= 1024
        },
        after@.last().is_shareable() ==> after@.last().is_interned(),
        after@.last().hash_spec() == (if after@.last().is_interned() {
            after@.last()@.digest()
        } else {
            0
        }),
        after@.last().weight() == (if !after@.last().is_shareable() {
            0
        } else if before@.len() == first_child {
            own_node_weight(0)
        } else {
            own_node_weight(1) + before@[first_child].weight() as nat
        }),
        after@.last().element() matches NodeOrToken::Node(node) && {
            &&& after@.last().is_shareable() ==> {
                &&& before.shared_cache().node_asked(
                    after@.last()@.digest(),
                    node,
                    CachedElement::elements(before@.skip(first_child)),
                    after@.last().weight() as int,
                )
                &&& after.local_cache() == before.local_cache()
            }
            &&& !after@.last().is_shareable() ==> {
                &&& node.elements() == CachedElement::elements(before@.skip(first_child))
                &&& after@.last().is_interned() <==> before@.len() - first_child <= 3 && forall|
                    k: int,
                |
                    first_child <= k < before@.len() ==> (#[trigger] before@[k]).is_interned()
                &&& !after@.last().is_interned() ==> after.local_cache().entered()
                    == before.local_cache().entered()
                &&& after@.last().is_interned() ==> after.local_cache().node_handles().contains(
                    node,
                )
                &&& after.local_cache().token_handles() == before.local_cache().token_handles()
            }
        },
{
    let children = before@.skip(first_child);
    let node = after@.last().element()->Node_0;
    if !after@.last().is_shareable() {
        lemma_node_held(
            before.local_cache(),
            after.local_cache(),
            after@.last().hash_spec(),
            node,
            after@.last().is_interned(),
        );
    }
    reveal_with_fuel(CachedElement::weight_before, 2);
    lemma_shared_nodes(children);
    lemma_small_local_nodes_are_interned(children);
    if children.len() == 1 {
        assert(children[0] == before@[first_child]);
    }
    assert(forall|k: int|
        first_child <= k < before@.len() ==> #[trigger] before@[k] == children[k - first_child]);
    assert(forall|k: int|
        0 <= k < children.len() ==> #[trigger] children[k] == before@[first_child + k]);
}

impl<T> ShardModel<T> {
    /// What a shard does when it is asked for an entry. One that it holds leaves it as it is. Any
    /// other one comes in beside all that it holds if there is room for one more and for its
    /// weight; if there is not, all that it held is dropped, and the new entry is all that it
    /// holds.
    pub proof fn lemma_asked(
        self,
        hash: u64,
        tree: Tree,
        handle: T,
        weight: int,
        capacity: int,
        budget: int,
    )
        requires
            0 <= weight <= u32::MAX,
            budget <= u32::MAX,
        ensures
            ({
                let after = self.after(hash, tree, handle, weight, capacity, budget);
                let held = self.entries.contains_key((hash, tree));
                let fits = self.entries.dom().len() < capacity && self.weight + weight <= budget;
                &&& held ==> after == self
                &&& !held && fits ==> {
                    &&& after.entries == self.entries.insert((hash, tree), handle)
                    &&& after.weight == self.weight + weight
                    &&& after.weights == self.weights.push(((hash, tree), weight))
                }
                &&& !held && !fits ==> {
                    &&& after.entries == Map::<(u64, Tree), T>::empty().insert(
                        (hash, tree),
                        handle,
                    )
                    &&& after.weight == weight
                    &&& after.weights == seq![((hash, tree), weight)]
                }
            }),
    {
        let after = self.after(hash, tree, handle, weight, capacity, budget);
        if !self.entries.contains_key((hash, tree)) && !(self.entries.dom().len() < capacity
            && self.weight + weight <= budget) {
            assert(after.weights =~= seq![((hash, tree), weight)]);
        }
    }
}

/// A shard for nodes that no one works on holds at most 14336 of them, and a shard for tokens 4096.
/// They do not account for more than 1048576 and 65536 units of weight, unless a single entry does.
pub proof fn lemma_shard_limits(nodes: NodeShardData, tokens: TokenShardData)
    ensures
        NodeShardLimits.inv(nodes) ==> {
            &&& nodes@.entries.dom().finite()
            &&& nodes@.entries.dom().len() <= 14336
            &&& nodes@.weight <= 1_048_576 || nodes@.entries.dom().len() <= 1
            &&& nodes@.weight == ShardModel::<GreenNode>::sum(nodes@.weights)
            &&& nodes@.keys().no_duplicates()
            &&& forall|key: (u64, Tree)| #[trigger]
                nodes@.keys().contains(key) <==> nodes@.entries.contains_key(key)
        },
        TokenShardLimits.inv(tokens) ==> {
            &&& tokens@.entries.dom().finite()
            &&& tokens@.entries.dom().len() <= 4096
            &&& tokens@.weight <= 65_536 || tokens@.entries.dom().len() <= 1
            &&& tokens@.weight == ShardModel::<GreenToken>::sum(tokens@.weights)
            &&& tokens@.keys().no_duplicates()
            &&& forall|key: (u64, Tree)| #[trigger]
                tokens@.keys().contains(key) <==> tokens@.entries.contains_key(key)
        },
{
    assert forall|key: (u64, Tree)| #[trigger] nodes@.keys().contains(
        key,
    ) == nodes@.keys().to_set().contains(key) by {}
    assert forall|key: (u64, Tree)| #[trigger] tokens@.keys().contains(
        key,
    ) == tokens@.keys().to_set().contains(key) by {}
}

/// How much a shard holds is told by how many entries it has and what they weigh together. A shard
/// that was cleared holds nothing and weighs nothing.
pub proof fn lemma_usage<T>(usage: ShardUsage, shard: ShardModel<T>)
    ensures
        usage.is_of(shard) ==> usage.entries == shard.entries.dom().len(),
        usage.is_of(shard) ==> usage.retained_weight == shard.weight,
        usage.is_of(shard) ==> usage.entries <= usage.capacity,
        ShardModel::<T>::empty().entries == Map::<(u64, Tree), T>::empty(),
        ShardModel::<T>::empty().weight == 0,
        ShardModel::<T>::empty().weights == Seq::<((u64, Tree), int)>::empty(),
{
}

/// Whoever clears a shard takes it, whatever it holds, and gives it back with nothing in it.
pub proof fn lemma_cleared(cache: &SharedNodeCache, index: int)
    ensures
        cache.node_shard_cleared(index) ==> exists|
            before: ShardModel<GreenNode>,
            after: ShardModel<GreenNode>,
        | #[trigger]
            cache.node_shard_written(index, before, after) && after.entries == Map::<
                (u64, Tree),
                GreenNode,
            >::empty() && after.weight == 0,
        cache.token_shard_cleared(index) ==> exists|
            before: ShardModel<GreenToken>,
            after: ShardModel<GreenToken>,
        | #[trigger]
            cache.token_shard_written(index, before, after) && after.entries == Map::<
                (u64, Tree),
                GreenToken,
            >::empty() && after.weight == 0,
{
}

/// What a shared interner does with a node that it is asked for: it works on the shard that the
/// eight bits of the digest below the seven highest ones select, keeps the node that it holds there
/// for this digest and this tree, and otherwise takes the new one in. A shard for nodes has room
/// for 14336 of them, and for 1048576 units of weight.
pub proof fn lemma_node_asked(
    cache: &SharedNodeCache,
    hash: u64,
    node: GreenNode,
    elements: Seq<GreenElement>,
    weight: int,
)
    requires
        cache.node_asked(hash, node, elements, weight),
        0 <= weight <= u32::MAX,
    ensures
        exists|before: ShardModel<GreenNode>, after: ShardModel<GreenNode>|
            {
                let key = (hash, node@);
                let held = before.entries.contains_key(key);
                let fits = before.entries.dom().len() < 14336 && before.weight + weight
                    <= 1_048_576;
                &&& #[trigger] cache.node_shard_written(
                    (hash / 0x2_0000_0000_0000) as int % 256,
                    before,
                    after,
                )
                &&& after.entries.contains_key(key)
                &&& after.entries[key] == node
                &&& held ==> after == before
                &&& !held ==> node.elements() == elements
                &&& !held && fits ==> after.entries == before.entries.insert(key, node)
                    && after.weight == before.weight + weight
                &&& !held && !fits ==> after.entries == Map::<
                    (u64, Tree),
                    GreenNode,
                >::empty().insert(key, node) && after.weight == weight
            },
{
    let (before, after) = choose|before: ShardModel<GreenNode>, after: ShardModel<GreenNode>|
        {
            &&& #[trigger] cache.node_shard_written(
                (hash / 0x2_0000_0000_0000) as int % 256,
                before,
                after,
            )
            &&& after == before.after(hash, node@, node, weight, 14336, 1_048_576)
            &&& node == after.entries[(hash, node@)]
            &&& !before.entries.contains_key((hash, node@)) ==> node.elements() == elements
        };
    before.lemma_asked(hash, node@, node, weight, 14336, 1_048_576);
    assert(cache.node_shard_written((hash / 0x2_0000_0000_0000) as int % 256, before, after));
}

/// What a shared interner does with a token that it is asked for: as with a node, see
/// [`lemma_node_asked`]. A shard for tokens has room for 4096 of them, and for 65536 units of
/// weight.
pub proof fn lemma_token_asked(cache: &SharedNodeCache, hash: u64, token: GreenToken, weight: int)
    requires
        cache.token_asked(hash, token, weight),
        0 <= weight <= u32::MAX,
    ensures
        exists|before: ShardModel<GreenToken>, after: ShardModel<GreenToken>|
            {
                let key = (hash, token@);
                let held = before.entries.contains_key(key);
                let fits = before.entries.dom().len() < 4096 && before.weight + weight <= 65_536;
                &&& #[trigger] cache.token_shard_written(
                    (hash / 0x2_0000_0000_0000) as int % 256,
                    before,
                    after,
                )
                &&& after.entries.contains_key(key)
                &&& after.entries[key] == token
                &&& held ==> after == before
                &&& !held && fits ==> after.entries == before.entries.insert(key, token)
                    && after.weight == before.weight + weight
                &&& !held && !fits ==> after.entries == Map::<
                    (u64, Tree),
                    GreenToken,
                >::empty().insert(key, token) && after.weight == weight
            },
{
    let (before, after) = choose|before: ShardModel<GreenToken>, after: ShardModel<GreenToken>|
        {
            &&& #[trigger] cache.token_shard_written(
                (hash / 0x2_0000_0000_0000) as int % 256,
                before,
                after,
            )
            &&& after == before.after(hash, token@, token, weight, 4096, 65_536)
            &&& token == after.entries[(hash, token@)]
        };
    before.lemma_asked(hash, token@, token, weight, 4096, 65_536);
    assert(cache.token_shard_written((hash / 0x2_0000_0000_0000) as int % 256, before, after));
}

} // verus!
