//! The hash tables of the interners.
//!
//! Each table holds a map of `hashbrown` that is driven through its raw entries: the digest of an
//! entry comes from the caller. What a table holds is given by a name; the contracts say what each
//! method does to it.

use crate::green::element::GreenElementRef;
use crate::green::hash::{node_hash, token_hash};
use crate::green::matching::{
    has_children, node_entry_is, node_entry_matches, token_entry_is, token_entry_matches,
    token_matches, Hashed, NoHash,
};
use crate::green::node::GreenNode;
use crate::green::token::GreenToken;
use crate::green::tree::Tree;
use crate::green::SyntaxKind;
use core::hash::BuildHasherDefault;
use hashbrown::hash_map::RawEntryMut;
use hashbrown::HashMap;
use rustc_hash::FxHasher;
use vstd::prelude::*;

verus! {

/// The nodes of an interner that belongs to one builder.
#[verifier::external_body]
#[derive(Debug)]
pub struct NodeTable {
    map: HashMap<NoHash<GreenNode>, (), BuildHasherDefault<FxHasher>>,
}

/// The tokens of an interner that belongs to one builder.
#[verifier::external_body]
#[derive(Debug)]
pub struct TokenTable {
    map: HashMap<NoHash<GreenToken>, (), BuildHasherDefault<FxHasher>>,
}

/// The nodes of a shard of an interner that builders share.
#[verifier::external_body]
#[derive(Debug)]
pub struct SharedNodeTable {
    map: HashMap<Hashed<GreenNode>, (), BuildHasherDefault<FxHasher>>,
}

/// The tokens of a shard of an interner that builders share.
#[verifier::external_body]
#[derive(Debug)]
pub struct SharedTokenTable {
    map: HashMap<Hashed<GreenToken>, (), BuildHasherDefault<FxHasher>>,
}

/// The nodes that a table holds, each with the digest under which it was entered.
pub uninterp spec fn held_nodes(table: NodeTable) -> Set<(u64, GreenNode)>;

/// The tokens that a table holds, each under the tree that it is.
pub uninterp spec fn held_tokens(table: TokenTable) -> Map<Tree, GreenToken>;

/// The nodes that a table holds, each under its digest and the tree that it is.
pub uninterp spec fn shared_nodes(table: SharedNodeTable) -> Map<(u64, Tree), GreenNode>;

/// The tokens that a table holds, each under its digest and the tree that it is.
pub uninterp spec fn shared_tokens(table: SharedTokenTable) -> Map<(u64, Tree), GreenToken>;

/// The tree that a node with this kind and these children is.
pub open spec fn node_tree(kind: SyntaxKind, children: Seq<GreenElementRef<'_>>) -> Tree {
    Tree::Node { kind, children: GreenElementRef::trees(children) }
}

/// Whether the node is one of these, under whatever digest it was entered.
pub open spec fn is_among(node: GreenNode, nodes: Set<(u64, GreenNode)>) -> bool {
    exists|hash: u64| #[trigger] nodes.contains((hash, node))
}

/// Whether each of the nodes that was entered under the digest `hash` and has this kind and equal
/// children has a child that is not the very element asked for.
pub open spec fn all_differ(
    nodes: Set<(u64, GreenNode)>,
    hash: u64,
    kind: SyntaxKind,
    children: Seq<GreenElementRef<'_>>,
) -> bool {
    forall|node: GreenNode| #[trigger]
        nodes.contains((hash, node)) && node@ == node_tree(kind, children) ==> exists|i: int|
            0 <= i < children.len() && #[trigger] GreenElementRef::is_same_gives(
                node.elements()[i].as_ref(),
                children[i],
                false,
            )
}

impl NodeTable {
    /// Calls `hashbrown::HashMap::default`: the map holds nothing.
    #[verifier::external_body]
    pub(crate) fn new() -> (table: NodeTable)
        ensures
            held_nodes(table) == Set::<(u64, GreenNode)>::empty(),
    {
        NodeTable { map: HashMap::default() }
    }

    /// Calls `hashbrown::hash_map::RawEntryBuilder::from_hash`, which hands out an entry under the
    /// digest `hash` that passes the given test: here, to have this kind and these very children.
    ///
    /// The contract claims that a node that is found is one that the table holds, and that its kind
    /// and its children are those asked for. If none is found under the digest of the tree asked
    /// for, then each node that is this tree and was entered under that digest was asked, and some
    /// child of it is not the very element: a node is moved when the map grows, but only to its own
    /// digest. Which elements share an allocation is left unsaid, and so is what becomes of nodes
    /// that were entered under another digest than their own.
    #[verifier::external_body]
    pub(crate) fn find(
        &self,
        hash: u64,
        kind: SyntaxKind,
        children: &[GreenElementRef<'_>],
    ) -> (found: Option<GreenNode>)
        ensures
            found matches Some(node) ==> {
                &&& is_among(node, held_nodes(*self))
                &&& node@ == node_tree(kind, children@)
                &&& forall|i: int|
                    0 <= i < children@.len() ==> node.elements()[i].as_ref()
                        == #[trigger] children@[i]
            },
            found is None && hash == node_tree(kind, children@).digest() ==> all_differ(
                held_nodes(*self),
                hash,
                kind,
                children@,
            ),
    {
        self.map
            .raw_entry()
            .from_hash(hash, |entry| has_children(&entry.0, kind, children))
            .map(|(entry, ())| entry.0.clone())
    }

    /// Calls `hashbrown::hash_map::RawEntryBuilderMut::from_hash` with a test that no entry passes,
    /// which gives a vacant entry, and `RawVacantEntryMut::insert_with_hasher`, which adds the node
    /// under the digest `hash`.
    ///
    /// The contract claims that the table holds the node under this digest afterwards, and all that
    /// it held before.
    #[verifier::external_body]
    pub(crate) fn insert(&mut self, hash: u64, node: GreenNode)
        ensures
            held_nodes(*final(self)) == held_nodes(*old(self)).insert((hash, node)),
    {
        let slot = self.map.raw_entry_mut().from_hash(hash, |_| false);
        if let RawEntryMut::Vacant(entry) = slot {
            entry.insert_with_hasher(hash, NoHash(node), (), |entry| node_hash(&entry.0));
        }
    }
}

impl TokenTable {
    /// Calls `hashbrown::HashMap::default`: the map holds nothing.
    #[verifier::external_body]
    pub(crate) fn new() -> (table: TokenTable)
        ensures
            held_tokens(table).dom() == Set::<Tree>::empty(),
    {
        TokenTable { map: HashMap::default() }
    }

    /// Calls `hashbrown::hash_map::RawEntryBuilder::from_hash`, which hands out an entry under the
    /// digest `hash` that passes the given test: here, to have this kind and this text.
    ///
    /// The contract claims that a token is found if and only if the table holds one with this kind
    /// and text, and that it is the one held: each token is entered, and moved when the map grows,
    /// under its own digest.
    #[verifier::external_body]
    pub(crate) fn find(&self, hash: u64, kind: SyntaxKind, text: &str) -> (found: Option<
        GreenToken,
    >)
        requires
            hash == (Tree::Token { kind, text: text@ }).digest(),
        ensures
            found == (if held_tokens(*self).contains_key(Tree::Token { kind, text: text@ }) {
                Some(held_tokens(*self)[Tree::Token { kind, text: text@ }])
            } else {
                None
            }),
            found matches Some(token) ==> token@ == (Tree::Token { kind, text: text@ }),
    {
        self.map
            .raw_entry()
            .from_hash(hash, |entry| token_matches(&entry.0, kind, text))
            .map(|(entry, ())| entry.0.clone())
    }

    /// Calls `hashbrown::hash_map::RawEntryBuilderMut::from_hash` and, if no entry under the digest
    /// `hash` is equal to `token`, `RawVacantEntryMut::insert_with_hasher`, which adds it.
    ///
    /// The contract claims that a table that held an equal token is left as it was, and that any
    /// other one holds this token afterwards, and all that it held before.
    #[verifier::external_body]
    pub(crate) fn insert(&mut self, hash: u64, token: GreenToken)
        requires
            hash == token@.digest(),
        ensures
            held_tokens(*final(self)) == (if held_tokens(*old(self)).contains_key(token@) {
                held_tokens(*old(self))
            } else {
                held_tokens(*old(self)).insert(token@, token)
            }),
    {
        let slot = self.map.raw_entry_mut().from_hash(hash, |entry| entry.0 == token);
        if let RawEntryMut::Vacant(entry) = slot {
            entry.insert_with_hasher(hash, NoHash(token), (), |entry| token_hash(&entry.0));
        }
    }
}

impl SharedNodeTable {
    /// Calls `hashbrown::HashMap::default`: the map holds nothing.
    #[verifier::external_body]
    pub(crate) fn new() -> (table: SharedNodeTable)
        ensures
            shared_nodes(table).dom() == Set::<(u64, Tree)>::empty(),
    {
        SharedNodeTable { map: HashMap::default() }
    }

    /// Calls `hashbrown::hash_map::RawEntryBuilder::from_hash`, which hands out an entry under the
    /// digest `hash` that passes the given test: here, to have this digest, and a node with this
    /// kind and children equal to these.
    ///
    /// The contract claims that a node is found if and only if the table holds one like that with
    /// this digest, and that it is the one held: each entry is made, and moved when the map grows,
    /// under the digest it records.
    #[verifier::external_body]
    pub(crate) fn find(
        &self,
        hash: u64,
        kind: SyntaxKind,
        children: &[GreenElementRef<'_>],
    ) -> (found: Option<GreenNode>)
        ensures
            ({
                let tree = Tree::Node { kind, children: GreenElementRef::trees(children@) };
                found == (if shared_nodes(*self).contains_key((hash, tree)) {
                    Some(shared_nodes(*self)[(hash, tree)])
                } else {
                    None
                })
            }),
            found matches Some(node) ==> node@ == (Tree::Node {
                kind,
                children: GreenElementRef::trees(children@),
            }),
    {
        self.map
            .raw_entry()
            .from_hash(hash, |entry| node_entry_matches(entry, hash, kind, children))
            .map(|(entry, ())| entry.value.clone())
    }

    /// Calls `hashbrown::hash_map::RawEntryBuilderMut::from_hash` and, if no entry has this digest
    /// and an equal node, `RawVacantEntryMut::insert_with_hasher`, which adds one.
    ///
    /// The contract claims that a table that held an equal node with this digest is left as it was,
    /// and that any other one holds this node with this digest afterwards, and all that it held
    /// before.
    #[verifier::external_body]
    pub(crate) fn insert(&mut self, hash: u64, node: GreenNode)
        ensures
            shared_nodes(*final(self)) == (if shared_nodes(*old(self)).contains_key((hash, node@)) {
                shared_nodes(*old(self))
            } else {
                shared_nodes(*old(self)).insert((hash, node@), node)
            }),
    {
        let slot = self.map.raw_entry_mut().from_hash(
            hash,
            |entry| node_entry_is(entry, hash, &node),
        );
        if let RawEntryMut::Vacant(entry) = slot {
            entry.insert_with_hasher(hash, Hashed { hash, value: node }, (), |entry| entry.hash);
        }
    }

    /// Calls `hashbrown::HashMap::len`, which counts the entries. No two entries have both the same
    /// digest and equal nodes, so that the count is that of what the table holds.
    #[verifier::external_body]
    pub(crate) fn len(&self) -> (len: usize)
        ensures
            len == shared_nodes(*self).dom().len(),
    {
        self.map.len()
    }

    /// Calls `hashbrown::HashMap::capacity`, which says how many entries the map can hold before it
    /// grows: not fewer than it holds. How many more is left unsaid.
    #[verifier::external_body]
    pub(crate) fn capacity(&self) -> (capacity: usize)
        ensures
            capacity >= shared_nodes(*self).dom().len(),
    {
        self.map.capacity()
    }
}

impl SharedTokenTable {
    /// Calls `hashbrown::HashMap::default`: the map holds nothing.
    #[verifier::external_body]
    pub(crate) fn new() -> (table: SharedTokenTable)
        ensures
            shared_tokens(table).dom() == Set::<(u64, Tree)>::empty(),
    {
        SharedTokenTable { map: HashMap::default() }
    }

    /// Calls `hashbrown::hash_map::RawEntryBuilder::from_hash`, which hands out an entry under the
    /// digest `hash` that passes the given test: here, to have this digest, and a token with this
    /// kind and this text.
    ///
    /// The contract claims that a token is found if and only if the table holds one like that with
    /// this digest, and that it is the one held: each entry is made, and moved when the map grows,
    /// under the digest it records.
    #[verifier::external_body]
    pub(crate) fn find(&self, hash: u64, kind: SyntaxKind, text: &str) -> (found: Option<
        GreenToken,
    >)
        ensures
            ({
                let tree = Tree::Token { kind, text: text@ };
                found == (if shared_tokens(*self).contains_key((hash, tree)) {
                    Some(shared_tokens(*self)[(hash, tree)])
                } else {
                    None
                })
            }),
            found matches Some(token) ==> token@ == (Tree::Token { kind, text: text@ }),
    {
        self.map
            .raw_entry()
            .from_hash(hash, |entry| token_entry_matches(entry, hash, kind, text))
            .map(|(entry, ())| entry.value.clone())
    }

    /// Calls `hashbrown::hash_map::RawEntryBuilderMut::from_hash` and, if no entry has this digest
    /// and an equal token, `RawVacantEntryMut::insert_with_hasher`, which adds one.
    ///
    /// The contract claims that a table that held an equal token with this digest is left as it was,
    /// and that any other one holds this token with this digest afterwards, and all that it held
    /// before.
    #[verifier::external_body]
    pub(crate) fn insert(&mut self, hash: u64, token: GreenToken)
        ensures
            shared_tokens(*final(self)) == (if shared_tokens(*old(self)).contains_key((hash, token@)) {
                shared_tokens(*old(self))
            } else {
                shared_tokens(*old(self)).insert((hash, token@), token)
            }),
    {
        let slot = self.map.raw_entry_mut().from_hash(
            hash,
            |entry| token_entry_is(entry, hash, &token),
        );
        if let RawEntryMut::Vacant(entry) = slot {
            entry.insert_with_hasher(hash, Hashed { hash, value: token }, (), |entry| entry.hash);
        }
    }

    /// Calls `hashbrown::HashMap::len`, which counts the entries. No two entries have both the same
    /// digest and equal tokens, so that the count is that of what the table holds.
    #[verifier::external_body]
    pub(crate) fn len(&self) -> (len: usize)
        ensures
            len == shared_tokens(*self).dom().len(),
    {
        self.map.len()
    }

    /// Calls `hashbrown::HashMap::capacity`, which says how many entries the map can hold before it
    /// grows: not fewer than it holds. How many more is left unsaid.
    #[verifier::external_body]
    pub(crate) fn capacity(&self) -> (capacity: usize)
        ensures
            capacity >= shared_tokens(*self).dom().len(),
    {
        self.map.capacity()
    }
}

} // verus!
