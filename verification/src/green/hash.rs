//! Hashes of green trees.
//!
//! There are two of them. The interners use a digest in which the digest of a node follows from
//! those of its children, so that it need not be computed anew from the leaves up. The `Hash`
//! trait feeds everything that a tree consists of to whatever hasher the caller brings.

use crate::green::element::GreenElementRef;
use crate::green::node::{GreenNode, GreenNodeData};
use crate::green::token::{GreenToken, GreenTokenData};
use crate::green::tree::Tree;
use crate::green::SyntaxKind;
use crate::text::TextSize;
use crate::utility_types::NodeOrToken;
use core::hash::{Hash, Hasher};
use rustc_hash::FxHasher;
use vstd::prelude::*;

verus! {

/// What [`FxHasher`] makes of a kind and a text, on a machine whose pointers have so many bits.
pub uninterp spec fn fx_token_digest(pointer_bits: u32, kind: u16, text: Seq<char>) -> u64;

/// What [`FxHasher`] makes of a kind and a sequence of words, on a machine whose pointers have so
/// many bits.
pub uninterp spec fn fx_node_digest(pointer_bits: u32, kind: u16, words: Seq<u64>) -> u64;

/// Feeds `kind` and `text` to a new `rustc_hash::FxHasher` and calls its `finish`.
///
/// The contract claims that the result follows from the two and the width of a pointer: the hasher
/// starts from a fixed state, without a seed. Which number results is left unsaid, and so is that
/// the few architectures without a wide multiplication get other numbers than the rest.
#[verifier::external_body]
pub(crate) fn token_hash_parts(kind: SyntaxKind, text: &str) -> (hash: u64)
    ensures
        hash == fx_token_digest(usize::BITS, kind.0, text@),
{
    let mut hasher = FxHasher::default();
    kind.hash(&mut hasher);
    text.hash(&mut hasher);
    hasher.finish()
}

/// Feeds `kind` and then each of `words` to a new `rustc_hash::FxHasher` and calls its `finish`.
///
/// The contract claims that the result follows from what is fed and the width of a pointer: the
/// hasher starts from a fixed state, without a seed. Which number results is left unsaid.
#[verifier::external_body]
pub(crate) fn node_hash_parts(kind: SyntaxKind, words: &[u64]) -> (hash: u64)
    ensures
        hash == fx_node_digest(usize::BITS, kind.0, words@),
{
    let mut hasher = FxHasher::default();
    kind.hash(&mut hasher);
    for word in words {
        word.hash(&mut hasher);
    }
    hasher.finish()
}

impl Tree {
    /// The digest by which the interners find a tree.
    pub open spec fn digest(self) -> u64
        decreases self, 0nat,
    {
        match self {
            Tree::Node { kind, children } => fx_node_digest(
                usize::BITS,
                kind.0,
                Tree::digests_before(children, children.len()),
            ),
            Tree::Token { kind, text } => fx_token_digest(usize::BITS, kind.0, text),
        }
    }

    /// The digests of the first `n` trees of `trees`.
    pub open spec fn digests_before(trees: Seq<Tree>, n: nat) -> Seq<u64>
        decreases trees, n,
    {
        if n == 0 || n > trees.len() {
            Seq::empty()
        } else {
            Tree::digests_before(trees, (n - 1) as nat).push(trees[n - 1].digest())
        }
    }

    /// The digests of all `trees`.
    pub open spec fn digests(trees: Seq<Tree>) -> Seq<u64> {
        Tree::digests_before(trees, trees.len())
    }

    /// There is one digest for each tree.
    pub proof fn lemma_digests(trees: Seq<Tree>, n: nat)
        requires
            n <= trees.len(),
        ensures
            Tree::digests_before(trees, n).len() == n,
            forall|i: int|
                0 <= i < n ==> #[trigger] Tree::digests_before(trees, n)[i] == trees[i].digest(),
        decreases n,
    {
        if n > 0 {
            Tree::lemma_digests(trees, (n - 1) as nat);
        }
    }
}

/// The digest of a token.
pub fn token_hash(token: &GreenTokenData) -> (hash: u64)
    ensures
        hash == token@.digest(),
{
    token_hash_parts(token.kind(), token.text())
}

/// The digest of a node, computed from the leaves up.
pub fn node_hash(node: &GreenNodeData) -> (hash: u64)
    ensures
        hash == node@.digest(),
    decreases node@,
{
    let ghost children = node@.children();
    let kind = node.kind();
    let child_count: usize = node.child_count();
    let mut words: Vec<u64> = Vec::new();
    let mut index: usize = 0;
    while index < child_count
        invariant
            index <= child_count,
            node@ is Node,
            children == node@.children(),
            child_count == children.len(),
            words@ == Tree::digests_before(children, index as nat),
        decreases child_count - index,
    {
        let word: u64 = match node.child_ref(index) {
            NodeOrToken::Node(child) => node_hash(child),
            NodeOrToken::Token(child) => token_hash(child),
        };
        words.push(word);
        index = index + 1;
    }
    node_hash_parts(kind, words.as_slice())
}

/// One of the things that a tree feeds to a hasher.
#[derive(Debug, Clone, Copy)]
pub enum HashInput<'a> {
    /// The kind of a node or a token.
    Kind(SyntaxKind),
    /// The number of children of a node.
    Count(usize),
    /// A length or an offset.
    Size(TextSize),
    /// Whether a child is a token.
    IsToken(bool),
    /// The text of a token.
    Text(&'a str),
}

/// What a [`HashInput`] is, apart from where its text is stored.
pub enum HashItem {
    Kind(SyntaxKind),
    Count(nat),
    Size(nat),
    IsToken(bool),
    Text(Seq<char>),
}

impl<'a> HashInput<'a> {
    /// The item that is fed.
    pub open spec fn view(&self) -> HashItem {
        match self {
            HashInput::Kind(kind) => HashItem::Kind(*kind),
            HashInput::Count(count) => HashItem::Count(*count as nat),
            HashInput::Size(size) => HashItem::Size(size.bytes()),
            HashInput::IsToken(is_token) => HashItem::IsToken(*is_token),
            HashInput::Text(text) => HashItem::Text(text@),
        }
    }

    /// The items that are fed.
    pub open spec fn items(inputs: Seq<HashInput<'a>>) -> Seq<HashItem> {
        inputs.map_values(|input: HashInput<'a>| input@)
    }
}

impl Tree {
    /// What a tree feeds to a hasher, in order.
    pub open spec fn hash_items(self) -> Seq<HashItem> {
        match self {
            Tree::Node { kind, children } => seq![
                HashItem::Kind(kind),
                HashItem::Count(children.len()),
                HashItem::Size(self.text_len()),
            ] + Tree::hash_items_before(children, children.len()),
            Tree::Token { kind, text } => seq![HashItem::Kind(kind), HashItem::Text(text)],
        }
    }

    /// What a child that starts at `offset` feeds to a hasher, in order.
    pub open spec fn child_hash_items(self, offset: nat) -> Seq<HashItem>
        decreases self, 0nat,
    {
        match self {
            Tree::Node { kind, children } => seq![
                HashItem::Size(offset),
                HashItem::IsToken(false),
                HashItem::Kind(kind),
                HashItem::Size(self.text_len()),
            ] + Tree::hash_items_before(children, children.len()),
            Tree::Token { kind, text } => seq![
                HashItem::Size(offset),
                HashItem::IsToken(true),
                HashItem::Kind(kind),
                HashItem::Text(text),
            ],
        }
    }

    /// What the first `n` of the children `trees` feed to a hasher, in order.
    pub open spec fn hash_items_before(trees: Seq<Tree>, n: nat) -> Seq<HashItem>
        decreases trees, n,
    {
        if n == 0 || n > trees.len() {
            Seq::empty()
        } else {
            Tree::hash_items_before(trees, (n - 1) as nat) + trees[n - 1].child_hash_items(
                Tree::offset_of(trees, (n - 1) as nat),
            )
        }
    }
}

/// Appends what the children of `node` feed to a hasher.
fn hash_children<'a>(node: &'a GreenNodeData, inputs: &mut Vec<HashInput<'a>>)
    ensures
        HashInput::items(final(inputs)@) == HashInput::items(old(inputs)@)
            + Tree::hash_items_before(node@.children(), node@.children().len()),
    decreases node@, 0nat,
{
    let ghost children = node@.children();
    let ghost before = HashInput::items(inputs@);
    let child_count: usize = node.child_count();
    let mut index: usize = 0;
    proof {
        assert(before + Tree::hash_items_before(children, 0) =~= before);
    }
    while index < child_count
        invariant
            index <= child_count,
            node@ is Node,
            children == node@.children(),
            child_count == children.len(),
            HashInput::items(inputs@) == before + Tree::hash_items_before(
                children,
                index as nat,
            ),
        decreases child_count - index,
    {
        hash_element(node.child_ref(index), node.child_offset(index), inputs);
        proof {
            let done = Tree::hash_items_before(children, index as nat);
            let more = children[index as int].child_hash_items(
                Tree::offset_of(children, index as nat),
            );
            assert(before + done + more =~= before + (done + more));
        }
        index = index + 1;
    }
}

/// Appends what a child that starts at `rel_offset` feeds to a hasher.
fn hash_element<'a>(
    element: GreenElementRef<'a>,
    rel_offset: TextSize,
    inputs: &mut Vec<HashInput<'a>>,
)
    ensures
        HashInput::items(final(inputs)@) == HashInput::items(old(inputs)@)
            + element@.child_hash_items(rel_offset.bytes()),
    decreases element@, 1nat,
{
    let ghost before = inputs@;
    inputs.push(HashInput::Size(rel_offset));
    match element {
        NodeOrToken::Node(node) => {
            inputs.push(HashInput::IsToken(false));
            inputs.push(HashInput::Kind(node.kind()));
            inputs.push(HashInput::Size(node.text_len()));
            let ghost pushed = inputs@;
            hash_children(node, inputs);
            proof {
                let head = seq![
                    HashItem::Size(rel_offset.bytes()),
                    HashItem::IsToken(false),
                    HashItem::Kind(node@.kind()),
                    HashItem::Size(node@.text_len()),
                ];
                assert(HashInput::items(pushed) =~= HashInput::items(before) + head);
                let rest = Tree::hash_items_before(node@.children(), node@.children().len());
                assert(HashInput::items(before) + head + rest =~= HashInput::items(before) + (head
                    + rest));
            }
        },
        NodeOrToken::Token(token) => {
            inputs.push(HashInput::IsToken(true));
            inputs.push(HashInput::Kind(token.kind()));
            inputs.push(HashInput::Text(token.text()));
            proof {
                assert(HashInput::items(inputs@) =~= HashInput::items(before)
                    + element@.child_hash_items(rel_offset.bytes()));
            }
        },
    }
}

impl GreenNodeData {
    /// What this node feeds to a hasher, in order.
    pub fn hash_inputs(&self) -> (inputs: Vec<HashInput<'_>>)
        ensures
            HashInput::items(inputs@) == self@.hash_items(),
    {
        let mut inputs: Vec<HashInput<'_>> = Vec::new();
        inputs.push(HashInput::Kind(self.kind()));
        inputs.push(HashInput::Count(self.child_count()));
        inputs.push(HashInput::Size(self.text_len()));
        let ghost pushed = inputs@;
        hash_children(self, &mut inputs);
        proof {
            assert(HashInput::items(pushed) =~= seq![
                HashItem::Kind(self@.kind()),
                HashItem::Count(self@.children().len()),
                HashItem::Size(self@.text_len()),
            ]);
        }
        inputs
    }
}

impl GreenTokenData {
    /// What this token feeds to a hasher, in order.
    pub fn hash_inputs(&self) -> (inputs: Vec<HashInput<'_>>)
        ensures
            HashInput::items(inputs@) == self@.hash_items(),
    {
        let mut inputs: Vec<HashInput<'_>> = Vec::new();
        inputs.push(HashInput::Kind(self.kind()));
        inputs.push(HashInput::Text(self.text()));
        proof {
            assert(HashInput::items(inputs@) =~= self@.hash_items());
        }
        inputs
    }
}

/// Calls `core::hash::Hash::hash`, which feeds `value` to the hasher `state`.
///
/// Nothing is claimed of the hasher afterwards: what it makes of its input is its own affair.
#[verifier::external_body]
fn feed<T: Hash, H: Hasher>(value: T, state: &mut H) {
    value.hash(state);
}

/// Feeds the inputs to a hasher, in order.
fn feed_all<H: Hasher>(inputs: Vec<HashInput<'_>>, state: &mut H)
    ensures
        // Each input goes into one call of `feed_input`, which finds the hasher as the call before
        // it left it; the first finds it as the caller handed it over.
        exists|states: Seq<H>, calls: Seq<&mut H>| {
            &&& #[trigger] states.len() == inputs@.len() + 1
            &&& #[trigger] calls.len() == inputs@.len()
            &&& states.first() == *old(state)
            &&& states.last() == *final(state)
            &&& forall|i: int|
                0 <= i < inputs@.len() ==> {
                    &&& call_ensures(feed_input::<H>, (inputs@[i], #[trigger] calls[i]), ())
                    &&& *calls[i] == states[i]
                    &&& *final(calls[i]) == states[i + 1]
                }
        },
{
    let mut index: usize = 0;
    let ghost mut states: Seq<H> = seq![*state];
    proof {
        let calls: Seq<&mut H> = Seq::empty();
        assert(calls.len() == index);
    }
    while index < inputs.len()
        invariant
            index <= inputs@.len(),
            states.len() == index + 1,
            states.first() == *old(state),
            states.last() == *state,
            exists|calls: Seq<&mut H>| {
                &&& #[trigger] calls.len() == index
                &&& forall|i: int|
                    0 <= i < index ==> {
                        &&& call_ensures(feed_input::<H>, (inputs@[i], #[trigger] calls[i]), ())
                        &&& *calls[i] == states[i]
                        &&& *final(calls[i]) == states[i + 1]
                    }
            },
        decreases inputs@.len() - index,
    {
        let feed_next = feed_input::<H>;
        feed_next(inputs[index], state);
        proof {
            let before = states;
            let earlier = choose|calls: Seq<&mut H>| {
                &&& #[trigger] calls.len() == index
                &&& forall|i: int|
                    0 <= i < index ==> {
                        &&& call_ensures(feed_input::<H>, (inputs@[i], #[trigger] calls[i]), ())
                        &&& *calls[i] == before[i]
                        &&& *final(calls[i]) == before[i + 1]
                    }
            };
            let call = choose|call: &mut H|
                #[trigger] call_ensures(feed_input::<H>, (inputs@[index as int], call), ())
                    && *call == before.last() && *final(call) == *state;
            states = before.push(*state);
            assert(earlier.push(call).len() == index + 1);
        }
        index = index + 1;
    }
}

/// Whether `state` is a hasher that just these items were fed to, in order, by [`feed_all`].
pub closed spec fn feeds<H: Hasher>(items: Seq<HashItem>, state: &mut H) -> bool {
    exists|inputs: Vec<HashInput<'_>>| #[trigger]
        call_ensures(feed_all::<H>, (inputs, state), ()) && HashInput::items(inputs@) == items
}

/// A hasher that items were fed to was handed to [`feed_all`], with inputs that stand for just
/// these items.
proof fn lemma_feeds<H: Hasher>(items: Seq<HashItem>)
    ensures
        forall|state: &mut H| #[trigger]
            feeds(items, state) ==> exists|inputs: Vec<HashInput<'_>>| #[trigger]
                call_ensures(feed_all::<H>, (inputs, state), ()) && inputs@.len() == items.len() && (
                forall|i: int| 0 <= i < items.len() ==> (#[trigger] inputs@[i])@ == items[i]),
{
    assert forall|state: &mut H| #[trigger] feeds(items, state) implies exists|
        inputs: Vec<HashInput<'_>>,
    | #[trigger]
        call_ensures(feed_all::<H>, (inputs, state), ()) && inputs@.len() == items.len() && (forall|
            i: int,
        |
            0 <= i < items.len() ==> (#[trigger] inputs@[i])@ == items[i]) by {
        let inputs = choose|inputs: Vec<HashInput<'_>>| #[trigger]
            call_ensures(feed_all::<H>, (inputs, state), ()) && HashInput::items(inputs@) == items;
        assert forall|i: int| 0 <= i < items.len() implies (#[trigger] inputs@[i])@ == items[i] by {
            assert(HashInput::items(inputs@)[i] == inputs@[i]@);
        }
    }
}

/// Feeds what the inputs stand for to a hasher, in order.
fn feed_items<H: Hasher>(inputs: Vec<HashInput<'_>>, state: &mut H)
    ensures
        exists|call: &mut H|
            #[trigger] feeds(HashInput::items(inputs@), call) && *call == *old(state)
                && *final(call) == *final(state),
{
    let ghost handed = inputs;
    let feed_these = feed_all::<H>;
    feed_these(inputs, state);
    proof {
        let call = choose|call: &mut H|
            #[trigger] call_ensures(feed_all::<H>, (handed, call), ()) && *call == *old(state)
                && *final(call) == *state;
        assert(feeds(HashInput::items(handed@), call));
    }
}

/// Feeds one input to a hasher.
fn feed_input<H: Hasher>(input: HashInput<'_>, state: &mut H)
    ensures
        // What the input holds goes into one call of `feed`, on this hasher.
        input matches HashInput::Kind(kind) ==> exists|call: &mut H|
            *call == *old(state) && *final(call) == *final(state) && #[trigger] call_ensures(
                feed::<SyntaxKind, H>,
                (kind, call),
                (),
            ),
        input matches HashInput::Count(count) ==> exists|call: &mut H|
            *call == *old(state) && *final(call) == *final(state) && #[trigger] call_ensures(
                feed::<usize, H>,
                (count, call),
                (),
            ),
        input matches HashInput::Size(size) ==> exists|call: &mut H|
            *call == *old(state) && *final(call) == *final(state) && #[trigger] call_ensures(
                feed::<TextSize, H>,
                (size, call),
                (),
            ),
        input matches HashInput::IsToken(is_token) ==> exists|call: &mut H|
            *call == *old(state) && *final(call) == *final(state) && #[trigger] call_ensures(
                feed::<bool, H>,
                (is_token, call),
                (),
            ),
        input matches HashInput::Text(text) ==> exists|call: &mut H|
            *call == *old(state) && *final(call) == *final(state) && #[trigger] call_ensures(
                feed::<&str, H>,
                (text, call),
                (),
            ),
{
    match input {
        HashInput::Kind(kind) => {
            let feed_kind = feed::<SyntaxKind, H>;
            feed_kind(kind, state)
        },
        HashInput::Count(count) => {
            let feed_count = feed::<usize, H>;
            feed_count(count, state)
        },
        HashInput::Size(size) => {
            let feed_size = feed::<TextSize, H>;
            feed_size(size, state)
        },
        HashInput::IsToken(is_token) => {
            let feed_flag = feed::<bool, H>;
            feed_flag(is_token, state)
        },
        HashInput::Text(text) => {
            let feed_text = feed::<&str, H>;
            feed_text(text, state)
        },
    }
}

/// Equal nodes feed a hasher alike, whether or not they share an allocation.
pub proof fn lemma_equal_nodes_feed_alike<H: Hasher>(left: GreenNode, right: GreenNode)
    requires
        left@ == right@,
    ensures
        forall|state: &mut H|
            feeds(left@.hash_items(), state) == #[trigger] feeds(right@.hash_items(), state),
{
}

/// Equal tokens feed a hasher alike, whether or not they share an allocation.
pub proof fn lemma_equal_tokens_feed_alike<H: Hasher>(left: GreenToken, right: GreenToken)
    requires
        left@ == right@,
    ensures
        forall|state: &mut H|
            feeds(left@.hash_items(), state) == #[trigger] feeds(right@.hash_items(), state),
{
}

impl Hash for GreenNodeData {
    fn hash<H: Hasher>(&self, state: &mut H)
        ensures
            exists|call: &mut H|
                #[trigger] feeds(self@.hash_items(), call) && *call == *old(state) && *final(call)
                    == *final(state),
    {
        feed_items(self.hash_inputs(), state);
    }
}

impl Hash for GreenNode {
    fn hash<H: Hasher>(&self, state: &mut H)
        ensures
            exists|call: &mut H|
                #[trigger] feeds(self@.hash_items(), call) && *call == *old(state) && *final(call)
                    == *final(state),
    {
        feed_items(self.hash_inputs(), state);
    }
}

impl Hash for GreenTokenData {
    fn hash<H: Hasher>(&self, state: &mut H)
        ensures
            exists|call: &mut H|
                #[trigger] feeds(self@.hash_items(), call) && *call == *old(state) && *final(call)
                    == *final(state),
    {
        feed_items(self.hash_inputs(), state);
    }
}

impl Hash for GreenToken {
    fn hash<H: Hasher>(&self, state: &mut H)
        ensures
            exists|call: &mut H|
                #[trigger] feeds(self@.hash_items(), call) && *call == *old(state) && *final(call)
                    == *final(state),
    {
        feed_items(self.hash_inputs(), state);
    }
}

} // verus!
