//! The interner that builders share.

use crate::green::cached::CachedElement;
use crate::green::element::GreenElement;
use crate::green::node::GreenNode;
use crate::green::tables::{shared_nodes, shared_tokens, SharedNodeTable, SharedTokenTable};
use crate::green::token::GreenToken;
use crate::green::tree::Tree;
use crate::green::SyntaxKind;
use vstd::prelude::*;
use vstd::rwlock::{ReadHandle, RwLock, RwLockPredicate, WriteHandle};
use vstd::utf8::*;

verus! {

broadcast use vstd::set::group_set_axioms;

/// How many shards there are for nodes, and how many for tokens.
pub const SHARD_COUNT: usize = 256;

/// The largest number of nodes in a shard.
pub const NODE_CAPACITY_PER_SHARD: usize = 14336;

/// The largest number of tokens in a shard.
pub const TOKEN_CAPACITY_PER_SHARD: usize = 4096;

/// The largest weight of the nodes in a shard.
pub const NODE_RETAINED_WEIGHT_PER_SHARD: u32 = 1_048_576;

/// The largest weight of the tokens in a shard.
pub const TOKEN_RETAINED_WEIGHT_PER_SHARD: u32 = 65_536;

/// The largest number of children of a node that builders share.
pub const MAX_SHARED_NODE_CHILDREN: usize = 1;

/// The longest text of a token that builders share, in bytes.
pub const MAX_SHARED_TOKEN_LEN: usize = 8;

/// The largest weight of a node that builders share.
pub const MAX_SHARED_SUBTREE_WEIGHT: u32 = 1024;

/// How far the bits of a digest that select a shard lie above its lowest bit. The seven bits above
/// them are those by which the hash tables tell entries apart.
pub const SHARD_SHIFT: u32 = 49;

/// The shard that a digest belongs to.
pub open spec fn shard_of(hash: u64) -> int {
    (hash / 0x2_0000_0000_0000) as int % 256
}

/// The shard that a digest belongs to.
pub fn shard_index(hash: u64) -> (index: usize)
    ensures
        index == shard_of(hash),
        index < SHARD_COUNT,
{
    assert((hash >> 49u32) & 255u64 == (hash / 0x2_0000_0000_0000) % 256) by (bit_vector);
    ((hash >> SHARD_SHIFT) & (SHARD_COUNT as u64 - 1)) as usize
}

/// Neither the seven highest bits of a digest nor the forty-nine lowest ones select the shard.
pub proof fn lemma_shard_ignores_outer_bits(hash: u64, low: u64, high: u64)
    requires
        low < 0x2_0000_0000_0000,
        high < 128,
    ensures
        shard_of(hash) == shard_of(
            (high * 0x200_0000_0000_0000 + shard_of(hash) * 0x2_0000_0000_0000 + low) as u64,
        ),
{
    let shard = shard_of(hash);
    assert(high * 0x200_0000_0000_0000 + shard * 0x2_0000_0000_0000 + low == 0x2_0000_0000_0000 * (
    256 * high + shard) + low);
    assert((0x2_0000_0000_0000 * (256 * high + shard) + low) / 0x2_0000_0000_0000 == 256 * high
        + shard);
}

/// Every shard is selected by some digest.
pub proof fn lemma_shards_are_reached(shard: u64)
    requires
        shard < SHARD_COUNT,
    ensures
        shard_of((shard * 0x2_0000_0000_0000) as u64) == shard,
{
}

/// The nodes in a shard.
pub struct NodeShardData {
    entries: SharedNodeTable,
    retained_weight: u32,
    weights: Ghost<Seq<((u64, Tree), int)>>,
}

/// The tokens in a shard.
pub struct TokenShardData {
    entries: SharedTokenTable,
    retained_weight: u32,
    weights: Ghost<Seq<((u64, Tree), int)>>,
}

/// What a shard holds: handles under digests and trees, what each one was charged for in the order
/// in which they came in, and the weight that the shard accounts for.
#[verifier::ext_equal]
pub struct ShardModel<T> {
    pub entries: Map<(u64, Tree), T>,
    pub weights: Seq<((u64, Tree), int)>,
    pub weight: int,
}

impl<T> ShardModel<T> {
    /// The shard that holds nothing.
    pub open spec fn empty() -> ShardModel<T> {
        ShardModel { entries: Map::empty(), weights: Seq::empty(), weight: 0 }
    }

    /// How many entries the shard holds.
    pub open spec fn len(self) -> nat {
        self.entries.dom().len()
    }

    /// Whether one more entry of this weight would be too much.
    pub open spec fn is_full(self, weight: int, capacity: int, budget: int) -> bool {
        self.len() >= capacity || self.weight + weight > budget
    }

    /// What is left of the shard when an entry of this weight comes in.
    pub open spec fn rotated(self, weight: int, capacity: int, budget: int) -> ShardModel<T> {
        if self.is_full(weight, capacity, budget) {
            ShardModel::empty()
        } else {
            self
        }
    }

    /// The shard after `tree` was asked for under the digest `hash`. A tree that it holds leaves it
    /// as it is. For another one `handle` is added; if that would be too much, everything else is
    /// dropped first.
    pub open spec fn after(
        self,
        hash: u64,
        tree: Tree,
        handle: T,
        weight: int,
        capacity: int,
        budget: int,
    ) -> ShardModel<T> {
        if self.entries.contains_key((hash, tree)) {
            self
        } else {
            let kept = self.rotated(weight, capacity, budget);
            ShardModel {
                entries: kept.entries.insert((hash, tree), handle),
                weights: kept.weights.push(((hash, tree), weight)),
                weight: if kept.weight + weight <= u32::MAX {
                    kept.weight + weight
                } else {
                    u32::MAX as int
                },
            }
        }
    }

    /// Whether the shard stays within its limits: an entry that is by itself too heavy for it is
    /// the only one.
    pub open spec fn within(self, capacity: int, budget: int) -> bool {
        &&& self.entries.dom().finite()
        &&& self.len() <= capacity
        &&& 0 <= self.weight
        &&& self.weight <= budget || self.len() <= 1
    }

    /// What some entries weigh together.
    pub open spec fn sum(weights: Seq<((u64, Tree), int)>) -> int
        decreases weights.len(),
    {
        if weights.len() == 0 {
            0
        } else {
            ShardModel::<T>::sum(weights.drop_last()) + weights.last().1
        }
    }

    /// Under which digests and trees the entries came in.
    pub open spec fn keys(self) -> Seq<(u64, Tree)> {
        self.weights.map_values(|entry: ((u64, Tree), int)| entry.0)
    }

    /// Whether the weight that the shard accounts for is the sum of the weights of the entries that
    /// it holds, each one counted once.
    pub open spec fn balanced(self) -> bool {
        &&& self.keys().no_duplicates()
        &&& self.keys().to_set() == self.entries.dom()
        &&& self.weight == ShardModel::<T>::sum(self.weights)
    }

    /// Whether no entry is by itself too heavy for the shard.
    pub open spec fn light(self, budget: int) -> bool {
        forall|i: int| 0 <= i < self.weights.len() ==> (#[trigger] self.weights[i]).1 <= budget
    }

    /// A shard within its limits stays there, whatever it is asked for.
    pub proof fn lemma_stays_within(
        self,
        hash: u64,
        tree: Tree,
        handle: T,
        weight: int,
        capacity: int,
        budget: int,
    )
        requires
            self.within(capacity, budget),
            0 <= weight <= u32::MAX,
            budget <= u32::MAX,
            capacity > 0,
        ensures
            self.after(hash, tree, handle, weight, capacity, budget).within(capacity, budget),
    {
    }

    /// The accounts of a shard stay right, whatever it is asked for.
    pub proof fn lemma_stays_balanced(
        self,
        hash: u64,
        tree: Tree,
        handle: T,
        weight: int,
        capacity: int,
        budget: int,
    )
        requires
            self.balanced(),
            weight <= u32::MAX,
            budget <= u32::MAX,
        ensures
            self.after(hash, tree, handle, weight, capacity, budget).balanced(),
    {
        if !self.entries.contains_key((hash, tree)) {
            ShardModel::<T>::lemma_empty();
            let kept = self.rotated(weight, capacity, budget);
            let after = self.after(hash, tree, handle, weight, capacity, budget);
            assert(!kept.keys().to_set().contains((hash, tree)));
            assert(!kept.keys().contains((hash, tree)));
            assert(after.weights.drop_last() =~= kept.weights);
            assert(after.keys() =~= kept.keys().push((hash, tree)));
            assert forall|key: (u64, Tree)| after.entries.dom().contains(
                key,
            ) implies after.keys().to_set().contains(key) by {
                if key == (hash, tree) {
                    assert(after.keys().last() == key);
                } else {
                    assert(kept.keys().to_set().contains(key));
                    let i = choose|i: int| 0 <= i < kept.keys().len() && kept.keys()[i] == key;
                    assert(after.keys()[i] == key);
                }
            }
            assert forall|key: (u64, Tree)| after.keys().to_set().contains(
                key,
            ) implies after.entries.dom().contains(key) by {
                let i = choose|i: int| 0 <= i < after.keys().len() && after.keys()[i] == key;
                if i < kept.keys().len() {
                    assert(kept.keys()[i] == key);
                    assert(kept.keys().to_set().contains(key));
                }
            }
            assert(after.keys().to_set() =~= after.entries.dom());
        }
    }

    /// A shard that holds nothing is within all limits, and its accounts are right.
    pub proof fn lemma_empty()
        ensures
            ShardModel::<T>::empty().balanced(),
            forall|budget: int| ShardModel::<T>::empty().light(budget),
            forall|capacity: int, budget: int|
                0 <= capacity && 0 <= budget ==> #[trigger] ShardModel::<T>::empty().within(
                    capacity,
                    budget,
                ),
    {
        let empty = ShardModel::<T>::empty();
        assert(empty.keys() =~= Seq::empty());
        assert(empty.keys().to_set() =~= Set::empty());
        assert(empty.entries.dom() =~= Set::empty());
    }

    /// As long as only light entries are asked for, a shard holds none but light entries.
    pub proof fn lemma_stays_light(
        self,
        hash: u64,
        tree: Tree,
        handle: T,
        weight: int,
        capacity: int,
        budget: int,
    )
        requires
            self.light(budget),
            weight <= budget,
        ensures
            self.after(hash, tree, handle, weight, capacity, budget).light(budget),
    {
    }

    /// A shard with none but light entries does not weigh more than its budget.
    pub proof fn lemma_within_budget(self, capacity: int, budget: int)
        requires
            self.within(capacity, budget),
            self.balanced(),
            self.light(budget),
            0 <= budget,
        ensures
            self.weight <= budget,
    {
        if self.len() <= 1 {
            self.keys().unique_seq_to_set();
            assert(self.weights.len() == self.keys().len());
            if self.weights.len() == 1 {
                assert(self.weights.drop_last().len() == 0);
                assert(ShardModel::<T>::sum(self.weights.drop_last()) == 0);
                assert(self.weights.last() == self.weights[0]);
            }
        }
    }

    /// What some shards weigh together.
    pub open spec fn total_weight(shards: Seq<ShardModel<T>>) -> int
        decreases shards.len(),
    {
        if shards.len() == 0 {
            0
        } else {
            ShardModel::total_weight(shards.drop_last()) + shards.last().weight
        }
    }

    /// Shards with none but light entries do not weigh more together than there are budgets.
    pub proof fn lemma_total_weight(shards: Seq<ShardModel<T>>, capacity: int, budget: int)
        requires
            0 <= budget,
            forall|i: int|
                0 <= i < shards.len() ==> {
                    &&& (#[trigger] shards[i]).within(capacity, budget)
                    &&& shards[i].balanced()
                    &&& shards[i].light(budget)
                },
        ensures
            ShardModel::total_weight(shards) <= shards.len() * budget,
        decreases shards.len(),
    {
        if shards.len() > 0 {
            let rest = shards.drop_last();
            assert forall|i: int| 0 <= i < rest.len() implies {
                &&& (#[trigger] rest[i]).within(capacity, budget)
                &&& rest[i].balanced()
                &&& rest[i].light(budget)
            } by {
                assert(shards[i].within(capacity, budget));
            }
            ShardModel::lemma_total_weight(rest, capacity, budget);
            assert(shards.last().within(capacity, budget));
            shards.last().lemma_within_budget(capacity, budget);
            vstd::arithmetic::mul::lemma_mul_is_distributive_add_other_way(
                budget,
                shards.len() - 1,
                1,
            );
        } else {
            assert(shards.len() * budget == 0) by (nonlinear_arith)
                requires
                    shards.len() == 0,
            ;
        }
    }

    /// What was asked for is there the next time: asking again hands out what was handed out
    /// before, and changes nothing.
    pub proof fn lemma_asked_is_kept(
        self,
        hash: u64,
        tree: Tree,
        handle: T,
        other: T,
        weight: int,
        capacity: int,
        budget: int,
    )
        ensures
            ({
                let after = self.after(hash, tree, handle, weight, capacity, budget);
                &&& after.entries.contains_key((hash, tree))
                &&& after.after(hash, tree, other, weight, capacity, budget) == after
            }),
    {
    }
}

impl<T> ShardModel<T> {
    /// Whether these are states that a shard, empty at first, can have been in one after the other
    /// if it was asked for light entries only.
    pub open spec fn is_light_history(
        history: Seq<ShardModel<T>>,
        capacity: int,
        budget: int,
    ) -> bool {
        &&& history.len() > 0
        &&& history[0] == ShardModel::<T>::empty()
        &&& forall|k: int|
            1 <= k < history.len() ==> {
                ||| #[trigger] history[k] == ShardModel::<T>::empty()
                ||| exists|hash: u64, tree: Tree, handle: T, weight: int|
                    0 <= weight <= budget && history[k] == #[trigger] history[k - 1].after(
                        hash,
                        tree,
                        handle,
                        weight,
                        capacity,
                        budget,
                    )
            }
    }

    /// A shard that was asked for light entries only is within its limits, and its accounts are
    /// right.
    pub proof fn lemma_light_history(history: Seq<ShardModel<T>>, capacity: int, budget: int)
        requires
            0 < capacity,
            0 <= budget <= u32::MAX,
            ShardModel::is_light_history(history, capacity, budget),
        ensures
            history.last().within(capacity, budget),
            history.last().balanced(),
            history.last().light(budget),
            history.last().weight <= budget,
        decreases history.len(),
    {
        ShardModel::<T>::lemma_empty();
        let n = history.len() - 1;
        if n > 0 && history[n] != ShardModel::<T>::empty() {
            let rest = history.drop_last();
            assert forall|k: int| 1 <= k < rest.len() implies {
                ||| #[trigger] rest[k] == ShardModel::<T>::empty()
                ||| exists|hash: u64, tree: Tree, handle: T, weight: int|
                    0 <= weight <= budget && rest[k] == #[trigger] rest[k - 1].after(
                        hash,
                        tree,
                        handle,
                        weight,
                        capacity,
                        budget,
                    )
            } by {
                assert(rest[k] == history[k] && rest[k - 1] == history[k - 1]);
            }
            ShardModel::lemma_light_history(rest, capacity, budget);
            let before = history[n - 1];
            let (hash, tree, handle, weight) = choose|
                hash: u64,
                tree: Tree,
                handle: T,
                weight: int,
            |
                0 <= weight <= budget && history[n] == #[trigger] history[n - 1].after(
                    hash,
                    tree,
                    handle,
                    weight,
                    capacity,
                    budget,
                );
            before.lemma_stays_within(hash, tree, handle, weight, capacity, budget);
            before.lemma_stays_balanced(hash, tree, handle, weight, capacity, budget);
            before.lemma_stays_light(hash, tree, handle, weight, capacity, budget);
        }
        history.last().lemma_within_budget(capacity, budget);
    }

    /// The last of the states that each shard was in.
    pub open spec fn latest(histories: Seq<Seq<ShardModel<T>>>) -> Seq<ShardModel<T>> {
        histories.map_values(|history: Seq<ShardModel<T>>| history.last())
    }
}

/// All shards for nodes together account for at most 256 MiB, and all shards for tokens for at most
/// 16 MiB, as long as no entry is by itself too heavy for a shard.
pub proof fn lemma_total_budgets(
    nodes: Seq<ShardModel<GreenNode>>,
    tokens: Seq<ShardModel<GreenToken>>,
)
    requires
        nodes.len() == SHARD_COUNT,
        tokens.len() == SHARD_COUNT,
        forall|i: int|
            0 <= i < nodes.len() ==> {
                &&& (#[trigger] nodes[i]).within(
                    NODE_CAPACITY_PER_SHARD as int,
                    NODE_RETAINED_WEIGHT_PER_SHARD as int,
                )
                &&& nodes[i].balanced()
                &&& nodes[i].light(NODE_RETAINED_WEIGHT_PER_SHARD as int)
            },
        forall|i: int|
            0 <= i < tokens.len() ==> {
                &&& (#[trigger] tokens[i]).within(
                    TOKEN_CAPACITY_PER_SHARD as int,
                    TOKEN_RETAINED_WEIGHT_PER_SHARD as int,
                )
                &&& tokens[i].balanced()
                &&& tokens[i].light(TOKEN_RETAINED_WEIGHT_PER_SHARD as int)
            },
    ensures
        ShardModel::total_weight(nodes) <= 256 * 1024 * 1024,
        ShardModel::total_weight(tokens) <= 16 * 1024 * 1024,
{
    ShardModel::lemma_total_weight(
        nodes,
        NODE_CAPACITY_PER_SHARD as int,
        NODE_RETAINED_WEIGHT_PER_SHARD as int,
    );
    ShardModel::lemma_total_weight(
        tokens,
        TOKEN_CAPACITY_PER_SHARD as int,
        TOKEN_RETAINED_WEIGHT_PER_SHARD as int,
    );
}

impl NodeShardData {
    /// Whether the lock was made around a shard with these contents.
    spec fn starts(
        lock: RwLock<NodeShardData, NodeShardLimits>,
        shard: ShardModel<GreenNode>,
    ) -> bool {
        exists|data: NodeShardData, limits: Ghost<NodeShardLimits>|
            #[trigger] call_ensures(
                RwLock::<NodeShardData, NodeShardLimits>::new,
                (data, limits),
                lock,
            ) && data@ == shard
    }

    /// What the shard holds.
    pub closed spec fn view(&self) -> ShardModel<GreenNode> {
        ShardModel {
            entries: shared_nodes(self.entries),
            weights: self.weights@,
            weight: self.retained_weight as int,
        }
    }

    /// A shard that holds nothing.
    pub fn new() -> (shard: NodeShardData)
        ensures
            shard@ == ShardModel::<GreenNode>::empty(),
    {
        let shard = NodeShardData {
            entries: SharedNodeTable::new(),
            retained_weight: 0,
            weights: Ghost(Seq::empty()),
        };
        proof {
            assert(shard@.entries =~= Map::empty());
        }
        shard
    }

    /// How many nodes the shard holds, what they weigh, and for how many it has room.
    pub fn usage(&self) -> (usage: ShardUsage)
        ensures
            usage.entries == self@.len(),
            usage.retained_weight == self@.weight,
            usage.capacity >= usage.entries,
    {
        ShardUsage {
            entries: self.entries.len(),
            retained_weight: self.retained_weight,
            capacity: self.entries.capacity(),
        }
    }

    /// Drops everything that the shard holds.
    pub fn clear(&mut self)
        ensures
            final(self)@ == ShardModel::<GreenNode>::empty(),
    {
        *self = NodeShardData::new();
    }

    /// Takes the elements from `first_child` on out of `children` and finds the node that is made
    /// of them; a new one if the shard does not hold it under the digest `hash`.
    pub fn node(
        &mut self,
        hash: u64,
        kind: SyntaxKind,
        children: &mut Vec<CachedElement>,
        first_child: usize,
        retained_weight: u32,
    ) -> (node: GreenNode)
        requires
            first_child <= old(children)@.len(),
            old(children)@.len() - first_child <= u32::MAX,
            Tree::total_len(CachedElement::trees(old(children)@.skip(first_child as int)))
                <= u32::MAX,
        ensures
            final(children)@ == old(children)@.take(first_child as int),
            node@ == (Tree::Node {
                kind,
                children: CachedElement::trees(old(children)@.skip(first_child as int)),
            }),
            !old(self)@.entries.contains_key((hash, node@)) ==> node.elements()
                == CachedElement::elements(old(children)@.skip(first_child as int)),
            final(self)@ == old(self)@.after(
                hash,
                node@,
                node,
                retained_weight as int,
                NODE_CAPACITY_PER_SHARD as int,
                NODE_RETAINED_WEIGHT_PER_SHARD as int,
            ),
            node == final(self)@.entries[(hash, node@)],
    {
        let tail: Vec<CachedElement> = children.split_off(first_child);
        proof {
            assert(tail@ =~= old(children)@.skip(first_child as int));
        }
        let greens = CachedElement::borrow_greens(tail.as_slice());
        if let Some(cached) = self.entries.find(hash, kind, greens.as_slice()) {
            return cached;
        }
        if self.entries.len() >= NODE_CAPACITY_PER_SHARD || self.retained_weight.saturating_add(
            retained_weight,
        ) > NODE_RETAINED_WEIGHT_PER_SHARD {
            self.clear();
        }
        let greens = CachedElement::into_greens(tail);
        proof {
            assert(greens@.len() == GreenNode::trees(greens@).len());
        }
        let node = GreenNode::new(kind, greens);
        self.retained_weight = self.retained_weight.saturating_add(retained_weight);
        self.weights = Ghost(self.weights@.push(((hash, node@), retained_weight as int)));
        self.entries.insert(hash, node.clone());
        node
    }
}

impl TokenShardData {
    /// Whether the lock was made around a shard with these contents.
    spec fn starts(
        lock: RwLock<TokenShardData, TokenShardLimits>,
        shard: ShardModel<GreenToken>,
    ) -> bool {
        exists|data: TokenShardData, limits: Ghost<TokenShardLimits>|
            #[trigger] call_ensures(
                RwLock::<TokenShardData, TokenShardLimits>::new,
                (data, limits),
                lock,
            ) && data@ == shard
    }

    /// What the shard holds.
    pub closed spec fn view(&self) -> ShardModel<GreenToken> {
        ShardModel {
            entries: shared_tokens(self.entries),
            weights: self.weights@,
            weight: self.retained_weight as int,
        }
    }

    /// A shard that holds nothing.
    pub fn new() -> (shard: TokenShardData)
        ensures
            shard@ == ShardModel::<GreenToken>::empty(),
    {
        let shard = TokenShardData {
            entries: SharedTokenTable::new(),
            retained_weight: 0,
            weights: Ghost(Seq::empty()),
        };
        proof {
            assert(shard@.entries =~= Map::empty());
        }
        shard
    }

    /// How many tokens the shard holds, what they weigh, and for how many it has room.
    pub fn usage(&self) -> (usage: ShardUsage)
        ensures
            usage.entries == self@.len(),
            usage.retained_weight == self@.weight,
            usage.capacity >= usage.entries,
    {
        ShardUsage {
            entries: self.entries.len(),
            retained_weight: self.retained_weight,
            capacity: self.entries.capacity(),
        }
    }

    /// Drops everything that the shard holds.
    pub fn clear(&mut self)
        ensures
            final(self)@ == ShardModel::<GreenToken>::empty(),
    {
        *self = TokenShardData::new();
    }

    /// Finds the token with this kind and text; a new one if the shard does not hold it under the
    /// digest `hash`.
    pub fn token(
        &mut self,
        hash: u64,
        kind: SyntaxKind,
        text: &str,
        retained_weight: u32,
    ) -> (token: GreenToken)
        requires
            encode_utf8(text@).len() <= u32::MAX,
        ensures
            token@ == (Tree::Token { kind, text: text@ }),
            final(self)@ == old(self)@.after(
                hash,
                token@,
                token,
                retained_weight as int,
                TOKEN_CAPACITY_PER_SHARD as int,
                TOKEN_RETAINED_WEIGHT_PER_SHARD as int,
            ),
            token == final(self)@.entries[(hash, token@)],
    {
        if let Some(cached) = self.entries.find(hash, kind, text) {
            return cached;
        }
        if self.entries.len() >= TOKEN_CAPACITY_PER_SHARD || self.retained_weight.saturating_add(
            retained_weight,
        ) > TOKEN_RETAINED_WEIGHT_PER_SHARD {
            self.clear();
        }
        let token = GreenToken::new(kind, text);
        self.retained_weight = self.retained_weight.saturating_add(retained_weight);
        self.weights = Ghost(self.weights@.push(((hash, token@), retained_weight as int)));
        self.entries.insert(hash, token.clone());
        token
    }
}

/// How much a shard holds.
#[derive(Debug, Clone, Copy, PartialEq, Eq, Structural)]
pub struct ShardUsage {
    /// The number of entries.
    pub entries: usize,
    /// What the entries weigh together.
    pub retained_weight: u32,
    /// For how many entries there is room.
    pub capacity: usize,
}

impl ShardUsage {
    /// Whether this is how much the shard holds.
    pub open spec fn is_of<T>(self, shard: ShardModel<T>) -> bool {
        &&& self.entries == shard.len()
        &&& self.retained_weight == shard.weight
        &&& self.capacity >= self.entries
    }
}

/// What holds of every shard for nodes whenever no one works on it.
pub struct NodeShardLimits;

/// What holds of every shard for tokens whenever no one works on it.
pub struct TokenShardLimits;

impl RwLockPredicate<NodeShardData> for NodeShardLimits {
    open spec fn inv(self, shard: NodeShardData) -> bool {
        &&& shard@.within(
            NODE_CAPACITY_PER_SHARD as int,
            NODE_RETAINED_WEIGHT_PER_SHARD as int,
        )
        &&& shard@.balanced()
    }
}

impl RwLockPredicate<TokenShardData> for TokenShardLimits {
    open spec fn inv(self, shard: TokenShardData) -> bool {
        &&& shard@.within(
            TOKEN_CAPACITY_PER_SHARD as int,
            TOKEN_RETAINED_WEIGHT_PER_SHARD as int,
        )
        &&& shard@.balanced()
    }
}

/// An opt-in, bounded interner for sharing immutable green descendants across builders.
///
/// Use this cache with [`crate::GreenNodeBuilder::with_shared_cache`]. Ordinary builders and
/// [`crate::NodeCache`] retain their local-only behavior. Finished trees have distinct root
/// allocations, while eligible descendants may be shared.
///
/// Individual shards grow on demand and rotate when their aggregate accounted retained weight
/// reaches its budget, with entry counts as a secondary guard. Across all shards, the accounted
/// budgets are at most 256 MiB for nodes and 16 MiB for tokens before eviction. These are retention
/// accounting limits, not exact allocator-byte guarantees. Each weight includes the retained green
/// allocation and its hash-table entry storage; parent weights conservatively include retained
/// descendants. Hash matches are confirmed with structural equality.
pub struct SharedNodeCache {
    nodes: Vec<RwLock<NodeShardData, NodeShardLimits>>,
    tokens: Vec<RwLock<TokenShardData, TokenShardLimits>>,
}

impl Default for SharedNodeCache {
    fn default() -> (cache: SharedNodeCache)
        ensures
            forall|i: int|
                0 <= i < SHARD_COUNT ==> #[trigger] cache.node_shard_starts(i, ShardModel::empty()),
            forall|i: int|
                0 <= i < SHARD_COUNT ==> #[trigger] cache.token_shard_starts(
                    i,
                    ShardModel::empty(),
                ),
    {
        let mut nodes: Vec<RwLock<NodeShardData, NodeShardLimits>> = Vec::new();
        let mut tokens: Vec<RwLock<TokenShardData, TokenShardLimits>> = Vec::new();
        while nodes.len() < SHARD_COUNT
            invariant
                nodes@.len() == tokens@.len(),
                nodes@.len() <= SHARD_COUNT,
                forall|i: int|
                    0 <= i < nodes@.len() ==> NodeShardData::starts(
                        #[trigger] nodes@[i],
                        ShardModel::empty(),
                    ),
                forall|i: int|
                    0 <= i < tokens@.len() ==> TokenShardData::starts(
                        #[trigger] tokens@[i],
                        ShardModel::empty(),
                    ),
            decreases SHARD_COUNT - nodes@.len(),
        {
            proof {
                ShardModel::<GreenNode>::lemma_empty();
                ShardModel::<GreenToken>::lemma_empty();
            }
            let lock_nodes = RwLock::<NodeShardData, NodeShardLimits>::new;
            nodes.push(lock_nodes(NodeShardData::new(), Ghost(NodeShardLimits)));
            let lock_tokens = RwLock::<TokenShardData, TokenShardLimits>::new;
            tokens.push(lock_tokens(TokenShardData::new(), Ghost(TokenShardLimits)));
        }
        SharedNodeCache { nodes, tokens }
    }
}

impl SharedNodeCache {
    #[verifier::type_invariant]
    closed spec fn complete(self) -> bool {
        &&& self.nodes@.len() == SHARD_COUNT
        &&& self.tokens@.len() == SHARD_COUNT
    }

    /// Drops cache ownership present when the operation reaches each shard.
    ///
    /// Green trees already returned by builders remain valid. This is not a global atomic clear:
    /// builders running concurrently may repopulate shards before this method returns. Callers that
    /// require an empty cache must call it while builders using the cache are quiescent.
    pub fn clear(&self)
        ensures
            forall|i: int| 0 <= i < SHARD_COUNT ==> #[trigger] self.node_shard_cleared(i),
            forall|i: int| 0 <= i < SHARD_COUNT ==> #[trigger] self.token_shard_cleared(i),
    {
        proof {
            use_type_invariant(self);
        }
        let mut index: usize = 0;
        while index < SHARD_COUNT
            invariant
                index <= SHARD_COUNT,
                self.nodes@.len() == SHARD_COUNT,
                self.tokens@.len() == SHARD_COUNT,
                forall|i: int| 0 <= i < index ==> #[trigger] self.node_shard_cleared(i),
                forall|i: int| 0 <= i < index ==> #[trigger] self.token_shard_cleared(i),
            decreases SHARD_COUNT - index,
        {
            proof {
                ShardModel::<GreenNode>::lemma_empty();
                ShardModel::<GreenToken>::lemma_empty();
            }
            let take_nodes = RwLock::<NodeShardData, NodeShardLimits>::acquire_write;
            let give_nodes = WriteHandle::<NodeShardData, NodeShardLimits>::release_write;
            let (mut nodes, handle) = take_nodes(&self.nodes[index]);
            let ghost before = nodes@;
            nodes.clear();
            give_nodes(handle, nodes);
            assert(self.node_shard_written(index as int, before, ShardModel::empty()));
            let take_tokens = RwLock::<TokenShardData, TokenShardLimits>::acquire_write;
            let give_tokens = WriteHandle::<TokenShardData, TokenShardLimits>::release_write;
            let (mut tokens, handle) = take_tokens(&self.tokens[index]);
            let ghost before = tokens@;
            tokens.clear();
            give_tokens(handle, tokens);
            assert(self.token_shard_written(index as int, before, ShardModel::empty()));
            index = index + 1;
        }
    }

    /// How much the shard for nodes with this index holds at the moment.
    pub fn node_shard_usage(&self, index: usize) -> (usage: ShardUsage)
        requires
            index < SHARD_COUNT,
        ensures
            exists|shard: NodeShardData|
                {
                    &&& #[trigger] self.node_shard_reads(index as int, shard)
                    &&& usage.is_of(shard@)
                    &&& shard@.balanced()
                    &&& shard@.within(
                        NODE_CAPACITY_PER_SHARD as int,
                        NODE_RETAINED_WEIGHT_PER_SHARD as int,
                    )
                },
            usage.entries <= NODE_CAPACITY_PER_SHARD,
            usage.retained_weight <= NODE_RETAINED_WEIGHT_PER_SHARD || usage.entries <= 1,
            usage.capacity >= usage.entries,
    {
        proof {
            use_type_invariant(self);
        }
        let read = RwLock::<NodeShardData, NodeShardLimits>::acquire_read;
        let handle = read(&self.nodes[index]);
        let usage = handle.borrow().usage();
        proof {
            assert(self.node_shard_reads(index as int, handle.view()));
        }
        handle.release_read();
        usage
    }

    /// How much the shard for tokens with this index holds at the moment.
    pub fn token_shard_usage(&self, index: usize) -> (usage: ShardUsage)
        requires
            index < SHARD_COUNT,
        ensures
            exists|shard: TokenShardData|
                {
                    &&& #[trigger] self.token_shard_reads(index as int, shard)
                    &&& usage.is_of(shard@)
                    &&& shard@.balanced()
                    &&& shard@.within(
                        TOKEN_CAPACITY_PER_SHARD as int,
                        TOKEN_RETAINED_WEIGHT_PER_SHARD as int,
                    )
                },
            usage.entries <= TOKEN_CAPACITY_PER_SHARD,
            usage.retained_weight <= TOKEN_RETAINED_WEIGHT_PER_SHARD || usage.entries <= 1,
            usage.capacity >= usage.entries,
    {
        proof {
            use_type_invariant(self);
        }
        let read = RwLock::<TokenShardData, TokenShardLimits>::acquire_read;
        let handle = read(&self.tokens[index]);
        let usage = handle.borrow().usage();
        proof {
            assert(self.token_shard_reads(index as int, handle.view()));
        }
        handle.release_read();
        usage
    }

    /// Whether the shard for nodes with this index was made with these contents.
    pub closed spec fn node_shard_starts(
        &self,
        index: int,
        shard: ShardModel<GreenNode>,
    ) -> bool {
        NodeShardData::starts(self.nodes@[index], shard)
    }

    /// Whether someone took the shard for nodes with this index, found `before` in it, and gave it
    /// back with `after`.
    pub closed spec fn node_shard_written(
        &self,
        index: int,
        before: ShardModel<GreenNode>,
        after: ShardModel<GreenNode>,
    ) -> bool {
        exists|
            taken: (NodeShardData, WriteHandle<'_, NodeShardData, NodeShardLimits>),
            given: NodeShardData,
        |
            {
                &&& #[trigger] call_ensures(
                    RwLock::<NodeShardData, NodeShardLimits>::acquire_write,
                    (&self.nodes@[index],),
                    taken,
                )
                &&& #[trigger] call_ensures(
                    WriteHandle::<NodeShardData, NodeShardLimits>::release_write,
                    (taken.1, given),
                    (),
                )
                &&& taken.0@ == before
                &&& given@ == after
            }
    }

    /// Whether someone took the shard for nodes with this index and gave it back empty.
    pub open spec fn node_shard_cleared(&self, index: int) -> bool {
        exists|before: ShardModel<GreenNode>| #[trigger]
            self.node_shard_written(index, before, ShardModel::empty())
    }

    /// Whether someone asked the shard of the digest `hash` for a node with this digest and weight,
    /// and `node` is what the shard holds for it afterwards: if it did not hold one before, a node
    /// that holds these very elements.
    pub open spec fn node_asked(
        &self,
        hash: u64,
        node: GreenNode,
        elements: Seq<GreenElement>,
        weight: int,
    ) -> bool {
        exists|before: ShardModel<GreenNode>, after: ShardModel<GreenNode>|
            {
                &&& #[trigger] self.node_shard_written(shard_of(hash), before, after)
                &&& after == before.after(
                    hash,
                    node@,
                    node,
                    weight,
                    NODE_CAPACITY_PER_SHARD as int,
                    NODE_RETAINED_WEIGHT_PER_SHARD as int,
                )
                &&& node == after.entries[(hash, node@)]
                &&& !before.entries.contains_key((hash, node@)) ==> node.elements() == elements
            }
    }

    /// Whether the shard for nodes with this index was made empty and then went through these
    /// states, as it was taken and given back, and was asked for light entries only.
    pub open spec fn node_shard_lived(
        &self,
        index: int,
        history: Seq<ShardModel<GreenNode>>,
    ) -> bool {
        &&& ShardModel::is_light_history(
            history,
            NODE_CAPACITY_PER_SHARD as int,
            NODE_RETAINED_WEIGHT_PER_SHARD as int,
        )
        &&& self.node_shard_starts(index, history[0])
        &&& forall|k: int|
            1 <= k < history.len() ==> self.node_shard_written(
                index,
                history[k - 1],
                #[trigger] history[k],
            )
    }

    /// Whether the shard for tokens with this index was made empty and then went through these
    /// states, as it was taken and given back, and was asked for light entries only.
    pub open spec fn token_shard_lived(
        &self,
        index: int,
        history: Seq<ShardModel<GreenToken>>,
    ) -> bool {
        &&& ShardModel::is_light_history(
            history,
            TOKEN_CAPACITY_PER_SHARD as int,
            TOKEN_RETAINED_WEIGHT_PER_SHARD as int,
        )
        &&& self.token_shard_starts(index, history[0])
        &&& forall|k: int|
            1 <= k < history.len() ==> self.token_shard_written(
                index,
                history[k - 1],
                #[trigger] history[k],
            )
    }

    /// A cache that was asked for light entries only accounts for at most 256 MiB for its nodes and
    /// 16 MiB for its tokens, whatever states its shards went through.
    pub proof fn lemma_budgets(
        &self,
        nodes: Seq<Seq<ShardModel<GreenNode>>>,
        tokens: Seq<Seq<ShardModel<GreenToken>>>,
    )
        requires
            nodes.len() == SHARD_COUNT,
            tokens.len() == SHARD_COUNT,
            forall|i: int|
                0 <= i < nodes.len() ==> self.node_shard_lived(i, #[trigger] nodes[i]),
            forall|i: int|
                0 <= i < tokens.len() ==> self.token_shard_lived(i, #[trigger] tokens[i]),
        ensures
            ShardModel::total_weight(ShardModel::latest(nodes)) <= 256 * 1024 * 1024,
            ShardModel::total_weight(ShardModel::latest(tokens)) <= 16 * 1024 * 1024,
    {
        assert forall|i: int| 0 <= i < nodes.len() implies {
            let shard = #[trigger] ShardModel::latest(nodes)[i];
            &&& shard.within(
                NODE_CAPACITY_PER_SHARD as int,
                NODE_RETAINED_WEIGHT_PER_SHARD as int,
            )
            &&& shard.balanced()
            &&& shard.light(NODE_RETAINED_WEIGHT_PER_SHARD as int)
        } by {
            assert(self.node_shard_lived(i, nodes[i]));
            ShardModel::lemma_light_history(
                nodes[i],
                NODE_CAPACITY_PER_SHARD as int,
                NODE_RETAINED_WEIGHT_PER_SHARD as int,
            );
        }
        assert forall|i: int| 0 <= i < tokens.len() implies {
            let shard = #[trigger] ShardModel::latest(tokens)[i];
            &&& shard.within(
                TOKEN_CAPACITY_PER_SHARD as int,
                TOKEN_RETAINED_WEIGHT_PER_SHARD as int,
            )
            &&& shard.balanced()
            &&& shard.light(TOKEN_RETAINED_WEIGHT_PER_SHARD as int)
        } by {
            assert(self.token_shard_lived(i, tokens[i]));
            ShardModel::lemma_light_history(
                tokens[i],
                TOKEN_CAPACITY_PER_SHARD as int,
                TOKEN_RETAINED_WEIGHT_PER_SHARD as int,
            );
        }
        lemma_total_budgets(ShardModel::latest(nodes), ShardModel::latest(tokens));
    }

    /// Whether a reader of the shard for nodes with this index finds `shard` there.
    pub closed spec fn node_shard_reads(&self, index: int, shard: NodeShardData) -> bool {
        exists|handle: ReadHandle<'_, NodeShardData, NodeShardLimits>|
            #[trigger] call_ensures(
                RwLock::<NodeShardData, NodeShardLimits>::acquire_read,
                (&self.nodes@[index],),
                handle,
            ) && handle.view() == shard
    }

    /// Whether the shard for tokens with this index was made with these contents.
    pub closed spec fn token_shard_starts(
        &self,
        index: int,
        shard: ShardModel<GreenToken>,
    ) -> bool {
        TokenShardData::starts(self.tokens@[index], shard)
    }

    /// Whether someone took the shard for tokens with this index, found `before` in it, and gave it
    /// back with `after`.
    pub closed spec fn token_shard_written(
        &self,
        index: int,
        before: ShardModel<GreenToken>,
        after: ShardModel<GreenToken>,
    ) -> bool {
        exists|
            taken: (TokenShardData, WriteHandle<'_, TokenShardData, TokenShardLimits>),
            given: TokenShardData,
        |
            {
                &&& #[trigger] call_ensures(
                    RwLock::<TokenShardData, TokenShardLimits>::acquire_write,
                    (&self.tokens@[index],),
                    taken,
                )
                &&& #[trigger] call_ensures(
                    WriteHandle::<TokenShardData, TokenShardLimits>::release_write,
                    (taken.1, given),
                    (),
                )
                &&& taken.0@ == before
                &&& given@ == after
            }
    }

    /// Whether someone took the shard for tokens with this index and gave it back empty.
    pub open spec fn token_shard_cleared(&self, index: int) -> bool {
        exists|before: ShardModel<GreenToken>| #[trigger]
            self.token_shard_written(index, before, ShardModel::empty())
    }

    /// Whether someone asked the shard of the digest `hash` for a token with this digest and
    /// weight, and `token` is what the shard holds for it afterwards.
    pub open spec fn token_asked(&self, hash: u64, token: GreenToken, weight: int) -> bool {
        exists|before: ShardModel<GreenToken>, after: ShardModel<GreenToken>|
            {
                &&& #[trigger] self.token_shard_written(shard_of(hash), before, after)
                &&& after == before.after(
                    hash,
                    token@,
                    token,
                    weight,
                    TOKEN_CAPACITY_PER_SHARD as int,
                    TOKEN_RETAINED_WEIGHT_PER_SHARD as int,
                )
                &&& token == after.entries[(hash, token@)]
            }
    }

    /// Whether a reader of the shard for tokens with this index finds `shard` there.
    pub closed spec fn token_shard_reads(&self, index: int, shard: TokenShardData) -> bool {
        exists|handle: ReadHandle<'_, TokenShardData, TokenShardLimits>|
            #[trigger] call_ensures(
                RwLock::<TokenShardData, TokenShardLimits>::acquire_read,
                (&self.tokens@[index],),
                handle,
            ) && handle.view() == shard
    }

    /// A shard for nodes was written by someone who took its lock, and gave it back with what the
    /// shard holds afterwards; and it is read by someone who took its lock.
    proof fn lemma_node_shard_is_locked(
        &self,
        index: int,
        before: ShardModel<GreenNode>,
        after: ShardModel<GreenNode>,
        shard: NodeShardData,
    )
        ensures
            self.node_shard_written(index, before, after) ==> exists|
                taken: (NodeShardData, WriteHandle<'_, NodeShardData, NodeShardLimits>),
                given: NodeShardData,
            |
                #[trigger] call_ensures(
                    RwLock::<NodeShardData, NodeShardLimits>::acquire_write,
                    (&self.nodes@[index],),
                    taken,
                ) && #[trigger] call_ensures(
                    WriteHandle::<NodeShardData, NodeShardLimits>::release_write,
                    (taken.1, given),
                    (),
                ) && taken.0@ == before && given@ == after,
            self.node_shard_reads(index, shard) ==> exists|
                handle: ReadHandle<'_, NodeShardData, NodeShardLimits>,
            |
                #[trigger] call_ensures(
                    RwLock::<NodeShardData, NodeShardLimits>::acquire_read,
                    (&self.nodes@[index],),
                    handle,
                ) && handle.view() == shard,
            self.node_shard_starts(index, before) ==> exists|
                data: NodeShardData,
                limits: Ghost<NodeShardLimits>,
            |
                #[trigger] call_ensures(
                    RwLock::<NodeShardData, NodeShardLimits>::new,
                    (data, limits),
                    self.nodes@[index],
                ) && data@ == before,
    {
    }

    /// A shard for tokens was written by someone who took its lock, and gave it back with what the
    /// shard holds afterwards; and it is read by someone who took its lock.
    proof fn lemma_token_shard_is_locked(
        &self,
        index: int,
        before: ShardModel<GreenToken>,
        after: ShardModel<GreenToken>,
        shard: TokenShardData,
    )
        ensures
            self.token_shard_written(index, before, after) ==> exists|
                taken: (TokenShardData, WriteHandle<'_, TokenShardData, TokenShardLimits>),
                given: TokenShardData,
            |
                #[trigger] call_ensures(
                    RwLock::<TokenShardData, TokenShardLimits>::acquire_write,
                    (&self.tokens@[index],),
                    taken,
                ) && #[trigger] call_ensures(
                    WriteHandle::<TokenShardData, TokenShardLimits>::release_write,
                    (taken.1, given),
                    (),
                ) && taken.0@ == before && given@ == after,
            self.token_shard_reads(index, shard) ==> exists|
                handle: ReadHandle<'_, TokenShardData, TokenShardLimits>,
            |
                #[trigger] call_ensures(
                    RwLock::<TokenShardData, TokenShardLimits>::acquire_read,
                    (&self.tokens@[index],),
                    handle,
                ) && handle.view() == shard,
            self.token_shard_starts(index, before) ==> exists|
                data: TokenShardData,
                limits: Ghost<TokenShardLimits>,
            |
                #[trigger] call_ensures(
                    RwLock::<TokenShardData, TokenShardLimits>::new,
                    (data, limits),
                    self.tokens@[index],
                ) && data@ == before,
    {
    }

    /// Takes the elements from `first_child` on out of `children` and finds the node that is made
    /// of them; a new one if the shard of the digest `hash` does not hold it.
    pub fn node(
        &self,
        hash: u64,
        kind: SyntaxKind,
        children: &mut Vec<CachedElement>,
        first_child: usize,
        retained_weight: u32,
    ) -> (node: GreenNode)
        requires
            first_child <= old(children)@.len(),
            old(children)@.len() - first_child <= u32::MAX,
            Tree::total_len(CachedElement::trees(old(children)@.skip(first_child as int)))
                <= u32::MAX,
        ensures
            final(children)@ == old(children)@.take(first_child as int),
            node@ == (Tree::Node {
                kind,
                children: CachedElement::trees(old(children)@.skip(first_child as int)),
            }),
            self.node_asked(
                hash,
                node,
                CachedElement::elements(old(children)@.skip(first_child as int)),
                retained_weight as int,
            ),
    {
        proof {
            use_type_invariant(self);
        }
        let take = RwLock::<NodeShardData, NodeShardLimits>::acquire_write;
        let give = WriteHandle::<NodeShardData, NodeShardLimits>::release_write;
        let (mut shard, handle) = take(&self.nodes[shard_index(hash)]);
        let ghost before = shard@;
        let node = shard.node(hash, kind, children, first_child, retained_weight);
        proof {
            before.lemma_stays_within(
                hash,
                node@,
                node,
                retained_weight as int,
                NODE_CAPACITY_PER_SHARD as int,
                NODE_RETAINED_WEIGHT_PER_SHARD as int,
            );
            before.lemma_stays_balanced(
                hash,
                node@,
                node,
                retained_weight as int,
                NODE_CAPACITY_PER_SHARD as int,
                NODE_RETAINED_WEIGHT_PER_SHARD as int,
            );
        }
        let ghost after = shard@;
        give(handle, shard);
        assert(self.node_shard_written(shard_of(hash), before, after));
        node
    }

    /// Finds the token with this kind and text; a new one if the shard of the digest `hash` does
    /// not hold it.
    pub fn token(&self, hash: u64, kind: SyntaxKind, text: &str, retained_weight: u32) -> (token:
        GreenToken)
        requires
            encode_utf8(text@).len() <= u32::MAX,
        ensures
            token@ == (Tree::Token { kind, text: text@ }),
            self.token_asked(hash, token, retained_weight as int),
    {
        proof {
            use_type_invariant(self);
        }
        let take = RwLock::<TokenShardData, TokenShardLimits>::acquire_write;
        let give = WriteHandle::<TokenShardData, TokenShardLimits>::release_write;
        let (mut shard, handle) = take(&self.tokens[shard_index(hash)]);
        let ghost before = shard@;
        let token = shard.token(hash, kind, text, retained_weight);
        proof {
            before.lemma_stays_within(
                hash,
                token@,
                token,
                retained_weight as int,
                TOKEN_CAPACITY_PER_SHARD as int,
                TOKEN_RETAINED_WEIGHT_PER_SHARD as int,
            );
            before.lemma_stays_balanced(
                hash,
                token@,
                token,
                retained_weight as int,
                TOKEN_CAPACITY_PER_SHARD as int,
                TOKEN_RETAINED_WEIGHT_PER_SHARD as int,
            );
        }
        let ghost after = shard@;
        give(handle, shard);
        assert(self.token_shard_written(shard_of(hash), before, after));
        token
    }
}

} // verus!
