//! Building a green tree from the events of a parser.

use crate::green::backend::{CacheBackend, Interned, SharedCacheBackend};
use crate::green::element::GreenElement;
use crate::green::node::GreenNode;
use crate::green::node_cache::NodeCache;
use crate::green::shared_cache::SharedNodeCache;
use crate::green::tree::Tree;
use crate::green::SyntaxKind;
use vstd::prelude::*;
use vstd::utf8::*;

verus! {

/// A checkpoint for maybe wrapping a node. See `GreenNodeBuilder::checkpoint` for details.
#[derive(Clone, Copy, Debug)]
pub struct Checkpoint(usize);

/// A builder for a green tree.
pub struct GreenNodeBuilder<'cache> {
    cache: CacheBackend<'cache>,
    parents: Vec<(SyntaxKind, usize)>,
}

/// What a builder has built so far: the elements that are not yet part of a node, and for each node
/// that was started but not finished its kind and how many elements there were before it.
#[verifier::ext_equal]
pub struct Forest {
    pub parents: Seq<(SyntaxKind, int)>,
    pub children: Seq<Tree>,
}

/// What a parser tells a builder.
pub enum Event {
    Token { kind: SyntaxKind, text: Seq<char> },
    StartNode { kind: SyntaxKind },
    StartNodeAt { checkpoint: int, kind: SyntaxKind },
    FinishNode,
}

impl Event {
    /// The text that comes in with some events.
    pub open spec fn text(events: Seq<Event>) -> Seq<char>
        decreases events.len(),
    {
        if events.len() == 0 {
            Seq::empty()
        } else {
            Event::text(events.drop_last()) + (match events.last() {
                Event::Token { text, .. } => text,
                _ => Seq::empty(),
            })
        }
    }
}

impl Forest {
    /// Nothing built yet.
    pub open spec fn empty() -> Forest {
        Forest { parents: Seq::empty(), children: Seq::empty() }
    }

    /// Whether each node that was started lies within the one before it.
    pub open spec fn nested(self) -> bool {
        &&& forall|i: int|
            0 <= i < self.parents.len() ==> 0 <= (#[trigger] self.parents[i]).1
                <= self.children.len()
        &&& forall|i: int, j: int|
            0 <= i <= j < self.parents.len() ==> (#[trigger] self.parents[i]).1 <= (
            #[trigger] self.parents[j]).1
    }

    /// One more token.
    pub open spec fn token(self, kind: SyntaxKind, text: Seq<char>) -> Forest {
        Forest { children: self.children.push(Tree::Token { kind, text }), ..self }
    }

    /// One more node that is started.
    pub open spec fn start_node(self, kind: SyntaxKind) -> Forest {
        self.start_node_at(self.children.len() as int, kind)
    }

    /// One more node that is started, with the elements from `checkpoint` on already in it.
    pub open spec fn start_node_at(self, checkpoint: int, kind: SyntaxKind) -> Forest {
        Forest { parents: self.parents.push((kind, checkpoint)), ..self }
    }

    /// The elements of the node that was started last.
    pub open spec fn current(self) -> Seq<Tree> {
        self.children.skip(self.parents.last().1)
    }

    /// The node that was started last becomes an element.
    pub open spec fn finish_node(self) -> Forest {
        let (kind, first_child) = self.parents.last();
        Forest {
            parents: self.parents.drop_last(),
            children: self.children.take(first_child).push(
                Tree::Node { kind, children: self.current() },
            ),
        }
    }

    /// Whether a node may be started at `checkpoint`.
    pub open spec fn admits(self, checkpoint: int) -> bool {
        &&& 0 <= checkpoint <= self.children.len()
        &&& self.parents.len() > 0 ==> checkpoint >= self.parents.last().1
    }

    /// What an event does.
    pub open spec fn step(self, event: Event) -> Forest {
        match event {
            Event::Token { kind, text } => self.token(kind, text),
            Event::StartNode { kind } => self.start_node(kind),
            Event::StartNodeAt { checkpoint, kind } => self.start_node_at(checkpoint, kind),
            Event::FinishNode => self.finish_node(),
        }
    }

    /// Whether an event may come now: nodes are started where they may be, and only those are
    /// finished that were started.
    pub open spec fn accepts(self, event: Event) -> bool {
        match event {
            Event::StartNodeAt { checkpoint, .. } => self.admits(checkpoint),
            Event::FinishNode => self.parents.len() > 0,
            _ => true,
        }
    }

    /// Whether events may come one after the other.
    pub open spec fn accepts_all(self, events: Seq<Event>) -> bool
        decreases events.len(),
    {
        events.len() > 0 ==> self.accepts_all(events.drop_last()) && self.run(
            events.drop_last(),
        ).accepts(events.last())
    }

    /// What events do, one after the other.
    pub open spec fn run(self, events: Seq<Event>) -> Forest
        decreases events.len(),
    {
        if events.len() == 0 {
            self
        } else {
            self.run(events.drop_last()).step(events.last())
        }
    }

    /// With more elements behind those that are there.
    pub open spec fn with(self, trees: Seq<Tree>) -> Forest {
        Forest { children: self.children + trees, ..self }
    }

    /// All that was built keeps its text: tokens add theirs at the end, nodes add nothing and take
    /// nothing away.
    pub proof fn lemma_lossless_step(self, event: Event)
        requires
            self.nested(),
            self.accepts(event),
        ensures
            Tree::total_text(self.step(event).children) == (match event {
                Event::Token { text, .. } => Tree::total_text(self.children) + text,
                _ => Tree::total_text(self.children),
            }),
    {
        match event {
            Event::Token { kind, text } => {
                let tree = Tree::Token { kind, text };
                Tree::lemma_total_single(tree);
                Tree::lemma_total_concat(self.children, seq![tree]);
                assert(self.children.push(tree) =~= self.children + seq![tree]);
            },
            Event::FinishNode => {
                let (kind, first_child) = self.parents.last();
                let node = Tree::Node { kind, children: self.current() };
                let left = self.children.take(first_child);
                Tree::lemma_total_single(node);
                Tree::lemma_total_concat(left, seq![node]);
                Tree::lemma_total_concat(left, self.current());
                assert(left.push(node) =~= left + seq![node]);
                assert(left + self.current() =~= self.children);
            },
            _ => {},
        }
    }

    /// Whatever was nested stays nested.
    pub proof fn lemma_stays_nested(self, event: Event)
        requires
            self.nested(),
            self.accepts(event),
        ensures
            self.step(event).nested(),
    {
    }

    /// The text of what was built is the text of the tokens that came in, in their order.
    pub proof fn lemma_lossless(self, events: Seq<Event>)
        requires
            self.nested(),
            self.accepts_all(events),
        ensures
            self.run(events).nested(),
            Tree::total_text(self.run(events).children) == Tree::total_text(self.children)
                + Event::text(events),
        decreases events.len(),
    {
        if events.len() == 0 {
            assert(Tree::total_text(self.children) + Event::text(events) =~= Tree::total_text(
                self.children,
            ));
        } else {
            self.lemma_lossless(events.drop_last());
            let before = self.run(events.drop_last());
            before.lemma_lossless_step(events.last());
            before.lemma_stays_nested(events.last());
            assert(Tree::total_text(self.run(events).children) =~= Tree::total_text(self.children)
                + Event::text(events));
        }
    }

    /// A tree that is built from nothing has the text of the tokens that came in.
    pub proof fn lemma_finished_text(events: Seq<Event>, root: Tree)
        requires
            Forest::empty().accepts_all(events),
            Forest::empty().run(events).children == seq![root],
        ensures
            root.text() == Event::text(events),
    {
        Forest::empty().lemma_lossless(events);
        Tree::lemma_total_single(root);
        assert(Tree::total_text(Seq::<Tree>::empty()) + Event::text(events) =~= Event::text(
            events,
        ));
    }

    /// Running events is running the first of them and then the rest.
    proof fn lemma_run_concat(self, first: Seq<Event>, rest: Seq<Event>)
        ensures
            self.run(first + rest) == self.run(first).run(rest),
        decreases rest.len(),
    {
        if rest.len() == 0 {
            assert(first + rest =~= first);
        } else {
            self.lemma_run_concat(first, rest.drop_last());
            assert((first + rest).drop_last() =~= first + rest.drop_last());
            assert((first + rest).last() == rest.last());
        }
    }

    proof fn lemma_run_one(self, event: Event)
        ensures
            self.run(seq![event]) == self.step(event),
    {
        reveal_with_fuel(Forest::run, 2);
        assert(seq![event].drop_last() =~= Seq::<Event>::empty());
    }

    /// The events of a tree add just that tree, whatever was built before.
    pub proof fn lemma_replay(self, tree: Tree)
        ensures
            self.run(tree.events()) == self.with(seq![tree]),
        decreases tree, 0nat,
    {
        match tree {
            Tree::Token { kind, text } => {
                self.lemma_run_one(Event::Token { kind, text });
                assert(self.token(kind, text) =~= self.with(seq![tree]));
            },
            Tree::Node { kind, children } => {
                let start = seq![Event::StartNode { kind }];
                let inner = Tree::events_before(children, children.len());
                let finish = seq![Event::FinishNode];
                let started = self.start_node(kind);
                self.lemma_run_one(Event::StartNode { kind });
                started.lemma_replay_all(children, children.len());
                assert(children.take(children.len() as int) =~= children);
                started.with(children).lemma_run_one(Event::FinishNode);
                self.lemma_run_concat(start, inner);
                self.lemma_run_concat(start + inner, finish);
                let before = started.with(children);
                assert(before.current() =~= children);
                assert(before.children.take(self.children.len() as int) =~= self.children);
                assert(before.parents.drop_last() =~= self.parents);
                assert(before.finish_node() =~= self.with(seq![tree]));
            },
        }
    }

    /// The events of some trees add just these trees, whatever was built before.
    pub proof fn lemma_replay_all(self, trees: Seq<Tree>, n: nat)
        requires
            n <= trees.len(),
        ensures
            self.run(Tree::events_before(trees, n)) == self.with(trees.take(n as int)),
        decreases trees, n,
    {
        if n == 0 {
            assert(self.with(trees.take(0)) =~= self);
        } else {
            let m = (n - 1) as nat;
            self.lemma_replay_all(trees, m);
            self.lemma_run_concat(Tree::events_before(trees, m), trees[n - 1].events());
            self.with(trees.take(m as int)).lemma_replay(trees[n - 1]);
            assert(self.with(trees.take(m as int)).with(seq![trees[n - 1]]) =~= self.with(
                trees.take(n as int),
            ));
        }
    }

    /// Building a tree from its own events gives back the tree.
    pub proof fn lemma_round_trip(tree: Tree)
        ensures
            Forest::empty().run(tree.events()) == (Forest {
                parents: Seq::empty(),
                children: seq![tree],
            }),
    {
        Forest::empty().lemma_replay(tree);
        assert(Forest::empty().with(seq![tree]) =~= (Forest {
            parents: Seq::empty(),
            children: seq![tree],
        }));
    }

    /// Wrapping the trees behind a checkpoint is the same as having started the node at the
    /// checkpoint.
    pub proof fn lemma_wrapping(self, kind: SyntaxKind, trees: Seq<Tree>)
        ensures
            self.run(Tree::events_before(trees, trees.len())).start_node_at(
                self.children.len() as int,
                kind,
            ) == self.start_node(kind).run(Tree::events_before(trees, trees.len())),
    {
        self.lemma_replay_all(trees, trees.len());
        self.start_node(kind).lemma_replay_all(trees, trees.len());
    }

    /// A node can be started at every place from the first element of the node that was started
    /// last to behind the last element; if none was started, from the first element on.
    pub proof fn lemma_admitted(self, checkpoint: int)
        ensures
            self.admits(checkpoint) <==> 0 <= checkpoint <= self.children.len() && (
            self.parents.len() == 0 || self.parents[self.parents.len() - 1].1 <= checkpoint),
    {
    }

    /// A node that is started at a checkpoint and finished at once holds all elements behind the
    /// checkpoint, whatever its kind is; the elements before it and the nodes that were started
    /// earlier stay. A node that is started where the builder stands and finished at once is empty.
    pub proof fn lemma_wrapped(self, checkpoint: int, kind: SyntaxKind)
        requires
            0 <= checkpoint <= self.children.len(),
        ensures
            ({
                let after = self.start_node_at(checkpoint, kind).finish_node();
                &&& after.parents == self.parents
                &&& after.children.len() == checkpoint + 1
                &&& after.children.take(checkpoint) == self.children.take(checkpoint)
                &&& after.children[checkpoint] == (Tree::Node {
                    kind,
                    children: self.children.skip(checkpoint),
                })
            }),
            ({
                let after = self.start_node(kind).finish_node();
                &&& after.parents == self.parents
                &&& after.children == self.children.push(
                    Tree::Node { kind, children: Seq::empty() },
                )
            }),
    {
        let wrapped = self.start_node_at(checkpoint, kind);
        assert(wrapped.parents.drop_last() =~= self.parents);
        assert(wrapped.finish_node().children.take(checkpoint) =~= self.children.take(checkpoint));
        let started = self.start_node(kind);
        assert(started.parents.drop_last() =~= self.parents);
        assert(started.current() =~= Seq::empty());
        assert(self.children.take(self.children.len() as int) =~= self.children);
    }

    /// A token becomes the last element, whatever its kind and its text are, and starts or finishes
    /// no node.
    pub proof fn lemma_token_added(self, kind: SyntaxKind, text: Seq<char>)
        ensures
            self.token(kind, text).parents == self.parents,
            self.token(kind, text).children == self.children.push(Tree::Token { kind, text }),
    {
    }

    /// A checkpoint stays valid while whole trees are added behind it.
    pub proof fn lemma_checkpoint_stays_valid(self, trees: Seq<Tree>)
        requires
            self.nested(),
        ensures
            self.run(Tree::events_before(trees, trees.len())).admits(self.children.len() as int),
    {
        self.lemma_replay_all(trees, trees.len());
        assert(trees.take(trees.len() as int) =~= trees);
    }
}

impl Tree {
    /// What a parser tells a builder of a tree.
    pub open spec fn events(self) -> Seq<Event>
        decreases self, 0nat,
    {
        match self {
            Tree::Node { kind, children } => seq![Event::StartNode { kind }]
                + Tree::events_before(children, children.len()) + seq![Event::FinishNode],
            Tree::Token { kind, text } => seq![Event::Token { kind, text }],
        }
    }

    /// What a parser tells a builder of the first `n` trees of `trees`.
    pub open spec fn events_before(trees: Seq<Tree>, n: nat) -> Seq<Event>
        decreases trees, n,
    {
        if n == 0 || n > trees.len() {
            Seq::empty()
        } else {
            Tree::events_before(trees, (n - 1) as nat) + trees[n - 1].events()
        }
    }
}

impl Checkpoint {
    /// How many elements lie before the checkpoint.
    pub closed spec fn view(&self) -> int {
        self.0 as int
    }
}

impl<'cache> Default for GreenNodeBuilder<'cache> {
    fn default() -> (builder: GreenNodeBuilder<'cache>)
        ensures
            builder@ == Forest::empty(),
            builder@.nested(),
            builder.backend().elements() == Seq::<GreenElement>::empty(),
            builder.interned() == Some(Interned::empty()),
            builder.backend() is Own,
    {
        let builder = GreenNodeBuilder {
            cache: CacheBackend::Own(NodeCache::default(), Vec::new()),
            parents: Vec::new(),
        };
        proof {
            assert(builder@ =~= Forest::empty());
            assert(builder.backend().elements() =~= Seq::<GreenElement>::empty());
            assert(builder.interned() matches Some(interned) ==> interned.digests =~= Seq::empty());
        }
        builder
    }
}

impl<'cache> GreenNodeBuilder<'cache> {
    /// What has been built so far.
    pub closed spec fn view(&self) -> Forest {
        Forest {
            parents: self.parents@.map_values(
                |parent: (SyntaxKind, usize)| (parent.0, parent.1 as int),
            ),
            children: self.cache@,
        }
    }

    /// The elements that are not yet part of a node, and the interner that they come from.
    pub closed spec fn backend(self) -> CacheBackend<'cache> {
        self.cache
    }

    /// What has been built so far, but is not yet part of a node, are the elements as trees.
    pub proof fn lemma_children(self)
        ensures
            self@.children == self.backend()@,
    {
    }

    /// What the interner of the builder holds, if no other builder shares it.
    pub open spec fn interned(self) -> Option<Interned> {
        self.backend().interned()
    }

    /// Creates new builder.
    pub fn new() -> (builder: GreenNodeBuilder<'static>)
        ensures
            builder@ == Forest::empty(),
            builder@.nested(),
            builder.backend().elements() == Seq::<GreenElement>::empty(),
            builder.interned() == Some(Interned::empty()),
            builder.backend() is Own,
    {
        GreenNodeBuilder::default()
    }

    /// Reusing `NodeCache` between different `GreenNodeBuilder`s saves memory.
    /// It allows to structurally share underlying trees.
    pub fn with_cache(cache: &'cache mut NodeCache) -> (builder: GreenNodeBuilder<'cache>)
        ensures
            builder@ == Forest::empty(),
            builder@.nested(),
            builder.backend().elements() == Seq::<GreenElement>::empty(),
            builder.interned() == Some(Interned::of(*old(cache))),
            builder.backend().lent() matches Some(held) && *held == *old(cache) && *final(held)
                == *final(cache),
    {
        let builder = GreenNodeBuilder {
            cache: CacheBackend::Borrowed(cache, Vec::new()),
            parents: Vec::new(),
        };
        proof {
            assert(builder@ =~= Forest::empty());
            assert(builder.backend().elements() =~= Seq::<GreenElement>::empty());
            assert(builder.interned() matches Some(interned) ==> interned.digests =~= Seq::empty());
        }
        builder
    }

    /// Creates a builder that opts into sharing immutable green descendants with other builders
    /// using the same cache.
    ///
    /// Each finished tree keeps a distinct root allocation. Builders created with [`Self::new`] or
    /// [`Self::with_cache`] continue to use only the ordinary local cache.
    pub fn with_shared_cache(cache: &'cache SharedNodeCache) -> (builder: GreenNodeBuilder<'cache>)
        ensures
            builder@ == Forest::empty(),
            builder@.nested(),
            builder.backend().elements() == Seq::<GreenElement>::empty(),
            builder.backend() matches CacheBackend::Shared(backend) && {
                &&& backend.shared_cache() == cache
                &&& backend.local_nodes() == Set::<Tree>::empty()
                &&& backend.local_tokens() == Set::<Tree>::empty()
            },
    {
        let builder = GreenNodeBuilder {
            cache: CacheBackend::Shared(SharedCacheBackend::new(cache)),
            parents: Vec::new(),
        };
        proof {
            assert(builder@ =~= Forest::empty());
            assert(builder.backend().elements() =~= Seq::<GreenElement>::empty());
            assert(builder.interned() matches Some(interned) ==> interned.digests =~= Seq::empty());
        }
        builder
    }

    /// Adds new token to the current branch.
    pub fn token(&mut self, kind: SyntaxKind, text: &str)
        requires
            encode_utf8(text@).len() <= u32::MAX,
        ensures
            final(self)@ == old(self)@.token(kind, text@),
            old(self)@.nested() ==> final(self)@.nested(),
            final(self).interned() == (match old(self).interned() {
                Some(interned) => Some(interned.token(Tree::Token { kind, text: text@ })),
                None => None,
            }),
            CacheBackend::token_step(old(self).backend(), final(self).backend(), kind, text@),
            match (old(self).backend().lent(), final(self).backend().lent()) {
                (Some(before), Some(after)) => *final(after) == *final(before),
                (None, None) => true,
                _ => false,
            },
    {
        self.cache.token(kind, text);
        proof {
            let event = Event::Token { kind, text: text@ };
            if old(self)@.nested() {
                old(self)@.lemma_stays_nested(event);
            }
            assert(self@ == old(self)@.step(event));
        }
    }

    /// Start new node and make it current.
    pub fn start_node(&mut self, kind: SyntaxKind)
        ensures
            final(self)@ == old(self)@.start_node(kind),
            old(self)@.nested() ==> final(self)@.nested(),
            final(self).backend() == old(self).backend(),
    {
        let len: usize = self.cache.len();
        self.parents.push((kind, len));
        proof {
            assert(self@ =~= old(self)@.start_node(kind));
        }
    }

    /// Finish current branch and restore previous
    /// branch as current.
    pub fn finish_node(&mut self)
        requires
            old(self)@.nested(),
            old(self)@.parents.len() > 0,
            old(self)@.current().len() <= u32::MAX,
            Tree::total_len(old(self)@.current()) <= u32::MAX,
        ensures
            final(self)@ == old(self)@.finish_node(),
            final(self)@.nested(),
            final(self).interned() == (match old(self).interned() {
                Some(interned) => Some(
                    interned.node(
                        old(self)@.finish_node().children.last(),
                        old(self)@.parents.last().1,
                    ),
                ),
                None => None,
            }),
            CacheBackend::node_step(
                old(self).backend(),
                final(self).backend(),
                old(self)@.parents.last().0,
                old(self)@.parents.last().1,
            ),
            match (old(self).backend().lent(), final(self).backend().lent()) {
                (Some(before), Some(after)) => *final(after) == *final(before),
                (None, None) => true,
                _ => false,
            },
    {
        let ghost before = self@;
        proof {
            assert(before.parents.last().1 <= before.children.len());
        }
        let (kind, first_child) = self.parents.pop().unwrap();
        self.cache.node(kind, first_child);
        proof {
            assert(self@ =~= before.finish_node());
            before.lemma_stays_nested(Event::FinishNode);
        }
    }

    /// Prepare for maybe wrapping the next node.
    /// The way wrapping works is that you first of all get a checkpoint,
    /// then you place all tokens you want to wrap, and then *maybe* call
    /// `start_node_at`.
    pub fn checkpoint(&self) -> (checkpoint: Checkpoint)
        ensures
            checkpoint@ == self@.children.len(),
    {
        Checkpoint(self.cache.len())
    }

    /// Wrap the previous branch marked by `checkpoint` in a new branch and
    /// make it current.
    pub fn start_node_at(&mut self, checkpoint: Checkpoint, kind: SyntaxKind)
        requires
            old(self)@.admits(checkpoint@),
        ensures
            final(self)@ == old(self)@.start_node_at(checkpoint@, kind),
            old(self)@.nested() ==> final(self)@.nested(),
            final(self).backend() == old(self).backend(),
    {
        let Checkpoint(checkpoint) = checkpoint;
        self.parents.push((kind, checkpoint));
        proof {
            assert(self@ =~= old(self)@.start_node_at(checkpoint as int, kind));
        }
    }

    /// Complete tree building. Make sure that
    /// `start_node_at` and `finish_node` calls
    /// are paired!
    pub fn finish(self) -> (root: GreenNode)
        requires
            self@.children.len() == 1,
            self@.children[0] is Node,
        ensures
            root@ == self@.children[0],
            self.backend().finishes_with(root),
            self.backend().lent() matches Some(held) ==> *final(held) == *held,
    {
        self.cache.finish()
    }
}

} // verus!
