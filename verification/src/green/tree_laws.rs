//! Laws of green trees: what holds of equality, texts, offsets, hashes and searches, whatever the
//! trees are.

use crate::green::children::GreenChildRef;
use crate::green::element::{GreenElement, GreenElementRef};
use crate::green::hash::{fx_node_digest, fx_token_digest, HashItem};
use crate::green::node::{GreenNode, GreenNodeData};
use crate::green::token::{GreenToken, GreenTokenData};
use crate::green::tree::Tree;
use crate::green::SyntaxKind;
use crate::text::{TextRange, TextSize};
use vstd::prelude::*;
use vstd::std_specs::cmp::PartialEqSpec;
use vstd::std_specs::convert::FromSpec;
use vstd::utf8::*;

verus! {

/// Two nodes are equal if and only if they have the same kind and, one by one, the same children,
/// wherever they are stored. Equal nodes feed the same items to a hasher, have the same digest and
/// cover the same text.
pub proof fn lemma_node_equality(left: GreenNode, right: GreenNode)
    ensures
        <GreenNode as PartialEqSpec>::obeys_eq_spec(),
        left.eq_spec(&right) <==> left@ == right@,
        left.eq_spec(&right) ==> left@.kind() == right@.kind(),
        left.eq_spec(&right) ==> left@.children() == right@.children(),
        left.eq_spec(&right) ==> left@.hash_items() == right@.hash_items(),
        left.eq_spec(&right) ==> left@.digest() == right@.digest(),
        left.eq_spec(&right) ==> left@.text() == right@.text(),
        left@.kind() == right@.kind() && left@.children().len() == right@.children().len() && (
        forall|i: int|
            0 <= i < left@.children().len() ==> #[trigger] left@.children()[i]
                == right@.children()[i]) ==> left.eq_spec(&right),
{
    left.lemma_is_node();
    right.lemma_is_node();
    if left@.kind() == right@.kind() && left@.children() =~= right@.children() {
        assert(left@ == right@);
    }
}

/// What is said of nodes by [`lemma_node_equality`] holds of what they refer to.
pub proof fn lemma_node_data_equality(left: GreenNodeData, right: GreenNodeData)
    ensures
        <GreenNodeData as PartialEqSpec>::obeys_eq_spec(),
        left.eq_spec(&right) <==> left@ == right@,
        left.eq_spec(&right) ==> left@.kind() == right@.kind(),
        left.eq_spec(&right) ==> left@.children() == right@.children(),
        left.eq_spec(&right) ==> left@.hash_items() == right@.hash_items(),
        left.eq_spec(&right) ==> left@.digest() == right@.digest(),
{
}

/// Two tokens are equal if and only if they have the same kind and the same text, wherever they are
/// stored. Equal tokens feed the same items to a hasher and have the same digest.
pub proof fn lemma_token_equality(left: GreenToken, right: GreenToken)
    ensures
        <GreenToken as PartialEqSpec>::obeys_eq_spec(),
        left.eq_spec(&right) <==> left@ == right@,
        left.eq_spec(&right) <==> left@.kind() == right@.kind() && left@.text() == right@.text(),
        left.eq_spec(&right) ==> left@.hash_items() == right@.hash_items(),
        left.eq_spec(&right) ==> left@.digest() == right@.digest(),
{
    left.lemma_is_token();
    right.lemma_is_token();
}

/// What is said of tokens by [`lemma_token_equality`] holds of what they refer to.
pub proof fn lemma_token_data_equality(left: GreenTokenData, right: GreenTokenData)
    ensures
        <GreenTokenData as PartialEqSpec>::obeys_eq_spec(),
        left.eq_spec(&right) <==> left@ == right@,
        left.eq_spec(&right) ==> left@.kind() == right@.kind() && left@.text() == right@.text(),
        left.eq_spec(&right) ==> left@.hash_items() == right@.hash_items(),
        left.eq_spec(&right) ==> left@.digest() == right@.digest(),
{
}

/// Two children are equal if and only if they start at the same offset and are equal trees.
pub proof fn lemma_child_equality<'a>(left: GreenChildRef<'a>, right: GreenChildRef<'a>)
    ensures
        <GreenChildRef<'a> as PartialEqSpec>::obeys_eq_spec(),
        left.eq_spec(&right) <==> left@ == right@,
        left.eq_spec(&right) ==> left@.0 == right@.0 && left@.1 == right@.1,
{
}

/// The text of a node is that of its children, one behind the other, whatever its kind is: it can
/// be taken apart between any two children, and a single child or a token has its own text. The
/// same holds of the length in bytes.
pub proof fn lemma_text_of_parts(
    kind: SyntaxKind,
    left: Seq<Tree>,
    right: Seq<Tree>,
    tree: Tree,
    text: Seq<char>,
)
    ensures
        (Tree::Node { kind, children: left + right }).text() == (Tree::Node {
            kind,
            children: left,
        }).text() + (Tree::Node { kind, children: right }).text(),
        (Tree::Node { kind, children: seq![tree] }).text() == tree.text(),
        (Tree::Node { kind, children: Seq::empty() }).text() == Seq::<char>::empty(),
        (Tree::Token { kind, text }).text() == text,
        (Tree::Node { kind, children: left + right }).text_len() == (Tree::Node {
            kind,
            children: left,
        }).text_len() + (Tree::Node { kind, children: right }).text_len(),
        (Tree::Node { kind, children: seq![tree] }).text_len() == tree.text_len(),
        (Tree::Node { kind, children: Seq::empty() }).text_len() == 0,
        (Tree::Token { kind, text }).text_len() == encode_utf8(text).len(),
{
    Tree::lemma_total_concat(left, right);
    Tree::lemma_total_single(tree);
}

/// Where a tree starts is the length, in bytes, of what stands to the left of it, and behind it
/// comes the next one.
pub proof fn lemma_offsets(kind: SyntaxKind, trees: Seq<Tree>, n: int)
    requires
        0 <= n <= trees.len(),
    ensures
        Tree::offset_of(trees, n as nat) == encode_utf8(
            (Tree::Node { kind, children: trees.take(n) }).text(),
        ).len(),
        n < trees.len() ==> Tree::offset_of(trees, (n + 1) as nat) == Tree::offset_of(
            trees,
            n as nat,
        ) + encode_utf8(trees[n].text()).len(),
{
    Tree::lemma_prefix(trees, trees.take(n), n as nat);
    Tree::lemma_offsets_measure_text(trees, n as nat);
    if n < trees.len() {
        trees[n].lemma_len_measures_text();
    }
}

/// The children of a node come in order and without gaps: each starts where the text of those to
/// the left of it ends.
pub proof fn lemma_placed(kind: SyntaxKind, trees: Seq<Tree>, front: int, back: int, i: int)
    requires
        0 <= front <= back <= trees.len(),
        0 <= i < back - front,
    ensures
        Tree::placed(trees, front, back).len() == back - front,
        Tree::placed(trees, front, back)[i].0 == encode_utf8(
            (Tree::Node { kind, children: trees.take(front + i) }).text(),
        ).len(),
        Tree::placed(trees, front, back)[i].1 == trees[front + i],
{
    lemma_offsets(kind, trees, front + i);
}

/// A size is as many bytes as the number that it was made from, and gives that number back; and a
/// node or a token stays what it is when it becomes an element.
pub proof fn lemma_conversions(raw: u32, node: GreenNode, token: GreenToken)
    ensures
        <TextSize as FromSpec<u32>>::obeys_from_spec(),
        <u32 as FromSpec<TextSize>>::obeys_from_spec(),
        <TextSize as FromSpec<u32>>::from_spec(raw).bytes() == raw,
        <u32 as FromSpec<TextSize>>::from_spec(<TextSize as FromSpec<u32>>::from_spec(raw)) == raw,
        <GreenElement as FromSpec<GreenNode>>::obeys_from_spec(),
        <GreenElement as FromSpec<GreenToken>>::obeys_from_spec(),
        <GreenElement as FromSpec<GreenNode>>::from_spec(node) == GreenElement::Node(node),
        <GreenElement as FromSpec<GreenToken>>::from_spec(token) == GreenElement::Token(token),
{
}

/// What a splice does to the trees: those in front of it stay, those that come in follow in their
/// order, and those behind it move up or down.
pub proof fn lemma_spliced(trees: Seq<Tree>, start: int, end: int, with: Seq<Tree>, i: int)
    requires
        0 <= start <= end <= trees.len(),
        0 <= i < start + with.len() + trees.len() - end,
    ensures
        Tree::spliced(trees, start, end, with).len() == start + with.len() + trees.len() - end,
        i < start ==> Tree::spliced(trees, start, end, with)[i] == trees[i],
        start <= i < start + with.len() ==> Tree::spliced(trees, start, end, with)[i] == with[i
            - start],
        start + with.len() <= i ==> Tree::spliced(trees, start, end, with)[i] == trees[i
            - with.len() - start + end],
{
}

/// A replacement changes the tree with that index and no other; without one there, it changes none.
pub proof fn lemma_replaced(trees: Seq<Tree>, index: int, with: Tree, i: int)
    requires
        0 <= i < trees.len(),
    ensures
        Tree::replaced(trees, index, with).len() == trees.len(),
        Tree::replaced(trees, index, with)[i] == (if i == index {
            with
        } else {
            trees[i]
        }),
{
}

/// Whether the tree with index `i` contains all offsets from `lo` to `hi`, ends included, is a
/// matter of where it starts and how long it is.
pub proof fn lemma_spans(trees: Seq<Tree>, i: nat, lo: nat, hi: nat)
    ensures
        Tree::spans(trees, i, lo, hi) <==> i < trees.len() && Tree::offset_of(trees, i) <= lo && hi
            <= Tree::offset_of(trees, i) + trees[i as int].text_len(),
{
    if i < trees.len() {
        Tree::lemma_child_fits(trees, i);
    }
}

/// The tree that a range belongs to contains the whole range, from where the tree starts to where
/// it ends, and its text has all the bytes of the range.
pub proof fn lemma_owner_contains(trees: Seq<Tree>, i: nat, lo: nat, hi: nat)
    requires
        Tree::owns(trees, i, lo, hi),
    ensures
        i < trees.len(),
        Tree::offset_of(trees, i) <= lo,
        hi <= Tree::offset_of(trees, i) + trees[i as int].text_len(),
        hi - lo <= encode_utf8(trees[i as int].text()).len(),
{
    lemma_spans(trees, i, lo, hi);
    trees[i as int].lemma_len_measures_text();
}

/// A range belongs to one of the trees if and only if one of them contains it, from where the tree
/// starts to where it ends.
pub proof fn lemma_owner_exists(trees: Seq<Tree>, lo: nat, hi: nat)
    requires
        lo <= hi,
    ensures
        (exists|i: nat| #[trigger] Tree::owns(trees, i, lo, hi)) <==> (exists|i: nat|
            i < trees.len() && #[trigger] Tree::offset_of(trees, i) <= lo && hi <= Tree::offset_of(
                trees,
                i,
            ) + trees[i as int].text_len()),
{
    if exists|i: nat| #[trigger] Tree::owns(trees, i, lo, hi) {
        let i = choose|i: nat| #[trigger] Tree::owns(trees, i, lo, hi);
        lemma_owner_contains(trees, i, lo, hi);
        assert(Tree::offset_of(trees, i) <= lo);
    }
    if exists|i: nat|
        i < trees.len() && #[trigger] Tree::offset_of(trees, i) <= lo && hi <= Tree::offset_of(
            trees,
            i,
        ) + trees[i as int].text_len() {
        let i = choose|i: nat|
            i < trees.len() && #[trigger] Tree::offset_of(trees, i) <= lo && hi <= Tree::offset_of(
                trees,
                i,
            ) + trees[i as int].text_len();
        lemma_spans(trees, i, lo, hi);
        Tree::lemma_some_tree_owns(trees, i, lo, hi);
    }
}

/// Which tree a range belongs to, where several contain it: if a tree ends at the start of the
/// range, and contains it, the range belongs to the last such one; otherwise only one contains it.
pub proof fn lemma_owner_is_leftmost(trees: Seq<Tree>, i: nat, j: nat, lo: nat, hi: nat)
    requires
        lo <= hi,
        Tree::owns(trees, i, lo, hi),
        j < trees.len(),
        Tree::offset_of(trees, j) <= lo,
        hi <= Tree::offset_of(trees, j) + trees[j as int].text_len(),
    ensures
        j == i || lo == hi == Tree::offset_of(trees, i) + trees[i as int].text_len(),
        Tree::offset_of(trees, j) + trees[j as int].text_len() == lo ==> j <= i,
{
    lemma_spans(trees, i, lo, hi);
    lemma_spans(trees, j, lo, hi);
    Tree::lemma_child_fits(trees, i);
    Tree::lemma_child_fits(trees, j);
}

/// A range of offsets that is not empty belongs to the tree that contains it, and to no other.
pub proof fn lemma_owner_of_text(trees: Seq<Tree>, i: nat, lo: nat, hi: nat)
    requires
        lo < hi,
    ensures
        Tree::owns(trees, i, lo, hi) <==> i < trees.len() && Tree::offset_of(trees, i) <= lo && hi
            <= Tree::offset_of(trees, i) + trees[i as int].text_len(),
{
    lemma_spans(trees, i, lo, hi);
    if Tree::spans(trees, i, lo, hi) {
        Tree::lemma_owns_own_range(trees, i, lo, hi);
    }
}

/// What a search for a range finds is a child that contains the whole range, and a search finds
/// nothing if and only if no child does. Where a single offset lies between two children, the one
/// on the left is found; of empty children at that offset, the last.
pub proof fn lemma_child_at_range<'a>(
    node: &'a GreenNodeData,
    range: TextRange,
    found: Option<(usize, TextSize, GreenElementRef<'a>)>,
)
    requires
        call_ensures(GreenNodeData::child_at_range, (node, range), found),
        range.lo() <= range.hi(),
    ensures
        found matches Some((index, offset, child)) ==> {
            &&& index < node@.children().len()
            &&& child@ == node@.children()[index as int]
            &&& offset.bytes() == encode_utf8(
                (Tree::Node {
                    kind: node@.kind(),
                    children: node@.children().take(index as int),
                }).text(),
            ).len()
            &&& offset.bytes() <= range.lo()
            &&& range.hi() <= offset.bytes() + child@.text_len()
            &&& forall|j: int|
                0 <= j < node@.children().len() && j != index && #[trigger] Tree::offset_of(
                    node@.children(),
                    j as nat,
                ) <= range.lo() && range.hi() <= Tree::offset_of(node@.children(), j as nat)
                    + node@.children()[j].text_len() ==> {
                    &&& range.lo() == range.hi() == offset.bytes() + child@.text_len()
                    &&& Tree::offset_of(node@.children(), j as nat)
                        + node@.children()[j].text_len() == range.lo() ==> j < index
                }
        },
        found is None <==> forall|j: int|
            0 <= j < node@.children().len() && #[trigger] Tree::offset_of(
                node@.children(),
                j as nat,
            ) <= range.lo() ==> range.hi() > Tree::offset_of(node@.children(), j as nat)
                + node@.children()[j].text_len(),
{
    let trees = node@.children();
    match found {
        Some((index, offset, child)) => {
            lemma_offsets(node@.kind(), trees, index as int);
            assert forall|j: int|
                0 <= j < trees.len() && j != index && #[trigger] Tree::offset_of(trees, j as nat)
                    <= range.lo() && range.hi() <= Tree::offset_of(trees, j as nat)
                    + trees[j].text_len() implies {
                &&& range.lo() == range.hi() == offset.bytes() + child@.text_len()
                &&& Tree::offset_of(trees, j as nat) + trees[j].text_len() == range.lo() ==> j
                    < index
            } by {
                lemma_owner_is_leftmost(trees, index as nat, j as nat, range.lo(), range.hi());
            }
            assert(Tree::offset_of(trees, index as int as nat) <= range.lo());
        },
        None => {
            assert forall|j: int|
                0 <= j < trees.len() && #[trigger] Tree::offset_of(trees, j as nat)
                    <= range.lo() implies range.hi() > Tree::offset_of(trees, j as nat)
                + trees[j].text_len() by {
                assert(trees[j as nat as int] == trees[j]);
            }
        },
    }
}

/// The digest of a token follows from its kind and its text, and that of a node from its kind and
/// the digests of its children, one for each of them.
pub proof fn lemma_digest_of_parts(kind: SyntaxKind, text: Seq<char>, children: Seq<Tree>)
    ensures
        (Tree::Token { kind, text }).digest() == fx_token_digest(usize::BITS, kind.0, text),
        (Tree::Node { kind, children }).digest() == fx_node_digest(
            usize::BITS,
            kind.0,
            children.map_values(|child: Tree| child.digest()),
        ),
{
    Tree::lemma_digests(children, children.len());
    assert(Tree::digests(children) =~= children.map_values(|child: Tree| child.digest()));
}

impl HashItem {
    /// The kinds among the items.
    pub open spec fn kinds(items: Seq<HashItem>) -> Seq<SyntaxKind>
        decreases items.len(),
    {
        if items.len() == 0 {
            Seq::empty()
        } else {
            let rest = HashItem::kinds(items.drop_last());
            match items.last() {
                HashItem::Kind(kind) => rest.push(kind),
                _ => rest,
            }
        }
    }

    /// The texts among the items.
    pub open spec fn texts(items: Seq<HashItem>) -> Seq<Seq<char>>
        decreases items.len(),
    {
        if items.len() == 0 {
            Seq::empty()
        } else {
            let rest = HashItem::texts(items.drop_last());
            match items.last() {
                HashItem::Text(text) => rest.push(text),
                _ => rest,
            }
        }
    }

    /// What one more item adds.
    proof fn lemma_push(items: Seq<HashItem>, item: HashItem)
        ensures
            HashItem::kinds(items.push(item)) == (match item {
                HashItem::Kind(kind) => HashItem::kinds(items).push(kind),
                _ => HashItem::kinds(items),
            }),
            HashItem::texts(items.push(item)) == (match item {
                HashItem::Text(text) => HashItem::texts(items).push(text),
                _ => HashItem::texts(items),
            }),
    {
        assert(items.push(item).drop_last() =~= items);
    }

    /// The kinds and the texts among two, three and four items.
    proof fn lemma_few(a: HashItem, b: HashItem, c: HashItem, d: HashItem)
        ensures
            HashItem::kinds(seq![a, b]) == HashItem::kinds(seq![a]) + HashItem::kinds(seq![b]),
            HashItem::texts(seq![a, b]) == HashItem::texts(seq![a]) + HashItem::texts(seq![b]),
            HashItem::kinds(seq![a, b, c]) == HashItem::kinds(seq![a, b]) + HashItem::kinds(seq![c]),
            HashItem::texts(seq![a, b, c]) == HashItem::texts(seq![a, b]) + HashItem::texts(seq![c]),
            HashItem::kinds(seq![a, b, c, d]) == HashItem::kinds(seq![a, b, c]) + HashItem::kinds(
                seq![d],
            ),
            HashItem::texts(seq![a, b, c, d]) == HashItem::texts(seq![a, b, c]) + HashItem::texts(
                seq![d],
            ),
    {
        HashItem::lemma_concat(seq![a], seq![b]);
        HashItem::lemma_concat(seq![a, b], seq![c]);
        HashItem::lemma_concat(seq![a, b, c], seq![d]);
        assert(seq![a] + seq![b] =~= seq![a, b]);
        assert(seq![a, b] + seq![c] =~= seq![a, b, c]);
        assert(seq![a, b, c] + seq![d] =~= seq![a, b, c, d]);
    }

    /// The kind or the text of one item.
    proof fn lemma_one(item: HashItem)
        ensures
            HashItem::kinds(seq![item]) == (match item {
                HashItem::Kind(kind) => seq![kind],
                _ => Seq::empty(),
            }),
            HashItem::texts(seq![item]) == (match item {
                HashItem::Text(text) => seq![text],
                _ => Seq::empty(),
            }),
    {
        HashItem::lemma_push(Seq::empty(), item);
    }

    proof fn lemma_concat(left: Seq<HashItem>, right: Seq<HashItem>)
        ensures
            HashItem::kinds(left + right) == HashItem::kinds(left) + HashItem::kinds(right),
            HashItem::texts(left + right) == HashItem::texts(left) + HashItem::texts(right),
        decreases right.len(),
    {
        if right.len() == 0 {
            assert(left + right =~= left);
        } else {
            HashItem::lemma_concat(left, right.drop_last());
            assert((left + right).drop_last() =~= left + right.drop_last());
        }
    }
}

impl Tree {
    /// The kinds of a tree and of all that is in it, each before what is in it.
    pub open spec fn kinds(self) -> Seq<SyntaxKind>
        decreases self, 0nat,
    {
        match self {
            Tree::Node { kind, children } => seq![kind] + Tree::kinds_before(
                children,
                children.len(),
            ),
            Tree::Token { kind, .. } => seq![kind],
        }
    }

    /// The kinds of the first `n` trees of `trees` and of all that is in them.
    pub open spec fn kinds_before(trees: Seq<Tree>, n: nat) -> Seq<SyntaxKind>
        decreases trees, n,
    {
        if n == 0 || n > trees.len() {
            Seq::empty()
        } else {
            Tree::kinds_before(trees, (n - 1) as nat) + trees[n - 1].kinds()
        }
    }

    /// The texts of the tokens of a tree, from left to right.
    pub open spec fn leaves(self) -> Seq<Seq<char>>
        decreases self, 0nat,
    {
        match self {
            Tree::Node { children, .. } => Tree::leaves_before(children, children.len()),
            Tree::Token { text, .. } => seq![text],
        }
    }

    /// The texts of the tokens of the first `n` trees of `trees`, from left to right.
    pub open spec fn leaves_before(trees: Seq<Tree>, n: nat) -> Seq<Seq<char>>
        decreases trees, n,
    {
        if n == 0 || n > trees.len() {
            Seq::empty()
        } else {
            Tree::leaves_before(trees, (n - 1) as nat) + trees[n - 1].leaves()
        }
    }

    /// What the first `n` children feed to a hasher.
    proof fn lemma_hash_items_before(trees: Seq<Tree>, n: nat)
        requires
            n <= trees.len(),
        ensures
            HashItem::kinds(Tree::hash_items_before(trees, n)) == Tree::kinds_before(trees, n),
            HashItem::texts(Tree::hash_items_before(trees, n)) == Tree::leaves_before(trees, n),
            Tree::hash_items_before(trees, n).len() == 4 * Tree::kinds_before(trees, n).len(),
        decreases trees, n,
    {
        if n > 0 {
            let offset = Tree::offset_of(trees, (n - 1) as nat);
            let last = trees[n - 1];
            Tree::lemma_hash_items_before(trees, (n - 1) as nat);
            last.lemma_child_hash_items(offset);
            HashItem::lemma_concat(
                Tree::hash_items_before(trees, (n - 1) as nat),
                last.child_hash_items(offset),
            );
        }
    }

    /// What a child feeds to a hasher.
    proof fn lemma_child_hash_items(self, offset: nat)
        ensures
            HashItem::kinds(self.child_hash_items(offset)) == self.kinds(),
            HashItem::texts(self.child_hash_items(offset)) == self.leaves(),
            self.child_hash_items(offset).len() == 4 * self.kinds().len(),
        decreases self, 0nat,
    {
        let mark = HashItem::IsToken(self is Token);
        let size = HashItem::Size(offset);
        let last = match self {
            Tree::Node { .. } => HashItem::Size(self.text_len()),
            Tree::Token { text, .. } => HashItem::Text(text),
        };
        HashItem::lemma_few(size, mark, HashItem::Kind(self.kind()), last);
        HashItem::lemma_one(size);
        HashItem::lemma_one(mark);
        HashItem::lemma_one(HashItem::Kind(self.kind()));
        HashItem::lemma_one(last);
        let head = seq![size, mark, HashItem::Kind(self.kind()), last];
        assert(HashItem::kinds(head) =~= seq![self.kind()]);
        match self {
            Tree::Node { kind, children } => {
                Tree::lemma_hash_items_before(children, children.len());
                HashItem::lemma_concat(head, Tree::hash_items_before(children, children.len()));
                assert(HashItem::texts(head) =~= Seq::empty());
                assert(self.child_hash_items(offset) == head + Tree::hash_items_before(
                    children,
                    children.len(),
                ));
                assert(Seq::<Seq<char>>::empty() + self.leaves() =~= self.leaves());
            },
            Tree::Token { kind, text } => {
                assert(self.child_hash_items(offset) == head);
                assert(HashItem::texts(head) =~= seq![text]);
            },
        }
    }

    /// A tree feeds to a hasher the kinds of all that is in it and the texts of all its tokens,
    /// each once and in order, and nothing that depends on anything else. Four items stand for each
    /// thing below a node.
    pub proof fn lemma_hash_items_tell(self)
        ensures
            HashItem::kinds(self.hash_items()) == self.kinds(),
            HashItem::texts(self.hash_items()) == self.leaves(),
            self is Node ==> self.hash_items().len() == 4 * self.kinds().len() - 1,
            self is Token ==> self.hash_items() == seq![
                HashItem::Kind(self.kind()),
                HashItem::Text(self.text()),
            ],
    {
        match self {
            Tree::Node { kind, children } => {
                let count = HashItem::Count(children.len());
                let size = HashItem::Size(self.text_len());
                let head = seq![HashItem::Kind(kind), count, size];
                HashItem::lemma_few(HashItem::Kind(kind), count, size, size);
                HashItem::lemma_one(HashItem::Kind(kind));
                HashItem::lemma_one(count);
                HashItem::lemma_one(size);
                Tree::lemma_hash_items_before(children, children.len());
                HashItem::lemma_concat(head, Tree::hash_items_before(children, children.len()));
                assert(HashItem::kinds(head) =~= seq![kind]);
                assert(HashItem::texts(head) =~= Seq::empty());
                assert(Seq::<Seq<char>>::empty() + self.leaves() =~= self.leaves());
            },
            Tree::Token { kind, text } => {
                let item = HashItem::Text(text);
                HashItem::lemma_few(HashItem::Kind(kind), item, item, item);
                HashItem::lemma_one(HashItem::Kind(kind));
                HashItem::lemma_one(item);
                assert(HashItem::kinds(self.hash_items()) =~= seq![kind]);
                assert(HashItem::texts(self.hash_items()) =~= seq![text]);
            },
        }
    }

    /// Trees that feed the same items to a hasher have the same kind, the same texts in the same
    /// order and, if they are nodes, the same number of children and the same length.
    pub proof fn lemma_hash_items_differ(self, other: Tree)
        requires
            self.hash_items() == other.hash_items(),
        ensures
            self is Node <==> other is Node,
            self.kind() == other.kind(),
            self.kinds() == other.kinds(),
            self.leaves() == other.leaves(),
            self.children().len() == other.children().len(),
            self.text_len() == other.text_len(),
    {
        self.lemma_hash_items_tell();
        other.lemma_hash_items_tell();
        let items = self.hash_items();
        assert(items[0] == other.hash_items()[0]);
        assert(items[1] == other.hash_items()[1]);
        if self is Node && other is Node {
            assert(items[2] == other.hash_items()[2]);
        }
    }

    /// In front of all children a node feeds to a hasher its own kind, how many children it has and
    /// how long its text is.
    pub proof fn lemma_hash_items_of_node(self)
        requires
            self is Node,
        ensures
            self.hash_items().len() >= 3,
            self.hash_items()[0] == HashItem::Kind(self.kind()),
            self.hash_items()[1] == HashItem::Count(self.children().len()),
            self.hash_items()[2] == HashItem::Size(self.text_len()),
    {
    }

    /// A node feeds to a hasher, somewhere, where each of its children starts, whether it is a
    /// token, which kind it has, and its text or how long that is.
    pub proof fn lemma_hash_items_of_child(self, i: int)
        requires
            self is Node,
            0 <= i < self.children().len(),
        ensures
            exists|at: int| #[trigger]
                is_child_at(
                    self.hash_items(),
                    at,
                    Tree::offset_of(self.children(), i as nat),
                    self.children()[i],
                ),
    {
        let children = self.children();
        let child = children[i];
        let offset = Tree::offset_of(children, i as nat);
        let items = Tree::hash_items_before(children, children.len());
        let at = Tree::hash_items_before(children, i as nat).len() as int;
        let part = child.child_hash_items(offset);
        Tree::lemma_hash_items_at(children, i as nat, children.len());
        assert(items[at + 0] == part[0]);
        assert(items[at + 1] == part[1]);
        assert(items[at + 2] == part[2]);
        assert(items[at + 3] == part[3]);
        assert(self.hash_items().len() == items.len() + 3);
        assert forall|k: int| 0 <= k < items.len() implies #[trigger] items[k] == self.hash_items()[k
            + 3] by {}
        assert(is_child_at(self.hash_items(), at + 3, offset, child));
    }

    /// What one child feeds to a hasher stands behind what those to the left of it feed.
    proof fn lemma_hash_items_at(trees: Seq<Tree>, i: nat, n: nat)
        requires
            i < n <= trees.len(),
        ensures
            ({
                let at = Tree::hash_items_before(trees, i).len();
                let part = trees[i as int].child_hash_items(Tree::offset_of(trees, i));
                let items = Tree::hash_items_before(trees, n);
                &&& part.len() >= 4
                &&& at + part.len() <= items.len()
                &&& forall|k: int|
                    0 <= k < part.len() ==> #[trigger] items[at + k] == part[k]
            }),
        decreases n,
    {
        let at = Tree::hash_items_before(trees, i).len();
        let part = trees[i as int].child_hash_items(Tree::offset_of(trees, i));
        if i + 1 < n {
            Tree::lemma_hash_items_at(trees, i, (n - 1) as nat);
            let before = Tree::hash_items_before(trees, (n - 1) as nat);
            assert forall|k: int| 0 <= k < part.len() implies #[trigger] Tree::hash_items_before(
                trees,
                n,
            )[at + k] == part[k] by {
                assert(before[at + k] == part[k]);
            }
        }
    }
}

/// Whether the items at this place tell where a child starts, whether it is a token, which kind it
/// has, and its text or how long that is.
pub open spec fn is_child_at(items: Seq<HashItem>, at: int, offset: nat, child: Tree) -> bool {
    &&& 3 <= at
    &&& at + 4 <= items.len()
    &&& items[at] == HashItem::Size(offset)
    &&& items[at + 1] == HashItem::IsToken(child is Token)
    &&& items[at + 2] == HashItem::Kind(child.kind())
    &&& items[at + 3] == (if child is Token {
        HashItem::Text(child.text())
    } else {
        HashItem::Size(child.text_len())
    })
}

} // verus!
