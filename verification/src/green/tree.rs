//! The mathematical model of a green tree, in terms of which every contract is stated.

use crate::green::SyntaxKind;
use vstd::prelude::*;
use vstd::utf8::*;

verus! {

/// What a green node or token is, apart from how it is stored and with whom it is shared.
#[verifier::ext_equal]
pub enum Tree {
    Node { kind: SyntaxKind, children: Seq<Tree> },
    Token { kind: SyntaxKind, text: Seq<char> },
}

impl Tree {
    /// The kind of the root.
    pub open spec fn kind(self) -> SyntaxKind {
        match self {
            Tree::Node { kind, .. } => kind,
            Tree::Token { kind, .. } => kind,
        }
    }

    /// The children of the root, from left to right; a token has none.
    pub open spec fn children(self) -> Seq<Tree> {
        match self {
            Tree::Node { children, .. } => children,
            Tree::Token { .. } => Seq::empty(),
        }
    }

    /// The text that the tree covers: that of its tokens, from left to right.
    pub open spec fn text(self) -> Seq<char>
        decreases self, 0nat,
    {
        match self {
            Tree::Node { children, .. } => Tree::text_before(children, children.len()),
            Tree::Token { text, .. } => text,
        }
    }

    /// The length of the text that the tree covers, in bytes.
    pub open spec fn text_len(self) -> nat
        decreases self, 0nat,
    {
        match self {
            Tree::Node { children, .. } => Tree::offset_of(children, children.len()),
            Tree::Token { text, .. } => encode_utf8(text).len(),
        }
    }

    /// The text of the first `n` trees of `trees`.
    pub open spec fn text_before(trees: Seq<Tree>, n: nat) -> Seq<char>
        decreases trees, n,
    {
        if n == 0 || n > trees.len() {
            Seq::empty()
        } else {
            Tree::text_before(trees, (n - 1) as nat) + trees[n - 1].text()
        }
    }

    /// Where the tree with index `n` starts, relative to the first of `trees`, in bytes.
    pub open spec fn offset_of(trees: Seq<Tree>, n: nat) -> nat
        decreases trees, n,
    {
        if n == 0 || n > trees.len() {
            0
        } else {
            Tree::offset_of(trees, (n - 1) as nat) + trees[n - 1].text_len()
        }
    }

    /// The text of all `trees` together.
    pub open spec fn total_text(trees: Seq<Tree>) -> Seq<char> {
        Tree::text_before(trees, trees.len())
    }

    /// The length of the texts of all `trees` together, in bytes.
    pub open spec fn total_len(trees: Seq<Tree>) -> nat {
        Tree::offset_of(trees, trees.len())
    }

    /// A tree that stands further right does not start earlier.
    pub proof fn lemma_offsets_ascend(trees: Seq<Tree>, i: nat, j: nat)
        requires
            i <= j <= trees.len(),
        ensures
            Tree::offset_of(trees, i) <= Tree::offset_of(trees, j),
        decreases j - i,
    {
        if i < j {
            Tree::lemma_offsets_ascend(trees, i, (j - 1) as nat);
        }
    }

    /// Offsets and texts depend only on the trees to the left.
    pub proof fn lemma_prefix(left: Seq<Tree>, right: Seq<Tree>, n: nat)
        requires
            n <= left.len(),
            n <= right.len(),
            forall|i: int| 0 <= i < n ==> left[i] == right[i],
        ensures
            Tree::offset_of(left, n) == Tree::offset_of(right, n),
            Tree::text_before(left, n) == Tree::text_before(right, n),
        decreases n,
    {
        if n > 0 {
            Tree::lemma_prefix(left, right, (n - 1) as nat);
        }
    }

    /// Trees that are put behind others start where those end.
    pub proof fn lemma_concat(left: Seq<Tree>, right: Seq<Tree>, n: nat)
        requires
            n <= right.len(),
        ensures
            Tree::offset_of(left + right, left.len() + n) == Tree::total_len(left)
                + Tree::offset_of(right, n),
            Tree::text_before(left + right, left.len() + n) == Tree::total_text(left)
                + Tree::text_before(right, n),
        decreases n,
    {
        if n == 0 {
            Tree::lemma_prefix(left, left + right, left.len());
            assert(Tree::total_text(left) + Seq::<char>::empty() =~= Tree::total_text(left));
        } else {
            Tree::lemma_concat(left, right, (n - 1) as nat);
            assert((left + right)[left.len() + n - 1] == right[n - 1]);
            assert(Tree::total_text(left) + (Tree::text_before(right, (n - 1) as nat) + right[n
                - 1].text()) =~= Tree::total_text(left) + Tree::text_before(right, (n - 1) as nat)
                + right[n - 1].text());
        }
    }

    /// The lengths of two groups of trees add up.
    pub proof fn lemma_total_concat(left: Seq<Tree>, right: Seq<Tree>)
        ensures
            Tree::total_len(left + right) == Tree::total_len(left) + Tree::total_len(right),
            Tree::total_text(left + right) == Tree::total_text(left) + Tree::total_text(right),
    {
        Tree::lemma_concat(left, right, right.len());
    }

    /// The length of a group of one tree is the length of the tree.
    pub proof fn lemma_total_single(tree: Tree)
        ensures
            Tree::total_len(seq![tree]) == tree.text_len(),
            Tree::total_text(seq![tree]) == tree.text(),
    {
        reveal_with_fuel(Tree::offset_of, 2);
        reveal_with_fuel(Tree::text_before, 2);
        assert(Seq::<char>::empty() + tree.text() =~= tree.text());
    }

    /// No child of a group is longer than the group.
    pub proof fn lemma_child_fits(trees: Seq<Tree>, i: nat)
        requires
            i < trees.len(),
        ensures
            Tree::offset_of(trees, i) + trees[i as int].text_len() <= Tree::total_len(trees),
            Tree::offset_of(trees, i + 1) == Tree::offset_of(trees, i)
                + trees[i as int].text_len(),
    {
        Tree::lemma_offsets_ascend(trees, i + 1, trees.len());
    }

    /// The length of a tree is the length of its text in UTF-8.
    pub proof fn lemma_len_measures_text(self)
        ensures
            self.text_len() == encode_utf8(self.text()).len(),
        decreases self, 0nat,
    {
        match self {
            Tree::Node { children, .. } => {
                Tree::lemma_offsets_measure_text(children, children.len());
            },
            Tree::Token { .. } => {},
        }
    }

    /// The offset of a tree is the length, in UTF-8, of the text to the left of it.
    pub proof fn lemma_offsets_measure_text(trees: Seq<Tree>, n: nat)
        requires
            n <= trees.len(),
        ensures
            Tree::offset_of(trees, n) == encode_utf8(Tree::text_before(trees, n)).len(),
        decreases trees, n,
    {
        if n > 0 {
            Tree::lemma_offsets_measure_text(trees, (n - 1) as nat);
            trees[n - 1].lemma_len_measures_text();
            lemma_encode_concat(Tree::text_before(trees, (n - 1) as nat), trees[n - 1].text());
        }
    }
}

/// The encoding of a text is that of its parts, one behind the other.
pub proof fn lemma_encode_concat(left: Seq<char>, right: Seq<char>)
    ensures
        encode_utf8(left + right) == encode_utf8(left) + encode_utf8(right),
    decreases left.len(),
{
    if left.len() == 0 {
        assert(left + right =~= right);
        assert(encode_utf8(left) + encode_utf8(right) =~= encode_utf8(right));
    } else {
        lemma_encode_concat(left.drop_first(), right);
        assert((left + right).drop_first() =~= left.drop_first() + right);
        let first = encode_scalar(left[0] as u32);
        assert(first + (encode_utf8(left.drop_first()) + encode_utf8(right)) =~= (first
            + encode_utf8(left.drop_first())) + encode_utf8(right));
    }
}

} // verus!
