//! Green nodes, the inner nodes of a green tree.

use crate::green::element::{GreenElement, GreenElementRef};
use crate::green::identity::same_allocation;
use crate::green::node_head::NodeHead;
use crate::green::tree::Tree;
use crate::green::SyntaxKind;
use crate::text::TextSize;
use crate::utility_types::NodeOrToken;
use std::sync::Arc;
use vstd::prelude::*;

verus! {

/// How many children share one recorded offset.
pub const CHILDREN_PER_CHECKPOINT: usize = 4;

/// The contents of a node.
///
/// The offset of every fourth child is recorded, so that the offset of any child can be found
/// without measuring all children before it.
#[derive(Debug)]
pub struct GreenNodeData {
    head: NodeHead,
    children: Vec<GreenElement>,
    checkpoints: Vec<TextSize>,
}

/// Internal node in the immutable tree.
/// It has other nodes and tokens as children.
#[derive(Debug)]
pub struct GreenNode {
    ptr: Arc<GreenNodeData>,
}

/// How many offsets a node with so many children records.
pub open spec fn checkpoint_count(child_count: nat) -> nat {
    if child_count == 0 {
        0
    } else {
        ((child_count - 1) / 4) as nat
    }
}

impl GreenNodeData {
    #[verifier::type_invariant]
    closed spec fn measured(self) -> bool {
        let trees = GreenNode::trees(self.children@);
        &&& self.head.child_count_spec() == self.children@.len()
        &&& self.head.text_len_spec().bytes() == Tree::total_len(trees)
        &&& self.checkpoints@.len() == checkpoint_count(self.children@.len())
        &&& forall|i: int|
            0 <= i < self.checkpoints@.len() ==> (#[trigger] self.checkpoints@[i]).bytes()
                == Tree::offset_of(trees, (4 * (i + 1)) as nat)
    }

    /// The node as a tree.
    pub closed spec fn view(&self) -> Tree
        decreases self,
    {
        Tree::Node {
            kind: self.head.kind_spec(),
            children: Seq::new(
                self.children@.len(),
                |i: int|
                    if 0 <= i < self.children@.len() {
                        match self.children@[i] {
                            NodeOrToken::Node(node) => node.ptr.view(),
                            NodeOrToken::Token(token) => token@,
                        }
                    } else {
                        arbitrary()
                    },
            ),
        }
    }
}

impl GreenNode {
    /// The node as a tree.
    pub closed spec fn view(&self) -> Tree {
        self.ptr.view()
    }

    /// The elements that the node holds as its children.
    pub closed spec fn elements(&self) -> Seq<GreenElement> {
        self.ptr.elements()
    }

    /// The children of a node are the trees of the elements that it holds.
    pub proof fn lemma_elements(&self)
        ensures
            self@.children() == GreenNode::trees(self.elements()),
    {
        self.ptr.lemma_elements();
    }

    /// A node is a tree with a node at its root.
    pub proof fn lemma_is_node(&self)
        ensures
            self@ is Node,
    {
    }

    /// The trees that the elements are.
    pub open spec fn trees(elements: Seq<GreenElement>) -> Seq<Tree> {
        elements.map_values(|element: GreenElement| element@)
    }
}

impl Clone for GreenNode {
    fn clone(&self) -> (node: GreenNode)
        ensures
            node == *self,
    {
        GreenNode { ptr: self.ptr.clone() }
    }
}

impl core::ops::Deref for GreenNode {
    type Target = GreenNodeData;

    fn deref(&self) -> (data: &GreenNodeData)
        ensures
            data@ == self@,
            data.elements() == self.elements(),
    {
        &*self.ptr
    }
}

impl GreenNodeData {
    /// The elements that the node holds as its children.
    pub closed spec fn elements(&self) -> Seq<GreenElement> {
        self.children@
    }

    /// The element that the node holds as the child with this index.
    pub open spec fn child_at(&self, index: int) -> GreenElementRef<'_> {
        self.elements()[index].as_ref()
    }

    /// The children of a node are the trees of the elements that it holds.
    pub proof fn lemma_elements(&self)
        ensures
            self@.children() == GreenNode::trees(self.elements()),
    {
        self.lemma_view();
    }

    proof fn lemma_view(&self)
        ensures
            self@ == (Tree::Node {
                kind: self.head.kind_spec(),
                children: GreenNode::trees(self.children@),
            }),
    {
        assert(self@.children() =~= GreenNode::trees(self.children@));
    }

    /// Shows that neither the children nor the bytes of a node are more than a `u32` counts.
    pub(crate) fn limits(&self)
        ensures
            self@ is Node,
            self@.children().len() <= u32::MAX,
            Tree::total_len(self@.children()) <= u32::MAX,
    {
        proof {
            use_type_invariant(self);
            self.lemma_view();
        }
    }

    /// Kind of this node.
    pub fn kind(&self) -> (kind: SyntaxKind)
        ensures
            kind == self@.kind(),
            self@ is Node,
    {
        self.head.kind()
    }

    /// Returns the length of the text covered by this node.
    pub fn text_len(&self) -> (len: TextSize)
        ensures
            len.bytes() == self@.text_len(),
            self@ is Node,
    {
        proof {
            use_type_invariant(self);
            self.lemma_view();
        }
        self.head.text_len()
    }

    /// The number of children of this node.
    pub fn child_count(&self) -> (count: usize)
        ensures
            count == self@.children().len(),
            count <= u32::MAX,
            self@ is Node,
    {
        proof {
            use_type_invariant(self);
            self.lemma_view();
        }
        self.head.child_count()
    }
}

impl GreenNode {
    /// Creates new Node.
    pub fn new(kind: SyntaxKind, children: Vec<GreenElement>) -> (node: GreenNode)
        requires
            children@.len() <= u32::MAX,
            Tree::total_len(GreenNode::trees(children@)) <= u32::MAX,
        ensures
            node@ == (Tree::Node { kind, children: GreenNode::trees(children@) }),
            node.elements() == children@,
    {
        let ghost trees = GreenNode::trees(children@);
        let child_count: usize = children.len();
        let stored_child_count: u32 = child_count as u32;
        let mut wide = NodeHead::starts_wide(kind, stored_child_count);
        let mut checkpoints: Vec<TextSize> = Vec::new();
        let mut text_len: u32 = 0;
        let mut index: usize = 0;
        while index < child_count
            invariant
                index <= child_count,
                child_count == children@.len(),
                trees == GreenNode::trees(children@),
                Tree::total_len(trees) <= u32::MAX,
                text_len == Tree::offset_of(trees, index as nat),
                checkpoints@.len() == checkpoint_count(index as nat),
                forall|i: int|
                    0 <= i < checkpoints@.len() ==> (#[trigger] checkpoints@[i]).bytes()
                        == Tree::offset_of(trees, (4 * (i + 1)) as nat),
            decreases child_count - index,
        {
            let element_len = children[index].text_len();
            proof {
                Tree::lemma_child_fits(trees, index as nat);
            }
            if index != 0 && index % CHILDREN_PER_CHECKPOINT == 0 {
                checkpoints.push(TextSize::new(text_len));
            }
            text_len = text_len + element_len.raw;
            index = index + 1;
        }
        let text_len = TextSize::new(text_len);
        if !wide && NodeHead::ends_wide(text_len) {
            wide = true;
        }
        let head = NodeHead::new(kind, stored_child_count, text_len, wide);
        let data = GreenNodeData { head, children, checkpoints };
        proof {
            data.lemma_view();
        }
        GreenNode { ptr: Arc::new(data) }
    }
}

impl GreenNodeData {
    /// The child with this index.
    pub(crate) fn child_ref(&self, index: usize) -> (child: GreenElementRef<'_>)
        requires
            index < self@.children().len(),
        ensures
            child == self.child_at(index as int),
            child@ == self@.children()[index as int],
    {
        proof {
            self.lemma_view();
        }
        self.children[index].as_deref()
    }

    /// The child with this index, if there are so many.
    pub fn child(&self, index: usize) -> (child: Option<GreenElementRef<'_>>)
        ensures
            index < self@.children().len() ==> child == Some(self.child_at(index as int))
                && child->0@ == self@.children()[index as int],
            index >= self@.children().len() ==> child is None,
    {
        proof {
            use_type_invariant(self);
            self.lemma_view();
        }
        if index < self.child_count() {
            Some(self.child_ref(index))
        } else {
            None
        }
    }

    /// The recorded offsets: the i-th one is that of the child with index `4 * (i + 1)`.
    pub fn checkpoints(&self) -> (checkpoints: &[TextSize])
        ensures
            checkpoints@.len() == checkpoint_count(self@.children().len()),
            forall|i: int|
                0 <= i < checkpoints@.len() ==> (#[trigger] checkpoints@[i]).bytes()
                    == Tree::offset_of(self@.children(), (4 * (i + 1)) as nat),
    {
        proof {
            use_type_invariant(self);
            self.lemma_view();
        }
        self.checkpoints.as_slice()
    }

    /// Where a block of four children starts, given the recorded offsets.
    pub fn block_offset(checkpoints: &[TextSize], block: usize) -> (offset: TextSize)
        requires
            block <= checkpoints@.len(),
        ensures
            offset == (if block == 0 {
                TextSize { raw: 0 }
            } else {
                checkpoints@[block - 1]
            }),
    {
        if block == 0 {
            TextSize::new(0)
        } else {
            checkpoints[block - 1]
        }
    }

    /// Where the child with this index starts, relative to the node.
    pub fn child_offset(&self, index: usize) -> (offset: TextSize)
        requires
            index < self@.children().len(),
        ensures
            offset.bytes() == Tree::offset_of(self@.children(), index as nat),
    {
        let ghost trees = self@.children();
        proof {
            use_type_invariant(self);
            self.lemma_view();
        }
        let block: usize = index / CHILDREN_PER_CHECKPOINT;
        let block_start: usize = block * CHILDREN_PER_CHECKPOINT;
        let mut rel_offset = GreenNodeData::block_offset(self.checkpoints(), block);
        let mut child_index: usize = block_start;
        while child_index < index
            invariant
                child_index <= index < trees.len(),
                trees == self@.children(),
                trees == GreenNode::trees(self.children@),
                Tree::total_len(trees) <= u32::MAX,
                rel_offset.bytes() == Tree::offset_of(trees, child_index as nat),
            decreases index - child_index,
        {
            proof {
                Tree::lemma_child_fits(trees, child_index as nat);
            }
            rel_offset = TextSize::new(rel_offset.raw + self.child_ref(child_index).text_len().raw);
            child_index = child_index + 1;
        }
        rel_offset
    }
}

impl GreenNodeData {
    /// Appends the text of this node to `out`.
    fn append_text(&self, out: &mut String)
        ensures
            final(out)@ == old(out)@ + self@.text(),
        decreases self,
    {
        let ghost trees = self@.children();
        let ghost before = out@;
        proof {
            self.lemma_view();
            assert(before + Tree::text_before(trees, 0) =~= before);
        }
        let mut index: usize = 0;
        while index < self.children.len()
            invariant
                index <= self.children@.len(),
                self@ is Node,
                trees == self@.children(),
                trees == GreenNode::trees(self.children@),
                out@ == before + Tree::text_before(trees, index as nat),
            decreases self.children@.len() - index,
        {
            match &self.children[index] {
                NodeOrToken::Node(node) => node.ptr.append_text(out),
                NodeOrToken::Token(token) => out.append(token.text()),
            }
            proof {
                let done = Tree::text_before(trees, index as nat);
                assert(before + done + trees[index as int].text() =~= before + (done
                    + trees[index as int].text()));
            }
            index = index + 1;
        }
    }

    /// The text of this node.
    pub fn to_string(&self) -> (text: String)
        ensures
            text@ == self@.text(),
    {
        let mut text = String::new();
        self.append_text(&mut text);
        proof {
            assert(Seq::<char>::empty() + self@.text() =~= self@.text());
        }
        text
    }

    fn same(&self, other: &GreenNodeData) -> (same: bool)
        ensures
            same == (self@ == other@),
        decreases self,
    {
        proof {
            use_type_invariant(self);
            use_type_invariant(other);
            self.lemma_view();
            other.lemma_view();
        }
        if self.kind() != other.kind() || self.text_len() != other.text_len() {
            return false;
        }
        if self.child_count() != other.child_count() {
            return false;
        }
        let mut index: usize = 0;
        while index < self.children.len()
            invariant
                index <= self.children@.len(),
                self.children@.len() == other.children@.len(),
                self@.children() == GreenNode::trees(self.children@),
                other@.children() == GreenNode::trees(other.children@),
                forall|i: int|
                    0 <= i < index ==> self.children@[i]@ == other.children@[i]@,
            decreases self.children@.len() - index,
        {
            let same = match (&self.children[index], &other.children[index]) {
                (NodeOrToken::Node(left), NodeOrToken::Node(right)) => left.is_same(right)
                    || left.ptr.same(&right.ptr),
                (NodeOrToken::Token(left), NodeOrToken::Token(right)) => *left == *right,
                (NodeOrToken::Node(node), NodeOrToken::Token(token))
                | (NodeOrToken::Token(token), NodeOrToken::Node(node)) => {
                    proof {
                        token.lemma_is_token();
                        node.lemma_is_node();
                    }
                    false
                },
            };
            if !same {
                proof {
                    assert(self@.children()[index as int] != other@.children()[index as int]);
                }
                return false;
            }
            index = index + 1;
        }
        proof {
            assert(self@.children() =~= other@.children());
        }
        true
    }
}

impl GreenNode {
    /// Whether the two handles share one node.
    pub(crate) fn is_same(&self, other: &GreenNode) -> (same: bool)
        ensures
            same ==> *self == *other,
            self.is_same_gives(other, same),
    {
        let ask = same_allocation::<GreenNodeData>;
        ask(&self.ptr, &other.ptr)
    }

    /// Whether `same` is an answer of [`same_allocation`] when asked about these two handles.
    pub(crate) closed spec fn is_same_gives(&self, other: &GreenNode, same: bool) -> bool {
        call_ensures(same_allocation::<GreenNodeData>, (&self.ptr, &other.ptr), same)
    }

    /// Two handles are told to be the same only if they were asked whether they share one
    /// allocation.
    proof fn lemma_same_is_asked(self, other: GreenNode, same: bool)
        requires
            self.is_same_gives(&other, same),
        ensures
            call_ensures(same_allocation::<GreenNodeData>, (&self.ptr, &other.ptr), same),
            same ==> self@ == other@,
    {
    }
}

impl PartialEq for GreenNodeData {
    fn eq(&self, other: &GreenNodeData) -> (same: bool) {
        self.same(other)
    }
}

impl vstd::std_specs::cmp::PartialEqSpecImpl for GreenNodeData {
    open spec fn obeys_eq_spec() -> bool {
        true
    }

    open spec fn eq_spec(&self, other: &GreenNodeData) -> bool {
        self@ == other@
    }
}

impl PartialEq for GreenNode {
    fn eq(&self, other: &GreenNode) -> (same: bool) {
        self.is_same(other) || self.ptr.same(&other.ptr)
    }
}

impl vstd::std_specs::cmp::PartialEqSpecImpl for GreenNode {
    open spec fn obeys_eq_spec() -> bool {
        true
    }

    open spec fn eq_spec(&self, other: &GreenNode) -> bool {
        self@ == other@
    }
}

impl Eq for GreenNode {}

} // verus!
