//! What a node looks like in storage that is managed by hand, on machines with pointers of eight
//! bytes.

use crate::green::allocator::is_pooled;
use crate::green::layout::{
    lemma_packed_is_smaller, node_align, node_allocation_layout, node_layout, node_size, Layout,
};
use crate::green::node::{checkpoint_count, CHILDREN_PER_CHECKPOINT};
use crate::green::node_head::{
    NodeHead, PACKED_CHILD_COUNT_LIMIT, PACKED_KIND_LIMIT, PACKED_TEXT_LEN_LIMIT,
};
use crate::green::packed_child::{in_reach, ChildAddress, GreenChild, PackedGreenChild};
use crate::green::pools::{class_of, Allocation, Deallocation, Pools};
use crate::green::token_head::{RefcountLimit, MAX_REFCOUNT};
use crate::green::SyntaxKind;
use crate::text::TextSize;
use vstd::prelude::*;

verus! {

/// A child that a node is to be made of: where it lies, and how long its text is.
#[derive(Debug, Clone, Copy, PartialEq, Eq, Structural)]
pub struct PlacedChild {
    pub child: ChildAddress,
    pub text_len: TextSize,
}

/// The children of a node, as they are stored.
#[derive(Debug)]
pub enum StoredChildren {
    /// Relative to the node.
    Packed(Vec<PackedGreenChild>),
    /// By their addresses.
    Wide(Vec<GreenChild>),
}

/// A node, as it is stored.
#[derive(Debug)]
pub struct NodeImage {
    head: NodeHead,
    children: StoredChildren,
    checkpoints: Vec<TextSize>,
}

impl PlacedChild {
    /// Where the child with index `n` starts, relative to the node, in bytes.
    pub open spec fn offset_of(children: Seq<PlacedChild>, n: nat) -> nat
        decreases n,
    {
        if n == 0 || n > children.len() {
            0
        } else {
            PlacedChild::offset_of(children, (n - 1) as nat) + children[n - 1].text_len.bytes()
        }
    }

    proof fn lemma_offsets_ascend(children: Seq<PlacedChild>, i: nat, j: nat)
        requires
            i <= j <= children.len(),
        ensures
            PlacedChild::offset_of(children, i) <= PlacedChild::offset_of(children, j),
        decreases j - i,
    {
        if i < j {
            PlacedChild::lemma_offsets_ascend(children, i, (j - 1) as nat);
        }
    }

    /// Whether the children lie where nodes and tokens can lie.
    pub open spec fn all_aligned(children: Seq<PlacedChild>) -> bool {
        forall|i: int|
            0 <= i < children.len() ==> (#[trigger] children[i]).child.address % 4 == 0
    }

    /// Whether all children lie near enough to the node to be packed.
    pub open spec fn all_in_reach(children: Seq<PlacedChild>, parent: usize) -> bool {
        forall|i: int|
            0 <= i < children.len() ==> in_reach(parent, (#[trigger] children[i]).child.address)
    }
}

impl StoredChildren {
    /// How many children are stored.
    pub open spec fn len_spec(self) -> nat {
        match self {
            StoredChildren::Packed(children) => children@.len(),
            StoredChildren::Wide(children) => children@.len(),
        }
    }

    /// The child with this index of a node at this address.
    pub open spec fn child_spec(self, parent: usize, index: int) -> ChildAddress {
        match self {
            StoredChildren::Packed(children) => packed_child(children@[index], parent),
            StoredChildren::Wide(children) => children@[index]@,
        }
    }

    /// Whether the first `n` children are stored, and no others.
    pub open spec fn stores(self, parent: usize, children: Seq<PlacedChild>, n: int) -> bool {
        &&& self.len_spec() == n
        &&& forall|i: int|
            0 <= i < n ==> #[trigger] self.child_spec(parent, i) == children[i].child
    }

    /// The child with this index of a node at this address.
    pub fn child(&self, parent: usize, index: usize) -> (child: ChildAddress)
        requires
            index < self.len_spec(),
        ensures
            child == self.child_spec(parent, index as int),
    {
        match self {
            StoredChildren::Packed(children) => children[index].into_element(parent),
            StoredChildren::Wide(children) => children[index].into_element(),
        }
    }
}

/// The child that a packed child of a node at this address stands for.
pub open spec fn packed_child(packed: PackedGreenChild, parent: usize) -> ChildAddress {
    ChildAddress {
        address: packed.target(parent) as usize,
        is_token: packed.is_token_spec(),
    }
}

/// The children of a packed node at this address, by their own addresses.
pub fn promote_to_wide(packed: &Vec<PackedGreenChild>, parent: usize) -> (wide: Vec<GreenChild>)
    requires
        forall|i: int|
            0 <= i < packed@.len() ==> packed_child(#[trigger] packed@[i], parent).address % 4
                == 0,
    ensures
        wide@.len() == packed@.len(),
        forall|i: int|
            0 <= i < packed@.len() ==> (#[trigger] wide@[i])@ == packed_child(packed@[i], parent),
{
    let mut wide: Vec<GreenChild> = Vec::new();
    let mut index: usize = 0;
    while index < packed.len()
        invariant
            index <= packed@.len(),
            forall|i: int|
                0 <= i < packed@.len() ==> packed_child(#[trigger] packed@[i], parent).address % 4
                    == 0,
            wide@.len() == index,
            forall|i: int|
                0 <= i < index ==> (#[trigger] wide@[i])@ == packed_child(packed@[i], parent),
        decreases packed@.len() - index,
    {
        let element = packed[index].into_element(parent);
        assert(element == packed_child(packed@[index as int], parent));
        wide.push(GreenChild::from_element(element));
        index = index + 1;
    }
    wide
}

impl StoredChildren {
    /// Whether the children lie where nodes and tokens can lie.
    pub open spec fn is_aligned(self, parent: usize) -> bool {
        forall|i: int|
            0 <= i < self.len_spec() ==> (#[trigger] self.child_spec(parent, i)).address % 4 == 0
    }

    /// Whether the children are stored by their addresses.
    pub fn is_wide(&self) -> (wide: bool)
        ensures
            wide == (self is Wide),
    {
        match self {
            StoredChildren::Packed(_) => false,
            StoredChildren::Wide(_) => true,
        }
    }

    /// The same children, stored by their addresses.
    fn into_wide(self, parent: usize) -> (wide: StoredChildren)
        requires
            self.is_aligned(parent),
        ensures
            wide is Wide,
            wide.len_spec() == self.len_spec(),
            forall|i: int|
                0 <= i < self.len_spec() ==> #[trigger] wide.child_spec(parent, i)
                    == self.child_spec(parent, i),
    {
        match self {
            StoredChildren::Packed(packed) => {
                proof {
                    assert forall|i: int| 0 <= i < packed@.len() implies packed_child(
                        #[trigger] packed@[i],
                        parent,
                    ).address % 4 == 0 by {
                        assert(self.child_spec(parent, i).address % 4 == 0);
                    }
                }
                StoredChildren::Wide(promote_to_wide(&packed, parent))
            },
            StoredChildren::Wide(wide) => StoredChildren::Wide(wide),
        }
    }

    /// One more child. If it lies too far away to be packed, all of them are stored by their
    /// addresses.
    fn push(self, parent: usize, element: ChildAddress) -> (more: StoredChildren)
        requires
            parent % 4 == 0,
            element.address % 4 == 0,
            self.is_aligned(parent),
        ensures
            more is Wide == (self is Wide || !in_reach(parent, element.address)),
            more.len_spec() == self.len_spec() + 1,
            more.child_spec(parent, self.len_spec() as int) == element,
            forall|i: int|
                0 <= i < self.len_spec() ==> #[trigger] more.child_spec(parent, i)
                    == self.child_spec(parent, i),
    {
        match self {
            StoredChildren::Packed(packed) => {
                match PackedGreenChild::try_from_element(parent, element) {
                    Ok(child) => {
                        let mut packed = packed;
                        packed.push(child);
                        StoredChildren::Packed(packed)
                    },
                    Err(element) => {
                        proof {
                            assert forall|i: int| 0 <= i < packed@.len() implies packed_child(
                                #[trigger] packed@[i],
                                parent,
                            ).address % 4 == 0 by {
                                assert(self.child_spec(parent, i).address % 4 == 0);
                            }
                        }
                        let mut wide = promote_to_wide(&packed, parent);
                        wide.push(GreenChild::from_element(element));
                        StoredChildren::Wide(wide)
                    },
                }
            },
            StoredChildren::Wide(wide) => {
                let mut wide = wide;
                wide.push(GreenChild::from_element(element));
                StoredChildren::Wide(wide)
            },
        }
    }
}

/// What becomes of a node that outgrows its packed form.
#[derive(Debug, Clone, Copy, PartialEq, Eq, Structural)]
pub enum Promotion {
    /// Nothing, until the pools have been given another page.
    NeedsPage,
    /// It moves to storage that is taken so, and its packed storage is given back so.
    Moved { wide: Allocation, packed: Deallocation },
}

/// Moves a node with so many children from its packed storage, which starts at `storage`, to storage
/// for the wide form.
pub fn promote(child_count: usize, storage: usize, pools: &mut Pools) -> (promotion: Promotion)
    requires
        node_size(child_count as nat, true) <= isize::MAX,
        old(pools).wf(),
        is_pooled(node_layout(child_count as nat, false)) ==> old(pools)@[class_of(
            node_layout(child_count as nat, false),
        )].live().contains(storage as int),
    ensures
        final(pools).wf(),
        match promotion {
            Promotion::NeedsPage => {
                &&& is_pooled(node_layout(child_count as nat, true))
                &&& old(pools)@[class_of(node_layout(child_count as nat, true))].is_exhausted()
                &&& final(pools)@ == old(pools)@
            },
            Promotion::Moved { wide, packed } => {
                &&& wide !is NeedsPage
                &&& wide != Allocation::Block(storage)
                &&& exists|between: Pools|
                    {
                        &&& #[trigger] Pools::takes(
                            *old(pools),
                            between,
                            node_layout(child_count as nat, true),
                            wide,
                        )
                        &&& Pools::frees(
                            between,
                            *final(pools),
                            node_layout(child_count as nat, false),
                            storage,
                            packed,
                        )
                    }
            },
        },
{
    proof {
        lemma_packed_is_smaller(child_count as nat);
    }
    let wide = pools.allocate(node_allocation_layout(child_count, true));
    if let Allocation::NeedsPage = wide {
        return Promotion::NeedsPage;
    }
    let ghost between = *pools;
    let packed = pools.deallocate(node_allocation_layout(child_count, false), storage);
    proof {
        assert(Pools::takes(*old(pools), between, node_layout(child_count as nat, true), wide));
    }
    Promotion::Moved { wide, packed }
}

/// What becomes of a node in storage when a reference to it goes.
#[derive(Debug)]
pub enum NodeDrop {
    /// So many references are left.
    Counted(u32),
    /// The node is gone. It held one reference to each of these children for each time that they
    /// stand here, which go with it.
    Gone { children: Vec<ChildAddress>, storage: Deallocation },
}

impl NodeImage {
    #[verifier::type_invariant]
    closed spec fn matched(self) -> bool {
        &&& self.head.child_count_spec() == self.children.len_spec()
        &&& self.head.is_wide_spec() == self.children is Wide
    }

    /// The head.
    pub closed spec fn head_spec(self) -> NodeHead {
        self.head
    }

    /// The children.
    pub closed spec fn children_spec(self) -> StoredChildren {
        self.children
    }

    /// The recorded offsets.
    pub closed spec fn checkpoints_spec(self) -> Seq<TextSize> {
        self.checkpoints@
    }

    /// Whether a node of this kind, with these children and at this address, is wide.
    pub open spec fn is_wide_spec(
        kind: SyntaxKind,
        parent: usize,
        children: Seq<PlacedChild>,
    ) -> bool {
        ||| kind.0 >= PACKED_KIND_LIMIT
        ||| children.len() >= PACKED_CHILD_COUNT_LIMIT
        ||| PlacedChild::offset_of(children, children.len()) >= PACKED_TEXT_LEN_LIMIT
        ||| !PlacedChild::all_in_reach(children, parent)
    }

    /// What a node of this kind with these children looks like. If it is a packed one, it is to be
    /// stored at the address `parent`; a wide one looks the same everywhere.
    pub fn new(kind: SyntaxKind, parent: usize, children: &[PlacedChild]) -> (image: NodeImage)
        requires
            parent % 4 == 0,
            children@.len() <= u32::MAX,
            PlacedChild::offset_of(children@, children@.len()) <= u32::MAX,
            PlacedChild::all_aligned(children@),
        ensures
            ({
                let head = image.head_spec();
                &&& head.kind_spec() == kind
                &&& head.child_count_spec() == children@.len()
                &&& head.text_len_spec().bytes() == PlacedChild::offset_of(
                    children@,
                    children@.len(),
                )
                &&& head.is_wide_spec() == NodeImage::is_wide_spec(kind, parent, children@)
            }),
            image.children_spec() is Wide == image.head_spec().is_wide_spec(),
            image.children_spec().stores(parent, children@, children@.len() as int),
            image.checkpoints_spec().len() == checkpoint_count(children@.len()),
            forall|i: int|
                0 <= i < image.checkpoints_spec().len() ==> (
                #[trigger] image.checkpoints_spec()[i]).bytes() == PlacedChild::offset_of(
                    children@,
                    (4 * (i + 1)) as nat,
                ),
    {
        let child_count: usize = children.len();
        let stored_child_count: u32 = child_count as u32;
        let starts_wide = NodeHead::starts_wide(kind, stored_child_count);
        let mut stored = if starts_wide {
            StoredChildren::Wide(Vec::new())
        } else {
            StoredChildren::Packed(Vec::new())
        };
        let mut checkpoints: Vec<TextSize> = Vec::new();
        let mut text_len: u32 = 0;
        let mut index: usize = 0;
        while index < child_count
            invariant
                parent % 4 == 0,
                index <= child_count,
                child_count == children@.len(),
                PlacedChild::offset_of(children@, children@.len()) <= u32::MAX,
                PlacedChild::all_aligned(children@),
                stored.stores(parent, children@, index as int),
                stored is Wide == (starts_wide || exists|i: int|
                    0 <= i < index && !in_reach(parent, (#[trigger] children@[i]).child.address)),
                text_len == PlacedChild::offset_of(children@, index as nat),
                checkpoints@.len() == checkpoint_count(index as nat),
                forall|i: int|
                    0 <= i < checkpoints@.len() ==> (#[trigger] checkpoints@[i]).bytes()
                        == PlacedChild::offset_of(children@, (4 * (i + 1)) as nat),
            decreases child_count - index,
        {
            let element = children[index];
            proof {
                PlacedChild::lemma_offsets_ascend(
                    children@,
                    (index + 1) as nat,
                    children@.len(),
                );
                assert(children@[index as int].child.address % 4 == 0);
            }
            if index != 0 && index % CHILDREN_PER_CHECKPOINT == 0 {
                checkpoints.push(TextSize::new(text_len));
            }
            stored = stored.push(parent, element.child);
            text_len = text_len + element.text_len.raw;
            index = index + 1;
        }
        let text_len = TextSize::new(text_len);
        if NodeHead::ends_wide(text_len) {
            stored = stored.into_wide(parent);
        }
        let head = NodeHead::new(kind, stored_child_count, text_len, stored.is_wide());
        NodeImage { head, children: stored, checkpoints }
    }
}

impl StoredChildren {
    /// The children that a node at this address lets go when it goes, each of them once.
    pub fn release(&self, parent: usize) -> (released: Vec<ChildAddress>)
        ensures
            released@.len() == self.len_spec(),
            forall|i: int|
                0 <= i < self.len_spec() ==> #[trigger] released@[i] == self.child_spec(parent, i),
    {
        let child_count: usize = match self {
            StoredChildren::Packed(children) => children.len(),
            StoredChildren::Wide(children) => children.len(),
        };
        let mut released: Vec<ChildAddress> = Vec::new();
        let mut index: usize = 0;
        while index < child_count
            invariant
                index <= child_count,
                child_count == self.len_spec(),
                released@.len() == index,
                forall|i: int|
                    0 <= i < index ==> #[trigger] released@[i] == self.child_spec(parent, i),
            decreases child_count - index,
        {
            released.push(self.child(parent, index));
            index = index + 1;
        }
        released
    }
}

impl NodeImage {
    /// The head.
    pub fn head(&self) -> (head: NodeHead)
        ensures
            head == self.head_spec(),
    {
        self.head
    }

    /// The children.
    pub fn children(&self) -> (children: &StoredChildren)
        ensures
            *children == self.children_spec(),
    {
        &self.children
    }

    /// The recorded offsets.
    pub fn checkpoints(&self) -> (checkpoints: &[TextSize])
        ensures
            checkpoints@ == self.checkpoints_spec(),
    {
        self.checkpoints.as_slice()
    }

    /// The node that is stored with this head, these children and these recorded offsets, if head
    /// and children fit each other.
    pub fn from_parts(head: NodeHead, children: StoredChildren, checkpoints: Vec<TextSize>) -> (image:
        Option<NodeImage>)
        ensures
            image is Some == (head.child_count_spec() == children.len_spec()
                && head.is_wide_spec() == (children is Wide)),
            image matches Some(image) ==> {
                &&& image.head_spec() == head
                &&& image.children_spec() == children
                &&& image.checkpoints_spec() == checkpoints@
            },
    {
        let stored: usize = match &children {
            StoredChildren::Packed(children) => children.len(),
            StoredChildren::Wide(children) => children.len(),
        };
        if head.child_count() == stored && head.is_wide() == children.is_wide() {
            Some(NodeImage { head, children, checkpoints })
        } else {
            None
        }
    }

    /// Counts one more reference to a node to which there are `count`. Fails, and counts nothing,
    /// where the count has passed its limit.
    pub fn add_reference(count: u32) -> (counted: Result<u32, RefcountLimit>)
        ensures
            counted is Ok <==> count <= MAX_REFCOUNT,
            counted matches Ok(more) ==> more == count + 1,
    {
        if count > MAX_REFCOUNT {
            return Err(RefcountLimit);
        }
        Ok(count + 1)
    }

    /// Takes away one of `count` references to the node, which lies in storage that starts at
    /// `storage`. With the last one the node goes: each of its children is let go once, and the
    /// storage is given back as it was taken.
    pub fn drop_reference(&self, count: u32, storage: usize, pools: &mut Pools) -> (dropped:
        NodeDrop)
        requires
            count > 0,
            storage + 4 <= usize::MAX,
            node_size(
                self.head_spec().child_count_spec() as nat,
                self.head_spec().is_wide_spec(),
            ) <= isize::MAX,
            old(pools).wf(),
            count == 1 && is_pooled(self.layout_spec()) ==> old(pools)@[class_of(
                self.layout_spec(),
            )].live().contains(storage as int),
        ensures
            final(pools).wf(),
            dropped is Counted == (count > 1),
            match dropped {
                NodeDrop::Counted(left) => left == count - 1 && final(pools)@ == old(pools)@,
                NodeDrop::Gone { children, storage: freed } => {
                    &&& children@.len() == self.head_spec().child_count_spec()
                    &&& forall|i: int|
                        0 <= i < children@.len() ==> #[trigger] children@[i]
                            == self.children_spec().child_spec((storage + 4) as usize, i)
                    &&& Pools::frees(
                        *old(pools),
                        *final(pools),
                        self.layout_spec(),
                        storage,
                        freed,
                    )
                },
            },
    {
        proof {
            use_type_invariant(self);
        }
        if count > 1 {
            return NodeDrop::Counted(count - 1);
        }
        let children = self.children.release(storage + 4);
        let layout = self.layout();
        let freed = pools.deallocate(layout, storage);
        NodeDrop::Gone { children, storage: freed }
    }

    /// What a node lets go when it goes are just the children that it was made of, in order.
    pub proof fn lemma_lets_go_what_it_holds(
        self,
        parent: usize,
        children: Seq<PlacedChild>,
        released: Seq<ChildAddress>,
    )
        requires
            self.children_spec().stores(parent, children, children.len() as int),
            released.len() == children.len(),
            forall|i: int|
                0 <= i < released.len() ==> #[trigger] released[i]
                    == self.children_spec().child_spec(parent, i),
        ensures
            released == children.map_values(|child: PlacedChild| child.child),
    {
        assert(released =~= children.map_values(|child: PlacedChild| child.child));
    }

    /// The storage that the node takes.
    pub open spec fn layout_spec(self) -> Layout {
        node_layout(self.head_spec().child_count_spec() as nat, self.head_spec().is_wide_spec())
    }

    /// The storage that the node takes.
    pub fn layout(&self) -> (layout: Layout)
        requires
            node_size(
                self.head_spec().child_count_spec() as nat,
                self.head_spec().is_wide_spec(),
            ) <= isize::MAX,
        ensures
            layout == self.layout_spec(),
            layout.size == node_size(
                self.head_spec().child_count_spec() as nat,
                self.head_spec().is_wide_spec(),
            ),
            layout.align == node_align(self.head_spec().is_wide_spec()),
    {
        node_allocation_layout(self.head.child_count(), self.head.is_wide())
    }
}

} // verus!
