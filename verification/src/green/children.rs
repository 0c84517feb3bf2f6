//! Walking over the children of a node, from either end.

use crate::green::element::{GreenElement, GreenElementRef};
use crate::green::node::GreenNodeData;
use crate::green::tree::Tree;
use crate::text::TextSize;
use vstd::prelude::*;

verus! {

/// A child and where it starts, relative to its parent.
#[derive(Debug, Clone, Copy)]
pub struct GreenChildRef<'a> {
    pub element: GreenElementRef<'a>,
    pub rel_offset: TextSize,
}

/// The children of a node that are still to be visited, with their offsets.
#[derive(Debug)]
pub struct GreenChildren<'a> {
    node: &'a GreenNodeData,
    front: usize,
    back: usize,
    front_offset: TextSize,
    back_offset: TextSize,
}

/// The children of a node that are still to be visited.
#[derive(Debug)]
pub struct Children<'a> {
    raw: GreenChildren<'a>,
}

impl<'a> GreenChildRef<'a> {
    /// The offset of the child, and the child as a tree.
    pub open spec fn view(&self) -> (nat, Tree) {
        (self.rel_offset.bytes(), self.element@)
    }

    /// The child.
    pub fn as_ref(self) -> (element: GreenElementRef<'a>)
        ensures
            element == self.element,
    {
        self.element
    }

    /// Where the child starts, relative to its parent.
    pub fn rel_offset(self) -> (offset: TextSize)
        ensures
            offset == self.rel_offset,
    {
        self.rel_offset
    }

    fn same(&self, other: &GreenChildRef<'a>) -> (same: bool)
        ensures
            same == (self@ == other@),
    {
        if self.rel_offset != other.rel_offset {
            return false;
        }
        GreenElementRef::same(self.element, other.element)
    }
}

impl<'a> PartialEq for GreenChildRef<'a> {
    fn eq(&self, other: &GreenChildRef<'a>) -> (same: bool) {
        self.same(other)
    }
}

impl<'a> vstd::std_specs::cmp::PartialEqSpecImpl for GreenChildRef<'a> {
    open spec fn obeys_eq_spec() -> bool {
        true
    }

    open spec fn eq_spec(&self, other: &GreenChildRef<'a>) -> bool {
        self@ == other@
    }
}

impl Tree {
    /// The trees from `front` to `back`, each with its offset among all `trees`.
    pub open spec fn placed(trees: Seq<Tree>, front: int, back: int) -> Seq<(nat, Tree)> {
        Seq::new(
            (back - front) as nat,
            |i: int| (Tree::offset_of(trees, (front + i) as nat), trees[front + i]),
        )
    }
}

impl<'a> GreenChildren<'a> {
    #[verifier::type_invariant]
    closed spec fn in_bounds(self) -> bool {
        let trees = self.node@.children();
        &&& self.node@ is Node
        &&& self.front <= self.back <= trees.len()
        &&& self.front < self.back ==> {
            &&& self.front_offset.bytes() == Tree::offset_of(trees, self.front as nat)
            &&& self.back_offset.bytes() == Tree::offset_of(trees, self.back as nat)
        }
    }

    /// The children that are still to be visited, from left to right, with their offsets.
    pub closed spec fn view(&self) -> Seq<(nat, Tree)> {
        Tree::placed(self.node@.children(), self.front as int, self.back as int)
    }

    /// The elements that are still to be visited, from left to right.
    pub closed spec fn elements(&self) -> Seq<GreenElementRef<'a>> {
        Seq::new(
            (self.back - self.front) as nat,
            |i: int| self.node.elements()[self.front + i].as_ref(),
        )
    }

    /// All children of `node`.
    pub fn new(node: &'a GreenNodeData) -> (children: GreenChildren<'a>)
        ensures
            children@ == Tree::placed(node@.children(), 0, node@.children().len() as int),
            children.elements() == GreenNodeData::borrowed(node.elements()),
    {
        let child_count: usize = node.child_count();
        let children = GreenChildren {
            node,
            front: 0,
            back: child_count,
            front_offset: TextSize::new(0),
            back_offset: node.text_len(),
        };
        proof {
            node.lemma_elements();
            assert(children.elements() =~= GreenNodeData::borrowed(node.elements()));
        }
        children
    }

    /// The child with this index.
    fn child_at(&self, index: usize) -> (child: GreenChildRef<'a>)
        requires
            index < self.node@.children().len(),
        ensures
            child.element == self.node.child_at(index as int),
            child@ == (
                Tree::offset_of(self.node@.children(), index as nat),
                self.node@.children()[index as int],
            ),
    {
        let rel_offset = self.node.child_offset(index);
        GreenChildRef { element: self.node.child_ref(index), rel_offset }
    }

    /// How many children are still to be visited.
    pub fn len(&self) -> (len: usize)
        ensures
            len == self@.len(),
    {
        proof {
            use_type_invariant(self);
        }
        self.back - self.front
    }

    /// Visits the first of the remaining children.
    pub fn next(&mut self) -> (child: Option<GreenChildRef<'a>>)
        ensures
            match child {
                Some(child) => {
                    &&& old(self)@.len() > 0
                    &&& child@ == old(self)@.first()
                    &&& child.element == old(self).elements().first()
                    &&& final(self)@ == old(self)@.drop_first()
                    &&& final(self).elements() == old(self).elements().drop_first()
                },
                None => old(self)@.len() == 0 && *final(self) == *old(self),
            },
    {
        proof {
            use_type_invariant(&*self);
        }
        if self.front == self.back {
            return None;
        }
        let ghost trees = self.node@.children();
        self.node.limits();
        let element = self.node.child_ref(self.front);
        let child = GreenChildRef { element, rel_offset: self.front_offset };
        proof {
            Tree::lemma_child_fits(trees, self.front as nat);
        }
        let front_offset = TextSize::new(self.front_offset.raw + element.text_len().raw);
        let front: usize = self.front + 1;
        *self = GreenChildren { front, front_offset, ..*self };
        proof {
            assert(self@ =~= old(self)@.drop_first());
            assert(self.elements() =~= old(self).elements().drop_first());
        }
        Some(child)
    }

    /// How many children are still to be visited, as a lower and an upper bound.
    pub fn size_hint(&self) -> (hint: (usize, Option<usize>))
        ensures
            hint.0 == self@.len(),
            hint.1 == Some(hint.0),
    {
        let len: usize = self.len();
        (len, Some(len))
    }

    /// How many children are still to be visited.
    pub fn count(self) -> (count: usize)
        ensures
            count == self@.len(),
    {
        self.len()
    }

    /// Passes over `n` of the remaining children and visits the next one.
    pub fn nth(&mut self, n: usize) -> (child: Option<GreenChildRef<'a>>)
        ensures
            match child {
                Some(child) => {
                    &&& n < old(self)@.len()
                    &&& child@ == old(self)@[n as int]
                    &&& child.element == old(self).elements()[n as int]
                    &&& final(self)@ == old(self)@.skip(n + 1)
                    &&& final(self).elements() == old(self).elements().skip(n + 1)
                },
                None => n >= old(self)@.len() && final(self)@.len() == 0,
            },
    {
        proof {
            use_type_invariant(&*self);
        }
        if n >= self.len() {
            self.front = self.back;
            return None;
        }
        let ghost trees = self.node@.children();
        self.node.limits();
        let index: usize = self.front + n;
        let child = self.child_at(index);
        proof {
            Tree::lemma_child_fits(trees, index as nat);
        }
        let front_offset = TextSize::new(child.rel_offset.raw + child.element.text_len().raw);
        *self = GreenChildren { front: index + 1, front_offset, ..*self };
        proof {
            assert(self@ =~= old(self)@.skip(n + 1));
            assert(self.elements() =~= old(self).elements().skip(n + 1));
        }
        Some(child)
    }

    /// Visits the last of the remaining children.
    pub fn next_back(&mut self) -> (child: Option<GreenChildRef<'a>>)
        ensures
            match child {
                Some(child) => {
                    &&& old(self)@.len() > 0
                    &&& child@ == old(self)@.last()
                    &&& child.element == old(self).elements().last()
                    &&& final(self)@ == old(self)@.drop_last()
                    &&& final(self).elements() == old(self).elements().drop_last()
                },
                None => old(self)@.len() == 0 && *final(self) == *old(self),
            },
    {
        proof {
            use_type_invariant(&*self);
        }
        if self.front == self.back {
            return None;
        }
        let ghost trees = self.node@.children();
        let back: usize = self.back - 1;
        let element = self.node.child_ref(back);
        proof {
            Tree::lemma_child_fits(trees, back as nat);
        }
        let back_offset = TextSize::new(self.back_offset.raw - element.text_len().raw);
        *self = GreenChildren { back, back_offset, ..*self };
        proof {
            assert(self@ =~= old(self)@.drop_last());
            assert(self.elements() =~= old(self).elements().drop_last());
        }
        Some(GreenChildRef { element, rel_offset: back_offset })
    }

    /// Passes over the last `n` of the remaining children and visits the one before them.
    pub fn nth_back(&mut self, n: usize) -> (child: Option<GreenChildRef<'a>>)
        ensures
            match child {
                Some(child) => {
                    &&& n < old(self)@.len()
                    &&& child@ == old(self)@[old(self)@.len() - 1 - n]
                    &&& child.element == old(self).elements()[old(self)@.len() - 1 - n]
                    &&& final(self)@ == old(self)@.take(old(self)@.len() - 1 - n)
                    &&& final(self).elements() == old(self).elements().take(old(self)@.len() - 1 - n)
                },
                None => n >= old(self)@.len() && final(self)@.len() == 0,
            },
    {
        proof {
            use_type_invariant(&*self);
        }
        if n >= self.len() {
            self.back = self.front;
            return None;
        }
        let index: usize = self.back - n - 1;
        let child = self.child_at(index);
        *self = GreenChildren { back: index, back_offset: child.rel_offset, ..*self };
        proof {
            assert(self@ =~= old(self)@.take(old(self)@.len() - 1 - n));
            assert(self.elements() =~= old(self).elements().take(old(self)@.len() - 1 - n));
        }
        Some(child)
    }
}

impl<'a> Clone for GreenChildren<'a> {
    fn clone(&self) -> (children: GreenChildren<'a>)
        ensures
            children@ == self@,
            children.elements() == self.elements(),
    {
        proof {
            use_type_invariant(self);
        }
        GreenChildren {
            node: self.node,
            front: self.front,
            back: self.back,
            front_offset: self.front_offset,
            back_offset: self.back_offset,
        }
    }
}

impl<'a> Clone for Children<'a> {
    fn clone(&self) -> (children: Children<'a>)
        ensures
            children@ == self@,
            children.elements() == self.elements(),
    {
        Children { raw: self.raw.clone() }
    }
}

impl GreenNodeData {
    /// The elements, borrowed.
    pub open spec fn borrowed<'a>(elements: Seq<GreenElement>) -> Seq<GreenElementRef<'a>> {
        elements.map_values(|element: GreenElement| element.as_ref())
    }

    /// Children of this node, with their offsets.
    pub fn children_with_offsets(&self) -> (children: GreenChildren<'_>)
        ensures
            children@ == Tree::placed(self@.children(), 0, self@.children().len() as int),
            children.elements() == GreenNodeData::borrowed(self.elements()),
    {
        GreenChildren::new(self)
    }

    /// Children of this node.
    pub fn children(&self) -> (children: Children<'_>)
        ensures
            children@ == self@.children(),
            children.elements() == GreenNodeData::borrowed(self.elements()),
    {
        let children = Children { raw: self.children_with_offsets() };
        proof {
            assert(children@ =~= self@.children());
        }
        children
    }
}

/// The element that a visited child is.
fn element_of<'a>(child: Option<GreenChildRef<'a>>) -> (element: Option<GreenElementRef<'a>>)
    ensures
        element == (match child {
            Some(child) => Some(child.element),
            None => None,
        }),
{
    match child {
        Some(child) => Some(child.as_ref()),
        None => None,
    }
}

impl<'a> Children<'a> {
    /// The children that are still to be visited, from left to right.
    pub closed spec fn view(&self) -> Seq<Tree> {
        self.raw@.map_values(|child: (nat, Tree)| child.1)
    }

    /// The elements that are still to be visited, from left to right.
    pub closed spec fn elements(&self) -> Seq<GreenElementRef<'a>> {
        self.raw.elements()
    }

    /// How many children are still to be visited.
    pub fn len(&self) -> (len: usize)
        ensures
            len == self@.len(),
    {
        self.raw.len()
    }

    /// Visits the first of the remaining children.
    pub fn next(&mut self) -> (child: Option<GreenElementRef<'a>>)
        ensures
            match child {
                Some(child) => {
                    &&& old(self)@.len() > 0
                    &&& child@ == old(self)@.first()
                    &&& child == old(self).elements().first()
                    &&& final(self)@ == old(self)@.drop_first()
                    &&& final(self).elements() == old(self).elements().drop_first()
                },
                None => old(self)@.len() == 0 && *final(self) == *old(self),
            },
    {
        let child = element_of(self.raw.next());
        proof {
            if child is Some {
                assert(self@ =~= old(self)@.drop_first());
                assert(self.elements() =~= old(self).elements().drop_first());
            }
        }
        child
    }

    /// How many children are still to be visited, as a lower and an upper bound.
    pub fn size_hint(&self) -> (hint: (usize, Option<usize>))
        ensures
            hint.0 == self@.len(),
            hint.1 == Some(hint.0),
    {
        self.raw.size_hint()
    }

    /// How many children are still to be visited.
    pub fn count(self) -> (count: usize)
        ensures
            count == self@.len(),
    {
        self.raw.count()
    }

    /// Passes over `n` of the remaining children and visits the next one.
    pub fn nth(&mut self, n: usize) -> (child: Option<GreenElementRef<'a>>)
        ensures
            match child {
                Some(child) => {
                    &&& n < old(self)@.len()
                    &&& child@ == old(self)@[n as int]
                    &&& child == old(self).elements()[n as int]
                    &&& final(self)@ == old(self)@.skip(n + 1)
                    &&& final(self).elements() == old(self).elements().skip(n + 1)
                },
                None => n >= old(self)@.len() && final(self)@.len() == 0,
            },
    {
        let child = element_of(self.raw.nth(n));
        proof {
            if child is Some {
                assert(self@ =~= old(self)@.skip(n + 1));
                assert(self.elements() =~= old(self).elements().skip(n + 1));
            }
        }
        child
    }

    /// Visits the last of the remaining children.
    pub fn next_back(&mut self) -> (child: Option<GreenElementRef<'a>>)
        ensures
            match child {
                Some(child) => {
                    &&& old(self)@.len() > 0
                    &&& child@ == old(self)@.last()
                    &&& child == old(self).elements().last()
                    &&& final(self)@ == old(self)@.drop_last()
                    &&& final(self).elements() == old(self).elements().drop_last()
                },
                None => old(self)@.len() == 0 && *final(self) == *old(self),
            },
    {
        let child = element_of(self.raw.next_back());
        proof {
            if child is Some {
                assert(self@ =~= old(self)@.drop_last());
                assert(self.elements() =~= old(self).elements().drop_last());
            }
        }
        child
    }

    /// Passes over the last `n` of the remaining children and visits the one before them.
    pub fn nth_back(&mut self, n: usize) -> (child: Option<GreenElementRef<'a>>)
        ensures
            match child {
                Some(child) => {
                    &&& n < old(self)@.len()
                    &&& child@ == old(self)@[old(self)@.len() - 1 - n]
                    &&& child == old(self).elements()[old(self)@.len() - 1 - n]
                    &&& final(self)@ == old(self)@.take(old(self)@.len() - 1 - n)
                    &&& final(self).elements() == old(self).elements().take(old(self)@.len() - 1 - n)
                },
                None => n >= old(self)@.len() && final(self)@.len() == 0,
            },
    {
        let child = element_of(self.raw.nth_back(n));
        proof {
            if child is Some {
                assert(self@ =~= old(self)@.take(old(self)@.len() - 1 - n));
                assert(self.elements() =~= old(self).elements().take(old(self)@.len() - 1 - n));
            }
        }
        child
    }
}

} // verus!
