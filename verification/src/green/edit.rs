//! New nodes that differ from an existing one in some of its children.

use crate::green::element::GreenElement;
use crate::green::node::{GreenNode, GreenNodeData};
use crate::green::tree::Tree;
use core::ops::Range;
use vstd::prelude::*;

verus! {

impl Tree {
    /// The trees in which those from `start` to `end` make way for the trees `with`.
    pub open spec fn spliced(trees: Seq<Tree>, start: int, end: int, with: Seq<Tree>) -> Seq<Tree> {
        trees.take(start) + with + trees.skip(end)
    }

    /// The trees in which the one at `index` makes way for `with`; without a tree there, the same
    /// trees.
    pub open spec fn replaced(trees: Seq<Tree>, index: int, with: Tree) -> Seq<Tree> {
        if 0 <= index < trees.len() {
            trees.update(index, with)
        } else {
            trees
        }
    }

    /// What a splice does to the text: the part before and the part behind stay.
    pub proof fn lemma_spliced_text(trees: Seq<Tree>, start: int, end: int, with: Seq<Tree>)
        requires
            0 <= start <= end <= trees.len(),
        ensures
            Tree::total_text(Tree::spliced(trees, start, end, with)) == Tree::total_text(
                trees.take(start),
            ) + Tree::total_text(with) + Tree::total_text(trees.skip(end)),
            Tree::total_text(trees) == Tree::total_text(trees.take(start)) + Tree::total_text(
                trees.subrange(start, end),
            ) + Tree::total_text(trees.skip(end)),
            Tree::total_len(Tree::spliced(trees, start, end, with)) == Tree::total_len(trees)
                - Tree::total_len(trees.subrange(start, end)) + Tree::total_len(with),
    {
        let (left, middle, right) = (
            trees.take(start),
            trees.subrange(start, end),
            trees.skip(end),
        );
        Tree::lemma_total_concat(left, with);
        Tree::lemma_total_concat(left + with, right);
        Tree::lemma_total_concat(left, middle);
        Tree::lemma_total_concat(left + middle, right);
        assert(left + middle + right =~= trees);
    }

    /// Removing what was inserted gives back the trees.
    pub proof fn lemma_remove_undoes_insert(trees: Seq<Tree>, index: int, with: Tree)
        requires
            0 <= index <= trees.len(),
        ensures
            Tree::spliced(
                Tree::spliced(trees, index, index, seq![with]),
                index,
                index + 1,
                Seq::empty(),
            ) == trees,
    {
        assert(Tree::spliced(
            Tree::spliced(trees, index, index, seq![with]),
            index,
            index + 1,
            Seq::empty(),
        ) =~= trees);
    }

    /// Inserting what was removed gives back the trees.
    pub proof fn lemma_insert_undoes_remove(trees: Seq<Tree>, index: int)
        requires
            0 <= index < trees.len(),
        ensures
            Tree::spliced(
                Tree::spliced(trees, index, index + 1, Seq::empty()),
                index,
                index,
                seq![trees[index]],
            ) == trees,
    {
        assert(Tree::spliced(
            Tree::spliced(trees, index, index + 1, Seq::empty()),
            index,
            index,
            seq![trees[index]],
        ) =~= trees);
    }

    /// Replacing a tree is splicing in one for one, and replacing it by itself changes nothing.
    pub proof fn lemma_replace_is_splice(trees: Seq<Tree>, index: int, with: Tree)
        requires
            0 <= index < trees.len(),
        ensures
            Tree::replaced(trees, index, with) == Tree::spliced(
                trees,
                index,
                index + 1,
                seq![with],
            ),
            Tree::replaced(trees, index, trees[index]) == trees,
    {
        assert(Tree::replaced(trees, index, with) =~= Tree::spliced(
            trees,
            index,
            index + 1,
            seq![with],
        ));
        assert(Tree::replaced(trees, index, trees[index]) =~= trees);
    }
}

impl GreenNodeData {
    /// Handles to the children from `start` to `end`, behind the elements `before`.
    fn collect_children(&self, before: Vec<GreenElement>, start: usize, end: usize) -> (all: Vec<
        GreenElement,
    >)
        requires
            start <= end <= self@.children().len(),
        ensures
            all@ == before@ + self.elements().subrange(start as int, end as int),
            GreenNode::trees(all@) == GreenNode::trees(before@) + self@.children().subrange(
                start as int,
                end as int,
            ),
    {
        let ghost trees = self@.children();
        let ghost elements = self.elements();
        let mut all = before;
        let ghost done = GreenNode::trees(before@);
        proof {
            self.lemma_elements();
            assert(all@ =~= before@ + elements.subrange(start as int, start as int));
            assert(GreenNode::trees(all@) =~= done + trees.subrange(start as int, start as int));
        }
        let mut index: usize = start;
        while index < end
            invariant
                start <= index <= end <= trees.len(),
                trees == self@.children(),
                elements == self.elements(),
                elements.len() == trees.len(),
                all@ == before@ + elements.subrange(start as int, index as int),
                GreenNode::trees(all@) == done + trees.subrange(start as int, index as int),
            decreases end - index,
        {
            let ghost collected = all@;
            if let Some(child) = self.child(index) {
                all.push(child.to_owned());
            }
            proof {
                assert(all@.last() == elements[index as int]);
                assert(all@ =~= before@ + elements.subrange(start as int, index + 1));
                assert(GreenNode::trees(all@) =~= GreenNode::trees(collected).push(
                    trees[index as int],
                ));
                assert(done + trees.subrange(start as int, index as int).push(trees[index as int])
                    =~= done + trees.subrange(start as int, index + 1));
            }
            index = index + 1;
        }
        all
    }

    /// Handles to all children.
    pub(crate) fn owned_children(&self) -> (children: Vec<GreenElement>)
        ensures
            children@ == self.elements(),
            GreenNode::trees(children@) == self@.children(),
    {
        let children = self.collect_children(Vec::new(), 0, self.child_count());
        proof {
            self.lemma_elements();
            assert(children@ =~= self.elements());
            assert(GreenNode::trees(children@) =~= self@.children());
        }
        children
    }

    /// A node like this one, with another child at `index`.
    #[must_use]
    pub fn replace_child(&self, index: usize, new_child: GreenElement) -> (node: GreenNode)
        requires
            Tree::total_len(Tree::replaced(self@.children(), index as int, new_child@))
                <= u32::MAX,
        ensures
            node@ == (Tree::Node {
                kind: self@.kind(),
                children: Tree::replaced(self@.children(), index as int, new_child@),
            }),
            node.elements() == (if index < self.elements().len() {
                self.elements().update(index as int, new_child)
            } else {
                self.elements()
            }),
    {
        let ghost trees = self@.children();
        let ghost elements = self.elements();
        proof {
            self.lemma_elements();
        }
        let child_count: usize = self.child_count();
        let mut children: Vec<GreenElement> = Vec::new();
        if index < child_count {
            children = self.collect_children(children, 0, index);
            children.push(new_child);
            proof {
                assert(GreenNode::trees(children@) =~= trees.take(index as int).push(new_child@));
            }
            children = self.collect_children(children, index + 1, child_count);
            proof {
                assert(children@ =~= elements.update(index as int, new_child));
            }
        } else {
            children = self.collect_children(children, 0, child_count);
            proof {
                assert(children@ =~= elements);
            }
        }
        proof {
            assert(GreenNode::trees(children@) =~= Tree::replaced(
                trees,
                index as int,
                new_child@,
            ));
            assert(children@.len() == GreenNode::trees(children@).len());
        }
        GreenNode::new(self.kind(), children)
    }

    /// A node like this one, with one more child at `index`.
    #[must_use]
    pub fn insert_child(&self, index: usize, new_child: GreenElement) -> (node: GreenNode)
        requires
            index <= self@.children().len() < u32::MAX,
            Tree::total_len(self@.children()) + new_child@.text_len() <= u32::MAX,
        ensures
            node@ == (Tree::Node {
                kind: self@.kind(),
                children: Tree::spliced(
                    self@.children(),
                    index as int,
                    index as int,
                    seq![new_child@],
                ),
            }),
            node.elements() == self.elements().insert(index as int, new_child),
    {
        let mut with: Vec<GreenElement> = Vec::new();
        with.push(new_child);
        proof {
            assert(GreenNode::trees(with@) =~= seq![new_child@]);
            Tree::lemma_total_single(new_child@);
            Tree::lemma_spliced_text(self@.children(), index as int, index as int, seq![new_child@]);
            assert(self@.children().subrange(index as int, index as int) =~= Seq::empty());
        }
        let node = self.splice_children(Range { start: index, end: index }, with);
        proof {
            self.lemma_elements();
            assert(node.elements() =~= self.elements().insert(index as int, new_child));
        }
        node
    }

    /// A node like this one, without the child at `index`.
    #[must_use]
    pub fn remove_child(&self, index: usize) -> (node: GreenNode)
        requires
            index < self@.children().len(),
        ensures
            node@ == (Tree::Node {
                kind: self@.kind(),
                children: Tree::spliced(
                    self@.children(),
                    index as int,
                    index + 1,
                    Seq::empty(),
                ),
            }),
            node.elements() == self.elements().remove(index as int),
    {
        let with: Vec<GreenElement> = Vec::new();
        self.limits();
        proof {
            assert(GreenNode::trees(with@) =~= Seq::empty());
            Tree::lemma_spliced_text(self@.children(), index as int, index + 1, Seq::empty());
        }
        let node = self.splice_children(Range { start: index, end: index + 1 }, with);
        proof {
            self.lemma_elements();
            assert(node.elements() =~= self.elements().remove(index as int));
        }
        node
    }

    /// A node like this one, in which the children in `range` make way for others.
    #[must_use]
    pub fn splice_children(&self, range: Range<usize>, replace_with: Vec<GreenElement>) -> (node:
        GreenNode)
        requires
            range.start <= range.end <= self@.children().len(),
            Tree::spliced(
                self@.children(),
                range.start as int,
                range.end as int,
                GreenNode::trees(replace_with@),
            ).len() <= u32::MAX,
            Tree::total_len(
                Tree::spliced(
                    self@.children(),
                    range.start as int,
                    range.end as int,
                    GreenNode::trees(replace_with@),
                ),
            ) <= u32::MAX,
        ensures
            node@ == (Tree::Node {
                kind: self@.kind(),
                children: Tree::spliced(
                    self@.children(),
                    range.start as int,
                    range.end as int,
                    GreenNode::trees(replace_with@),
                ),
            }),
            node.elements() == self.elements().take(range.start as int) + replace_with@
                + self.elements().skip(range.end as int),
    {
        let ghost trees = self@.children();
        let ghost with = GreenNode::trees(replace_with@);
        let mut replace_with = replace_with;
        let mut children: Vec<GreenElement> = self.collect_children(Vec::new(), 0, range.start);
        let ghost left = children@;
        let ghost middle = replace_with@;
        children.append(&mut replace_with);
        proof {
            assert(GreenNode::trees(left + middle) =~= GreenNode::trees(left) + GreenNode::trees(
                middle,
            ));
        }
        let children = self.collect_children(children, range.end, self.child_count());
        proof {
            self.lemma_elements();
            assert(children@ =~= self.elements().take(range.start as int) + middle
                + self.elements().skip(range.end as int));
            assert(GreenNode::trees(children@) =~= Tree::spliced(
                trees,
                range.start as int,
                range.end as int,
                with,
            ));
            assert(children@.len() == GreenNode::trees(children@).len());
        }
        GreenNode::new(self.kind(), children)
    }
}

} // verus!
