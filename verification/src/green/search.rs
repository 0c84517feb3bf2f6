//! Finding the child that a range of offsets belongs to.

use crate::green::element::GreenElementRef;
use crate::green::node::{GreenNodeData, CHILDREN_PER_CHECKPOINT};
use crate::green::tree::Tree;
use crate::text::{RangeOrder, TextRange, TextSize};
use vstd::prelude::*;

verus! {

/// How many of the recorded offsets do not lie behind `start`.
fn partition_point(checkpoints: &[TextSize], start: TextSize) -> (point: usize)
    requires
        forall|i: int, j: int|
            0 <= i <= j < checkpoints@.len() ==> (#[trigger] checkpoints@[i]).raw <= (
            #[trigger] checkpoints@[j]).raw,
    ensures
        point <= checkpoints@.len(),
        forall|i: int| 0 <= i < point ==> (#[trigger] checkpoints@[i]).raw <= start.raw,
        forall|i: int|
            point <= i < checkpoints@.len() ==> (#[trigger] checkpoints@[i]).raw > start.raw,
{
    let mut low: usize = 0;
    let mut high: usize = checkpoints.len();
    while low < high
        invariant
            low <= high <= checkpoints@.len(),
            forall|i: int, j: int|
                0 <= i <= j < checkpoints@.len() ==> (#[trigger] checkpoints@[i]).raw <= (
                #[trigger] checkpoints@[j]).raw,
            forall|i: int| 0 <= i < low ==> (#[trigger] checkpoints@[i]).raw <= start.raw,
            forall|i: int|
                high <= i < checkpoints@.len() ==> (#[trigger] checkpoints@[i]).raw > start.raw,
        decreases high - low,
    {
        let middle: usize = low + (high - low) / 2;
        if checkpoints[middle].raw <= start.raw {
            low = middle + 1;
        } else {
            high = middle;
        }
    }
    low
}

impl Tree {
    /// Whether the tree with index `i` covers all offsets from `lo` to `hi`, ends included.
    pub open spec fn spans(trees: Seq<Tree>, i: nat, lo: nat, hi: nat) -> bool {
        &&& i < trees.len()
        &&& Tree::offset_of(trees, i) <= lo
        &&& hi <= Tree::offset_of(trees, i + 1)
    }

    /// Whether the tree with index `i` is the one that an offset range belongs to: it covers the
    /// range, and where others do too, the range is a single offset and the tree is the last one
    /// that ends there.
    pub open spec fn owns(trees: Seq<Tree>, i: nat, lo: nat, hi: nat) -> bool {
        &&& Tree::spans(trees, i, lo, hi)
        &&& forall|j: nat| #[trigger]
            Tree::spans(trees, j, lo, hi) && j != i ==> Tree::offset_of(trees, i + 1) == lo && (
            Tree::offset_of(trees, j + 1) > lo || j < i)
    }

    /// A range belongs to at most one of the trees.
    pub proof fn lemma_owner_is_unique(trees: Seq<Tree>, i: nat, j: nat, lo: nat, hi: nat)
        requires
            Tree::owns(trees, i, lo, hi),
            Tree::owns(trees, j, lo, hi),
        ensures
            i == j,
    {
        assert(Tree::spans(trees, i, lo, hi));
        assert(Tree::spans(trees, j, lo, hi));
    }

    /// A tree with text owns the range that it covers, and every range within that is not empty.
    pub proof fn lemma_owns_own_range(trees: Seq<Tree>, i: nat, lo: nat, hi: nat)
        requires
            i < trees.len(),
            Tree::offset_of(trees, i) <= lo < hi <= Tree::offset_of(trees, i + 1),
        ensures
            Tree::owns(trees, i, lo, hi),
    {
        assert forall|j: nat| #[trigger] Tree::spans(trees, j, lo, hi) && j != i implies false by {
            if j < i {
                Tree::lemma_offsets_ascend(trees, j + 1, i);
            } else {
                Tree::lemma_offsets_ascend(trees, i + 1, j);
            }
        }
    }

    /// Some tree owns a range that lies within one.
    pub proof fn lemma_some_tree_owns(trees: Seq<Tree>, i: nat, lo: nat, hi: nat)
        requires
            lo <= hi,
            Tree::spans(trees, i, lo, hi),
        ensures
            exists|j: nat| Tree::owns(trees, j, lo, hi),
    {
        let point = Tree::first_after(trees, 0, lo);
        Tree::lemma_first_after(trees, 0, lo);
        Tree::lemma_owner(trees, point, lo, hi);
    }

    /// The first tree from `from` on that does not end before, or at, `lo`.
    spec fn first_after(trees: Seq<Tree>, from: nat, lo: nat) -> nat
        decreases trees.len() - from,
    {
        if from >= trees.len() || Tree::offset_of(trees, from + 1) > lo {
            from
        } else {
            Tree::first_after(trees, from + 1, lo)
        }
    }

    proof fn lemma_first_after(trees: Seq<Tree>, from: nat, lo: nat)
        requires
            from <= trees.len(),
            forall|i: nat| i < from ==> #[trigger] Tree::offset_of(trees, i + 1) <= lo,
        ensures
            ({
                let point = Tree::first_after(trees, from, lo);
                &&& point <= trees.len()
                &&& forall|i: nat| i < point ==> #[trigger] Tree::offset_of(trees, i + 1) <= lo
                &&& point < trees.len() ==> Tree::offset_of(trees, point + 1) > lo
            }),
        decreases trees.len() - from,
    {
        if from < trees.len() && Tree::offset_of(trees, from + 1) <= lo {
            Tree::lemma_first_after(trees, from + 1, lo);
        }
    }

    /// The search for the child that a range belongs to ends with the right one: `point` is the
    /// first child that does not end before, or where, the range starts.
    proof fn lemma_owner(trees: Seq<Tree>, point: nat, lo: nat, hi: nat)
        requires
            lo <= hi,
            0 < trees.len(),
            point <= trees.len(),
            forall|i: nat| i < point ==> #[trigger] Tree::offset_of(trees, i + 1) <= lo,
            point < trees.len() ==> Tree::offset_of(trees, point + 1) > lo,
        ensures
            ({
                let candidate = if point < trees.len() && (hi > Tree::offset_of(trees, point)
                    || point == 0) {
                    point
                } else {
                    (point - 1) as nat
                };
                &&& candidate < trees.len()
                &&& Tree::spans(trees, candidate, lo, hi) ==> Tree::owns(trees, candidate, lo, hi)
                &&& !Tree::spans(trees, candidate, lo, hi) ==> forall|j: nat|
                    !#[trigger] Tree::spans(trees, j, lo, hi)
            }),
    {
        let candidate = if point < trees.len() && (hi > Tree::offset_of(trees, point) || point
            == 0) {
            point
        } else {
            (point - 1) as nat
        };
        assert forall|j: nat| #[trigger] Tree::spans(trees, j, lo, hi) && j != candidate implies {
            &&& Tree::spans(trees, candidate, lo, hi)
            &&& Tree::offset_of(trees, candidate + 1) == lo
            &&& (Tree::offset_of(trees, j + 1) > lo || j < candidate)
        } by {
            Tree::lemma_child_fits(trees, j);
            Tree::lemma_child_fits(trees, candidate);
            if j < candidate {
                Tree::lemma_offsets_ascend(trees, j + 1, candidate);
            } else {
                Tree::lemma_offsets_ascend(trees, candidate + 1, j);
            }
            if point < trees.len() {
                Tree::lemma_child_fits(trees, point);
                if point < j {
                    Tree::lemma_offsets_ascend(trees, point + 1, j);
                }
            }
            if j < point {
                Tree::lemma_offsets_ascend(trees, j + 1, point);
            }
        }
    }
}

impl GreenNodeData {
    /// The child that a range of offsets belongs to, with its index and where it starts.
    ///
    /// A child is found if one covers the range. Where a single offset lies between two children,
    /// the one on the left is meant; of empty children at that offset, the last.
    pub fn child_at_range(&self, rel_range: TextRange) -> (found: Option<
        (usize, TextSize, GreenElementRef<'_>),
    >)
        ensures
            match found {
                Some((index, offset, child)) => {
                    &&& Tree::owns(self@.children(), index as nat, rel_range.lo(), rel_range.hi())
                    &&& offset.bytes() == Tree::offset_of(self@.children(), index as nat)
                    &&& child == self.child_at(index as int)
                    &&& child@ == self@.children()[index as int]
                    &&& index < self@.children().len()
                    &&& offset.bytes() <= rel_range.lo()
                    &&& rel_range.hi() <= offset.bytes() + child@.text_len()
                },
                None => forall|j: nat|
                    !#[trigger] Tree::spans(self@.children(), j, rel_range.lo(), rel_range.hi()),
            },
            found is None ==> forall|j: nat|
                j < self@.children().len() && #[trigger] Tree::offset_of(self@.children(), j)
                    <= rel_range.lo() ==> rel_range.hi() > Tree::offset_of(self@.children(), j)
                    + self@.children()[j as int].text_len(),
    {
        let ghost trees = self@.children();
        self.limits();
        let child_count: usize = self.child_count();
        if child_count == 0 {
            return None;
        }
        let range_start = rel_range.start();
        let checkpoints = self.checkpoints();
        proof {
            assert forall|i: int, j: int| 0 <= i <= j < checkpoints@.len() implies (
            #[trigger] checkpoints@[i]).raw <= (#[trigger] checkpoints@[j]).raw by {
                Tree::lemma_offsets_ascend(trees, (4 * (i + 1)) as nat, (4 * (j + 1)) as nat);
            }
        }
        let block: usize = partition_point(checkpoints, range_start);
        let start: usize = block * CHILDREN_PER_CHECKPOINT;
        let end: usize = if child_count - start > CHILDREN_PER_CHECKPOINT {
            start + CHILDREN_PER_CHECKPOINT
        } else {
            child_count
        };
        let mut rel_offset = GreenNodeData::block_offset(checkpoints, block);
        let mut candidate: Option<(usize, TextSize)> = if start > 0 {
            Some((start - 1, self.child_offset(start - 1)))
        } else {
            None
        };
        proof {
            assert forall|i: nat| i < start implies #[trigger] Tree::offset_of(trees, i + 1)
                <= rel_range.lo() by {
                assert(checkpoints@[block - 1].raw <= range_start.raw);
                Tree::lemma_offsets_ascend(trees, i + 1, start as nat);
            }
            if end < child_count {
                assert(checkpoints@[block as int].raw > range_start.raw);
            }
        }
        let mut index: usize = start;
        let mut decided = false;
        while index < end && !decided
            invariant
                trees == self@.children(),
                Tree::total_len(trees) <= u32::MAX,
                0 < trees.len(),
                start <= index <= end <= trees.len(),
                rel_range.lo() <= rel_range.hi(),
                range_start.bytes() == rel_range.lo(),
                end < trees.len() ==> Tree::offset_of(trees, end as nat) > rel_range.lo(),
                forall|i: nat|
                    i < index ==> #[trigger] Tree::offset_of(trees, i + 1) <= rel_range.lo(),
                candidate matches Some((i, offset)) ==> i < trees.len() && offset.bytes()
                    == Tree::offset_of(trees, i as nat),
                !decided ==> rel_offset.bytes() == Tree::offset_of(trees, index as nat),
                !decided && index == 0 ==> candidate is None,
                !decided && index > 0 ==> candidate is Some && candidate.unwrap().0 == index - 1,
                decided ==> index < end && Tree::offset_of(trees, (index + 1) as nat)
                    > rel_range.lo(),
                decided ==> candidate is Some && candidate.unwrap().0 == (if rel_range.hi()
                    > Tree::offset_of(trees, index as nat) || index == 0 {
                    index as int
                } else {
                    index - 1
                }),
            decreases (if decided { 0int } else { end - index + 1 }),
        {
            proof {
                Tree::lemma_child_fits(trees, index as nat);
            }
            let element_len = self.child_ref(index).text_len();
            let child_range = TextRange::at(rel_offset, element_len);
            let current = (index, rel_offset);
            rel_offset = TextSize::new(rel_offset.raw + element_len.raw);
            match TextRange::ordering(child_range, rel_range) {
                RangeOrder::Before => {
                    candidate = Some(current);
                    index = index + 1;
                },
                RangeOrder::Overlapping => {
                    candidate = Some(current);
                    decided = true;
                },
                RangeOrder::After => {
                    if candidate.is_none() {
                        candidate = Some(current);
                    }
                    decided = true;
                },
            }
        }
        proof {
            if !decided && index < trees.len() {
                assert(index == end);
                assert(Tree::offset_of(trees, (end - 1) as nat + 1) <= rel_range.lo());
                assert(false);
            }
            Tree::lemma_owner(trees, index as nat, rel_range.lo(), rel_range.hi());
            assert forall|j: nat|
                j < trees.len() && #[trigger] Tree::offset_of(trees, j) <= rel_range.lo()
                    && rel_range.hi() <= Tree::offset_of(trees, j)
                    + trees[j as int].text_len() implies Tree::spans(
                trees,
                j,
                rel_range.lo(),
                rel_range.hi(),
            ) by {
                Tree::lemma_child_fits(trees, j);
            }
        }
        match candidate {
            Some((index, offset)) => {
                proof {
                    Tree::lemma_child_fits(trees, index as nat);
                }
                let child = self.child_ref(index);
                if TextRange::at(offset, child.text_len()).contains_range(rel_range) {
                    Some((index, offset, child))
                } else {
                    None
                }
            },
            None => None,
        }
    }
}

} // verus!
