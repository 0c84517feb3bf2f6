//! The pools of all sizes of blocks.

use crate::green::allocator::{
    block_address, block_size_for, class, is_page_base, is_pooled, CHUNK_SIZE, CLASS_COUNT,
};
use crate::green::layout::Layout;
use crate::green::pool::{lemma_chunks_fit, order_without, page_base_of, Pool};
use vstd::prelude::*;

verus! {

/// One pool for each size of blocks.
pub struct Pools {
    pools: Vec<Pool>,
}

/// Where a piece of storage comes from.
#[derive(Debug, Clone, Copy, PartialEq, Eq, Structural)]
pub enum Allocation {
    /// Not from the pools.
    Unpooled,
    /// From the pools, once they have been given another page.
    NeedsPage,
    /// From the block that starts at this address.
    Block(usize),
}

/// What becomes of a piece of storage.
#[derive(Debug, Clone, Copy, PartialEq, Eq, Structural)]
pub enum Deallocation {
    /// It did not come from the pools.
    Unpooled,
    /// Its block can be used again.
    Kept,
    /// The pools have no more use for the page that starts at this address.
    Released(usize),
}

/// The class of the blocks that pieces of storage of this size come from.
pub open spec fn class_of(layout: Layout) -> int {
    block_size_for(layout.size as int) / 4 - 1
}

impl Pools {
    /// The pools, by the size of their blocks.
    pub closed spec fn view(&self) -> Seq<Pool> {
        self.pools@
    }

    /// Whether each pool is consistent and no page belongs to two pools.
    pub open spec fn wf(self) -> bool {
        &&& self@.len() == CLASS_COUNT
        &&& forall|c: int|
            0 <= c < CLASS_COUNT ==> (#[trigger] self@[c]).wf() && self@[c].block_size_spec() == 4
                * (c + 1)
        &&& forall|c: int, d: int|
            0 <= c < CLASS_COUNT && 0 <= d < CLASS_COUNT && c != d ==> (
            #[trigger] self@[c]).bases().disjoint((#[trigger] self@[d]).bases())
    }

    /// Whether a page belongs to none of the pools.
    pub open spec fn is_unknown(self, base: usize) -> bool {
        forall|c: int| 0 <= c < CLASS_COUNT ==> !(#[trigger] self@[c]).bases().contains(base)
    }

    /// Pools without pages.
    pub fn new() -> (pools: Pools)
        ensures
            pools.wf(),
            forall|c: int|
                0 <= c < CLASS_COUNT ==> {
                    &&& (#[trigger] pools@[c]).bases() == Set::<usize>::empty()
                    &&& pools@[c].page_count() == 0
                    &&& pools@[c].order() == Seq::<usize>::empty()
                    &&& pools@[c].live() == Set::<int>::empty()
                },
    {
        let mut pools: Vec<Pool> = Vec::new();
        while pools.len() < CLASS_COUNT
            invariant
                pools@.len() <= CLASS_COUNT,
                forall|c: int|
                    0 <= c < pools@.len() ==> {
                        &&& (#[trigger] pools@[c]).wf()
                        &&& pools@[c].block_size_spec() == 4 * (c + 1)
                        &&& pools@[c].bases() == Set::<usize>::empty()
                        &&& pools@[c].page_count() == 0
                        &&& pools@[c].order() == Seq::<usize>::empty()
                        &&& pools@[c].live() == Set::<int>::empty()
                    },
            decreases CLASS_COUNT - pools@.len(),
        {
            let size: usize = 4 * (pools.len() + 1);
            pools.push(Pool::new(size));
        }
        Pools { pools }
    }

    /// Whether some pools became others when storage was asked for.
    pub open spec fn takes(
        before: Pools,
        after: Pools,
        layout: Layout,
        allocation: Allocation,
    ) -> bool {
        let pool = before@[class_of(layout)];
        let left = after@[class_of(layout)];
        match allocation {
            Allocation::Unpooled => !is_pooled(layout) && after@ == before@,
            Allocation::NeedsPage => {
                &&& is_pooled(layout)
                &&& pool.is_exhausted()
                &&& after@ == before@
            },
            Allocation::Block(address) => {
                &&& is_pooled(layout)
                &&& !pool.is_exhausted()
                &&& Pool::allocates(pool, left, address)
                &&& left.block_size_spec() >= layout.size
                &&& after@ == before@.update(class_of(layout), left)
            },
        }
    }

    /// Finds storage.
    pub fn allocate(&mut self, layout: Layout) -> (allocation: Allocation)
        requires
            old(self).wf(),
        ensures
            final(self).wf(),
            Pools::takes(*old(self), *final(self), layout, allocation),
    {
        match class(layout) {
            Some((class, _)) => {
                if self.pools[class].needs_page() {
                    return Allocation::NeedsPage;
                }
                let address: usize = self.pools[class].allocate();
                proof {
                    let after = self@[class as int];
                    assert(self@ =~= old(self)@.update(class as int, after));
                }
                Allocation::Block(address)
            },
            None => Allocation::Unpooled,
        }
    }

    /// Takes in a page that starts at `base`, for storage of this size.
    pub fn add_page(&mut self, layout: Layout, base: usize)
        requires
            old(self).wf(),
            is_pooled(layout),
            is_page_base(base as int),
            old(self).is_unknown(base),
        ensures
            final(self).wf(),
            ({
                let before = old(self)@[class_of(layout)];
                let after = final(self)@[class_of(layout)];
                &&& after.bases() == before.bases().insert(base)
                &&& after.page_count() == before.page_count() + 1
                &&& after.order() == before.order().push(base)
                &&& after.page_at(base).is_unused()
                &&& after.same_pages_but(before, base)
                &&& after.live() == before.live()
                &&& !after.is_exhausted()
                &&& final(self)@ == old(self)@.update(class_of(layout), after)
            }),
    {
        if let Some((class, _)) = class(layout) {
            self.pools[class].add_page(base);
            proof {
                let after = self@[class as int];
                assert(self@ =~= old(self)@.update(class as int, after));
            }
        }
    }

    /// Whether some pools became others when the storage at this address was given back.
    pub open spec fn frees(
        before: Pools,
        after: Pools,
        layout: Layout,
        address: usize,
        deallocation: Deallocation,
    ) -> bool {
        let pool = before@[class_of(layout)];
        let left = after@[class_of(layout)];
        &&& deallocation is Unpooled == !is_pooled(layout)
        &&& match deallocation {
            Deallocation::Unpooled => after@ == before@,
            Deallocation::Kept => {
                &&& Pool::frees(pool, left, address, None)
                &&& after@ == before@.update(class_of(layout), left)
            },
            Deallocation::Released(base) => {
                &&& Pool::frees(pool, left, address, Some(base))
                &&& after@ == before@.update(class_of(layout), left)
            },
        }
    }

    /// Gives storage back.
    pub fn deallocate(&mut self, layout: Layout, address: usize) -> (deallocation: Deallocation)
        requires
            old(self).wf(),
            is_pooled(layout) ==> old(self)@[class_of(layout)].live().contains(address as int),
        ensures
            final(self).wf(),
            Pools::frees(*old(self), *final(self), layout, address, deallocation),
    {
        match class(layout) {
            Some((class, _)) => {
                let released = self.pools[class].deallocate(address);
                proof {
                    let after = self@[class as int];
                    assert(self@ =~= old(self)@.update(class as int, after));
                }
                match released {
                    Some(base) => Deallocation::Released(base),
                    None => Deallocation::Kept,
                }
            },
            None => Deallocation::Unpooled,
        }
    }

    /// Blocks in use do not overlap, of whatever size they are.
    pub proof fn lemma_live_disjoint(self, c: int, left: int, d: int, right: int)
        requires
            self.wf(),
            0 <= c < CLASS_COUNT,
            0 <= d < CLASS_COUNT,
            self@[c].is_live(left),
            self@[d].is_live(right),
            c != d || left != right,
        ensures
            left + self@[c].block_size_spec() <= right || right + self@[d].block_size_spec()
                <= left,
    {
        if c == d {
            self@[c].lemma_live_disjoint(left, right);
        } else {
            self@[c].lemma_live_in_page(left);
            self@[d].lemma_live_in_page(right);
            assert(self@[c].bases().disjoint(self@[d].bases()));
            assert(page_base_of(left) != page_base_of(right));
        }
    }
}

impl Pools {
    /// Whether a chunk that can be given back starts at this address.
    pub open spec fn is_spare(self, address: int) -> bool {
        exists|c: int| 0 <= c < CLASS_COUNT && (#[trigger] self@[c]).is_spare(address)
    }

    /// Where the chunks that can be given back start.
    pub open spec fn spare(self) -> Set<int> {
        Set::new(|address: int| self.is_spare(address))
    }

    /// Whether the pools have the same pages and blocks in use as others.
    pub open spec fn same_blocks(self, other: Pools) -> bool {
        forall|c: int|
            0 <= c < CLASS_COUNT ==> {
                &&& (#[trigger] self@[c]).live() == other@[c].live()
                &&& self@[c].bases() == other@[c].bases()
                &&& self@[c].page_count() == other@[c].page_count()
                &&& self@[c].is_exhausted() == other@[c].is_exhausted()
                &&& self@[c].order() == other@[c].order()
            }
    }

    /// A chunk that can be given back has no part of a block in use, of whatever size.
    pub proof fn lemma_spare_is_unused(self, chunk: int, c: int, address: int)
        requires
            self.wf(),
            self.is_spare(chunk),
            0 <= c < CLASS_COUNT,
            self@[c].is_live(address),
        ensures
            address + self@[c].block_size_spec() <= chunk || chunk + CHUNK_SIZE <= address,
    {
        let d = choose|d: int| 0 <= d < CLASS_COUNT && (#[trigger] self@[d]).is_spare(chunk);
        if c == d {
            self@[c].lemma_spare_is_unused(chunk, address);
        } else {
            self@[c].lemma_live_in_page(address);
            self@[d].lemma_spare_in_page(chunk);
            assert(self@[c].bases().disjoint(self@[d].bases()));
            assert(page_base_of(chunk) != page_base_of(address));
        }
    }

    /// Where the chunks that can be given back start.
    pub fn empty_chunks(&self) -> (found: Vec<usize>)
        requires
            self.wf(),
        ensures
            Pool::addresses(found@) == self.spare(),
    {
        let mut found: Vec<usize> = Vec::new();
        let mut class: usize = 0;
        while class < CLASS_COUNT
            invariant
                self.wf(),
                class <= CLASS_COUNT,
                forall|address: int| #[trigger]
                    Pool::addresses(found@).contains(address) <==> exists|c: int|
                        0 <= c < class && (#[trigger] self@[c]).is_spare(address),
            decreases CLASS_COUNT - class,
        {
            let ghost before = found@;
            let mut more = self.pools[class].empty_chunks();
            let ghost added = more@;
            found.append(&mut more);
            class = class + 1;
            proof {
                assert forall|address: int| #[trigger] Pool::addresses(found@).contains(
                    address,
                ) <==> exists|c: int|
                    0 <= c < class && (#[trigger] self@[c]).is_spare(address) by {
                    lemma_addresses_concat(before, added, address);
                    assert(Pool::addresses(before).contains(address) <==> exists|c: int|
                        0 <= c < class - 1 && (#[trigger] self@[c]).is_spare(address));
                    assert(Pool::addresses(added).contains(address) == self@[class
                        - 1].is_spare(address));
                }
            }
        }
        proof {
            assert(Pool::addresses(found@) =~= self.spare());
        }
        found
    }
}

proof fn lemma_addresses_concat(left: Seq<usize>, right: Seq<usize>, address: int)
    ensures
        Pool::addresses(left + right).contains(address) == (Pool::addresses(left).contains(address)
            || Pool::addresses(right).contains(address)),
{
    if 0 <= address <= usize::MAX {
        let a = address as usize;
        if left.contains(a) {
            let k = choose|k: int| 0 <= k < left.len() && left[k] == a;
            assert((left + right)[k] == a);
        }
        if right.contains(a) {
            let k = choose|k: int| 0 <= k < right.len() && right[k] == a;
            assert((left + right)[left.len() + k] == a);
        }
        if (left + right).contains(a) {
            let k = choose|k: int| 0 <= k < (left + right).len() && (left + right)[k] == a;
            if k < left.len() {
                assert(left[k] == a);
            } else {
                assert(right[k - left.len()] == a);
            }
        }
    }
}

/// The chunks of the first `n` pools that can be given back, among some addresses.
spec fn trimmed(pools: Seq<Pool>, released: Seq<usize>, n: int) -> Set<int> {
    Set::new(
        |address: int|
            (exists|c: int| 0 <= c < n && (#[trigger] pools[c]).is_spare(address))
                && Pool::addresses(released).contains(address),
    )
}

/// Releases physical pages from empty internal green-tree allocation chunks.
///
/// The memory behind the addresses `released` was given back to the machine. Those of them that are
/// chunks without blocks in use are recorded as such; the result says how many bytes these are.
/// Existing syntax trees remain valid, and reclaimed chunks are reused by later allocations.
pub fn trim_memory(pools: &mut Pools, released: &[usize]) -> (reclaimed: usize)
    requires
        old(pools).wf(),
    ensures
        final(pools).wf(),
        final(pools).same_blocks(*old(pools)),
        final(pools).spare() == old(pools).spare().difference(Pool::addresses(released@)),
        old(pools).spare().intersect(Pool::addresses(released@)).finite(),
        reclaimed == CHUNK_SIZE * old(pools).spare().intersect(Pool::addresses(released@)).len(),
{
    let ghost before = *pools;
    let ghost mut done: Set<int> = Set::empty();
    let mut reclaimed: usize = 0;
    let mut class: usize = 0;
    proof {
        assert(done =~= trimmed(before@, released@, 0));
    }
    while class < CLASS_COUNT
        invariant
            before.wf(),
            class <= CLASS_COUNT,
            pools@.len() == CLASS_COUNT,
            forall|c: int|
                class <= c < CLASS_COUNT ==> #[trigger] pools@[c] == before@[c],
            forall|c: int|
                0 <= c < class ==> trimmed_pool(before@[c], #[trigger] pools@[c], released@),
            done.finite(),
            done == trimmed(before@, released@, class as int),
            reclaimed == CHUNK_SIZE * done.len(),
        decreases CLASS_COUNT - class,
    {
        let ghost pool = before@[class as int];
        proof {
            assert(pools@[class as int] == pool);
            assert(pool.wf());
        }
        let ghost more = pool.spare().intersect(Pool::addresses(released@));
        let bytes: usize = pools.pools[class].trim(released);
        proof {
            assert(done.disjoint(more)) by {
                assert forall|a: int| !(done.contains(a) && more.contains(a)) by {
                    if done.contains(a) && more.contains(a) {
                        let c = choose|c: int|
                            0 <= c < class && (#[trigger] before@[c]).is_spare(a);
                        before@[c].lemma_spare_in_page(a);
                        pool.lemma_spare_in_page(a);
                        assert(before@[c].bases().disjoint(before@[class as int].bases()));
                    }
                }
            }
            vstd::set_lib::lemma_set_disjoint_lens(done, more);
            let all = trimmed(before@, released@, class + 1);
            assert forall|a: int| #[trigger] (done + more).contains(a) == all.contains(a) by {
                if more.contains(a) {
                    assert(before@[class as int].is_spare(a));
                }
            }
            assert(done + more =~= all);
            assert forall|a: int| all.contains(a) implies 0 < a <= usize::MAX && a % 4096 == 0 by {
                let c = choose|c: int| 0 <= c < class + 1 && (#[trigger] before@[c]).is_spare(a);
                before@[c].lemma_spare_in_page(a);
            }
            lemma_chunks_fit(all);
            done = all;
        }
        reclaimed = reclaimed + bytes;
        class = class + 1;
    }
    proof {
        assert forall|c: int| 0 <= c < CLASS_COUNT implies (#[trigger] pools@[c]).wf()
            && pools@[c].block_size_spec() == 4 * (c + 1) && pools@[c].bases()
            == before@[c].bases() by {
            assert(trimmed_pool(before@[c], pools@[c], released@));
            assert(before@[c].wf());
        }
        assert forall|c: int, d: int|
            0 <= c < CLASS_COUNT && 0 <= d < CLASS_COUNT && c != d implies (
        #[trigger] pools@[c]).bases().disjoint((#[trigger] pools@[d]).bases()) by {
            assert(before@[c].bases().disjoint(before@[d].bases()));
        }
        assert(done =~= before.spare().intersect(Pool::addresses(released@)));
        assert forall|a: int| #[trigger] pools.spare().contains(a) == before.spare().difference(
            Pool::addresses(released@),
        ).contains(a) by {
            if pools.is_spare(a) {
                let c = choose|c: int| 0 <= c < CLASS_COUNT && (#[trigger] pools@[c]).is_spare(a);
                assert(trimmed_pool(before@[c], pools@[c], released@));
                assert(pools@[c].spare().contains(a));
                assert(before@[c].is_spare(a));
            }
            if before.is_spare(a) && !Pool::addresses(released@).contains(a) {
                let c = choose|c: int| 0 <= c < CLASS_COUNT && (#[trigger] before@[c]).is_spare(a);
                assert(trimmed_pool(before@[c], pools@[c], released@));
                assert(before@[c].spare().difference(Pool::addresses(released@)).contains(a));
                assert(pools@[c].is_spare(a));
            }
        }
        assert(pools.spare() =~= before.spare().difference(Pool::addresses(released@)));
    }
    reclaimed
}

/// What trimming a pool does to it.
spec fn trimmed_pool(before: Pool, after: Pool, released: Seq<usize>) -> bool {
    &&& after.wf()
    &&& after.block_size_spec() == before.block_size_spec()
    &&& after.bases() == before.bases()
    &&& after.page_count() == before.page_count()
    &&& after.live() == before.live()
    &&& after.is_exhausted() == before.is_exhausted()
    &&& after.order() == before.order()
    &&& after.spare() == before.spare().difference(Pool::addresses(released))
}

} // verus!
