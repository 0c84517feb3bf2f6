//! Pools of storage: pages of blocks, one pool for each size of blocks.
//!
//! A pool only keeps the books. The memory of its pages belongs to the caller, who hands in a page
//! when the pool needs one and gets back those that are no longer needed.

use crate::green::allocator::{
    block_address, is_block_size, is_page_base, lemma_block_within_chunk, lemma_blocks_disjoint,
    page_blocks, page_of, CHUNK_SIZE,
};
use crate::green::page::Page;
use std::collections::HashMap;
use vstd::prelude::*;

verus! {

broadcast use vstd::std_specs::hash::group_hash_axioms;

/// Where the page that an address lies in starts.
pub open spec fn page_base_of(address: int) -> int {
    address - address % 65536
}

/// Whether a block of the page that is in use starts at this address.
pub open spec fn holds(page: Page, address: int) -> bool {
    exists|index: int| #[trigger]
        page.is_live(index) && address == block_address(
            page.base_spec(),
            page.block_size_spec(),
            index,
        )
}

/// The index of the block of the page that starts at this address.
spec fn index_at(page: Page, address: int) -> int {
    choose|index: int| #[trigger]
        page.is_live(index) && address == block_address(
            page.base_spec(),
            page.block_size_spec(),
            index,
        )
}

/// A block lies in its page.
proof fn lemma_base_of_block(page: Page, index: int)
    requires
        is_page_base(page.base_spec()),
        is_block_size(page.block_size_spec()),
        0 <= index < page_blocks(page.block_size_spec()),
    ensures
        page_base_of(block_address(page.base_spec(), page.block_size_spec(), index))
            == page.base_spec(),
{
    lemma_block_within_chunk(page.base_spec(), page.block_size_spec(), index);
}

/// What it means for the addresses of its blocks that one block of a page is put into use.
proof fn lemma_holds_more(before: Page, after: Page, index: int)
    requires
        is_page_base(before.base_spec()),
        is_block_size(before.block_size_spec()),
        0 <= index < page_blocks(before.block_size_spec()),
        !before.is_live(index),
        after.base_spec() == before.base_spec(),
        after.block_size_spec() == before.block_size_spec(),
        forall|i: int| #[trigger] after.is_live(i) == (before.is_live(i) || i == index),
        forall|i: int| #[trigger]
            before.is_live(i) ==> 0 <= i < page_blocks(before.block_size_spec()),
    ensures
        ({
            let address = block_address(before.base_spec(), before.block_size_spec(), index);
            &&& !holds(before, address)
            &&& forall|a: int| #[trigger] holds(after, a) == (holds(before, a) || a == address)
        }),
{
    let (base, bs) = (before.base_spec(), before.block_size_spec());
    let address = block_address(base, bs, index);
    if holds(before, address) {
        let other = index_at(before, address);
        lemma_blocks_disjoint(base, bs, index, other);
    }
    assert forall|a: int| #[trigger] holds(after, a) == (holds(before, a) || a == address) by {
        if holds(after, a) {
            let i = index_at(after, a);
            assert(after.is_live(i));
        }
        if holds(before, a) {
            let i = index_at(before, a);
            assert(after.is_live(i));
        }
        assert(after.is_live(index));
    }
}

/// The order without one page: the last one takes its place.
pub open spec fn order_without(order: Seq<usize>, base: usize) -> Seq<usize> {
    order.update(order.index_of(base), order.last()).drop_last()
}

/// Blocks of one size.
pub struct Pool {
    block_size: usize,
    pages: Vec<Page>,
    pages_by_base: HashMap<usize, usize>,
    available: Vec<usize>,
}

impl Pool {
    spec fn page_consistent(self, p: int) -> bool {
        let page = self.pages@[p];
        &&& page.wf()
        &&& page.block_size_spec() == self.block_size
        &&& 0 <= page.base_spec() <= usize::MAX
        &&& is_page_base(page.base_spec())
        &&& self.pages_by_base@.contains_key(page.base_spec() as usize)
        &&& self.pages_by_base@[page.base_spec() as usize] == p
        &&& page.rank() is Some == !page.is_full()
        &&& page.rank() matches Some(k) ==> k < self.available@.len() && self.available@[k as int]
            == page.base_spec()
    }

    spec fn base_consistent(self, base: usize) -> bool {
        let p = self.pages_by_base@[base];
        &&& p < self.pages@.len()
        &&& self.pages@[p as int].base_spec() == base
    }

    spec fn rank_consistent(self, k: int) -> bool {
        let base = self.available@[k];
        &&& self.pages_by_base@.contains_key(base)
        &&& self.pages_by_base@[base] < self.pages@.len()
        &&& self.pages@[self.pages_by_base@[base] as int].rank() == Some(k as usize)
    }

    /// Whether the pages and the ways to find them agree.
    pub closed spec fn wf(self) -> bool {
        &&& is_block_size(self.block_size as int)
        &&& vstd::std_specs::hash::obeys_key_model::<usize>()
        &&& forall|p: int| 0 <= p < self.pages@.len() ==> #[trigger] self.page_consistent(p)
        &&& forall|base: usize|
            self.pages_by_base@.contains_key(base) ==> #[trigger] self.base_consistent(base)
        &&& forall|k: int| 0 <= k < self.available@.len() ==> #[trigger] self.rank_consistent(k)
    }

    /// The size of the blocks.
    pub closed spec fn block_size_spec(self) -> int {
        self.block_size as int
    }

    /// Where the pages start.
    pub closed spec fn bases(self) -> Set<usize> {
        self.pages_by_base@.dom()
    }

    /// Whether a block that is in use starts at this address.
    pub closed spec fn is_live(self, address: int) -> bool {
        let base = page_base_of(address);
        &&& 0 <= base <= usize::MAX
        &&& self.pages_by_base@.contains_key(base as usize)
        &&& holds(self.pages@[self.pages_by_base@[base as usize] as int], address)
    }

    /// Where the blocks that are in use start.
    pub open spec fn live(self) -> Set<int> {
        Set::new(|address: int| self.is_live(address))
    }

    /// The page that starts at `base`.
    pub closed spec fn page_at(self, base: usize) -> Page {
        self.pages@[self.pages_by_base@[base] as int]
    }

    /// Where the pages with a free block start. The last one is used next.
    pub closed spec fn order(self) -> Seq<usize> {
        self.available@
    }

    /// The order once a page has a free block.
    pub open spec fn order_with(self, base: usize) -> Seq<usize> {
        if self.page_at(base).is_full() {
            self.order().push(base)
        } else {
            self.order()
        }
    }

    /// Whether all pages but one are the same, apart from where they stand in the order.
    pub open spec fn same_pages_but(self, other: Pool, base: usize) -> bool {
        forall|b: usize|
            #![trigger self.page_at(b)]
            b != base && self.bases().contains(b) ==> self.page_at(b).same_blocks(other.page_at(b))
    }

    /// How many pages there are.
    pub closed spec fn page_count(self) -> nat {
        self.pages@.len()
    }

    /// Whether no block but the one at this address is in use on its page.
    pub open spec fn is_last_on_page(self, address: int) -> bool {
        forall|other: int| #[trigger]
            self.is_live(other) && other != address ==> page_base_of(other) != page_base_of(
                address,
            )
    }

    /// Whether all blocks of all pages are in use.
    pub closed spec fn is_exhausted(self) -> bool {
        forall|p: int| 0 <= p < self.pages@.len() ==> (#[trigger] self.pages@[p]).is_full()
    }

    /// A pool without pages.
    pub fn new(block_size: usize) -> (pool: Pool)
        requires
            is_block_size(block_size as int),
        ensures
            pool.wf(),
            pool.block_size_spec() == block_size,
            pool.bases() == Set::<usize>::empty(),
            pool.page_count() == 0,
            pool.order() == Seq::<usize>::empty(),
            pool.live() == Set::<int>::empty(),
    {
        let pool = Pool {
            block_size,
            pages: Vec::new(),
            pages_by_base: HashMap::new(),
            available: Vec::new(),
        };
        proof {
            assert(pool.bases() =~= Set::<usize>::empty());
            assert forall|address: int| !pool.live().contains(address) by {
            }
            assert(pool.live() =~= Set::<int>::empty());
        }
        pool
    }

    /// Whether the next block needs a new page.
    pub fn needs_page(&self) -> (needed: bool)
        requires
            self.wf(),
        ensures
            needed == self.is_exhausted(),
    {
        proof {
            if self.available@.len() == 0 {
                assert forall|p: int| 0 <= p < self.pages@.len() implies (
                #[trigger] self.pages@[p]).is_full() by {
                    assert(self.page_consistent(p));
                }
            } else {
                assert(self.rank_consistent(0));
                let p = self.pages_by_base@[self.available@[0]] as int;
                assert(self.page_consistent(p));
                assert(!self.pages@[p].is_full());
            }
        }
        self.available.len() == 0
    }

    /// Takes in a page that starts at `base`.
    pub fn add_page(&mut self, base: usize)
        requires
            old(self).wf(),
            is_page_base(base as int),
            !old(self).bases().contains(base),
        ensures
            final(self).wf(),
            final(self).block_size_spec() == old(self).block_size_spec(),
            final(self).bases() == old(self).bases().insert(base),
            final(self).page_count() == old(self).page_count() + 1,
            final(self).order() == old(self).order().push(base),
            final(self).same_pages_but(*old(self), base),
            final(self).page_at(base).is_unused(),
            final(self).live() == old(self).live(),
            !final(self).is_exhausted(),
    {
        let ghost before = *self;
        let page_index: usize = self.pages.len();
        let available_index: usize = self.available.len();
        let page = Page::new(base, self.block_size, available_index);
        self.pages.push(page);
        self.pages_by_base.insert(base, page_index);
        self.available.push(base);
        proof {
            assert forall|p: int| 0 <= p < self.pages@.len() implies #[trigger] self.page_consistent(
                p,
            ) by {
                if p < page_index {
                    assert(before.page_consistent(p));
                } else {
                    page.lemma_unused_is_not_full();
                }
            }
            assert forall|b: usize|
                self.pages_by_base@.contains_key(b) implies #[trigger] self.base_consistent(b) by {
                if b != base {
                    assert(before.base_consistent(b));
                }
            }
            assert forall|k: int|
                0 <= k < self.available@.len() implies #[trigger] self.rank_consistent(k) by {
                if k < available_index {
                    assert(before.rank_consistent(k));
                    assert(before.base_consistent(before.available@[k]));
                }
            }
            assert(self.bases() =~= before.bases().insert(base));
            assert forall|address: int| self.is_live(address) == before.is_live(address) by {
                let b = page_base_of(address);
                if 0 <= b <= usize::MAX && b != base && before.pages_by_base@.contains_key(
                    b as usize,
                ) {
                    assert(before.base_consistent(b as usize));
                }
            }
            assert(self.live() =~= before.live());
            page.lemma_unused_is_not_full();
            assert(!self.pages@[page_index as int].is_full());
            assert forall|b: usize|
                b != base && self.bases().contains(b) implies #[trigger] self.page_at(
                b,
            ).same_blocks(before.page_at(b)) by {
                assert(before.base_consistent(b));
            }
        }
    }
}

impl Pool {
    /// Whether a pool became another when the block at this address was put into use: the next
    /// block of the last page in the order. It was free, lies in one chunk, and all other pages
    /// stay as they are.
    pub open spec fn allocates(before: Pool, after: Pool, address: usize) -> bool {
        let base = before.order().last();
        let block = before.page_at(base).next_block();
        &&& after.block_size_spec() == before.block_size_spec()
        &&& after.bases() == before.bases()
        &&& after.page_count() == before.page_count()
        &&& address == block_address(base as int, before.block_size_spec(), block)
        &&& Page::allocates(before.page_at(base), after.page_at(base), block)
        &&& after.page_at(base).counts_changed(
            before.page_at(base),
            address as int % 65536 / 4096,
            1,
        )
        &&& after.same_pages_but(before, base)
        &&& after.order() == (if after.page_at(base).is_full() {
            before.order().drop_last()
        } else {
            before.order()
        })
        &&& !before.live().contains(address as int)
        &&& after.live() == before.live().insert(address as int)
        &&& address > 0
        &&& address % 4 == 0
        &&& before.bases().contains(page_base_of(address as int) as usize)
        &&& address + before.block_size_spec() <= page_base_of(address as int) + 65536
        &&& address % 4096 + before.block_size_spec() <= CHUNK_SIZE
    }

    /// Whether a pool became another when the block at this address was taken out of use. Its page
    /// is given up if that was its last block in use and there are other pages; otherwise the page
    /// has a free block afterwards. All other pages stay as they are.
    pub open spec fn frees(
        before: Pool,
        after: Pool,
        address: usize,
        released: Option<usize>,
    ) -> bool {
        let base = page_base_of(address as int) as usize;
        &&& after.block_size_spec() == before.block_size_spec()
        &&& after.live() == before.live().remove(address as int)
        &&& after.same_pages_but(before, base)
        &&& before.bases().contains(base)
        &&& released == (if before.page_count() > 1 && before.is_last_on_page(address as int) {
            Some(base)
        } else {
            None
        })
        &&& match released {
            Some(_) => {
                &&& after.bases() == before.bases().remove(base)
                &&& after.page_count() == before.page_count() - 1
                &&& after.order() == order_without(before.order_with(base), base)
            },
            None => {
                &&& after.bases() == before.bases()
                &&& after.page_count() == before.page_count()
                &&& after.order() == before.order_with(base)
                &&& exists|block: int| #[trigger]
                    Page::frees(before.page_at(base), after.page_at(base), block) && address
                        == block_address(base as int, before.block_size_spec(), block)
                &&& after.page_at(base).counts_changed(
                    before.page_at(base),
                    address as int % 65536 / 4096,
                    -1,
                )
                &&& !after.is_exhausted()
            },
        }
    }

    /// Puts a block into use.
    pub fn allocate(&mut self) -> (address: usize)
        requires
            old(self).wf(),
            !old(self).is_exhausted(),
        ensures
            final(self).wf(),
            Pool::allocates(*old(self), *final(self), address),
    {
        let ghost before = *self;
        proof {
            let p = choose|p: int|
                0 <= p < self.pages@.len() && !(#[trigger] self.pages@[p]).is_full();
            assert(self.page_consistent(p));
            assert(self.rank_consistent(self.available@.len() - 1));
            assert(self.base_consistent(self.available@.last()));
        }
        let base: usize = self.available[self.available.len() - 1];
        let page_index: usize = *self.pages_by_base.get(&base).unwrap();
        proof {
            assert(self.page_consistent(page_index as int));
        }
        let block_index: usize = self.pages[page_index].allocate();
        let ghost page = before.pages@[page_index as int];
        let address: usize = self.pages[page_index].block_ptr(block_index);
        proof {
            assert forall|i: int| #[trigger] page.is_live(i) implies 0 <= i < page_blocks(
                page.block_size_spec(),
            ) by {
                page.lemma_live_in_range(i);
            }
            lemma_holds_more(page, self.pages@[page_index as int], block_index as int);
            lemma_block_within_chunk(base as int, self.block_size as int, block_index as int);
            lemma_base_of_block(page, block_index as int);
        }
        let ghost allocated = self.pages@[page_index as int];
        if !self.pages[page_index].has_available() {
            self.available.pop();
            self.pages[page_index].set_available_index(None);
        }
        proof {
            let after = self.pages@[page_index as int];
            assert(after.same_blocks(allocated));
            lemma_same_holds(allocated, after);
            assert(self.pages@ =~= before.pages@.update(page_index as int, after));
            assert forall|p: int| 0 <= p < self.pages@.len() implies #[trigger] self.page_consistent(
                p,
            ) by {
                assert(before.page_consistent(p));
            }
            assert forall|b: usize|
                self.pages_by_base@.contains_key(b) implies #[trigger] self.base_consistent(b) by {
                assert(before.base_consistent(b));
            }
            assert forall|k: int|
                0 <= k < self.available@.len() implies #[trigger] self.rank_consistent(k) by {
                assert(before.rank_consistent(k));
                assert(before.base_consistent(before.available@[k]));
            }
            assert forall|a: int| self.is_live(a) == (before.is_live(a) || a == address) by {
                let b = page_base_of(a);
                if 0 <= b <= usize::MAX && before.pages_by_base@.contains_key(b as usize) {
                    assert(before.base_consistent(b as usize));
                }
            }
            assert(self.live() =~= before.live().insert(address as int));
            assert forall|b: usize|
                b != base && self.bases().contains(b) implies #[trigger] self.page_at(
                b,
            ).same_blocks(before.page_at(b)) by {
                assert(before.base_consistent(b));
            }
            assert(self.page_at(base) == after);
            assert(before.page_at(base) == page);
            assert(self.order() =~= (if after.is_full() {
                before.order().drop_last()
            } else {
                before.order()
            }));
        }
        address
    }
}

/// What a page holds rests on its place and on which of its blocks are in use.
proof fn lemma_same_holds(before: Page, after: Page)
    requires
        after.base_spec() == before.base_spec(),
        after.block_size_spec() == before.block_size_spec(),
        forall|i: int| #[trigger] after.is_live(i) == before.is_live(i),
    ensures
        forall|a: int| #[trigger] holds(after, a) == holds(before, a),
        after.is_full() == before.is_full(),
{
    assert forall|a: int| #[trigger] holds(after, a) == holds(before, a) by {
        if holds(after, a) {
            assert(before.is_live(index_at(after, a)) == after.is_live(index_at(after, a)));
        }
        if holds(before, a) {
            assert(after.is_live(index_at(before, a)));
        }
    }
    if before.is_full() {
        assert forall|i: int|
            0 <= i < page_blocks(after.block_size_spec()) implies #[trigger] after.is_live(i) by {
            assert(before.is_live(i));
        }
    }
    if after.is_full() {
        assert forall|i: int|
            0 <= i < page_blocks(before.block_size_spec()) implies #[trigger] before.is_live(
            i,
        ) by {
            assert(after.is_live(i));
        }
    }
}

impl Pool {
    /// Gives up a page without blocks in use.
    fn remove_page(&mut self, page_index: usize)
        requires
            old(self).wf(),
            page_index < old(self).pages@.len(),
            old(self).pages@[page_index as int].is_unused(),
        ensures
            final(self).wf(),
            final(self).block_size == old(self).block_size,
            final(self).bases() == old(self).bases().remove(
                old(self).pages@[page_index as int].base_spec() as usize,
            ),
            final(self).page_count() == old(self).page_count() - 1,
            final(self).live() == old(self).live(),
            final(self).order() == order_without(
                old(self).order(),
                old(self).pages@[page_index as int].base_spec() as usize,
            ),
            final(self).same_pages_but(
                *old(self),
                old(self).pages@[page_index as int].base_spec() as usize,
            ),
    {
        let ghost before = *self;
        let ghost removed = self.pages@[page_index as int];
        let ghost last = self.pages@.len() - 1;
        proof {
            assert(self.page_consistent(page_index as int));
            removed.lemma_unused_is_not_full();
        }
        let available_index: usize = self.pages[page_index].available_index().unwrap();
        let base: usize = self.pages[page_index].base();
        self.available.swap_remove(available_index);
        if available_index < self.available.len() {
            let moved_base: usize = self.available[available_index];
            proof {
                assert(before.rank_consistent(before.available@.len() - 1));
                assert(before.base_consistent(moved_base));
            }
            let moved_page: usize = *self.pages_by_base.get(&moved_base).unwrap();
            self.pages[moved_page].set_available_index(Some(available_index));
        }
        let ghost ranked = self.pages@;
        proof {
            assert(ranked.len() == before.pages@.len());
            assert forall|p: int| 0 <= p < ranked.len() implies (#[trigger] ranked[p]).same_blocks(
                before.pages@[p],
            ) && ranked[p].wf() && ranked[p].rank() == (if available_index
                < before.available@.len() - 1 && before.pages@[p].rank() == Some(
                (before.available@.len() - 1) as usize,
            ) {
                Some(available_index)
            } else {
                before.pages@[p].rank()
            }) by {
                assert(before.page_consistent(p));
            }
        }
        self.pages_by_base.remove(&base);
        self.pages.swap_remove(page_index);
        if page_index < self.pages.len() {
            let moved_base: usize = self.pages[page_index].base();
            self.pages_by_base.insert(moved_base, page_index);
        }
        proof {
            let source = |q: int| if q == page_index { last } else { q };
            assert forall|q: int| 0 <= q < self.pages@.len() implies {
                &&& #[trigger] self.pages@[q] == ranked[source(q)]
                &&& 0 <= source(q) <= last
                &&& source(q) != page_index
            } by {}
            assert forall|b: usize| #[trigger] self.pages_by_base@.contains_key(b) == (
            before.pages_by_base@.contains_key(b) && b != base) by {
                if last != page_index {
                    assert(before.page_consistent(last));
                }
            }
            assert forall|q: int| 0 <= q < self.pages@.len() implies #[trigger] self.page_consistent(
                q,
            ) by {
                let p = source(q);
                assert(before.page_consistent(p));
                assert(before.page_consistent(last));
                assert(before.page_consistent(page_index as int));
                assert(ranked[p].same_blocks(before.pages@[p]));
                lemma_same_holds(before.pages@[p], ranked[p]);
                assert(self.pages@[q] == ranked[p]);
            }
            assert forall|b: usize|
                self.pages_by_base@.contains_key(b) implies #[trigger] self.base_consistent(b) by {
                assert(before.base_consistent(b));
                let p = before.pages_by_base@[b] as int;
                assert(before.page_consistent(p));
                assert(before.page_consistent(last));
                assert(ranked[p].same_blocks(before.pages@[p]));
                assert(ranked[last].same_blocks(before.pages@[last]));
                if p == last {
                    assert(self.pages@[page_index as int] == ranked[last]);
                } else {
                    assert(self.pages@[p] == ranked[p]);
                }
            }
            assert forall|k: int|
                0 <= k < self.available@.len() implies #[trigger] self.rank_consistent(k) by {
                let from = if k == available_index {
                    before.available@.len() - 1
                } else {
                    k
                };
                assert(self.available@[k] == before.available@[from]);
                assert(before.rank_consistent(from));
                let b = before.available@[from];
                let p = before.pages_by_base@[b] as int;
                assert(before.base_consistent(b));
                assert(before.page_consistent(p));
                assert(p != page_index);
                assert(before.page_consistent(last));
                assert(ranked[p].same_blocks(before.pages@[p]));
                assert(self.pages_by_base@.contains_key(b));
                assert(self.base_consistent(b));
                if p == last {
                    assert(self.pages@[page_index as int] == ranked[last]);
                } else {
                    assert(self.pages@[p] == ranked[p]);
                }
            }
            assert(self.bases() =~= before.bases().remove(base));
            assert forall|a: int| self.is_live(a) == before.is_live(a) by {
                let b = page_base_of(a);
                if 0 <= b <= usize::MAX && before.pages_by_base@.contains_key(b as usize) {
                    assert(before.base_consistent(b as usize));
                    let p = before.pages_by_base@[b as usize] as int;
                    if b == base {
                        if holds(removed, a) {
                            assert(removed.is_live(index_at(removed, a)));
                        }
                    } else {
                        assert(self.pages_by_base@.contains_key(b as usize));
                        assert(self.base_consistent(b as usize));
                        assert(before.page_consistent(last));
                        assert(ranked[p].same_blocks(before.pages@[p]));
                        lemma_same_holds(before.pages@[p], ranked[p]);
                        if p == last {
                            assert(self.pages@[page_index as int] == ranked[last]);
                        } else {
                            assert(self.pages@[p] == ranked[p]);
                        }
                    }
                }
            }
            assert(self.live() =~= before.live());
            before.lemma_place_in_order(page_index as int);
            assert forall|b: usize|
                b != base && self.bases().contains(b) implies #[trigger] self.page_at(
                b,
            ).same_blocks(before.page_at(b)) by {
                assert(before.base_consistent(b));
                let p = before.pages_by_base@[b] as int;
                assert(before.page_consistent(last));
                assert(ranked[p].same_blocks(before.pages@[p]));
                assert(self.base_consistent(b));
                if p == last {
                    assert(self.pages@[page_index as int] == ranked[last]);
                } else {
                    assert(self.pages@[p] == ranked[p]);
                }
            }
        }
    }
}

/// What it means for the addresses of its blocks that one block of a page is taken out of use.
proof fn lemma_holds_less(before: Page, after: Page, index: int)
    requires
        is_page_base(before.base_spec()),
        is_block_size(before.block_size_spec()),
        before.is_live(index),
        after.base_spec() == before.base_spec(),
        after.block_size_spec() == before.block_size_spec(),
        forall|i: int| #[trigger] after.is_live(i) == (before.is_live(i) && i != index),
        forall|i: int| #[trigger]
            before.is_live(i) ==> 0 <= i < page_blocks(before.block_size_spec()),
    ensures
        ({
            let address = block_address(before.base_spec(), before.block_size_spec(), index);
            forall|a: int| #[trigger] holds(after, a) == (holds(before, a) && a != address)
        }),
{
    assert(!after.is_live(index));
    assert forall|i: int| #[trigger] before.is_live(i) == (after.is_live(i) || i == index) by {
        assert(after.is_live(i) == (before.is_live(i) && i != index));
    }
    assert forall|i: int| #[trigger] after.is_live(i) implies 0 <= i < page_blocks(
        after.block_size_spec(),
    ) by {
        assert(before.is_live(i));
    }
    lemma_holds_more(after, before, index);
    let address = block_address(before.base_spec(), before.block_size_spec(), index);
    assert forall|a: int| #[trigger] holds(after, a) == (holds(before, a) && a != address) by {
        assert(holds(before, a) == (holds(after, a) || a == address));
    }
}

impl Pool {
    /// Takes a block out of use. The page is given up, and handed to the caller, if that was its
    /// last block in use and there are other pages.
    pub fn deallocate(&mut self, address: usize) -> (released: Option<usize>)
        requires
            old(self).wf(),
            old(self).live().contains(address as int),
        ensures
            final(self).wf(),
            Pool::frees(*old(self), *final(self), address, released),
    {
        let ghost before = *self;
        let base: usize = page_of(address);
        proof {
            assert(self.is_live(address as int));
            assert(self.base_consistent(base));
        }
        let page_index: usize = *self.pages_by_base.get(&base).unwrap();
        let ghost page = before.pages@[page_index as int];
        proof {
            assert(self.page_consistent(page_index as int));
            let index = index_at(page, address as int);
            page.lemma_live_in_range(index);
        }
        let (chunk, block_index) = self.pages[page_index].block_index(address);
        proof {
            let index = index_at(page, address as int);
            if index != block_index {
                lemma_blocks_disjoint(
                    base as int,
                    self.block_size as int,
                    index,
                    block_index as int,
                );
            }
            assert forall|i: int| #[trigger] page.is_live(i) implies 0 <= i < page_blocks(
                page.block_size_spec(),
            ) by {
                page.lemma_live_in_range(i);
            }
        }
        let was_full = !self.pages[page_index].has_available();
        self.pages[page_index].deallocate(chunk, block_index);
        let ghost freed = self.pages@[page_index as int];
        proof {
            lemma_holds_less(page, freed, block_index as int);
            lemma_block_within_chunk(base as int, self.block_size as int, block_index as int);
            assert(!freed.is_live(block_index as int));
            assert(!freed.is_full());
        }
        if was_full {
            let available_index: usize = self.available.len();
            self.pages[page_index].set_available_index(Some(available_index));
            self.available.push(base);
        }
        proof {
            let after = self.pages@[page_index as int];
            assert(after.same_blocks(freed));
            lemma_same_holds(freed, after);
            assert(self.pages@ =~= before.pages@.update(page_index as int, after));
            assert forall|p: int| 0 <= p < self.pages@.len() implies #[trigger] self.page_consistent(
                p,
            ) by {
                assert(before.page_consistent(p));
            }
            assert forall|b: usize|
                self.pages_by_base@.contains_key(b) implies #[trigger] self.base_consistent(b) by {
                assert(before.base_consistent(b));
            }
            assert forall|k: int|
                0 <= k < self.available@.len() implies #[trigger] self.rank_consistent(k) by {
                if k < before.available@.len() {
                    assert(before.rank_consistent(k));
                    assert(before.base_consistent(before.available@[k]));
                }
            }
            assert forall|a: int| self.is_live(a) == (before.is_live(a) && a != address) by {
                let b = page_base_of(a);
                if 0 <= b <= usize::MAX && before.pages_by_base@.contains_key(b as usize) {
                    assert(before.base_consistent(b as usize));
                }
            }
            assert(self.live() =~= before.live().remove(address as int));
            assert(self.bases() =~= before.bases());
            assert(!after.is_full());
            before.lemma_last_on_page(page_index as int, address as int, freed);
            assert(before.page_at(base) == page);
            assert(self.page_at(base) == after);
            assert(Page::frees(page, after, block_index as int));
            assert(self.order() =~= before.order_with(base));
            assert forall|b: usize|
                b != base && self.bases().contains(b) implies #[trigger] self.page_at(
                b,
            ).same_blocks(before.page_at(b)) by {
                assert(before.base_consistent(b));
            }
        }
        let ghost listed = *self;
        let empty = self.pages[page_index].is_empty();
        if empty && self.pages.len() > 1 {
            self.remove_page(page_index);
            proof {
                assert forall|b: usize|
                    b != base && self.bases().contains(b) implies #[trigger] self.page_at(
                    b,
                ).same_blocks(before.page_at(b)) by {
                    assert(listed.page_at(b).same_blocks(before.page_at(b)));
                    assert(self.page_at(b).same_blocks(listed.page_at(b)));
                }
            }
            return Some(base);
        }
        None
    }

    /// Where a page stands in the order is recorded in the page.
    proof fn lemma_place_in_order(self, p: int)
        requires
            self.wf(),
            0 <= p < self.pages@.len(),
            self.pages@[p].rank() is Some,
        ensures
            self.order().index_of(self.pages@[p].base_spec() as usize)
                == self.pages@[p].rank().unwrap(),
    {
        assert(self.page_consistent(p));
        let base = self.pages@[p].base_spec() as usize;
        let k = self.pages@[p].rank().unwrap() as int;
        assert(self.order()[k] == base);
        let other = self.order().index_of(base);
        assert(0 <= other < self.order().len() && self.order()[other] == base);
        assert(self.available@.len() == self.available.len());
        assert(self.rank_consistent(other));
    }

    /// A block is the last one in use on its page if the page without it is unused.
    proof fn lemma_last_on_page(self, p: int, address: int, freed: Page)
        requires
            self.wf(),
            0 <= p < self.pages@.len(),
            self.pages@[p].base_spec() == page_base_of(address),
            freed.base_spec() == self.pages@[p].base_spec(),
            freed.block_size_spec() == self.pages@[p].block_size_spec(),
            forall|a: int| #[trigger]
                holds(freed, a) == (holds(self.pages@[p], a) && a != address),
            forall|i: int| #[trigger]
                freed.is_live(i) ==> 0 <= i < page_blocks(freed.block_size_spec()),
        ensures
            freed.is_unused() == self.is_last_on_page(address),
    {
        assert(self.page_consistent(p));
        let page = self.pages@[p];
        if freed.is_unused() {
            assert forall|other: int| #[trigger]
                self.is_live(other) && other != address implies page_base_of(other)
                != page_base_of(address) by {
                if page_base_of(other) == page_base_of(address) {
                    assert(holds(freed, other));
                    assert(freed.is_live(index_at(freed, other)));
                }
            }
        }
        if self.is_last_on_page(address) {
            assert forall|i: int| !#[trigger] freed.is_live(i) by {
                if freed.is_live(i) {
                    let other = block_address(freed.base_spec(), freed.block_size_spec(), i);
                    assert(holds(freed, other));
                    lemma_base_of_block(freed, i);
                    assert(self.is_live(other));
                }
            }
        }
    }
}

impl Pool {
    /// The order lists just the pages with a free block, and each of them once.
    pub proof fn lemma_order(self)
        requires
            self.wf(),
        ensures
            self.order().no_duplicates(),
            forall|base: usize| #[trigger]
                self.order().contains(base) == (self.bases().contains(base) && !self.page_at(
                    base,
                ).is_full()),
    {
        assert forall|i: int, j: int|
            0 <= i < self.order().len() && 0 <= j < self.order().len() && i
                != j implies self.order()[i] != self.order()[j] by {
            assert(self.rank_consistent(i));
            assert(self.rank_consistent(j));
            assert(self.available@.len() == self.available.len());
        }
        assert forall|base: usize| #[trigger] self.order().contains(base) == (
        self.bases().contains(base) && !self.page_at(base).is_full()) by {
            if self.order().contains(base) {
                let k = choose|k: int| 0 <= k < self.order().len() && self.order()[k] == base;
                assert(self.rank_consistent(k));
                assert(self.page_consistent(self.pages_by_base@[base] as int));
            }
            if self.bases().contains(base) && !self.page_at(base).is_full() {
                assert(self.base_consistent(base));
                assert(self.page_consistent(self.pages_by_base@[base] as int));
                let k = self.page_at(base).rank().unwrap() as int;
                assert(self.order()[k] == base);
            }
        }
    }

    /// Each page is found by where it starts, and there are as many pages as places where one
    /// starts.
    pub proof fn lemma_pages(self)
        requires
            self.wf(),
        ensures
            forall|base: usize|
                self.bases().contains(base) ==> (#[trigger] self.page_at(base)).base_spec() == base,
            self.bases().finite(),
            self.bases().len() == self.page_count(),
    {
        let starts = self.pages@.map_values(|page: Page| page.base_spec() as usize);
        assert forall|base: usize| self.bases().contains(base) implies (#[trigger] self.page_at(
            base,
        )).base_spec() == base by {
            assert(self.base_consistent(base));
        }
        assert forall|i: int, j: int|
            0 <= i < starts.len() && 0 <= j < starts.len() && i != j implies starts[i]
            != starts[j] by {
            assert(self.page_consistent(i));
            assert(self.page_consistent(j));
        }
        assert forall|base: usize| starts.to_set().contains(base) == self.bases().contains(
            base,
        ) by {
            if starts.to_set().contains(base) {
                let p = choose|p: int| 0 <= p < starts.len() && starts[p] == base;
                assert(self.page_consistent(p));
            }
            if self.bases().contains(base) {
                assert(self.base_consistent(base));
                assert(starts[self.pages_by_base@[base] as int] == base);
            }
        }
        assert(starts.to_set() =~= self.bases());
        starts.unique_seq_to_set();
    }

    /// A block in use lies in a page of the pool, and there in one chunk.
    pub proof fn lemma_live_in_page(self, address: int)
        requires
            self.wf(),
            self.is_live(address),
        ensures
            ({
                let base = page_base_of(address);
                &&& is_page_base(base)
                &&& self.bases().contains(base as usize)
                &&& address % 4 == 0
                &&& address + self.block_size_spec() <= base + 65536
                &&& address % 4096 + self.block_size_spec() <= CHUNK_SIZE
            }),
    {
        let base = page_base_of(address) as usize;
        assert(self.base_consistent(base));
        let p = self.pages_by_base@[base] as int;
        assert(self.page_consistent(p));
        let index = index_at(self.pages@[p], address);
        self.pages@[p].lemma_live_in_range(index);
        lemma_block_within_chunk(base as int, self.block_size as int, index);
    }

    /// The page that starts at `base` is consistent, and its blocks are those of the pool.
    pub proof fn lemma_page_at(self, base: usize)
        requires
            self.wf(),
            self.bases().contains(base),
        ensures
            self.page_at(base).wf(),
            self.page_at(base).base_spec() == base,
            self.page_at(base).block_size_spec() == self.block_size_spec(),
            is_page_base(base as int),
            is_block_size(self.block_size_spec()),
    {
        assert(self.base_consistent(base));
        assert(self.page_consistent(self.pages_by_base@[base] as int));
    }

    /// The next block needs a new page if and only if all blocks of all pages are in use.
    pub proof fn lemma_exhausted(self)
        requires
            self.wf(),
        ensures
            self.is_exhausted() <==> forall|base: usize, index: int|
                self.bases().contains(base) && 0 <= index < 16 * (4096int / self.block_size_spec())
                    ==> #[trigger] self.page_at(base).is_live(index),
    {
        if self.is_exhausted() {
            assert forall|base: usize, index: int|
                self.bases().contains(base) && 0 <= index < 16 * (4096int
                    / self.block_size_spec()) implies #[trigger] self.page_at(base).is_live(
                index,
            ) by {
                assert(self.base_consistent(base));
                let p = self.pages_by_base@[base] as int;
                assert(self.page_consistent(p));
                assert(self.pages@[p].is_full());
            }
        } else {
            let p = choose|p: int|
                0 <= p < self.pages@.len() && !(#[trigger] self.pages@[p]).is_full();
            assert(self.page_consistent(p));
            let base = self.pages@[p].base_spec() as usize;
            let index = choose|index: int|
                0 <= index < page_blocks(self.block_size_spec()) && !(
                #[trigger] self.pages@[p].is_live(index));
            assert(!self.page_at(base).is_live(index));
        }
    }

    /// A block is in use if and only if it is on its page.
    pub proof fn lemma_live_at(self, address: int)
        requires
            self.wf(),
        ensures
            self.is_live(address) <==> {
                &&& 0 <= page_base_of(address) <= usize::MAX
                &&& self.bases().contains(page_base_of(address) as usize)
                &&& holds(self.page_at(page_base_of(address) as usize), address)
            },
    {
    }

    /// Blocks in use do not overlap.
    pub proof fn lemma_live_disjoint(self, left: int, right: int)
        requires
            self.wf(),
            self.is_live(left),
            self.is_live(right),
            left != right,
        ensures
            left + self.block_size_spec() <= right || right + self.block_size_spec() <= left,
    {
        self.lemma_live_in_page(left);
        self.lemma_live_in_page(right);
        let (a, b) = (page_base_of(left) as usize, page_base_of(right) as usize);
        if a == b {
            assert(self.base_consistent(a));
            let p = self.pages_by_base@[a] as int;
            assert(self.page_consistent(p));
            let (i, j) = (index_at(self.pages@[p], left), index_at(self.pages@[p], right));
            self.pages@[p].lemma_live_in_range(i);
            self.pages@[p].lemma_live_in_range(j);
            lemma_blocks_disjoint(a as int, self.block_size as int, i, j);
        }
    }

    /// A chunk that can be given back has no part of a block in use.
    pub proof fn lemma_spare_is_unused(self, chunk: int, address: int)
        requires
            self.wf(),
            self.is_spare(chunk),
            self.is_live(address),
        ensures
            address + self.block_size_spec() <= chunk || chunk + CHUNK_SIZE <= address,
    {
        self.lemma_live_in_page(address);
        let (a, b) = (page_base_of(chunk) as usize, page_base_of(address) as usize);
        assert(self.base_consistent(a));
        let p = self.pages_by_base@[a] as int;
        assert(self.page_consistent(p));
        if a == b {
            let page = self.pages@[p];
            let index = index_at(page, address);
            page.lemma_live_in_range(index);
            lemma_block_within_chunk(a as int, self.block_size as int, index);
            assert(page.is_live(index));
        }
    }

    /// Taking a block out of use undoes putting it into use: the same blocks are in use as before.
    pub proof fn lemma_deallocate_undoes_allocate(
        before: Pool,
        between: Pool,
        after: Pool,
        address: int,
    )
        requires
            !before.live().contains(address),
            between.live() == before.live().insert(address),
            after.live() == between.live().remove(address),
        ensures
            after.live() == before.live(),
    {
        assert(after.live() =~= before.live());
    }

    /// A chunk that can be given back lies in a page of the pool.
    pub proof fn lemma_spare_in_page(self, chunk: int)
        requires
            self.wf(),
            self.is_spare(chunk),
        ensures
            ({
                let base = page_base_of(chunk);
                &&& is_page_base(base)
                &&& self.bases().contains(base as usize)
                &&& chunk % 4096 == 0
                &&& 0 < chunk <= usize::MAX
                &&& chunk + CHUNK_SIZE <= base + 65536
            }),
    {
        let base = page_base_of(chunk) as usize;
        assert(self.base_consistent(base));
        assert(self.page_consistent(self.pages_by_base@[base] as int));
    }

    /// Whether a chunk that can be given back starts at this address.
    pub open spec fn is_spare(self, address: int) -> bool {
        let base = page_base_of(address);
        &&& 0 <= base <= usize::MAX
        &&& self.bases().contains(base as usize)
        &&& self.page_at(base as usize).is_spare(address)
    }

    /// Where the chunks that can be given back start.
    pub open spec fn spare(self) -> Set<int> {
        Set::new(|address: int| self.is_spare(address))
    }

    /// The addresses of some chunks.
    pub open spec fn addresses(chunks: Seq<usize>) -> Set<int> {
        Set::new(|address: int| 0 <= address <= usize::MAX && chunks.contains(address as usize))
    }

    /// A chunk that can be given back lies in its page.
    proof fn lemma_spare_base(self, p: int, address: int)
        requires
            self.wf(),
            0 <= p < self.pages@.len(),
            self.pages@[p].is_spare(address),
        ensures
            page_base_of(address) == self.pages@[p].base_spec(),
            self.is_spare(address),
            0 < address <= usize::MAX,
            address % 4096 == 0,
    {
        assert(self.page_consistent(p));
        let base = self.pages@[p].base_spec();
        let (page, chunk) = (base / 65536, (address - base) / 4096);
        assert(base == 65536 * page && address == 65536 * page + 4096 * chunk && 0 <= chunk < 16);
    }

    /// Where the chunks that can be given back start.
    pub fn empty_chunks(&self) -> (found: Vec<usize>)
        requires
            self.wf(),
        ensures
            Pool::addresses(found@) == self.spare(),
    {
        let mut found: Vec<usize> = Vec::new();
        let mut page_index: usize = 0;
        while page_index < self.pages.len()
            invariant
                self.wf(),
                page_index <= self.pages@.len(),
                forall|address: usize| #[trigger]
                    found@.contains(address) <==> exists|p: int|
                        0 <= p < page_index && (#[trigger] self.pages@[p]).is_spare(
                            address as int,
                        ),
            decreases self.pages@.len() - page_index,
        {
            let ghost before = found@;
            proof {
                assert(self.page_consistent(page_index as int));
            }
            self.pages[page_index].empty_chunks(&mut found);
            page_index = page_index + 1;
            proof {
                assert forall|address: usize| #[trigger] found@.contains(
                    address,
                ) <==> exists|p: int|
                    0 <= p < page_index && (#[trigger] self.pages@[p]).is_spare(
                        address as int,
                    ) by {
                    assert(before.contains(address) <==> exists|p: int|
                        0 <= p < page_index - 1 && (#[trigger] self.pages@[p]).is_spare(
                            address as int,
                        ));
                    if self.pages@[page_index - 1].is_spare(address as int) {
                        assert(found@.contains(address));
                    }
                }
            }
        }
        proof {
            assert forall|address: int| #[trigger] Pool::addresses(found@).contains(address)
                == self.spare().contains(address) by {
                if Pool::addresses(found@).contains(address) {
                    let p = choose|p: int|
                        0 <= p < page_index && (#[trigger] self.pages@[p]).is_spare(address);
                    self.lemma_spare_base(p, address);
                }
                if self.is_spare(address) {
                    let base = page_base_of(address) as usize;
                    assert(self.base_consistent(base));
                    let p = self.pages_by_base@[base] as int;
                    self.lemma_spare_base(p, address);
                    assert(self.pages@[p].is_spare(address as usize as int));
                    assert(found@.contains(address as usize));
                }
            }
            assert(Pool::addresses(found@) =~= self.spare());
        }
        found
    }

    /// Records which chunks were given back to the machine, and says how many bytes these are.
    pub fn trim(&mut self, released: &[usize]) -> (reclaimed: usize)
        requires
            old(self).wf(),
        ensures
            final(self).wf(),
            final(self).block_size_spec() == old(self).block_size_spec(),
            final(self).bases() == old(self).bases(),
            final(self).page_count() == old(self).page_count(),
            final(self).order() == old(self).order(),
            final(self).live() == old(self).live(),
            final(self).is_exhausted() == old(self).is_exhausted(),
            forall|base: usize|
                old(self).bases().contains(base) ==> trimmed_page(
                    old(self).page_at(base),
                    #[trigger] final(self).page_at(base),
                    released@,
                ),
            final(self).spare() == old(self).spare().difference(Pool::addresses(released@)),
            old(self).spare().intersect(Pool::addresses(released@)).finite(),
            reclaimed == CHUNK_SIZE * old(self).spare().intersect(
                Pool::addresses(released@),
            ).len(),
    {
        let ghost before = *self;
        let mut reclaimed: usize = 0;
        let mut page_index: usize = 0;
        proof {
            assert(before.trimmed(released@, 0) =~= Set::empty());
        }
        while page_index < self.pages.len()
            invariant
                before.wf(),
                self.block_size == before.block_size,
                self.pages_by_base@ == before.pages_by_base@,
                self.available@ == before.available@,
                self.pages@.len() == before.pages@.len(),
                page_index <= self.pages@.len(),
                forall|p: int|
                    page_index <= p < self.pages@.len() ==> #[trigger] self.pages@[p]
                        == before.pages@[p],
                forall|p: int|
                    0 <= p < page_index ==> trimmed_page(
                        before.pages@[p],
                        #[trigger] self.pages@[p],
                        released@,
                    ),
                before.trimmed(released@, page_index as int).finite(),
                reclaimed == CHUNK_SIZE * before.trimmed(released@, page_index as int).len(),
            decreases self.pages@.len() - page_index,
        {
            proof {
                assert(before.page_consistent(page_index as int));
                assert(self.pages@[page_index as int] == before.pages@[page_index as int]);
            }
            let count: usize = self.pages[page_index].trim(released);
            proof {
                before.lemma_trim_step(released@, page_index as int);
                assert(trimmed_page(
                    before.pages@[page_index as int],
                    self.pages@[page_index as int],
                    released@,
                ));
            }
            reclaimed = reclaimed + CHUNK_SIZE * count;
            page_index = page_index + 1;
        }
        proof {
            self.lemma_trimmed(before, released@);
            before.lemma_trimmed_all(released@);
            assert forall|base: usize| before.bases().contains(base) implies trimmed_page(
                before.page_at(base),
                #[trigger] self.page_at(base),
                released@,
            ) by {
                assert(before.base_consistent(base));
            }
        }
        reclaimed
    }

    /// One more page adds the chunks of that page.
    #[verifier::rlimit(40)]
    proof fn lemma_trim_step(self, released: Seq<usize>, n: int)
        requires
            self.wf(),
            0 <= n < self.pages@.len(),
            self.trimmed(released, n).finite(),
            self.pages@[n].spare_among(released).finite(),
        ensures
            self.trimmed(released, n + 1).finite(),
            self.trimmed(released, n + 1).len() == self.trimmed(released, n).len()
                + self.pages@[n].spare_among(released).len(),
            CHUNK_SIZE * self.trimmed(released, n + 1).len() <= usize::MAX,
    {
        let done = self.trimmed(released, n);
        let more = self.pages@[n].spare_among(released);
        let all = self.trimmed(released, n + 1);
        assert(done.disjoint(more)) by {
            assert forall|a: int| !(done.contains(a) && more.contains(a)) by {
                if done.contains(a) && more.contains(a) {
                    let p = choose|p: int| 0 <= p < n && (#[trigger] self.pages@[p]).is_spare(a);
                    self.lemma_spare_base(p, a);
                    self.lemma_spare_base(n, a);
                    assert(self.page_consistent(p));
                    assert(self.page_consistent(n));
                }
            }
        }
        vstd::set_lib::lemma_set_disjoint_lens(done, more);
        assert forall|a: int| #[trigger] (done + more).contains(a) == all.contains(a) by {
            if more.contains(a) {
                assert(self.pages@[n].is_spare(a));
            }
        }
        assert(done + more =~= all);
        assert forall|a: int| all.contains(a) implies 0 < a <= usize::MAX && a % 4096 == 0 by {
            let p = choose|p: int| 0 <= p < n + 1 && (#[trigger] self.pages@[p]).is_spare(a);
            self.lemma_spare_base(p, a);
        }
        lemma_chunks_fit(all);
    }

    /// All pages together have all chunks.
    proof fn lemma_trimmed_all(self, released: Seq<usize>)
        requires
            self.wf(),
        ensures
            self.trimmed(released, self.pages@.len() as int) == self.spare().intersect(
                Pool::addresses(released),
            ),
    {
        let done = self.trimmed(released, self.pages@.len() as int);
        assert forall|a: int| #[trigger] done.contains(a) == self.spare().intersect(
            Pool::addresses(released),
        ).contains(a) by {
            if done.contains(a) {
                let p = choose|p: int|
                    0 <= p < self.pages@.len() && (#[trigger] self.pages@[p]).is_spare(a);
                self.lemma_spare_base(p, a);
            }
            if self.is_spare(a) {
                assert(self.base_consistent(page_base_of(a) as usize));
            }
        }
        assert(done =~= self.spare().intersect(Pool::addresses(released)));
    }

    /// The chunks of the first `n` pages that can be given back, among some addresses.
    spec fn trimmed(self, released: Seq<usize>, n: int) -> Set<int> {
        Set::new(
            |address: int|
                (exists|p: int| 0 <= p < n && (#[trigger] self.pages@[p]).is_spare(address))
                    && Pool::addresses(released).contains(address),
        )
    }

    /// Trimming all pages keeps the pool consistent and its blocks as they were.
    proof fn lemma_trimmed(self, before: Pool, released: Seq<usize>)
        requires
            before.wf(),
            self.block_size == before.block_size,
            self.pages_by_base@ == before.pages_by_base@,
            self.available@ == before.available@,
            self.pages@.len() == before.pages@.len(),
            forall|p: int|
                0 <= p < self.pages@.len() ==> trimmed_page(
                    before.pages@[p],
                    #[trigger] self.pages@[p],
                    released,
                ),
        ensures
            self.wf(),
            self.bases() == before.bases(),
            self.live() == before.live(),
            self.is_exhausted() == before.is_exhausted(),
            self.spare() == before.spare().difference(Pool::addresses(released)),
    {
        assert forall|p: int| 0 <= p < self.pages@.len() implies {
            &&& (#[trigger] self.pages@[p]).is_full() == before.pages@[p].is_full()
            &&& forall|a: int| #[trigger]
                holds(self.pages@[p], a) == holds(before.pages@[p], a)
        } by {
            assert(trimmed_page(before.pages@[p], self.pages@[p], released));
            lemma_same_holds(before.pages@[p], self.pages@[p]);
        }
        assert forall|p: int| 0 <= p < self.pages@.len() implies #[trigger] self.page_consistent(
            p,
        ) by {
            assert(before.page_consistent(p));
            assert(trimmed_page(before.pages@[p], self.pages@[p], released));
        }
        assert forall|b: usize|
            self.pages_by_base@.contains_key(b) implies #[trigger] self.base_consistent(b) by {
            assert(before.base_consistent(b));
            let p = self.pages_by_base@[b] as int;
            assert(trimmed_page(before.pages@[p], self.pages@[p], released));
        }
        assert forall|k: int|
            0 <= k < self.available@.len() implies #[trigger] self.rank_consistent(k) by {
            assert(before.rank_consistent(k));
            let p = self.pages_by_base@[self.available@[k]] as int;
            assert(trimmed_page(before.pages@[p], self.pages@[p], released));
        }
        assert forall|a: int| self.is_live(a) == before.is_live(a) by {
            let b = page_base_of(a);
            if 0 <= b <= usize::MAX && before.pages_by_base@.contains_key(b as usize) {
                assert(before.base_consistent(b as usize));
            }
        }
        assert(self.live() =~= before.live());
        assert forall|a: int| #[trigger] self.spare().contains(a) == before.spare().difference(
            Pool::addresses(released),
        ).contains(a) by {
            let b = page_base_of(a);
            if 0 <= b <= usize::MAX && before.pages_by_base@.contains_key(b as usize) {
                assert(before.base_consistent(b as usize));
                let p = self.pages_by_base@[b as usize] as int;
                assert(trimmed_page(before.pages@[p], self.pages@[p], released));
                if before.pages@[p].is_spare(a) {
                    before.lemma_spare_base(p, a);
                }
                assert(self.pages@[p].is_spare(a) == (before.pages@[p].is_spare(a)
                    && !before.pages@[p].spare_among(released).contains(a)));
            }
        }
        assert(self.spare() =~= before.spare().difference(Pool::addresses(released)));
        assert(self.is_exhausted() == before.is_exhausted()) by {
            if before.is_exhausted() {
                assert forall|p: int| 0 <= p < self.pages@.len() implies (
                #[trigger] self.pages@[p]).is_full() by {
                    assert(before.pages@[p].is_full());
                }
            }
            if self.is_exhausted() {
                assert forall|p: int| 0 <= p < before.pages@.len() implies (
                #[trigger] before.pages@[p]).is_full() by {
                    assert(self.pages@[p].is_full());
                }
            }
        }
    }
}

/// Chunks do not take more bytes together than there are addresses.
pub proof fn lemma_chunks_fit(chunks: Set<int>)
    requires
        chunks.finite(),
        forall|a: int| chunks.contains(a) ==> 0 < a <= usize::MAX && a % 4096 == 0,
    ensures
        CHUNK_SIZE * chunks.len() <= usize::MAX,
{
    let place = |a: int| a / 4096;
    let most = usize::MAX as int / 4096;
    let range = vstd::set_lib::set_int_range(1, most + 1);
    vstd::set_lib::lemma_int_range(1, most + 1);
    let places = chunks.map(place);
    assert(vstd::relations::injective_on(place, chunks));
    vstd::set_lib::lemma_map_size(chunks, places, place);
    assert(places.subset_of(range));
    vstd::set_lib::lemma_len_subset(places, range);
}

/// What trimming a page does to it.
pub open spec fn trimmed_page(before: Page, after: Page, released: Seq<usize>) -> bool {
    &&& after.wf()
    &&& after.same_page(before)
    &&& forall|chunk: int|
        0 <= chunk < 16 ==> #[trigger] after.free_list(chunk) == (if before.spare_among(
            released,
        ).contains(before.base_spec() + 4096 * chunk) {
            Seq::<int>::empty()
        } else {
            before.free_list(chunk)
        })
    &&& forall|address: int| #[trigger]
        after.is_spare(address) == (before.is_spare(address) && !before.spare_among(
            released,
        ).contains(address))
}

} // verus!
