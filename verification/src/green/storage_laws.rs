//! Laws of pooled storage: where blocks lie, which one is handed out next, and which chunks can be
//! given back.

use crate::green::allocator::{
    block_address, block_size_for, chunk_blocks, chunk_of, is_block_size, is_page_base, is_pooled,
    lemma_block_within_chunk, lemma_chunk_blocks, lemma_index_of_parts, lemma_index_parts,
    page_blocks,
};
use crate::green::layout::Layout;
use crate::green::page::{all_blocks, Page};
use crate::green::pool::{holds, order_without, page_base_of, trimmed_page, Pool};
use crate::green::pools::{Allocation, Deallocation, Pools};
use vstd::arithmetic::div_mod::*;
use vstd::arithmetic::mul::*;
use vstd::prelude::*;

verus! {

/// Storage comes from the pools if and only if it has at most 256 bytes and need not be aligned to
/// more than four. It takes the smallest block, of a multiple of four bytes, that is large enough.
pub proof fn lemma_smallest_block(layout: Layout)
    ensures
        is_pooled(layout) <==> layout.size <= 256 && layout.align <= 4,
        block_size_for(layout.size as int) % 4 == 0,
        block_size_for(layout.size as int) >= 4,
        block_size_for(layout.size as int) >= layout.size,
        block_size_for(layout.size as int) - 4 < layout.size || block_size_for(layout.size as int)
            == 4,
        is_pooled(layout) ==> is_block_size(block_size_for(layout.size as int)),
{
}

/// There are blocks of four to 256 bytes, in steps of four.
pub proof fn lemma_block_sizes(block_size: int)
    ensures
        is_block_size(block_size) <==> 4 <= block_size <= 256 && block_size % 4 == 0,
{
}

/// A chunk of 4096 bytes has as many blocks as fit, and a page sixteen times as many.
pub proof fn lemma_blocks_fill_chunks(block_size: int)
    requires
        is_block_size(block_size),
    ensures
        chunk_blocks(block_size) * block_size <= 4096,
        (chunk_blocks(block_size) + 1) * block_size > 4096,
        page_blocks(block_size) == 16 * chunk_blocks(block_size),
{
    lemma_fundamental_div_mod(4096, block_size);
    lemma_mul_is_commutative(block_size, chunk_blocks(block_size));
    lemma_mul_is_distributive_add_other_way(block_size, chunk_blocks(block_size), 1);
}

/// The blocks of a page follow each other: the first one lies where the page starts, each other one
/// right behind the one before it, or where the next chunk starts if it would not fit.
pub proof fn lemma_blocks_follow(base: int, block_size: int, index: int)
    requires
        is_page_base(base),
        is_block_size(block_size),
        0 <= index,
        index + 1 < page_blocks(block_size),
    ensures
        block_address(base, block_size, 0) == base,
        ({
            let address = block_address(base, block_size, index);
            let next = block_address(base, block_size, index + 1);
            if (address - base) % 4096 + 2 * block_size <= 4096 {
                next == address + block_size
            } else {
                next == address - (address - base) % 4096 + 4096
            }
        }),
{
    lemma_chunk_blocks(block_size);
    lemma_blocks_fill_chunks(block_size);
    lemma_index_parts(block_size, index);
    lemma_index_parts(block_size, index + 1);
    let blocks = chunk_blocks(block_size);
    let (chunk, place) = (chunk_of(block_size, index), index % blocks);
    lemma_block_within_chunk(base, block_size, index);
    lemma_small_mod(0, blocks as nat);
    lemma_basic_div(0, blocks);
    assert(block_size * 0 == 0);
    assert(index == blocks * chunk + place) by {
        lemma_fundamental_div_mod(index, blocks);
    }
    lemma_mul_is_commutative(block_size, place);
    lemma_mul_is_commutative(blocks, chunk);
    let address = block_address(base, block_size, index);
    lemma_mul_inequality(0, place, block_size);
    assert((address - base) % 4096 == block_size * place);
    if place + 1 < blocks {
        lemma_index_of_parts(block_size, chunk, place + 1);
        lemma_mul_is_distributive_add(block_size, place, 1);
        lemma_mul_inequality(place + 2, blocks, block_size);
        lemma_mul_is_distributive_add_other_way(block_size, place, 2);
    } else {
        assert(chunk + 1 < 16) by {
            lemma_mul_is_distributive_add_other_way(blocks, chunk, 1);
            if chunk >= 15 {
                assert(index + 1 == blocks * 15 + blocks);
            }
        }
        lemma_mul_is_distributive_add_other_way(blocks, chunk, 1);
        lemma_index_of_parts(block_size, chunk + 1, 0);
        lemma_mul_is_distributive_add_other_way(block_size, place, 2);
        assert(place + 2 == blocks + 1);
    }
}

impl Page {
    /// A chunk can be given back if and only if its memory is in use, and no block in use lies in
    /// it: wherever the chunk lies on the page.
    pub proof fn lemma_spare_chunks(self, chunk: int)
        requires
            self.wf(),
            0 <= chunk < 16,
        ensures
            self.is_spare(self.base_spec() + 4096 * chunk) <==> !self.is_reclaimed(chunk)
                && forall|index: int| #[trigger]
                self.is_live(index) ==> !(self.base_spec() + 4096 * chunk <= block_address(
                    self.base_spec(),
                    self.block_size_spec(),
                    index,
                ) < self.base_spec() + 4096 * (chunk + 1)),
    {
        let (base, bs) = (self.base_spec(), self.block_size_spec());
        self.lemma_free_blocks(chunk);
        assert((base + 4096 * chunk - base) / 4096 == chunk);
        assert forall|index: int| #[trigger] self.is_live(index) implies ((chunk_of(bs, index)
            == chunk) == (base + 4096 * chunk <= block_address(base, bs, index) < base + 4096 * (
        chunk + 1))) by {
            self.lemma_live_in_range(index);
            lemma_block_within_chunk(base, bs, index);
        }
    }

    /// What can be given back is one of the sixteen chunks of a page, as a whole.
    pub proof fn lemma_spare_is_chunk(self, address: int)
        requires
            self.wf(),
            self.is_spare(address),
        ensures
            exists|chunk: int| 0 <= chunk < 16 && address == self.base_spec() + #[trigger] (4096 * chunk),
    {
        let chunk = (address - self.base_spec()) / 4096;
        assert(address == self.base_spec() + 4096 * chunk);
    }

    /// The chunk of the last block in use that is taken out of use can be given back.
    pub proof fn lemma_freed_chunk_is_spare(before: Page, after: Page, block: int)
        requires
            before.wf(),
            after.wf(),
            after.base_spec() == before.base_spec(),
            after.block_size_spec() == before.block_size_spec(),
            Page::frees(before, after, block),
            before.is_live(block),
            forall|other: int| #[trigger]
                before.is_live(other) && other != block ==> chunk_of(
                    before.block_size_spec(),
                    other,
                ) != chunk_of(before.block_size_spec(), block),
        ensures
            after.is_spare(
                before.base_spec() + 4096 * chunk_of(before.block_size_spec(), block),
            ),
    {
        let chunk = chunk_of(before.block_size_spec(), block);
        before.lemma_live_in_range(block);
        before.lemma_free_blocks(0);
        lemma_index_parts(before.block_size_spec(), block);
        before.lemma_free_blocks(chunk);
        assert((before.base_spec() + 4096 * chunk - before.base_spec()) / 4096 == chunk);
    }

    /// Which block is put into use next. It is not in use. If the memory of its chunk is in use,
    /// all blocks of the chunks before it whose memory is in use are in use. If it is not, all
    /// blocks of all chunks whose memory is in use are in use, the chunk is the first one whose
    /// memory is not, and the block is the first one in it. The memory of its chunk is in use
    /// afterwards.
    pub proof fn lemma_next_block(before: Page, after: Page)
        requires
            before.wf(),
            after.wf(),
            after.block_size_spec() == before.block_size_spec(),
            Page::allocates(before, after, before.next_block()),
        ensures
            ({
                let bs = before.block_size_spec();
                let block = before.next_block();
                let chunk = chunk_of(bs, block);
                &&& 0 <= block < page_blocks(bs)
                &&& !before.is_live(block)
                &&& after.is_live(block)
                &&& !after.is_reclaimed(chunk)
                &&& forall|index: int|
                    0 <= index < page_blocks(bs) && !before.is_reclaimed(chunk_of(bs, index)) && (
                    chunk_of(bs, index) < chunk || before.is_reclaimed(chunk))
                        ==> #[trigger] before.is_live(index)
                &&& before.is_reclaimed(chunk) ==> {
                    &&& block_address(before.base_spec(), bs, block) == before.base_spec() + 4096
                        * chunk
                    &&& forall|c: int| 0 <= c < chunk ==> !#[trigger] before.is_reclaimed(c)
                }
            }),
    {
        let bs = before.block_size_spec();
        let block = before.next_block();
        let chunk = chunk_of(bs, block);
        before.lemma_free_blocks(chunk);
        before.lemma_next_chunk(chunk);
        lemma_chunk_blocks(bs);
        if before.is_reclaimed(chunk) {
            lemma_index_of_parts(bs, chunk, 0);
            assert(block == all_blocks(bs, chunk)[0]);
            assert(bs * 0 == 0);
        } else {
            assert(before.free_list(chunk).contains(block));
        }
        assert forall|index: int|
            0 <= index < page_blocks(bs) && !before.is_reclaimed(chunk_of(bs, index)) && (chunk_of(
                bs,
                index,
            ) < chunk || before.is_reclaimed(chunk)) implies #[trigger] before.is_live(index) by {
            let c = chunk_of(bs, index);
            lemma_index_parts(bs, index);
            before.lemma_free_blocks(c);
            if !before.is_live(index) {
                assert(before.free_list(c).contains(index));
                assert(before.has_free(c));
            }
        }
    }

    /// A page hands out the block that was taken out of use last, as far as it takes the next one
    /// from the same chunk.
    pub proof fn lemma_last_freed_is_next(before: Page, between: Page, after: Page, block: int)
        requires
            between.block_size_spec() == before.block_size_spec(),
            Page::frees(before, between, block),
            !before.is_reclaimed(chunk_of(before.block_size_spec(), block)),
            Page::allocates(between, after, between.next_block()),
            chunk_of(before.block_size_spec(), between.next_block()) == chunk_of(
                before.block_size_spec(),
                block,
            ),
        ensures
            between.next_block() == block,
            after.free_list(chunk_of(before.block_size_spec(), block)) == before.free_list(
                chunk_of(before.block_size_spec(), block),
            ),
    {
        let chunk = chunk_of(before.block_size_spec(), block);
        between.lemma_next_chunk(chunk);
        assert(between.is_reclaimed(chunk) == before.is_reclaimed(chunk));
        assert((seq![block] + before.free_list(chunk)).drop_first() =~= before.free_list(chunk));
    }

    /// A page with the same blocks as another has the same blocks in use, the same blocks free in
    /// the same order, and the memory of the same chunks in use.
    pub proof fn lemma_same_blocks(self, other: Page, index: int, chunk: int)
        requires
            self.same_blocks(other),
        ensures
            self.base_spec() == other.base_spec(),
            self.block_size_spec() == other.block_size_spec(),
            self.is_live(index) == other.is_live(index),
            self.is_reclaimed(chunk) == other.is_reclaimed(chunk),
            self.free_list(chunk) == other.free_list(chunk),
            self.live_count() == other.live_count(),
            self.live_in_chunk(chunk) == other.live_in_chunk(chunk),
    {
    }

    /// Putting a block into use adds one to the counts of its chunk and of its page, and changes no
    /// other count and no other block; taking one out of use takes one away.
    pub proof fn lemma_counts(before: Page, after: Page, block: int, index: int, chunk: int)
        requires
            0 <= chunk < 16,
        ensures
            Page::allocates(before, after, block) ==> {
                &&& after.live_count() == before.live_count() + 1
                &&& after.live_in_chunk(chunk) == before.live_in_chunk(chunk) + (if chunk
                    == chunk_of(before.block_size_spec(), block) {
                    1int
                } else {
                    0
                })
                &&& after.is_live(index) <==> before.is_live(index) || index == block
                &&& !before.is_live(block)
                &&& chunk != chunk_of(before.block_size_spec(), block) ==> {
                    &&& after.free_list(chunk) == before.free_list(chunk)
                    &&& after.is_reclaimed(chunk) == before.is_reclaimed(chunk)
                }
            },
            Page::frees(before, after, block) ==> {
                &&& after.live_count() == before.live_count() - 1
                &&& after.live_in_chunk(chunk) == before.live_in_chunk(chunk) - (if chunk
                    == chunk_of(before.block_size_spec(), block) {
                    1int
                } else {
                    0
                })
                &&& after.is_live(index) <==> before.is_live(index) && index != block
                &&& after.is_reclaimed(chunk) == before.is_reclaimed(chunk)
                &&& chunk != chunk_of(before.block_size_spec(), block) ==> after.free_list(chunk)
                    == before.free_list(chunk)
            },
    {
    }

    /// Which memory is in use after chunks were given back: that of a chunk is not if it was not
    /// before, or if none of its blocks is in use and where it starts is among what was given back.
    /// Which blocks are in use does not change.
    pub proof fn lemma_trimmed(before: Page, after: Page, released: Seq<usize>, chunk: int)
        requires
            before.wf(),
            trimmed_page(before, after, released),
            0 <= chunk < 16,
        ensures
            after.is_reclaimed(chunk) <==> before.is_reclaimed(chunk) || (forall|index: int|
                #[trigger]
                before.is_live(index) ==> chunk_of(before.block_size_spec(), index) != chunk)
                && exists|k: int|
                0 <= k < released.len() && #[trigger] released[k] == before.base_spec() + 4096
                    * chunk,
            forall|index: int| #[trigger] after.is_live(index) == before.is_live(index),
            after.is_reclaimed(chunk) ==> after.free_list(chunk).len() == 0,
            !after.is_reclaimed(chunk) ==> after.free_list(chunk) == before.free_list(chunk),
            after.live_count() == before.live_count(),
            after.live_in_chunk(chunk) == before.live_in_chunk(chunk),
    {
        before.lemma_free_blocks(chunk);
        after.lemma_free_blocks(chunk);
        let start = before.base_spec() + 4096 * chunk;
        assert((start - before.base_spec()) / 4096 == chunk);
        assert(forall|index: int| #[trigger] before.is_live(index) == after.is_live(index));
        assert(before.is_idle(chunk) == after.is_idle(chunk));
        Pool::lemma_addresses(released, start);
        assert(after.is_spare(start) == (before.is_spare(start) && !before.spare_among(
            released,
        ).contains(start)));
    }

    /// A page is full if and only if all its blocks are in use, sixteen times as many as fit into a
    /// chunk.
    pub proof fn lemma_full(self)
        ensures
            self.is_full() <==> forall|index: int|
                0 <= index < 16 * (4096int / self.block_size_spec())
                    ==> #[trigger] self.is_live(index),
    {
    }
}

impl Pool {
    /// A chunk of a page of the pool can be given back if and only if its memory is in use, and no
    /// block in use starts in it: wherever the chunk lies on the page.
    pub proof fn lemma_spare_chunks(self, base: usize, chunk: int)
        requires
            self.wf(),
            self.bases().contains(base),
            0 <= chunk < 16,
        ensures
            self.is_spare(base + 4096 * chunk) <==> !self.page_at(base).is_reclaimed(chunk)
                && forall|address: int|
                base + 4096 * chunk <= address < base + 4096 * (chunk + 1)
                    ==> !#[trigger] self.is_live(address),
            self.spare().contains(base + 4096 * chunk) <==> self.is_spare(base + 4096 * chunk),
    {
        let page = self.page_at(base);
        self.lemma_page_at(base);
        page.lemma_spare_chunks(chunk);
        let bs = self.block_size_spec();
        let start = base + 4096 * chunk;
        page.lemma_free_blocks(chunk);
        assert(page_base_of(start) == base);
        assert forall|index: int| #[trigger] page.is_live(index) implies self.is_live(
            block_address(base as int, bs, index),
        ) && page_base_of(block_address(base as int, bs, index)) == base by {
            page.lemma_live_in_range(index);
            lemma_block_within_chunk(base as int, bs, index);
            let address = block_address(base as int, bs, index);
            assert(page_base_of(address) == base);
            self.lemma_live_at(address);
            assert(holds(page, address));
        }
        assert forall|address: int| start <= address < start + 4096 && #[trigger] self.is_live(
            address,
        ) implies exists|index: int| #[trigger]
            page.is_live(index) && address == block_address(base as int, bs, index) by {
            assert(page_base_of(address) == base);
            self.lemma_live_at(address);
            assert(holds(page, address));
        }
    }

    /// What is said by [`Pool::lemma_spare_chunks`] leaves out no chunk: what can be given back is
    /// one of the sixteen chunks of a page of the pool.
    pub proof fn lemma_spare_is_chunk(self, address: int)
        requires
            self.wf(),
            self.is_spare(address),
        ensures
            exists|base: usize, chunk: int|
                self.bases().contains(base) && 0 <= chunk < 16 && address == base + #[trigger] (4096
                    * chunk) && #[trigger] self.page_at(base).base_spec() == base,
    {
        let base = page_base_of(address) as usize;
        self.lemma_page_at(base);
        self.page_at(base).lemma_spare_is_chunk(address);
        let chunk = choose|chunk: int|
            0 <= chunk < 16 && address == self.page_at(base).base_spec() + #[trigger] (4096 * chunk);
        assert(address == base + 4096 * chunk);
    }

    /// A page is given up if and only if no other block in use lies on it and there is another
    /// page. A page that has been given up is no longer one of the pool, and all others still are.
    #[verifier::rlimit(30)]
    pub proof fn lemma_released_page(
        before: Pool,
        after: Pool,
        address: usize,
        released: Option<usize>,
    )
        requires
            before.wf(),
            before.is_live(address as int),
            Pool::frees(before, after, address, released),
        ensures
            released is Some <==> before.page_count() > 1 && forall|other: int| #[trigger]
                before.is_live(other) && other != address ==> !(address - address % 65536 <= other
                    < address - address % 65536 + 65536),
            released matches Some(base) ==> base == address - address % 65536,
            released matches Some(base) ==> after.bases() == before.bases().remove(base),
            released is None ==> after.bases() == before.bases(),
            forall|other: int|
                other != address ==> #[trigger] after.live().contains(other)
                    == before.live().contains(other),
            !after.live().contains(address as int),
            after.block_size_spec() == before.block_size_spec(),
            after.page_count() == before.page_count() - (if released is Some {
                1int
            } else {
                0
            }),
            forall|base: usize|
                base != address - address % 65536 && #[trigger] after.bases().contains(base)
                    ==> after.page_at(base).same_blocks(before.page_at(base)),
            released is None ==> !after.is_exhausted(),
            released is None ==> ({
                let base = (address - address % 65536) as usize;
                exists|block: int| #[trigger]
                    Page::frees(before.page_at(base), after.page_at(base), block) && address
                        == block_address(base as int, before.block_size_spec(), block)
            }),
            released is Some ==> ({
                let base = (address - address % 65536) as usize;
                forall|other: usize| #[trigger]
                    after.order().contains(other) <==> before.order().contains(other) && other
                        != base
            }),
            released is None ==> ({
                let base = (address - address % 65536) as usize;
                let full = forall|index: int|
                    0 <= index < 16 * (4096int / before.block_size_spec())
                        ==> #[trigger] before.page_at(base).is_live(index);
                after.order() == (if full {
                    before.order().push(base)
                } else {
                    before.order()
                })
            }),
    {
        before.lemma_live_in_page(address as int);
        let base = address - address % 65536;
        before.lemma_page_at(base as usize);
        if released is Some {
            before.lemma_order();
            let order = before.order_with(base as usize);
            if before.page_at(base as usize).is_full() {
                assert(order[order.len() - 1] == base as usize);
                assert forall|other: usize| #[trigger] order.contains(other) <==> other == base
                    || before.order().contains(other) by {
                    if before.order().contains(other) {
                        let k = choose|k: int|
                            0 <= k < before.order().len() && before.order()[k] == other;
                        assert(order[k] == other);
                    }
                }
                assert(!before.order().contains(base as usize));
            }
            assert(order.no_duplicates());
            assert(order.contains(base as usize));
            lemma_order_without(order, base as usize);
        }
        assert(page_base_of(address as int) == base);
        assert forall|other: int| #[trigger] before.is_live(other) implies (page_base_of(other)
            == base) == (base <= other < base + 65536) by {
            before.lemma_live_in_page(other);
        }
    }

    /// What putting a block into use changes: the block was free, it is the next one of its page,
    /// it lies in one chunk, and no other block, no page and no size changes.
    pub proof fn lemma_put_into_use(before: Pool, after: Pool, address: usize)
        requires
            Pool::allocates(before, after, address),
        ensures
            after.live() == before.live().insert(address as int),
            !before.live().contains(address as int),
            after.bases() == before.bases(),
            after.page_count() == before.page_count(),
            after.block_size_spec() == before.block_size_spec(),
            Page::allocates(
                before.page_at(before.order().last()),
                after.page_at(before.order().last()),
                before.page_at(before.order().last()).next_block(),
            ),
            0 < address,
            address % 4 == 0,
            address % 4096 + before.block_size_spec() <= 4096,
            address == block_address(
                before.order().last() as int,
                before.block_size_spec(),
                before.page_at(before.order().last()).next_block(),
            ),
    {
    }

    /// A block comes from the page that was the last one to be taken in or to get a free block
    /// back, as far as the pool knows. The page leaves the order if it has no free block
    /// afterwards.
    #[verifier::rlimit(30)]
    pub proof fn lemma_page_used_next(before: Pool, after: Pool, address: usize)
        requires
            before.wf(),
            after.wf(),
            before.order().len() > 0,
            Pool::allocates(before, after, address),
        ensures
            before.order().last() == address - address % 65536,
            forall|base: usize|
                before.bases().contains(base) && base != before.order().last()
                    ==> #[trigger] after.page_at(base).same_blocks(before.page_at(base)),
            after.order() == before.order() || after.order() == before.order().drop_last(),
            after.order() == before.order() <==> exists|index: int|
                0 <= index < 16 * (4096int / before.block_size_spec()) && !#[trigger] after.page_at(
                    before.order().last(),
                ).is_live(index),
    {
        let base = before.order().last();
        before.lemma_order();
        assert(before.order()[before.order().len() - 1] == base);
        assert(before.order().contains(base));
        before.lemma_page_at(base);
        after.lemma_page_at(base);
        let page = before.page_at(base);
        let block = page.next_block();
        page.lemma_free_blocks(0);
        let chunk = chunk_of(before.block_size_spec(), block);
        page.lemma_free_blocks(chunk);
        page.lemma_next_chunk(chunk);
        lemma_chunk_blocks(before.block_size_spec());
        if page.is_reclaimed(chunk) {
            lemma_index_of_parts(before.block_size_spec(), chunk, 0);
        } else {
            assert(page.free_list(chunk).contains(block));
        }
        lemma_block_within_chunk(base as int, before.block_size_spec(), block);
        assert(page_base_of(address as int) == base);
        assert(before.order().drop_last().len() != before.order().len());
    }

    /// The addresses of some chunks are the numbers in the list.
    pub proof fn lemma_addresses(chunks: Seq<usize>, address: int)
        ensures
            Pool::addresses(chunks).contains(address) <==> exists|k: int|
                0 <= k < chunks.len() && #[trigger] chunks[k] == address,
    {
        if exists|k: int| 0 <= k < chunks.len() && #[trigger] chunks[k] == address {
            let k = choose|k: int| 0 <= k < chunks.len() && #[trigger] chunks[k] == address;
            assert(chunks[k] == address as usize);
        }
    }
}

/// A page that leaves an order is no longer in it; all others still are.
pub proof fn lemma_order_without(order: Seq<usize>, base: usize)
    requires
        order.no_duplicates(),
        order.contains(base),
    ensures
        order_without(order, base).len() == order.len() - 1,
        forall|other: usize| #[trigger]
            order_without(order, base).contains(other) <==> order.contains(other) && other != base,
        forall|k: int|
            0 <= k < order.len() - 1 ==> #[trigger] order_without(order, base)[k] == (if order[k]
                == base {
                order[order.len() - 1]
            } else {
                order[k]
            }),
{
    let at = order.index_of(base);
    let left = order_without(order, base);
    assert(order[at] == base);
    assert forall|other: usize| #[trigger] left.contains(other) <==> order.contains(other) && other
        != base by {
        if left.contains(other) {
            let k = choose|k: int| 0 <= k < left.len() && left[k] == other;
            if k == at {
                assert(order[order.len() - 1] == other);
            } else {
                assert(order[k] == other);
            }
        }
        if order.contains(other) && other != base {
            let k = choose|k: int| 0 <= k < order.len() && order[k] == other;
            if k == order.len() - 1 {
                assert(left[at] == other);
            } else {
                assert(left[k] == other);
            }
        }
    }
}

/// A page starts at a multiple of 65536 above zero, and ends before the last address.
pub proof fn lemma_page_bases(base: int)
    ensures
        is_page_base(base) <==> 0 < base && base % 65536 == 0 && base + 65536 <= usize::MAX,
{
}

impl Pools {
    /// A page is unknown to the pools if and only if it belongs to none of the sixty-four.
    pub proof fn lemma_unknown(self, base: usize)
        ensures
            self.is_unknown(base) <==> forall|class: int|
                0 <= class < 64 ==> !(#[trigger] self@[class]).bases().contains(base),
    {
    }

    /// Pools with the same blocks as others have the same blocks in use, the same pages, and use
    /// these in the same order.
    pub proof fn lemma_same_blocks(self, other: Pools, class: int)
        requires
            self.same_blocks(other),
            0 <= class < 64,
        ensures
            self@[class].live() == other@[class].live(),
            self@[class].bases() == other@[class].bases(),
            self@[class].page_count() == other@[class].page_count(),
            self@[class].order() == other@[class].order(),
            self@[class].is_exhausted() == other@[class].is_exhausted(),
    {
    }

    /// A chunk of a page of the pools can be given back if and only if its memory is in use, and no
    /// block in use, of whatever size, starts in it.
    pub proof fn lemma_spare_chunks(self, class: int, base: usize, chunk: int)
        requires
            self.wf(),
            0 <= class < 64,
            self@[class].bases().contains(base),
            0 <= chunk < 16,
        ensures
            self.spare().contains(base + 4096 * chunk) <==> !self@[class].page_at(
                base,
            ).is_reclaimed(chunk) && forall|address: int|
                base + 4096 * chunk <= address < base + 4096 * (chunk + 1)
                    ==> !#[trigger] self@[class].is_live(address),
    {
        self@[class].lemma_spare_chunks(base, chunk);
        let start = base + 4096 * chunk;
        self@[class].lemma_page_at(base);
        assert(page_base_of(start) == base);
        if self.is_spare(start) {
            let c = choose|c: int| 0 <= c < 64 && (#[trigger] self@[c]).is_spare(start);
            if c != class {
                assert(self@[c].bases().disjoint(self@[class].bases()));
            }
        }
    }

    /// Which storage comes from where: nothing that has more than 256 bytes or is aligned to more
    /// than four comes from the pools; everything else takes a block of the smallest size that is
    /// large enough, and a page is asked for only if all blocks of that size are in use. Blocks of
    /// other sizes stay as they are.
    pub proof fn lemma_allocation(
        before: Pools,
        after: Pools,
        layout: Layout,
        allocation: Allocation,
    )
        requires
            before.wf(),
            Pools::takes(before, after, layout, allocation),
        ensures
            allocation is Unpooled <==> layout.size > 256 || layout.align > 4,
            !(allocation is Block) ==> after@ == before@,
            layout.size <= 256 && layout.align <= 4 ==> exists|class: int|
                {
                    &&& 0 <= class < 64
                    &&& 4 * (class + 1) >= layout.size
                    &&& 4 * class < layout.size || class == 0
                    &&& #[trigger] before@[class].block_size_spec() == 4 * (class + 1)
                    &&& allocation is NeedsPage <==> before@[class].is_exhausted()
                    &&& allocation matches Allocation::Block(address) ==> {
                        &&& Pool::allocates(before@[class], after@[class], address)
                        &&& forall|other: int|
                            0 <= other < 64 && other != class ==> #[trigger] after@[other]
                                == before@[other]
                    }
                },
    {
        if layout.size <= 256 && layout.align <= 4 {
            let class = block_size_for(layout.size as int) / 4 - 1;
            assert(before@[class].block_size_spec() == 4 * (class + 1));
        }
    }

    /// Storage goes back to the pool that it came from, whatever its size is, and to no other.
    pub proof fn lemma_deallocation(
        before: Pools,
        after: Pools,
        layout: Layout,
        address: usize,
        deallocation: Deallocation,
    )
        requires
            before.wf(),
            Pools::frees(before, after, layout, address, deallocation),
        ensures
            deallocation is Unpooled <==> layout.size > 256 || layout.align > 4,
            deallocation is Unpooled ==> after@ == before@,
            layout.size <= 256 && layout.align <= 4 ==> exists|class: int|
                {
                    &&& 0 <= class < 64
                    &&& 4 * (class + 1) >= layout.size
                    &&& 4 * class < layout.size || class == 0
                    &&& Pool::frees(
                        #[trigger] before@[class],
                        after@[class],
                        address,
                        match deallocation {
                            Deallocation::Released(base) => Some(base),
                            _ => None,
                        },
                    )
                    &&& forall|other: int|
                        0 <= other < 64 && other != class ==> #[trigger] after@[other]
                            == before@[other]
                },
    {
        if layout.size <= 256 && layout.align <= 4 {
            let class = block_size_for(layout.size as int) / 4 - 1;
            assert(before@[class].block_size_spec() == 4 * (class + 1));
        }
    }
}

} // verus!
