//! A page of pooled storage: which of its blocks are free.
//!
//! Each chunk has a list of its free blocks. Its head stands in the page, and every free block is
//! linked to the next one. A chunk that was never used, or whose memory was given back to the
//! machine, has no list; it gets one when a block of it is needed.

use crate::green::allocator::{
    block_address, blocks_per_chunk, chunk_blocks, chunk_of, is_block_size, is_page_base,
    lemma_block_within_chunk, lemma_chunk_blocks, lemma_decode_address, lemma_index_of_parts,
    lemma_index_parts, page_blocks, CHUNK_COUNT, CHUNK_SIZE,
};
use vstd::prelude::*;
use vstd::set_lib::*;

verus! {

/// The index that stands for no block.
pub const NONE: u16 = 0xffff;

/// The chunks of a page that has not been used yet.
pub const ALL_CHUNKS: u16 = 0xffff;

/// A page of blocks of one size.
pub struct Page {
    base: usize,
    block_size: usize,
    links: Vec<u16>,
    free_heads: Vec<u16>,
    live_by_chunk: Vec<u16>,
    reclaimed_chunks: u16,
    live: u32,
    available_index: Option<usize>,
    free: Ghost<Seq<Seq<int>>>,
}

/// Whether the bit of a chunk is set.
pub open spec fn has_chunk(chunks: u16, chunk: int) -> bool {
    (chunks >> (chunk as u16)) & 1u16 == 1u16
}

proof fn lemma_chunk_bits(chunks: u16, chunk: u16, other: u16)
    requires
        chunk < 16,
        other < 16,
    ensures
        (chunks & (1u16 << chunk) != 0) == has_chunk(chunks, chunk as int),
        has_chunk(chunks | (1u16 << chunk), other as int) == (has_chunk(chunks, other as int)
            || other == chunk),
        has_chunk(chunks & !(1u16 << chunk), other as int) == (has_chunk(chunks, other as int)
            && other != chunk),
        has_chunk(0xffffu16, other as int),
        !has_chunk(0u16, other as int),
{
    assert((chunks & (1u16 << chunk) != 0) == ((chunks >> chunk) & 1u16 == 1u16)) by (bit_vector)
        requires
            chunk < 16,
    ;
    assert((((chunks | (1u16 << chunk)) >> other) & 1u16 == 1u16) == (((chunks >> other) & 1u16
        == 1u16) || other == chunk)) by (bit_vector)
        requires
            chunk < 16,
            other < 16,
    ;
    assert((((chunks & !(1u16 << chunk)) >> other) & 1u16 == 1u16) == (((chunks >> other) & 1u16
        == 1u16) && other != chunk)) by (bit_vector)
        requires
            chunk < 16,
            other < 16,
    ;
    assert((0xffffu16 >> other) & 1u16 == 1u16) by (bit_vector)
        requires
            other < 16,
    ;
    assert((0u16 >> other) & 1u16 != 1u16) by (bit_vector);
}

/// The sum of the first `n` counts.
pub open spec fn sum_before(counts: Seq<u16>, n: int) -> int
    decreases n,
{
    if n <= 0 {
        0
    } else {
        sum_before(counts, n - 1) + counts[n - 1]
    }
}

proof fn lemma_sum_update(counts: Seq<u16>, n: int, index: int, count: u16)
    requires
        0 <= n <= counts.len(),
        0 <= index < counts.len(),
    ensures
        sum_before(counts.update(index, count), n) == sum_before(counts, n) + (if index < n {
            count - counts[index]
        } else {
            0
        }),
    decreases n,
{
    if n > 0 {
        lemma_sum_update(counts, n - 1, index, count);
    }
}

proof fn lemma_sum_bounds(counts: Seq<u16>, n: int, bound: int)
    requires
        0 <= n <= counts.len(),
        forall|i: int| 0 <= i < n ==> counts[i] <= bound,
        bound <= 1024,
    ensures
        0 <= sum_before(counts, n) <= 1024 * n,
        forall|i: int| 0 <= i < n ==> counts[i] <= sum_before(counts, n),
    decreases n,
{
    if n > 0 {
        lemma_sum_bounds(counts, n - 1, bound);
    }
}

proof fn lemma_sum_zero(counts: Seq<u16>, n: int)
    requires
        0 <= n <= counts.len(),
        forall|i: int| 0 <= i < n ==> counts[i] == 0,
    ensures
        sum_before(counts, n) == 0,
    decreases n,
{
    if n > 0 {
        lemma_sum_zero(counts, n - 1);
    }
}

/// All blocks of a chunk, in their order.
pub open spec fn all_blocks(block_size: int, chunk: int) -> Seq<int> {
    Seq::new(
        chunk_blocks(block_size) as nat,
        |place: int| chunk * chunk_blocks(block_size) + place,
    )
}

/// The first block of a list.
spec fn head_of(list: Seq<int>) -> int {
    if list.len() == 0 {
        NONE as int
    } else {
        list[0]
    }
}

/// The block behind the one at this place of a list.
spec fn next_in(list: Seq<int>, place: int) -> int {
    if place + 1 < list.len() {
        list[place + 1]
    } else {
        NONE as int
    }
}

/// Whether `list` is the list of free blocks of a chunk, as the head and the links spell it out.
spec fn spells(
    list: Seq<int>,
    head: u16,
    links: Seq<u16>,
    block_size: int,
    chunk: int,
) -> bool {
    &&& head == head_of(list)
    &&& list.no_duplicates()
    &&& forall|k: int|
        0 <= k < list.len() ==> {
            &&& 0 <= #[trigger] list[k] < page_blocks(block_size)
            &&& chunk_of(block_size, list[k]) == chunk
            &&& links[list[k]] == next_in(list, k)
        }
}

impl Page {
    spec fn chunk_consistent(self, chunk: int) -> bool {
        let list = self.free@[chunk];
        let blocks = chunk_blocks(self.block_size as int);
        &&& spells(
            list,
            self.free_heads@[chunk],
            self.links@,
            self.block_size as int,
            chunk,
        )
        &&& if has_chunk(self.reclaimed_chunks, chunk) {
            list.len() == 0 && self.live_by_chunk@[chunk] == 0
        } else {
            self.live_by_chunk@[chunk] + list.len() == blocks
        }
    }

    spec fn shaped(self) -> bool {
        &&& is_page_base(self.base as int)
        &&& is_block_size(self.block_size as int)
        &&& self.links@.len() == page_blocks(self.block_size as int)
        &&& self.free_heads@.len() == CHUNK_COUNT
        &&& self.live_by_chunk@.len() == CHUNK_COUNT
        &&& self.free@.len() == CHUNK_COUNT
    }

    /// Whether the lists and counts of the page agree.
    pub closed spec fn wf(self) -> bool {
        &&& self.shaped()
        &&& forall|chunk: int| 0 <= chunk < 16 ==> #[trigger] self.chunk_consistent(chunk)
        &&& self.live == sum_before(self.live_by_chunk@, 16)
    }

    /// Where the page starts.
    pub closed spec fn base_spec(self) -> int {
        self.base as int
    }

    /// The size of the blocks.
    pub closed spec fn block_size_spec(self) -> int {
        self.block_size as int
    }

    /// Where the page stands among those with a free block.
    pub closed spec fn rank(self) -> Option<usize> {
        self.available_index
    }

    /// Whether the block with this index is in use.
    pub closed spec fn is_live(self, index: int) -> bool {
        let chunk = chunk_of(self.block_size as int, index);
        &&& 0 <= index < page_blocks(self.block_size as int)
        &&& !has_chunk(self.reclaimed_chunks, chunk)
        &&& !self.free@[chunk].contains(index)
    }

    /// Whether the memory of a chunk was given back, or never used.
    pub closed spec fn is_reclaimed(self, chunk: int) -> bool {
        has_chunk(self.reclaimed_chunks, chunk)
    }

    /// How many blocks are counted as in use.
    pub closed spec fn live_count(self) -> int {
        self.live as int
    }

    /// How many blocks of a chunk are counted as in use.
    pub closed spec fn live_in_chunk(self, chunk: int) -> int {
        self.live_by_chunk@[chunk] as int
    }

    /// The list of free blocks of a chunk.
    pub closed spec fn free_list(self, chunk: int) -> Seq<int> {
        self.free@[chunk]
    }

    /// Whether a chunk has a list of free blocks with a block in it.
    pub open spec fn has_free(self, chunk: int) -> bool {
        self.free_list(chunk).len() > 0
    }

    /// The free blocks of a chunk, as a list; those of a chunk that has no list yet are all free.
    pub open spec fn blocks_to_use(self, chunk: int) -> Seq<int> {
        if self.is_reclaimed(chunk) {
            all_blocks(self.block_size_spec(), chunk)
        } else {
            self.free_list(chunk)
        }
    }

    /// Whether the next block comes from this chunk: the first one with a list of free blocks, or,
    /// if there is none, the first one without a list.
    pub open spec fn is_next_chunk(self, chunk: int) -> bool {
        &&& 0 <= chunk < 16
        &&& {
            ||| self.has_free(chunk) && forall|c: int|
                0 <= c < chunk ==> !#[trigger] self.has_free(c)
            ||| {
                &&& forall|c: int| 0 <= c < 16 ==> !#[trigger] self.has_free(c)
                &&& self.is_reclaimed(chunk)
                &&& forall|c: int| 0 <= c < chunk ==> !#[trigger] self.is_reclaimed(c)
            }
        }
    }

    /// The block that is put into use next.
    pub open spec fn next_block(self) -> int {
        let chunk = choose|chunk: int| #[trigger] self.is_next_chunk(chunk);
        self.blocks_to_use(chunk)[0]
    }

    /// There is only one chunk that the next block comes from.
    pub proof fn lemma_next_chunk(self, chunk: int)
        requires
            self.is_next_chunk(chunk),
        ensures
            self.next_block() == self.blocks_to_use(chunk)[0],
    {
        let other = choose|other: int| #[trigger] self.is_next_chunk(other);
        assert(self.is_next_chunk(other));
        if other < chunk {
            assert(!self.has_free(other));
            assert(self.is_reclaimed(other));
        }
        if chunk < other {
            assert(!self.has_free(chunk));
            assert(self.is_reclaimed(chunk));
        }
    }

    /// Whether the lists of free blocks are the same, but for that of one chunk.
    pub open spec fn same_lists_but(self, other: Page, chunk: int) -> bool {
        forall|c: int|
            0 <= c < 16 && c != chunk ==> #[trigger] self.free_list(c) == other.free_list(c)
    }

    /// Whether no block of a chunk is in use.
    pub open spec fn is_idle(self, chunk: int) -> bool {
        forall|index: int|
            chunk_of(self.block_size_spec(), index) == chunk
                ==> !#[trigger] self.is_live(index)
    }

    /// Whether all blocks are in use.
    pub open spec fn is_full(self) -> bool {
        forall|index: int|
            0 <= index < page_blocks(self.block_size_spec())
                ==> #[trigger] self.is_live(index)
    }

    /// Whether no block is in use.
    pub open spec fn is_unused(self) -> bool {
        forall|index: int| !#[trigger] self.is_live(index)
    }

    /// A page without blocks in use has a free one.
    pub proof fn lemma_unused_is_not_full(self)
        requires
            is_block_size(self.block_size_spec()),
            self.is_unused(),
        ensures
            !self.is_full(),
    {
        lemma_chunk_blocks(self.block_size as int);
        assert(!self.is_live(0));
    }

    /// Only blocks of the page are in use.
    pub proof fn lemma_live_in_range(self, index: int)
        requires
            self.is_live(index),
        ensures
            0 <= index < page_blocks(self.block_size_spec()),
    {
    }

    /// What the list of free blocks of a chunk says: the blocks on it, and only these, are not in
    /// use, unless the memory of the chunk was given back, or never used; then none is in use.
    pub proof fn lemma_free_blocks(self, chunk: int)
        requires
            self.wf(),
            0 <= chunk < 16,
        ensures
            is_page_base(self.base_spec()),
            is_block_size(self.block_size_spec()),
            self.free_list(chunk).no_duplicates(),
            forall|index: int|
                self.free_list(chunk).contains(index) ==> 0 <= index < page_blocks(
                    self.block_size_spec(),
                ) && chunk_of(self.block_size_spec(), index) == chunk && !#[trigger] self.is_live(
                    index,
                ),
            forall|index: int|
                0 <= index < page_blocks(self.block_size_spec()) && chunk_of(
                    self.block_size_spec(),
                    index,
                ) == chunk && !self.is_reclaimed(chunk) && !#[trigger] self.is_live(index)
                    ==> self.free_list(chunk).contains(index),
            self.is_reclaimed(chunk) ==> self.free_list(chunk).len() == 0,
            self.is_reclaimed(chunk) ==> self.is_idle(chunk),
    {
        assert(self.chunk_consistent(chunk));
        let list = self.free_list(chunk);
        assert forall|index: int| list.contains(index) implies 0 <= index < page_blocks(
            self.block_size_spec(),
        ) && chunk_of(self.block_size_spec(), index) == chunk && !#[trigger] self.is_live(index) by {
            let k = choose|k: int| 0 <= k < list.len() && list[k] == index;
            assert(0 <= list[k] < page_blocks(self.block_size as int));
        }
    }

    /// A list without a head is empty.
    proof fn lemma_no_head(self, chunk: int)
        requires
            self.wf(),
            0 <= chunk < 16,
            self.free_heads@[chunk] == NONE,
        ensures
            !self.has_free(chunk),
    {
        assert(self.chunk_consistent(chunk));
        lemma_chunk_blocks(self.block_size as int);
        if self.free@[chunk].len() > 0 {
            assert(0 <= self.free@[chunk][0] < page_blocks(self.block_size as int));
        }
    }

    /// A list as long as the chunk has blocks has all of them.
    proof fn lemma_full_list(self, chunk: int, index: int)
        requires
            self.wf(),
            0 <= chunk < 16,
            0 <= index < page_blocks(self.block_size as int),
            chunk_of(self.block_size as int, index) == chunk,
            self.free@[chunk].len() == chunk_blocks(
                self.block_size as int,
            ),
        ensures
            self.free@[chunk].contains(index),
    {
        assert(self.chunk_consistent(chunk));
        let bs = self.block_size as int;
        let list = self.free@[chunk];
        let blocks = chunk_blocks(bs);
        lemma_chunk_blocks(bs);
        let range = set_int_range(chunk * blocks, chunk * blocks + blocks);
        lemma_int_range(chunk * blocks, chunk * blocks + blocks);
        list.unique_seq_to_set();
        assert(list.to_set().subset_of(range)) by {
            assert forall|x: int| list.to_set().contains(x) implies range.contains(x) by {
                let k = choose|k: int| 0 <= k < list.len() && list[k] == x;
                lemma_index_parts(bs, list[k]);
            }
        }
        lemma_set_subset_finite(range, list.to_set());
        lemma_subset_equality(list.to_set(), range);
        lemma_index_parts(bs, index);
        assert(range.contains(index));
        assert(list.to_set().contains(index));
    }

    /// What the number of live blocks of a chunk says.
    proof fn lemma_idle(self, chunk: int)
        requires
            self.wf(),
            0 <= chunk < 16,
        ensures
            self.live_by_chunk@[chunk] == 0 ==> self.is_idle(chunk),
            forall|index: int|
                #![trigger self.is_live(index)]
                self.is_live(index) && chunk_of(
                    self.block_size as int,
                    index,
                ) == chunk ==> self.live_by_chunk@[chunk] > 0,
            self.live_by_chunk@[chunk] <= 1024,
    {
        assert(self.chunk_consistent(chunk));
        lemma_chunk_blocks(self.block_size as int);
        if self.live_by_chunk@[chunk] == 0 {
            assert forall|index: int|
                chunk_of(self.block_size_spec(), index)
                    == chunk implies !#[trigger] self.is_live(index) by {
                if self.is_live(index) {
                    self.lemma_full_list(chunk, index);
                }
            }
        }
    }

    /// A page that has not been used yet.
    pub fn new(base: usize, block_size: usize, available_index: usize) -> (page: Page)
        requires
            is_page_base(base as int),
            is_block_size(block_size as int),
        ensures
            page.wf(),
            page.base_spec() == base,
            page.block_size_spec() == block_size,
            page.rank() == Some(available_index),
            page.is_unused(),
            forall|chunk: int| 0 <= chunk < 16 ==> #[trigger] page.is_reclaimed(chunk),
            forall|chunk: int| 0 <= chunk < 16 ==> !#[trigger] page.has_free(chunk),
    {
        let blocks: usize = blocks_per_chunk(block_size);
        let mut links: Vec<u16> = Vec::new();
        while links.len() < CHUNK_COUNT * blocks
            invariant
                blocks == chunk_blocks(block_size as int),
                blocks <= 1024,
                links@.len() <= CHUNK_COUNT * blocks,
            decreases CHUNK_COUNT * blocks - links@.len(),
        {
            links.push(NONE);
        }
        let mut free_heads: Vec<u16> = Vec::new();
        let mut live_by_chunk: Vec<u16> = Vec::new();
        while free_heads.len() < CHUNK_COUNT
            invariant
                free_heads@.len() == live_by_chunk@.len(),
                free_heads@.len() <= CHUNK_COUNT,
                forall|c: int| 0 <= c < free_heads@.len() ==> free_heads@[c] == NONE,
                forall|c: int| 0 <= c < live_by_chunk@.len() ==> live_by_chunk@[c] == 0,
            decreases CHUNK_COUNT - free_heads@.len(),
        {
            free_heads.push(NONE);
            live_by_chunk.push(0);
        }
        let page = Page {
            base,
            block_size,
            links,
            free_heads,
            live_by_chunk,
            reclaimed_chunks: ALL_CHUNKS,
            live: 0,
            available_index: Some(available_index),
            free: Ghost(Seq::new(16, |c: int| Seq::<int>::empty())),
        };
        proof {
            lemma_sum_zero(page.live_by_chunk@, 16);
            assert forall|chunk: int| 0 <= chunk < 16 implies has_chunk(
                page.reclaimed_chunks,
                chunk,
            ) by {
                lemma_chunk_bits(ALL_CHUNKS, 0, chunk as u16);
            }
            assert forall|chunk: int| 0 <= chunk < 16 implies #[trigger] page.chunk_consistent(
                chunk,
            ) by {}
            assert forall|index: int| !#[trigger] page.is_live(index) by {
                if 0 <= index < page_blocks(block_size as int) {
                    lemma_index_parts(block_size as int, index);
                }
            }
        }
        page
    }
}

impl Page {
    /// Where the page starts.
    pub fn base(&self) -> (base: usize)
        ensures
            base == self.base_spec(),
    {
        self.base
    }

    /// Where the page stands among those with a free block.
    pub fn available_index(&self) -> (available_index: Option<usize>)
        ensures
            available_index == self.rank(),
    {
        self.available_index
    }

    /// Records where the page stands among those with a free block.
    pub fn set_available_index(&mut self, available_index: Option<usize>)
        ensures
            final(self).rank() == available_index,
            final(self).same_blocks(*old(self)),
            old(self).wf() ==> final(self).wf(),
    {
        self.available_index = available_index;
        proof {
            if old(self).wf() {
                assert forall|chunk: int| 0 <= chunk < 16 implies #[trigger] self.chunk_consistent(
                    chunk,
                ) by {
                    assert(old(self).chunk_consistent(chunk));
                }
            }
        }
    }

    /// Whether two states of a page differ at most in where it stands among the others.
    pub open spec fn same_blocks(self, other: Page) -> bool {
        &&& self.base_spec() == other.base_spec()
        &&& self.block_size_spec() == other.block_size_spec()
        &&& forall|index: int| #[trigger] self.is_live(index) == other.is_live(index)
        &&& forall|chunk: int| #[trigger]
            self.is_reclaimed(chunk) == other.is_reclaimed(chunk)
        &&& forall|chunk: int| #[trigger] self.free_list(chunk) == other.free_list(chunk)
        &&& self.live_count() == other.live_count()
        &&& forall|chunk: int| #[trigger]
            self.live_in_chunk(chunk) == other.live_in_chunk(chunk)
    }

    /// Whether the counts of blocks in use differ by this much, for one chunk and for the page, and
    /// not otherwise.
    pub open spec fn counts_changed(self, other: Page, chunk: int, change: int) -> bool {
        &&& self.live_count() == other.live_count() + change
        &&& forall|c: int|
            0 <= c < 16 ==> #[trigger] self.live_in_chunk(c) == other.live_in_chunk(c) + (if c
                == chunk {
                change
            } else {
                0
            })
    }

    /// Whether a page became another when a block was put into use: the first one on the list of
    /// the first chunk that has one, which is made first where it is missing.
    pub open spec fn allocates(before: Page, after: Page, block: int) -> bool {
        let chunk = chunk_of(before.block_size_spec(), block);
        &&& before.is_next_chunk(chunk)
        &&& after.free_list(chunk) == before.blocks_to_use(chunk).drop_first()
        &&& after.same_lists_but(before, chunk)
        &&& after.counts_changed(before, chunk, 1)
        &&& !before.is_live(block)
        &&& forall|index: int| #[trigger]
            after.is_live(index) == (before.is_live(index) || index == block)
        &&& forall|c: int|
            0 <= c < 16 ==> #[trigger] after.is_reclaimed(c) == (before.is_reclaimed(c) && c
                != chunk)
    }

    /// Whether a page became another when a block was taken out of use: it is put first on the list
    /// of its chunk.
    pub open spec fn frees(before: Page, after: Page, block: int) -> bool {
        let chunk = chunk_of(before.block_size_spec(), block);
        &&& after.free_list(chunk) == seq![block] + before.free_list(chunk)
        &&& after.same_lists_but(before, chunk)
        &&& after.counts_changed(before, chunk, -1)
        &&& forall|index: int| #[trigger]
            after.is_live(index) == (before.is_live(index) && index != block)
        &&& forall|c: int| #[trigger] after.is_reclaimed(c) == before.is_reclaimed(c)
    }

    /// Whether no block is in use.
    pub fn is_empty(&self) -> (empty: bool)
        requires
            self.wf(),
        ensures
            empty == self.is_unused(),
    {
        proof {
            assert forall|chunk: int| 0 <= chunk < 16 implies #[trigger] self.live_by_chunk@[chunk]
                <= 1024 by {
                self.lemma_idle(chunk);
            }
            lemma_sum_bounds(self.live_by_chunk@, 16, 1024);
            if self.live == 0 {
                assert forall|index: int| !#[trigger] self.is_live(index) by {
                    if self.is_live(index) {
                        lemma_index_parts(self.block_size as int, index);
                        self.lemma_idle(chunk_of(self.block_size as int, index));
                    }
                }
            }
            if self.is_unused() {
                assert forall|chunk: int| 0 <= chunk < 16 implies self.live_by_chunk@[chunk]
                    == 0 by {
                    self.lemma_unused_chunk(chunk);
                }
                lemma_sum_zero(self.live_by_chunk@, 16);
            }
        }
        self.live == 0
    }

    /// The blocks of a chunk that are in use.
    pub open spec fn live_blocks(self, chunk: int) -> Set<int> {
        Set::new(
            |index: int| self.is_live(index) && chunk_of(self.block_size_spec(), index) == chunk,
        )
    }

    /// As many blocks of a chunk are counted as are in use.
    pub proof fn lemma_counted(self, chunk: int)
        requires
            self.wf(),
            0 <= chunk < 16,
        ensures
            self.live_in_chunk(chunk) == self.live_blocks(chunk).len(),
    {
        assert(self.chunk_consistent(chunk));
        let live = self.live_blocks(chunk);
        if has_chunk(self.reclaimed_chunks, chunk) {
            assert(live =~= Set::empty());
        } else {
            let bs = self.block_size as int;
            let free = self.free@[chunk].to_set();
            let blocks = chunk_blocks(bs);
            lemma_chunk_blocks(bs);
            let range = set_int_range(chunk * blocks, chunk * blocks + blocks);
            lemma_int_range(chunk * blocks, chunk * blocks + blocks);
            self.free@[chunk].unique_seq_to_set();
            assert forall|x: int| range.contains(x) == (live.contains(x) || free.contains(x)) by {
                if range.contains(x) {
                    lemma_index_of_parts(bs, chunk, x - chunk * blocks);
                }
                if live.contains(x) || free.contains(x) {
                    lemma_index_parts(bs, x);
                }
            }
            assert(live + free =~= range);
            lemma_len_subset(live, range);
            lemma_set_disjoint_lens(live, free);
        }
    }

    /// Where no block of a chunk is in use, none is counted.
    proof fn lemma_unused_chunk(self, chunk: int)
        requires
            self.wf(),
            0 <= chunk < 16,
            self.is_idle(chunk),
        ensures
            self.live_by_chunk@[chunk] == 0,
    {
        assert(self.chunk_consistent(chunk));
        if !has_chunk(self.reclaimed_chunks, chunk) {
            let bs = self.block_size as int;
            let list = self.free@[chunk];
            let blocks = chunk_blocks(bs);
            lemma_chunk_blocks(bs);
            let range = set_int_range(chunk * blocks, chunk * blocks + blocks);
            lemma_int_range(chunk * blocks, chunk * blocks + blocks);
            list.unique_seq_to_set();
            assert(range.subset_of(list.to_set())) by {
                assert forall|x: int| range.contains(x) implies list.to_set().contains(x) by {
                    lemma_index_of_parts(bs, chunk, x - chunk * blocks);
                    assert(!self.is_live(x));
                }
            }
            lemma_len_subset(range, list.to_set());
        }
    }

    /// Whether a block is free, or can be made so.
    pub fn has_available(&self) -> (available: bool)
        requires
            self.wf(),
        ensures
            available == !self.is_full(),
    {
        if self.reclaimed_chunks != 0 {
            proof {
                lemma_some_chunk(self.reclaimed_chunks);
                let chunk = choose|chunk: int|
                    0 <= chunk < 16 && has_chunk(self.reclaimed_chunks, chunk);
                lemma_chunk_blocks(self.block_size as int);
                lemma_index_of_parts(self.block_size as int, chunk, 0);
                assert(!self.is_live(chunk * chunk_blocks(self.block_size as int) + 0));
            }
            return true;
        }
        let mut chunk: usize = 0;
        while chunk < CHUNK_COUNT
            invariant
                self.wf(),
                chunk <= CHUNK_COUNT,
                forall|c: int| 0 <= c < chunk ==> #[trigger] self.free_heads@[c] == NONE,
            decreases CHUNK_COUNT - chunk,
        {
            if self.free_heads[chunk] != NONE {
                proof {
                    assert(self.chunk_consistent(chunk as int));
                    let block = self.free@[chunk as int][0];
                    assert(self.free@[chunk as int].contains(block));
                    assert(!self.is_live(block));
                }
                return true;
            }
            chunk = chunk + 1;
        }
        proof {
            assert forall|index: int|
                0 <= index < page_blocks(self.block_size_spec()) implies #[trigger] self.is_live(
                index,
            ) by {
                lemma_index_parts(self.block_size as int, index);
                let chunk = chunk_of(self.block_size as int, index);
                assert(self.chunk_consistent(chunk));
                assert(self.free_heads@[chunk] == NONE);
                lemma_chunk_bits(0, 0, chunk as u16);
                if self.free@[chunk].len() > 0 {
                    assert(0 <= self.free@[chunk][0] < page_blocks(self.block_size as int));
                    lemma_chunk_blocks(self.block_size as int);
                }
            }
        }
        false
    }

    /// The chunk that the next block comes from: the first one with a free block, or else the first
    /// one that was given back.
    pub fn available_chunk(&self) -> (chunk: usize)
        requires
            self.wf(),
            !self.is_full(),
        ensures
            self.is_next_chunk(chunk as int),
    {
        let mut chunk: usize = 0;
        while chunk < CHUNK_COUNT
            invariant
                self.wf(),
                chunk <= CHUNK_COUNT,
                forall|c: int| 0 <= c < chunk ==> #[trigger] self.free_heads@[c] == NONE,
                forall|c: int| 0 <= c < chunk ==> !#[trigger] self.has_free(c),
            decreases CHUNK_COUNT - chunk,
        {
            if self.free_heads[chunk] != NONE {
                proof {
                    assert(self.chunk_consistent(chunk as int));
                }
                return chunk;
            }
            proof {
                self.lemma_no_head(chunk as int);
            }
            chunk = chunk + 1;
        }
        proof {
            if self.reclaimed_chunks == 0 {
                let index = choose|index: int|
                    0 <= index < page_blocks(self.block_size_spec()) && !#[trigger] self.is_live(
                        index,
                    );
                lemma_index_parts(self.block_size as int, index);
                let chunk = chunk_of(self.block_size as int, index);
                lemma_chunk_bits(0, 0, chunk as u16);
                assert(self.chunk_consistent(chunk));
                assert(self.free_heads@[chunk] == NONE);
                let k = choose|k: int|
                    0 <= k < self.free@[chunk].len() && self.free@[chunk][k] == index;
                assert(0 <= self.free@[chunk][0] < page_blocks(self.block_size as int));
                lemma_chunk_blocks(self.block_size as int);
                assert(false);
            }
            vstd::std_specs::bits::axiom_u16_trailing_zeros(self.reclaimed_chunks);
        }
        self.reclaimed_chunks.trailing_zeros() as usize
    }
}

proof fn lemma_some_chunk(chunks: u16)
    requires
        chunks != 0,
    ensures
        exists|chunk: int| 0 <= chunk < 16 && has_chunk(chunks, chunk),
{
    vstd::std_specs::bits::axiom_u16_trailing_zeros(chunks);
    assert(has_chunk(chunks, vstd::std_specs::bits::u16_trailing_zeros(chunks) as int));
}

impl Page {
    /// Where the block with this index starts.
    pub fn block_ptr(&self, block_index: usize) -> (address: usize)
        requires
            self.wf(),
            block_index < page_blocks(self.block_size_spec()),
        ensures
            address == block_address(self.base_spec(), self.block_size_spec(), block_index as int),
    {
        let blocks: usize = blocks_per_chunk(self.block_size);
        let chunk: usize = block_index / blocks;
        let block: usize = block_index % blocks;
        proof {
            lemma_index_parts(self.block_size as int, block_index as int);
            lemma_block_within_chunk(self.base as int, self.block_size as int, block_index as int);
            vstd::arithmetic::mul::lemma_mul_is_commutative(self.block_size as int, block as int);
        }
        self.base + (chunk * CHUNK_SIZE + block * self.block_size)
    }

    /// The chunk and the index of the block that starts at this address.
    pub fn block_index(&self, address: usize) -> (found: (usize, usize))
        requires
            self.wf(),
            exists|index: int|
                0 <= index < page_blocks(self.block_size_spec()) && address
                    == #[trigger] block_address(self.base_spec(), self.block_size_spec(), index),
        ensures
            found.1 < page_blocks(self.block_size_spec()),
            address == block_address(self.base_spec(), self.block_size_spec(), found.1 as int),
            found.0 == chunk_of(self.block_size_spec(), found.1 as int),
            found.0 < CHUNK_COUNT,
    {
        let ghost index = choose|index: int|
            0 <= index < page_blocks(self.block_size_spec()) && address == #[trigger] block_address(
                self.base_spec(),
                self.block_size_spec(),
                index,
            );
        proof {
            lemma_decode_address(self.base as int, self.block_size as int, index);
            lemma_index_parts(self.block_size as int, index);
        }
        let offset: usize = address - self.base;
        let chunk: usize = offset / CHUNK_SIZE;
        let chunk_offset: usize = offset % CHUNK_SIZE;
        let block: usize = chunk_offset / self.block_size;
        let blocks: usize = blocks_per_chunk(self.block_size);
        assert(chunk * blocks <= 16 * blocks) by (nonlinear_arith)
            requires
                chunk < 16,
        ;
        (chunk, chunk * blocks + block)
    }

    /// What a change to one chunk leaves alone.
    spec fn changes_only(self, before: Page, chunk: int) -> bool {
        &&& self.base == before.base
        &&& self.block_size == before.block_size
        &&& self.available_index == before.available_index
        &&& self.links@.len() == before.links@.len()
        &&& self.free_heads@.len() == before.free_heads@.len()
        &&& self.live_by_chunk@.len() == before.live_by_chunk@.len()
        &&& self.free@.len() == before.free@.len()
        &&& forall|c: int|
            0 <= c < 16 && c != chunk ==> {
                &&& #[trigger] self.free_heads@[c] == before.free_heads@[c]
                &&& self.live_by_chunk@[c] == before.live_by_chunk@[c]
                &&& self.free@[c] == before.free@[c]
                &&& has_chunk(self.reclaimed_chunks, c) == has_chunk(before.reclaimed_chunks, c)
            }
        &&& forall|i: int|
            0 <= i < self.links@.len() && chunk_of(self.block_size as int, i) != chunk
                ==> #[trigger] self.links@[i] == before.links@[i]
    }

    /// A change to one chunk keeps the others consistent, and their blocks as they were.
    proof fn lemma_others(self, before: Page, chunk: int)
        requires
            before.wf(),
            self.changes_only(before, chunk),
            0 <= chunk < 16,
        ensures
            self.shaped(),
            forall|c: int|
                0 <= c < 16 && c != chunk ==> #[trigger] self.chunk_consistent(c),
            forall|index: int|
                chunk_of(self.block_size as int, index) != chunk ==> #[trigger] self.is_live(index)
                    == before.is_live(index),
            forall|c: int|
                0 <= c < 16 && c != chunk ==> #[trigger] self.is_reclaimed(c)
                    == before.is_reclaimed(c),
    {
        let bs = self.block_size as int;
        assert forall|c: int| 0 <= c < 16 && c != chunk implies #[trigger] self.chunk_consistent(
            c,
        ) by {
            assert(before.chunk_consistent(c));
            assert(self.free_heads@[c] == before.free_heads@[c]);
            let list = self.free@[c];
            assert forall|k: int| 0 <= k < list.len() implies {
                &&& 0 <= #[trigger] list[k] < page_blocks(bs)
                &&& chunk_of(bs, list[k]) == c
                &&& self.links@[list[k]] == next_in(list, k)
            } by {
                assert(self.links@[list[k]] == before.links@[list[k]]);
            }
        }
        assert forall|index: int| chunk_of(bs, index) != chunk implies #[trigger] self.is_live(
            index,
        ) == before.is_live(index) by {
            if 0 <= index < page_blocks(bs) {
                lemma_index_parts(bs, index);
                assert(self.free_heads@[chunk_of(bs, index)] == before.free_heads@[chunk_of(
                    bs,
                    index,
                )]);
            }
        }
        assert forall|c: int| 0 <= c < 16 && c != chunk implies #[trigger] self.is_reclaimed(c)
            == before.is_reclaimed(c) by {
            assert(self.free_heads@[c] == before.free_heads@[c]);
        }
    }

    /// Gives a chunk that was given back, or never used, a list of all its blocks.
    fn initialize_chunk(&mut self, chunk: usize)
        requires
            old(self).wf(),
            chunk < CHUNK_COUNT,
            old(self).is_reclaimed(chunk as int),
        ensures
            final(self).wf(),
            final(self).base == old(self).base,
            final(self).block_size == old(self).block_size,
            final(self).available_index == old(self).available_index,
            final(self).live == old(self).live,
            final(self).live_by_chunk@ == old(self).live_by_chunk@,
            final(self).free_list(chunk as int) == all_blocks(
                old(self).block_size as int,
                chunk as int,
            ),
            final(self).same_lists_but(*old(self), chunk as int),
            forall|index: int| #[trigger]
                final(self).is_live(index) == old(self).is_live(index),
            forall|c: int|
                0 <= c < 16 ==> #[trigger] final(self).is_reclaimed(c) == (old(self).is_reclaimed(
                    c,
                ) && c != chunk),
    {
        let ghost before = *self;
        let ghost bs = self.block_size as int;
        let blocks: usize = blocks_per_chunk(self.block_size);
        assert(chunk * blocks + blocks <= 16 * blocks) by (nonlinear_arith)
            requires
                chunk < 16,
        ;
        let first: usize = chunk * blocks;
        let mut block: usize = 0;
        while block < blocks
            invariant
                before.wf(),
                self.changes_only(before, chunk as int),
                self.free@ == before.free@,
                self.free_heads@ == before.free_heads@,
                self.live_by_chunk@ == before.live_by_chunk@,
                self.reclaimed_chunks == before.reclaimed_chunks,
                self.live == before.live,
                bs == self.block_size,
                blocks == chunk_blocks(bs),
                blocks <= 1024,
                chunk < 16,
                first == chunk * blocks,
                first + blocks <= 16 * blocks,
                block <= blocks,
                forall|k: int|
                    0 <= k < block ==> #[trigger] self.links@[first + k] == (if k + 1 == blocks {
                        NONE as int
                    } else {
                        first + k + 1
                    }),
            decreases blocks - block,
        {
            let index: usize = first + block;
            let next: u16 = if block + 1 == blocks {
                NONE
            } else {
                (index + 1) as u16
            };
            proof {
                lemma_index_of_parts(bs, chunk as int, block as int);
            }
            let ghost links = self.links@;
            self.links.set(index, next);
            proof {
                assert(self.links@ == links.update(index as int, next));
            }
            block = block + 1;
        }
        self.free_heads.set(chunk, first as u16);
        let ghost mask = self.reclaimed_chunks;
        self.reclaimed_chunks = self.reclaimed_chunks & !(1u16 << (chunk as u16));
        let ghost list = all_blocks(bs, chunk as int);
        proof {
            self.free@ = self.free@.update(chunk as int, list);
            assert forall|c: int| 0 <= c < 16 implies has_chunk(self.reclaimed_chunks, c) == (
            has_chunk(mask, c) && c != chunk) by {
                lemma_chunk_bits(mask, chunk as u16, c as u16);
            }
            assert(self.changes_only(before, chunk as int));
            self.lemma_others(before, chunk as int);
            assert(before.chunk_consistent(chunk as int));
            assert forall|k: int| 0 <= k < list.len() implies {
                &&& 0 <= #[trigger] list[k] < page_blocks(bs)
                &&& chunk_of(bs, list[k]) == chunk
                &&& self.links@[list[k]] == next_in(list, k)
            } by {
                lemma_index_of_parts(bs, chunk as int, k);
                assert(self.links@[first + k] == (if k + 1 == blocks {
                    NONE as int
                } else {
                    first + k + 1
                }));
            }
            assert(self.chunk_consistent(chunk as int));
            assert forall|index: int| #[trigger] self.is_live(index) == before.is_live(
                index,
            ) by {
                if 0 <= index < page_blocks(bs) && chunk_of(bs, index) == chunk {
                    lemma_index_parts(bs, index);
                    assert(list[index - first] == index);
                }
            }
        }
    }
}

impl Page {
    /// Puts a free block into use.
    #[verifier::rlimit(30)]
    pub fn allocate(&mut self) -> (block_index: usize)
        requires
            old(self).wf(),
            !old(self).is_full(),
        ensures
            final(self).wf(),
            final(self).base_spec() == old(self).base_spec(),
            final(self).block_size_spec() == old(self).block_size_spec(),
            final(self).rank() == old(self).rank(),
            block_index < page_blocks(old(self).block_size_spec()),
            block_index == old(self).next_block(),
            Page::allocates(*old(self), *final(self), block_index as int),
    {
        let chunk: usize = self.available_chunk();
        proof {
            lemma_chunk_bits(self.reclaimed_chunks, chunk as u16, chunk as u16);
            lemma_chunk_blocks(self.block_size as int);
            self.lemma_next_chunk(chunk as int);
            assert(self.chunk_consistent(chunk as int));
        }
        if self.reclaimed_chunks & (1u16 << (chunk as u16)) != 0 {
            self.initialize_chunk(chunk);
        }
        let ghost before = *self;
        let ghost bs = self.block_size as int;
        let ghost list = self.free@[chunk as int];
        proof {
            assert(before.chunk_consistent(chunk as int));
            assert(0 <= list[0] < page_blocks(bs));
            lemma_chunk_blocks(bs);
            assert(list.contains(list[0]));
            self.lemma_idle(chunk as int);
            assert forall|c: int| 0 <= c < 16 implies #[trigger] self.live_by_chunk@[c]
                <= 1024 by {
                self.lemma_idle(c);
            }
            lemma_sum_bounds(self.live_by_chunk@, 16, 1024);
        }
        let block_index: u16 = self.free_heads[chunk];
        let count: u16 = self.live_by_chunk[chunk];
        self.free_heads.set(chunk, self.links[block_index as usize]);
        self.live_by_chunk.set(chunk, count + 1);
        self.live = self.live + 1;
        proof {
            self.free@ = self.free@.update(chunk as int, list.drop_first());
            let rest = list.drop_first();
            assert(self.free@[chunk as int] == rest);
            assert(self.changes_only(before, chunk as int));
            self.lemma_others(before, chunk as int);
            lemma_sum_update(before.live_by_chunk@, 16, chunk as int, (count + 1) as u16);
            assert forall|k: int| 0 <= k < rest.len() implies {
                &&& 0 <= #[trigger] rest[k] < page_blocks(bs)
                &&& chunk_of(bs, rest[k]) == chunk
                &&& self.links@[rest[k]] == next_in(rest, k)
            } by {
                assert(rest[k] == list[k + 1]);
            }
            assert(self.chunk_consistent(chunk as int));
            assert(before.free_list(chunk as int) == old(self).blocks_to_use(chunk as int));
            assert forall|c: int| 0 <= c < 16 && c != chunk implies #[trigger] self.free_list(c)
                == old(self).free_list(c) by {
                assert(before.free_list(c) == old(self).free_list(c));
            }
            assert forall|index: int| #[trigger] self.is_live(index) == (before.is_live(index)
                || index == block_index) by {
                if 0 <= index < page_blocks(bs) && chunk_of(bs, index) == chunk {
                    if rest.contains(index) {
                        let k = choose|k: int| 0 <= k < rest.len() && rest[k] == index;
                        assert(list[k + 1] == index);
                    }
                    if list.contains(index) && index != block_index {
                        let k = choose|k: int| 0 <= k < list.len() && list[k] == index;
                        assert(rest[k - 1] == index);
                    }
                }
            }
        }
        block_index as usize
    }

    /// Takes a block out of use.
    pub fn deallocate(&mut self, chunk: usize, block_index: usize)
        requires
            old(self).wf(),
            old(self).is_live(block_index as int),
            chunk == chunk_of(old(self).block_size_spec(), block_index as int),
        ensures
            final(self).wf(),
            final(self).base_spec() == old(self).base_spec(),
            final(self).block_size_spec() == old(self).block_size_spec(),
            final(self).rank() == old(self).rank(),
            Page::frees(*old(self), *final(self), block_index as int),
    {
        let ghost before = *self;
        let ghost bs = self.block_size as int;
        proof {
            lemma_index_parts(bs, block_index as int);
            lemma_chunk_blocks(bs);
            self.lemma_idle(chunk as int);
            assert forall|c: int| 0 <= c < 16 implies #[trigger] self.live_by_chunk@[c]
                <= 1024 by {
                self.lemma_idle(c);
            }
            lemma_sum_bounds(self.live_by_chunk@, 16, 1024);
            assert(before.chunk_consistent(chunk as int));
        }
        let ghost list = self.free@[chunk as int];
        let count: u16 = self.live_by_chunk[chunk];
        self.links.set(block_index, self.free_heads[chunk]);
        self.free_heads.set(chunk, block_index as u16);
        self.live_by_chunk.set(chunk, count - 1);
        self.live = self.live - 1;
        proof {
            let longer = seq![block_index as int] + list;
            self.free@ = self.free@.update(chunk as int, longer);
            assert(self.changes_only(before, chunk as int));
            self.lemma_others(before, chunk as int);
            lemma_sum_update(before.live_by_chunk@, 16, chunk as int, (count - 1) as u16);
            assert forall|k: int| 0 <= k < longer.len() implies {
                &&& 0 <= #[trigger] longer[k] < page_blocks(bs)
                &&& chunk_of(bs, longer[k]) == chunk
                &&& self.links@[longer[k]] == next_in(longer, k)
            } by {
                if k > 0 {
                    assert(longer[k] == list[k - 1]);
                    assert(list.contains(list[k - 1]));
                }
            }
            assert(longer.no_duplicates()) by {
                assert forall|i: int, j: int|
                    0 <= i < longer.len() && 0 <= j < longer.len() && i != j implies longer[i]
                    != longer[j] by {
                    if i > 0 {
                        assert(list.contains(list[i - 1]));
                    }
                    if j > 0 {
                        assert(list.contains(list[j - 1]));
                    }
                }
            }
            assert(self.chunk_consistent(chunk as int));
            assert forall|index: int| #[trigger] self.is_live(index) == (before.is_live(index)
                && index != block_index) by {
                if 0 <= index < page_blocks(bs) && chunk_of(bs, index) == chunk {
                    assert(longer[0] == block_index);
                    if list.contains(index) {
                        let k = choose|k: int| 0 <= k < list.len() && list[k] == index;
                        assert(longer[k + 1] == index);
                    }
                    if longer.contains(index) && index != block_index {
                        let k = choose|k: int| 0 <= k < longer.len() && longer[k] == index;
                        assert(list[k - 1] == index);
                    }
                }
            }
        }
    }

    /// Whether a chunk can be given back: none of its blocks is in use, and it was not given back
    /// yet.
    pub fn can_reclaim(&self, chunk: usize) -> (can: bool)
        requires
            self.wf(),
            chunk < CHUNK_COUNT,
        ensures
            can == (self.is_idle(chunk as int) && !self.is_reclaimed(chunk as int)),
    {
        proof {
            lemma_chunk_bits(self.reclaimed_chunks, chunk as u16, chunk as u16);
            self.lemma_idle(chunk as int);
            if self.is_idle(chunk as int) {
                self.lemma_unused_chunk(chunk as int);
            }
        }
        self.live_by_chunk[chunk] == 0 && self.reclaimed_chunks & (1u16 << (chunk as u16)) == 0
    }

    /// Where a chunk starts.
    pub fn chunk_address(&self, chunk: usize) -> (address: usize)
        requires
            self.wf(),
            chunk < CHUNK_COUNT,
        ensures
            address == self.base_spec() + 4096 * chunk,
    {
        self.base + chunk * CHUNK_SIZE
    }

    /// Records that the memory of a chunk was given back.
    pub fn reclaim(&mut self, chunk: usize)
        requires
            old(self).wf(),
            chunk < CHUNK_COUNT,
            old(self).is_idle(chunk as int),
        ensures
            final(self).wf(),
            final(self).base_spec() == old(self).base_spec(),
            final(self).block_size_spec() == old(self).block_size_spec(),
            final(self).rank() == old(self).rank(),
            forall|index: int| #[trigger] final(self).is_live(index) == old(self).is_live(index),
            forall|c: int|
                0 <= c < 16 ==> #[trigger] final(self).is_reclaimed(c) == (old(self).is_reclaimed(
                    c,
                ) || c == chunk),
            final(self).free_list(chunk as int) == Seq::<int>::empty(),
            final(self).same_lists_but(*old(self), chunk as int),
            final(self).counts_changed(*old(self), chunk as int, 0),
    {
        let ghost before = *self;
        let ghost mask = self.reclaimed_chunks;
        proof {
            self.lemma_unused_chunk(chunk as int);
        }
        self.free_heads.set(chunk, NONE);
        self.reclaimed_chunks = self.reclaimed_chunks | (1u16 << (chunk as u16));
        proof {
            self.free@ = self.free@.update(chunk as int, Seq::<int>::empty());
            assert forall|c: int| 0 <= c < 16 implies has_chunk(self.reclaimed_chunks, c) == (
            has_chunk(mask, c) || c == chunk) by {
                lemma_chunk_bits(mask, chunk as u16, c as u16);
            }
            assert(self.changes_only(before, chunk as int));
            self.lemma_others(before, chunk as int);
            lemma_chunk_bits(mask, chunk as u16, chunk as u16);
            assert(self.chunk_consistent(chunk as int));
            assert forall|index: int| #[trigger] self.is_live(index) == before.is_live(
                index,
            ) by {
                if chunk_of(self.block_size as int, index) == chunk {
                    assert(!before.is_live(index));
                }
            }
        }
    }
}

impl Page {
    /// Whether a chunk of this page starts at the address, is not given back yet, and has no block
    /// in use.
    pub open spec fn is_spare(self, address: int) -> bool {
        let chunk = (address - self.base_spec()) / 4096;
        &&& self.base_spec() <= address < self.base_spec() + 65536
        &&& (address - self.base_spec()) % 4096 == 0
        &&& self.is_idle(chunk)
        &&& !self.is_reclaimed(chunk)
    }

    /// The chunks that can be given back, among some addresses.
    pub open spec fn spare_among(self, released: Seq<usize>) -> Set<int> {
        Set::new(
            |address: int|
                self.is_spare(address) && 0 <= address <= usize::MAX && released.contains(
                    address as usize,
                ),
        )
    }

    /// Records which chunks were given back, and counts them.
    pub fn trim(&mut self, released: &[usize]) -> (count: usize)
        requires
            old(self).wf(),
        ensures
            final(self).wf(),
            final(self).same_page(*old(self)),
            forall|address: int| #[trigger]
                final(self).is_spare(address) == (old(self).is_spare(address) && !old(
                    self,
                ).spare_among(released@).contains(address)),
            forall|chunk: int|
                0 <= chunk < 16 ==> #[trigger] final(self).free_list(chunk) == (if old(
                    self,
                ).spare_among(released@).contains(old(self).base_spec() + 4096 * chunk) {
                    Seq::<int>::empty()
                } else {
                    old(self).free_list(chunk)
                }),
            old(self).spare_among(released@).finite(),
            count == old(self).spare_among(released@).len(),
            count <= 16,
    {
        broadcast use vstd::set::group_set_axioms;

        let ghost before = *self;
        let ghost base = self.base as int;
        let ghost all = before.spare_among(released@);
        let ghost mut done: Set<int> = Set::empty();
        let mut count: usize = 0;
        let mut chunk: usize = 0;
        while chunk < CHUNK_COUNT
            invariant
                before.wf(),
                self.wf(),
                self.same_page(before),
                base == before.base_spec(),
                is_page_base(base),
                all == before.spare_among(released@),
                chunk <= CHUNK_COUNT,
                count <= chunk,
                done.finite(),
                done.len() == count,
                forall|a: int| #[trigger]
                    done.contains(a) <==> all.contains(a) && a < base + 4096 * chunk,
                forall|c: int|
                    0 <= c < 16 ==> #[trigger] self.is_reclaimed(c) == (before.is_reclaimed(c)
                        || done.contains(base + 4096 * c)),
                forall|c: int|
                    0 <= c < 16 ==> #[trigger] self.free_list(c) == (if done.contains(
                        base + 4096 * c,
                    ) {
                        Seq::<int>::empty()
                    } else {
                        before.free_list(c)
                    }),
            decreases CHUNK_COUNT - chunk,
        {
            let address: usize = self.chunk_address(chunk);
            proof {
                assert(self.is_idle(chunk as int) == before.is_idle(chunk as int)) by {
                    self.lemma_same_idle(before, chunk as int);
                }
                assert(!done.contains(address as int));
                assert((address - base) / 4096 == chunk);
            }
            if self.can_reclaim(chunk) && contains_address(released, address) {
                self.reclaim(chunk);
                count = count + 1;
                proof {
                    assert(all.contains(address as int));
                    done = done.insert(address as int);
                }
            } else {
                assert(!all.contains(address as int));
            }
            chunk = chunk + 1;
            proof {
                assert forall|a: int| #[trigger] done.contains(a) <==> all.contains(a) && a < base
                    + 4096 * chunk by {
                    if all.contains(a) && base + 4096 * (chunk - 1) <= a < base + 4096 * chunk {
                        assert(a == address);
                    }
                }
            }
        }
        proof {
            assert(done =~= all);
            assert forall|a: int| #[trigger] self.is_spare(a) == (before.is_spare(a)
                && !all.contains(a)) by {
                let c = (a - base) / 4096;
                if base <= a < base + 65536 && (a - base) % 4096 == 0 {
                    self.lemma_same_idle(before, c);
                    assert(a == base + 4096 * c);
                    assert(self.is_reclaimed(c) == (before.is_reclaimed(c) || done.contains(a)));
                }
            }
        }
        count
    }

    /// Whether two states of a page differ at most in which chunks were given back.
    pub open spec fn same_page(self, other: Page) -> bool {
        &&& self.base_spec() == other.base_spec()
        &&& self.block_size_spec() == other.block_size_spec()
        &&& self.rank() == other.rank()
        &&& forall|index: int| #[trigger] self.is_live(index) == other.is_live(index)
        &&& self.live_count() == other.live_count()
        &&& forall|chunk: int|
            0 <= chunk < 16 ==> #[trigger] self.live_in_chunk(chunk) == other.live_in_chunk(chunk)
    }

    proof fn lemma_same_idle(self, other: Page, chunk: int)
        requires
            self.same_page(other),
        ensures
            self.is_idle(chunk) == other.is_idle(chunk),
    {
        if self.is_idle(chunk) {
            assert forall|index: int|
                chunk_of(other.block_size_spec(), index) == chunk implies !#[trigger] other.is_live(
                index,
            ) by {
                assert(!self.is_live(index));
            }
        }
        if other.is_idle(chunk) {
            assert forall|index: int|
                chunk_of(self.block_size_spec(), index) == chunk implies !#[trigger] self.is_live(
                index,
            ) by {
                assert(!other.is_live(index));
            }
        }
    }

    /// The chunks that can be given back, behind the addresses `found`.
    pub fn empty_chunks(&self, found: &mut Vec<usize>)
        requires
            self.wf(),
        ensures
            forall|address: usize| #[trigger]
                final(found)@.contains(address) == (old(found)@.contains(address)
                    || self.is_spare(address as int)),
    {
        let ghost before = found@;
        let mut chunk: usize = 0;
        while chunk < CHUNK_COUNT
            invariant
                self.wf(),
                is_page_base(self.base_spec()),
                chunk <= CHUNK_COUNT,
                forall|address: usize| #[trigger]
                    found@.contains(address) == (before.contains(address) || (self.is_spare(
                        address as int,
                    ) && address < self.base_spec() + 4096 * chunk)),
            decreases CHUNK_COUNT - chunk,
        {
            let start: usize = self.chunk_address(chunk);
            let ghost so_far = found@;
            assert((start - self.base_spec()) / 4096 == chunk);
            if self.can_reclaim(chunk) {
                found.push(start);
                proof {
                    assert forall|address: usize| #[trigger] found@.contains(address) == (
                    so_far.contains(address) || address == start) by {
                        if so_far.contains(address) {
                            let k = choose|k: int| 0 <= k < so_far.len() && so_far[k] == address;
                            assert(found@[k] == address);
                        }
                        assert(found@[so_far.len() as int] == start);
                    }
                }
            }
            chunk = chunk + 1;
            proof {
                assert forall|address: usize| #[trigger] found@.contains(address) == (
                before.contains(address) || (self.is_spare(address as int) && address
                    < self.base_spec() + 4096 * chunk)) by {
                    assert(so_far.contains(address) == (before.contains(address) || (self.is_spare(
                        address as int,
                    ) && address < self.base_spec() + 4096 * (chunk - 1))));
                    if self.is_spare(address as int) && self.base_spec() + 4096 * (chunk - 1)
                        <= address < self.base_spec() + 4096 * chunk {
                        assert(address == start);
                    }
                }
            }
        }
    }
}

/// Whether an address is among some addresses.
fn contains_address(addresses: &[usize], address: usize) -> (found: bool)
    ensures
        found == addresses@.contains(address),
{
    let mut index: usize = 0;
    while index < addresses.len()
        invariant
            index <= addresses@.len(),
            forall|i: int| 0 <= i < index ==> addresses@[i] != address,
        decreases addresses@.len() - index,
    {
        if addresses[index] == address {
            return true;
        }
        index = index + 1;
    }
    false
}

} // verus!
