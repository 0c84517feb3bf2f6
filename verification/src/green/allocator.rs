//! Where blocks of pooled storage lie.
//!
//! Small pieces of storage are handed out from pages of 64 KiB. A page is cut into sixteen chunks,
//! each as large as a page of the machine, and a chunk into blocks of one size. No block reaches
//! across the end of its chunk, so that a chunk without live blocks can be given back to the
//! machine by itself.

use crate::green::layout::Layout;
use vstd::arithmetic::div_mod::*;
use vstd::arithmetic::mul::*;
use vstd::prelude::*;

verus! {

/// The bytes of a page.
pub const PAGE_SIZE: usize = 65536;

/// The bytes of a chunk.
pub const CHUNK_SIZE: usize = 4096;

/// The chunks of a page.
pub const CHUNK_COUNT: usize = 16;

/// What the address and the size of a block are multiples of.
pub const ALIGN: usize = 4;

/// The largest block.
pub const MAX_POOLED_SIZE: usize = 256;

/// How many sizes of blocks there are.
pub const CLASS_COUNT: usize = 64;

/// Whether there are blocks of this size.
pub open spec fn is_block_size(block_size: int) -> bool {
    &&& ALIGN <= block_size <= MAX_POOLED_SIZE
    &&& block_size % 4 == 0
}

/// Whether a page can start at this address.
pub open spec fn is_page_base(base: int) -> bool {
    &&& 0 < base
    &&& base % 65536 == 0
    &&& base + PAGE_SIZE <= usize::MAX
}

/// How many blocks a chunk has.
pub open spec fn chunk_blocks(block_size: int) -> int {
    4096int / block_size
}

/// How many blocks a page has.
pub open spec fn page_blocks(block_size: int) -> int {
    16 * chunk_blocks(block_size)
}

/// The chunk that the block with this index lies in.
pub open spec fn chunk_of(block_size: int, index: int) -> int {
    index / chunk_blocks(block_size)
}

/// Where the block with this index starts.
pub open spec fn block_address(base: int, block_size: int, index: int) -> int {
    base + 4096 * chunk_of(block_size, index) + block_size * (index % chunk_blocks(block_size))
}

/// The smallest block that is large enough.
pub open spec fn block_size_for(size: int) -> int {
    if size <= 4 {
        4
    } else {
        (size + 3) / 4 * 4
    }
}

/// Whether a piece of storage comes from the pools.
pub open spec fn is_pooled(layout: Layout) -> bool {
    layout.align <= ALIGN && layout.size <= MAX_POOLED_SIZE
}

/// The class of blocks that such a piece of storage takes, and their size; nothing for storage that
/// does not come from the pools.
pub fn class(layout: Layout) -> (class: Option<(usize, usize)>)
    ensures
        class is Some == is_pooled(layout),
        class matches Some((class, block_size)) ==> {
            &&& block_size == block_size_for(layout.size as int)
            &&& is_block_size(block_size as int)
            &&& class == block_size / 4 - 1
            &&& class < CLASS_COUNT
        },
{
    if layout.align > ALIGN || layout.size > MAX_POOLED_SIZE {
        return None;
    }
    let size: usize = if layout.size < ALIGN {
        ALIGN
    } else {
        layout.size
    };
    let block_size: usize = (size + (ALIGN - 1)) / ALIGN * ALIGN;
    Some((block_size / ALIGN - 1, block_size))
}

/// How many blocks a chunk has.
pub fn blocks_per_chunk(block_size: usize) -> (blocks: usize)
    requires
        is_block_size(block_size as int),
    ensures
        blocks == chunk_blocks(block_size as int),
        16 <= blocks <= 1024,
        blocks * block_size <= CHUNK_SIZE,
{
    proof {
        lemma_chunk_blocks(block_size as int);
    }
    CHUNK_SIZE / block_size
}

/// A chunk has at least sixteen blocks, and they fit.
pub proof fn lemma_chunk_blocks(block_size: int)
    requires
        is_block_size(block_size),
    ensures
        16 <= chunk_blocks(block_size) <= 1024,
        chunk_blocks(block_size) * block_size <= CHUNK_SIZE,
{
    lemma_div_is_ordered_by_denominator(4096, block_size, 256);
    lemma_div_is_ordered_by_denominator(4096, 4, block_size);
    lemma_fundamental_div_mod(4096, block_size);
    lemma_mul_is_commutative(block_size, 4096int / block_size);
}

/// What the index of a block is made of: its chunk and its place there.
pub proof fn lemma_index_parts(block_size: int, index: int)
    requires
        is_block_size(block_size),
        0 <= index < page_blocks(block_size),
    ensures
        0 <= chunk_of(block_size, index) < CHUNK_COUNT,
        0 <= index % chunk_blocks(block_size) < chunk_blocks(block_size),
        index == chunk_of(block_size, index) * chunk_blocks(block_size) + index % chunk_blocks(
            block_size,
        ),
{
    lemma_chunk_blocks(block_size);
    let blocks = chunk_blocks(block_size);
    lemma_fundamental_div_mod(index, blocks);
    lemma_mul_is_commutative(blocks, index / blocks);
    lemma_div_pos_is_pos(index, blocks);
    lemma_multiply_divide_lt(index, blocks, 16);
}

/// The index of the block at a place of a chunk.
pub proof fn lemma_index_of_parts(block_size: int, chunk: int, place: int)
    requires
        is_block_size(block_size),
        0 <= chunk < CHUNK_COUNT,
        0 <= place < chunk_blocks(block_size),
    ensures
        0 <= chunk * chunk_blocks(block_size) + place < page_blocks(block_size),
        chunk_of(block_size, chunk * chunk_blocks(block_size) + place) == chunk,
        (chunk * chunk_blocks(block_size) + place) % chunk_blocks(block_size) == place,
{
    lemma_chunk_blocks(block_size);
    let blocks = chunk_blocks(block_size);
    lemma_fundamental_div_mod_converse(chunk * blocks + place, blocks, chunk, place);
    lemma_mul_inequality(chunk, 15, blocks);
    lemma_mul_inequality(0, chunk, blocks);
}

/// A block lies wholly within its chunk, and its address is aligned.
pub proof fn lemma_block_within_chunk(base: int, block_size: int, index: int)
    requires
        is_page_base(base),
        is_block_size(block_size),
        0 <= index < page_blocks(block_size),
    ensures
        ({
            let chunk_start = base + 4096 * chunk_of(block_size, index);
            let address = block_address(base, block_size, index);
            &&& base <= chunk_start <= address
            &&& address + block_size <= chunk_start + CHUNK_SIZE <= base + PAGE_SIZE
            &&& address % 4 == 0
        }),
{
    lemma_index_parts(block_size, index);
    lemma_chunk_blocks(block_size);
    let blocks = chunk_blocks(block_size);
    let place = index % blocks;
    lemma_mul_inequality(0, place, block_size);
    lemma_mul_inequality(place, blocks - 1, block_size);
    lemma_mul_is_commutative(place, block_size);
    lemma_mul_is_distributive_sub_other_way(block_size, blocks, 1);
    let quarter = block_size / 4;
    assert(block_size == 4 * quarter);
    lemma_mul_is_associative(4, quarter, place);
    assert((base + 4096 * chunk_of(block_size, index) + 4 * (quarter * place)) % 4 == 0);
}

/// What the address of a block says: the page, the chunk and the place in the chunk.
pub proof fn lemma_decode_address(base: int, block_size: int, index: int)
    requires
        is_page_base(base),
        is_block_size(block_size),
        0 <= index < page_blocks(block_size),
    ensures
        ({
            let offset = block_address(base, block_size, index) - base;
            &&& 0 <= offset < PAGE_SIZE
            &&& offset / 4096 == chunk_of(block_size, index)
            &&& (offset % 4096) / block_size == index % chunk_blocks(block_size)
            &&& (offset % 4096) % block_size == 0
        }),
{
    lemma_block_within_chunk(base, block_size, index);
    let place = index % chunk_blocks(block_size);
    let offset = block_address(base, block_size, index) - base;
    assert(offset % 4096 == block_size * place);
    lemma_div_multiples_vanish(place, block_size);
    lemma_mod_multiples_basic(place, block_size);
    lemma_mul_is_commutative(place, block_size);
}

/// Different blocks of a page do not overlap.
pub proof fn lemma_blocks_disjoint(base: int, block_size: int, left: int, right: int)
    requires
        is_page_base(base),
        is_block_size(block_size),
        0 <= left < page_blocks(block_size),
        0 <= right < page_blocks(block_size),
        left != right,
    ensures
        ({
            let a = block_address(base, block_size, left);
            let b = block_address(base, block_size, right);
            a + block_size <= b || b + block_size <= a
        }),
{
    lemma_block_within_chunk(base, block_size, left);
    lemma_block_within_chunk(base, block_size, right);
    lemma_index_parts(block_size, left);
    lemma_index_parts(block_size, right);
    let blocks = chunk_blocks(block_size);
    let (x, y) = (left % blocks, right % blocks);
    if chunk_of(block_size, left) == chunk_of(block_size, right) {
        lemma_mul_is_commutative(block_size, x);
        lemma_mul_is_commutative(block_size, y);
        if x < y {
            lemma_mul_inequality(x, y - 1, block_size);
            lemma_mul_is_distributive_sub_other_way(block_size, y, 1);
        } else {
            lemma_mul_inequality(y, x - 1, block_size);
            lemma_mul_is_distributive_sub_other_way(block_size, x, 1);
        }
    }
}

/// The page that an address lies in.
pub fn page_of(address: usize) -> (base: usize)
    ensures
        base == address - address % 65536,
{
    address - address % PAGE_SIZE
}

} // verus!
