//! How much storage nodes and tokens take when they are placed in memory by hand.
//!
//! On machines with pointers of eight bytes a node starts with its reference count and its packed
//! head, four bytes each. A wide node goes on with a wide head. Then come the children, four bytes
//! each in a packed node and eight in a wide one, and the recorded offsets of every fourth child.
//! With narrower pointers a node starts with its reference count and a head of eight bytes, goes on
//! with its number of children if that does not fit the head, and has children of four bytes. A
//! token starts with its packed head on all machines, and goes on with a wide head if it needs one,
//! a counter of its own if its text is very short, and the text.

use crate::green::matching::Hashed;
use crate::green::node::{checkpoint_count, GreenNode, CHILDREN_PER_CHECKPOINT};
use crate::green::token::GreenToken;
use crate::green::token_head::{FIELD_MASK, HOT_TOKEN_LEN};
use vstd::layout::size_of;
use vstd::prelude::*;
use vstd::utf8::*;

verus! {

/// The bytes of a node before its wide head or its children.
pub const NODE_CHILDREN_OFFSET: usize = 8;

/// The bytes of a node before its number of children or its children, where pointers are narrow.
pub const NARROW_CHILDREN_OFFSET: usize = 12;

/// The bytes of a child of a wide node.
pub const CHILD_SIZE: usize = 8;

/// The bytes of a child of a packed node.
pub const PACKED_CHILD_SIZE: usize = 4;

/// The bytes of a child where pointers are narrow.
pub const NARROW_CHILD_SIZE: usize = 4;

/// The bytes of a recorded offset.
pub const CHECKPOINT_SIZE: usize = 4;

/// The bytes of a token before its wide head, its counter or its text.
pub const TOKEN_TEXT_OFFSET: usize = 4;

/// The bytes of the wide head of a token.
pub const WIDE_TOKEN_HEAD_SIZE: usize = 8;

/// The bytes of the counter of a token with a very short text.
pub const HOT_COUNT_SIZE: usize = 4;

/// The smallest number of children that makes a node wide.
pub const WIDE_CHILD_COUNT: usize = 255;

/// The smallest number of children that does not fit the head of a node where pointers are narrow.
pub const NARROW_WIDE_CHILD_COUNT: usize = 65535;

/// The size and alignment of a piece of storage.
#[derive(Debug, Clone, Copy, PartialEq, Eq, Structural)]
pub struct Layout {
    pub size: usize,
    pub align: usize,
}

/// The smallest multiple of `align` that is not below `size`.
pub open spec fn rounded_up(size: nat, align: nat) -> nat {
    (((size + align - 1) / align as int) * align) as nat
}

/// How many slots the wide head of a node takes, each as large as a child of a wide node.
pub open spec fn wide_head_slots(child_count: nat, wide: bool) -> nat {
    if usize::BITS == 64 {
        if wide {
            2
        } else {
            0
        }
    } else if child_count >= NARROW_WIDE_CHILD_COUNT {
        1
    } else {
        0
    }
}

/// How much storage a node with so many children takes.
pub open spec fn node_size(child_count: nat, wide: bool) -> nat {
    let checkpoints = checkpoint_count(child_count);
    let slots = wide_head_slots(child_count, wide);
    if usize::BITS != 64 {
        rounded_up(12 + 4 * slots + 4 * child_count + 4 * checkpoints, 4)
    } else if wide {
        rounded_up(8 + 8 * slots + 8 * child_count + 4 * checkpoints, 8)
    } else {
        rounded_up(8 + 4 * child_count + 4 * checkpoints, 4)
    }
}

/// To what the storage of a node is aligned.
pub open spec fn node_align(wide: bool) -> usize {
    if usize::BITS == 64 && wide {
        8
    } else {
        4
    }
}

/// The storage of a node with so many children.
pub open spec fn node_layout(child_count: nat, wide: bool) -> Layout {
    Layout { size: node_size(child_count, wide) as usize, align: node_align(wide) }
}

/// A packed node does not take more storage than a wide one.
pub proof fn lemma_packed_is_smaller(child_count: nat)
    ensures
        node_size(child_count, false) <= node_size(child_count, true),
{
}

/// How much storage a token with a text of so many bytes takes.
pub open spec fn token_size(text_len: nat, wide: bool) -> nat {
    rounded_up(
        (4 + (if wide {
            8int
        } else {
            0
        }) + (if text_len <= HOT_TOKEN_LEN {
            4int
        } else {
            0
        }) + text_len) as nat,
        4,
    )
}

/// The size, or the largest number where there is no storage of that size.
pub open spec fn or_unbounded(size: nat) -> nat {
    if size <= isize::MAX {
        size
    } else {
        usize::MAX as nat
    }
}

/// How many slots the wide head of a node takes.
pub fn wide_count_slots(child_count: usize, wide: bool) -> (slots: usize)
    ensures
        slots == wide_head_slots(child_count as nat, wide),
{
    if usize::BITS == 64 {
        if wide {
            2
        } else {
            0
        }
    } else if child_count >= NARROW_WIDE_CHILD_COUNT {
        1
    } else {
        0
    }
}

fn measure_node(child_count: usize, wide: bool) -> (size: u128)
    ensures
        size == node_size(child_count as nat, wide),
{
    let checkpoints: usize = if child_count == 0 {
        0
    } else {
        (child_count - 1) / CHILDREN_PER_CHECKPOINT
    };
    let children: u128 = child_count as u128;
    let checkpoint_size: u128 = CHECKPOINT_SIZE as u128;
    assert(checkpoint_size == 4 && checkpoints <= u64::MAX);
    let offsets: u128 = checkpoint_size * checkpoints as u128;
    assert(children <= u64::MAX && offsets <= u64::MAX + 4);
    let slots: u128 = wide_count_slots(child_count, wide) as u128;
    if usize::BITS != 64 {
        let head: u128 = NARROW_CHILDREN_OFFSET as u128 + NARROW_CHILD_SIZE as u128 * slots;
        let tail: u128 = NARROW_CHILD_SIZE as u128 * children;
        return (head + tail + offsets + 3) / 4 * 4;
    }
    let head: u128 = NODE_CHILDREN_OFFSET as u128 + CHILD_SIZE as u128 * slots;
    if wide {
        let tail: u128 = CHILD_SIZE as u128 * children;
        (head + tail + offsets + 7) / 8 * 8
    } else {
        let tail: u128 = PACKED_CHILD_SIZE as u128 * children;
        (head + tail + offsets + 3) / 4 * 4
    }
}

fn measure_token(text_len: usize, wide: bool) -> (size: u128)
    ensures
        size == token_size(text_len as nat, wide),
{
    let head: u128 = if wide {
        TOKEN_TEXT_OFFSET as u128 + WIDE_TOKEN_HEAD_SIZE as u128
    } else {
        TOKEN_TEXT_OFFSET as u128
    };
    let count: u128 = if text_len <= HOT_TOKEN_LEN {
        HOT_COUNT_SIZE as u128
    } else {
        0
    };
    let usable: u128 = head + count + text_len as u128;
    (usable + 3) / 4 * 4
}

/// The storage of a node with so many children.
pub fn node_allocation_layout(child_count: usize, wide: bool) -> (layout: Layout)
    requires
        node_size(child_count as nat, wide) <= isize::MAX,
    ensures
        layout == node_layout(child_count as nat, wide),
        layout.size == node_size(child_count as nat, wide),
        layout.align == node_align(wide),
{
    let size: u128 = measure_node(child_count, wide);
    Layout {
        size: size as usize,
        align: if usize::BITS == 64 && wide {
            8
        } else {
            4
        },
    }
}

/// The storage of a token with a text of so many bytes.
pub fn token_allocation_layout(text_len: usize, wide: bool) -> (layout: Layout)
    requires
        token_size(text_len as nat, wide) <= isize::MAX,
    ensures
        layout.size == token_size(text_len as nat, wide),
        layout.align == 4,
{
    let size: u128 = measure_token(text_len, wide);
    Layout { size: size as usize, align: 4 }
}

/// How much storage a node with so many children takes, if neither its kind nor its text makes it
/// wide; the largest number where there is no storage of that size.
pub fn node_allocation_size(child_count: usize) -> (size: usize)
    ensures
        size == or_unbounded(node_size(child_count as nat, child_count >= WIDE_CHILD_COUNT)),
{
    let size: u128 = measure_node(child_count, child_count >= WIDE_CHILD_COUNT);
    if size <= isize::MAX as u128 {
        size as usize
    } else {
        usize::MAX
    }
}

/// How much storage a token with a text of so many bytes takes, if its kind does not make it wide;
/// the largest number where there is no storage of that size.
pub fn token_allocation_size(text_len: usize) -> (size: usize)
    ensures
        size == or_unbounded(token_size(text_len as nat, text_len >= FIELD_MASK)),
{
    let size: u128 = measure_token(text_len, text_len >= FIELD_MASK as usize);
    if size <= isize::MAX as u128 {
        size as usize
    } else {
        usize::MAX
    }
}

/// The bytes that an entry of an interner takes: a digest and a handle, and a control byte.
pub open spec fn entry_size<T>() -> nat {
    size_of::<(Hashed<T>, ())>() + 1
}

/// What an interner is charged for a piece of storage of this size: the storage and an entry.
pub open spec fn entry_weight<T>(size: nat) -> nat {
    if size + entry_size::<T>() <= u32::MAX {
        size + entry_size::<T>()
    } else {
        u32::MAX as nat
    }
}

/// The bytes that an entry of an interner takes, or the largest number if these are more.
pub fn cache_entry_size<T>() -> (size: usize)
    ensures
        size == (if entry_size::<T>() <= usize::MAX {
            entry_size::<T>()
        } else {
            usize::MAX as nat
        }),
{
    core::mem::size_of::<(Hashed<T>, ())>().saturating_add(1)
}

fn charge<T>(size: usize) -> (weight: u32)
    ensures
        weight == entry_weight::<T>(size as nat),
{
    let weight: usize = size.saturating_add(cache_entry_size::<T>());
    if weight > u32::MAX as usize {
        u32::MAX
    } else {
        weight as u32
    }
}

/// What an interner is charged for a node with so many children, without the children.
pub open spec fn own_node_weight(child_count: nat) -> nat {
    entry_weight::<GreenNode>(
        or_unbounded(node_size(child_count, child_count >= WIDE_CHILD_COUNT)),
    )
}

/// What an interner is charged for a token with a text of so many bytes.
pub open spec fn token_weight_spec(text_len: nat) -> nat {
    entry_weight::<GreenToken>(or_unbounded(token_size(text_len, text_len >= FIELD_MASK)))
}

/// What an interner is charged for a node with so many children, without the children.
pub fn node_weight_for_count(child_count: usize) -> (weight: u32)
    ensures
        weight == own_node_weight(child_count as nat),
{
    charge::<GreenNode>(node_allocation_size(child_count))
}

/// What an interner is charged for a token with a text of so many bytes.
pub fn token_weight_for_len(text_len: usize) -> (weight: u32)
    ensures
        weight == token_weight_spec(text_len as nat),
{
    charge::<GreenToken>(token_allocation_size(text_len))
}

/// What an interner is charged for a token with this text.
pub fn token_weight(text: &str) -> (weight: u32)
    ensures
        weight == token_weight_spec(encode_utf8(text@).len()),
{
    token_weight_for_len(text.as_bytes().len())
}

} // verus!
