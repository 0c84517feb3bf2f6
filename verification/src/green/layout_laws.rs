//! Laws of stored nodes and tokens: how much storage they take, what their heads hold, how far
//! their children may lie away, and how their references are counted.

use crate::green::layout::{
    node_align, node_size, own_node_weight, rounded_up, token_size, token_weight_spec,
};
use crate::green::matching::Hashed;
use crate::green::node::{checkpoint_count, GreenNode};
use crate::green::node_head::{fits_packed, packed_word};
use crate::green::node_image::{NodeImage, PlacedChild};
use crate::green::packed_child::in_reach;
use crate::green::token::GreenToken;
use crate::green::token_head::{
    count_field, kind_field, len_field, plan_decrement, plan_increment, plan_overflow_decrement,
    plan_overflow_increment, DecrementPlan, IncrementPlan, OverflowDecrement, OverflowIncrement,
    TokenHead,
};
use crate::green::SyntaxKind;
use crate::text::TextSize;
use vstd::arithmetic::div_mod::*;
use vstd::arithmetic::mul::*;
use vstd::layout::size_of;
use vstd::prelude::*;

verus! {

/// The offset of every fourth child is recorded, except that of the first: one more is recorded
/// when a child comes in behind four, eight, twelve and so on.
pub proof fn lemma_checkpoints(child_count: nat)
    ensures
        checkpoint_count(0) == 0,
        checkpoint_count(child_count + 1) == checkpoint_count(child_count) + (if child_count > 0
            && child_count % 4 == 0 {
            1nat
        } else {
            0nat
        }),
{
}

/// Rounding up leads to a multiple that is not below, and to the first of these.
pub proof fn lemma_rounded_up(size: nat, align: nat)
    requires
        align > 0,
    ensures
        rounded_up(size, align) % align == 0,
        size <= rounded_up(size, align) < size + align,
{
    let quotient = (size + align - 1) / align as int;
    lemma_fundamental_div_mod(size + align - 1, align as int);
    lemma_mul_is_commutative(quotient, align as int);
    lemma_mod_multiples_basic(quotient, align as int);
    lemma_mod_bound(size + align - 1, align as int);
    lemma_div_pos_is_pos(size + align - 1, align as int);
    lemma_mul_nonnegative(quotient, align as int);
}

/// A node takes eight bytes in front of its children, four for each child and four for each
/// recorded offset. A wide one takes sixteen bytes more in front and eight for each child, and a
/// multiple of eight in all. Where pointers are narrow, a node takes twelve bytes in front, four
/// more if it has 65535 children or more, and four for each child.
pub proof fn lemma_node_size(child_count: nat, wide: bool)
    ensures
        usize::BITS == 64 && !wide ==> node_size(child_count, wide) == 8 + 4 * child_count + 4
            * checkpoint_count(child_count),
        usize::BITS == 64 && wide ==> {
            let used = 24 + 8 * child_count + 4 * checkpoint_count(child_count);
            &&& used <= node_size(child_count, wide) < used + 8
            &&& node_size(child_count, wide) % 8 == 0
        },
        usize::BITS != 64 ==> node_size(child_count, wide) == 12 + (if child_count >= 65535 {
            4int
        } else {
            0
        }) + 4 * child_count + 4 * checkpoint_count(child_count),
        node_align(wide) == (if usize::BITS == 64 && wide {
            8int
        } else {
            4
        }),
        node_size(child_count, wide) % node_align(wide) as nat == 0,
{
}

/// One more child takes four bytes more in a packed node, and four more if an offset is recorded.
pub proof fn lemma_one_more_child(child_count: nat)
    requires
        usize::BITS == 64,
    ensures
        node_size(0, false) == 8,
        node_size(child_count + 1, false) == node_size(child_count, false) + (if child_count > 0
            && child_count % 4 == 0 {
            8nat
        } else {
            4nat
        }),
{
    lemma_node_size(0, false);
    lemma_node_size(child_count, false);
    lemma_node_size(child_count + 1, false);
    lemma_checkpoints(child_count);
}

/// A token takes four bytes in front of its text, eight more if it is wide, four more if its text
/// has at most eight bytes, and a multiple of four in all.
pub proof fn lemma_token_size(text_len: nat, wide: bool)
    ensures
        ({
            let used = 4 + (if wide {
                8int
            } else {
                0
            }) + (if text_len <= 8 {
                4int
            } else {
                0
            }) + text_len;
            &&& used <= token_size(text_len, wide) < used + 4
            &&& token_size(text_len, wide) % 4 == 0
        }),
{
}

/// A node weighs its own storage, wide if it has 255 children or more, and an entry with a control
/// byte; and so does a token, wide if its text has 1023 bytes or more. What is too much to be
/// counted weighs as much as can be.
pub proof fn lemma_weights(count: nat)
    ensures
        ({
            let weight = node_size(count, count >= 255) + size_of::<(Hashed<GreenNode>, ())>() + 1;
            &&& node_size(count, count >= 255) <= isize::MAX && weight <= 0xffff_ffff
                ==> own_node_weight(count) == weight
            &&& node_size(count, count >= 255) > isize::MAX || weight > 0xffff_ffff
                ==> own_node_weight(count) == 0xffff_ffff
        }),
        ({
            let weight = token_size(count, count >= 1023) + size_of::<(Hashed<GreenToken>, ())>()
                + 1;
            &&& token_size(count, count >= 1023) <= isize::MAX && weight <= 0xffff_ffff
                ==> token_weight_spec(count) == weight
            &&& token_size(count, count >= 1023) > isize::MAX || weight > 0xffff_ffff
                ==> token_weight_spec(count) == 0xffff_ffff
        }),
{
    assert(usize::MAX >= 0xffff_ffff);
}

/// A head of one word holds kinds below 1023, up to 254 children and texts of less than 16383
/// bytes, and the word tells which ones it holds.
pub proof fn lemma_packed_heads(
    kind: SyntaxKind,
    child_count: u32,
    text_len: TextSize,
    other_kind: SyntaxKind,
    other_child_count: u32,
    other_text_len: TextSize,
)
    ensures
        fits_packed(kind, child_count, text_len) <==> kind.0 < 1023 && child_count < 255
            && text_len.bytes() < 16383,
        fits_packed(kind, child_count, text_len) ==> 0 <= packed_word(kind, child_count, text_len)
            < 0xffff_ffff,
        fits_packed(kind, child_count, text_len) && fits_packed(
            other_kind,
            other_child_count,
            other_text_len,
        ) && packed_word(kind, child_count, text_len) == packed_word(
            other_kind,
            other_child_count,
            other_text_len,
        ) ==> kind == other_kind && child_count == other_child_count && text_len.bytes()
            == other_text_len.bytes(),
        packed_word(kind, child_count, text_len) % 1024 == kind.0 % 1024,
        packed_word(kind, child_count, text_len) / 262144 == text_len.bytes() + (kind.0 + 1024
            * child_count) / 262144,
{
}

/// A node is wide if and only if its kind is 1023 or more, it has 255 children or more, its text
/// has 16383 bytes or more, or one of its children lies out of reach.
pub proof fn lemma_wide_nodes(kind: SyntaxKind, parent: usize, children: Seq<PlacedChild>)
    ensures
        NodeImage::is_wide_spec(kind, parent, children) <==> {
            ||| kind.0 >= 1023
            ||| children.len() >= 255
            ||| PlacedChild::offset_of(children, children.len()) >= 16383
            ||| exists|i: int|
                0 <= i < children.len() && !in_reach(parent, (#[trigger] children[i]).child.address)
        },
{
}

/// A node takes storage as large, and aligned as much, as its number of children and its width ask
/// for.
pub proof fn lemma_image_layout(image: NodeImage)
    ensures
        ({
            let child_count = image.head_spec().child_count_spec() as nat;
            let wide = image.head_spec().is_wide_spec();
            &&& node_size(child_count, wide) <= usize::MAX ==> image.layout_spec().size == node_size(
                child_count,
                wide,
            )
            &&& image.layout_spec().align == (if usize::BITS == 64 && wide {
                8int
            } else {
                4
            })
        }),
{
}

/// A child starts where the one before it ends, and the first one at the start.
pub proof fn lemma_placed_offsets(children: Seq<PlacedChild>, n: nat)
    requires
        n < children.len(),
    ensures
        PlacedChild::offset_of(children, 0) == 0,
        PlacedChild::offset_of(children, n + 1) == PlacedChild::offset_of(children, n)
            + children[n as int].text_len.bytes(),
{
}

/// Children are aligned if and only if the address of each is a multiple of four.
pub proof fn lemma_aligned(children: Seq<PlacedChild>)
    ensures
        PlacedChild::all_aligned(children) <==> forall|i: int|
            0 <= i < children.len() ==> (#[trigger] children[i]).child.address % 4 == 0,
{
}

/// A child is in reach if and only if it lies a multiple of four away, at most 1073741823 of them
/// ahead or 1073741824 behind, where the addresses go on from the last one with the first one.
pub proof fn lemma_reach(parent: usize, child: usize)
    requires
        parent % 4 == 0,
        child % 4 == 0,
    ensures
        in_reach(parent, child) <==> exists|units: int|
            -1_073_741_824 <= units <= 1_073_741_823 && is_away(parent as int, child as int, units),
{
    let count = usize::MAX + 1;
    assert(count % 4 == 0);
    let ahead = if child >= parent {
        child - parent
    } else {
        child - parent + count
    };
    let behind = if parent >= child {
        parent - child
    } else {
        parent - child + count
    };
    assert(ahead == 4 * (ahead / 4));
    assert(behind == 4 * (behind / 4));
    if ahead / 4 <= 1_073_741_823 {
        assert(is_away(parent as int, child as int, ahead / 4));
    }
    if behind / 4 <= 1_073_741_824 {
        assert(is_away(parent as int, child as int, -(behind / 4)));
    }
}

/// Whether one address lies so many times four bytes behind another, where the addresses go on from
/// the last one with the first one.
pub open spec fn is_away(from: int, to: int, units: int) -> bool {
    ||| from + 4 * units == to
    ||| from + 4 * units == to + usize::MAX + 1
    ||| from + 4 * units == to - usize::MAX - 1
}

/// A word of a token is made of its three fields: ten bits, ten bits and twelve bits.
pub proof fn lemma_token_fields(packed: u32)
    ensures
        packed == kind_field(packed) + 1024 * len_field(packed) + 1_048_576 * count_field(packed),
        kind_field(packed) < 1024,
        len_field(packed) < 1024,
        count_field(packed) < 4096,
{
}

/// A token whose text has at most eight bytes is counted up to one reference more than others.
pub proof fn lemma_token_limits(head: TokenHead)
    ensures
        head.is_hot() <==> head.text_len() <= 8,
        head.limit() == (if head.text_len() <= 8 {
            0x7fff_ffffnat
        } else {
            0x7fff_fffenat
        }),
{
}

/// One more reference adds one to the count in the word of a token, and changes nothing else, as
/// long as it stays below 4095; then the count moves to a table, where it goes on up to 2147483647.
pub proof fn lemma_one_more_reference(
    packed: u32,
    kept: Option<u32>,
    plan: IncrementPlan,
    overflow: OverflowIncrement,
)
    requires
        call_ensures(plan_increment, (packed,), plan),
        count_field(packed) == 4095 ==> kept is Some,
        call_ensures(plan_overflow_increment, (packed, kept), overflow),
    ensures
        plan is Exchange <==> count_field(packed) < 4094,
        plan matches IncrementPlan::Exchange(more) ==> {
            &&& kind_field(more) == kind_field(packed)
            &&& len_field(more) == len_field(packed)
            &&& count_field(more) == count_field(packed) + 1
        },
        overflow is Enter <==> count_field(packed) == 4094,
        overflow matches OverflowIncrement::Enter { packed: more, count } ==> {
            &&& kind_field(more) == kind_field(packed)
            &&& len_field(more) == len_field(packed)
            &&& count_field(more) == count_field(packed) + 1
            &&& count == count_field(packed) + 1
        },
        overflow is Retry <==> count_field(packed) < 4094,
        overflow is Limit <==> count_field(packed) == 4095 && kept.unwrap() >= 2_147_483_647,
        overflow matches OverflowIncrement::Count(count) ==> count == kept.unwrap() + 1,
{
    crate::green::token_head::lemma_counting_keeps_fields(packed);
}

/// One reference less takes one from the count in the word of a token, and changes nothing else; a
/// count in the table goes down by one and back into the word when it gets below 4095.
pub proof fn lemma_one_reference_less(
    packed: u32,
    kept: Option<u32>,
    plan: DecrementPlan,
    overflow: OverflowDecrement,
)
    requires
        count_field(packed) > 0,
        call_ensures(plan_decrement, (packed,), plan),
        count_field(packed) == 4095 ==> kept is Some,
        call_ensures(plan_overflow_decrement, (packed, kept), overflow),
    ensures
        plan is Overflow <==> count_field(packed) == 4095,
        plan matches DecrementPlan::Exchange { packed: less, last } ==> {
            &&& kind_field(less) == kind_field(packed)
            &&& len_field(less) == len_field(packed)
            &&& count_field(less) == count_field(packed) - 1
            &&& last <==> count_field(less) == 0
        },
        overflow is Retry <==> count_field(packed) != 4095,
        overflow is Leave <==> count_field(packed) == 4095 && kept.unwrap() <= 4095,
        overflow matches OverflowDecrement::Leave { packed: less } ==> {
            &&& kind_field(less) == kind_field(packed)
            &&& len_field(less) == len_field(packed)
            &&& count_field(less) == 4094
        },
        overflow matches OverflowDecrement::Count(count) ==> count == kept.unwrap() - 1,
{
    crate::green::token_head::lemma_counting_keeps_fields(packed);
}

} // verus!
