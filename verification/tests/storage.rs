use rowan::green::allocator::{blocks_per_chunk, class, page_of};
use rowan::green::layout::{
    cache_entry_size, node_allocation_layout, node_allocation_size, token_allocation_layout,
    wide_count_slots, Layout,
};
use rowan::green::node_head::{NodeHead, WideGreenNodeHead};
use rowan::green::node_image::{
    promote, NodeDrop, NodeImage, PlacedChild, Promotion, StoredChildren,
};
use rowan::green::packed_child::{ChildAddress, GreenChild, PackedGreenChild};
use rowan::green::pool::Pool;
use rowan::green::pools::{Allocation, Deallocation};
use rowan::green::token_head::{
    plan_decrement, plan_increment, plan_overflow_decrement, plan_overflow_increment,
    DecrementPlan, IncrementPlan, OverflowDecrement, OverflowIncrement, RefcountLimit,
    RefcountOverflows, TokenHead, WideGreenTokenHead, MAX_REFCOUNT,
};
use rowan::{trim_memory, GreenNode, Pools, SyntaxKind, TextSize};

const PAGE: usize = 65536;

#[test]
fn layouts_are_exact() {
    assert_eq!(node_allocation_layout(0, false), Layout { size: 8, align: 4 });
    assert_eq!(node_allocation_layout(3, false), Layout { size: 20, align: 4 });
    assert_eq!(node_allocation_layout(5, false), Layout { size: 32, align: 4 });
    assert_eq!(node_allocation_layout(0, true), Layout { size: 24, align: 8 });
    assert_eq!(node_allocation_layout(5, true), Layout { size: 72, align: 8 });
    assert_eq!(token_allocation_layout(3, false), Layout { size: 12, align: 4 });
    assert_eq!(token_allocation_layout(9, false), Layout { size: 16, align: 4 });
    assert_eq!(token_allocation_layout(0, true), Layout { size: 16, align: 4 });
    assert_eq!(node_allocation_size(usize::MAX), usize::MAX);
    assert_eq!(node_allocation_size(1), 12);
    assert_eq!(wide_count_slots(300, true), 2);
    assert_eq!(wide_count_slots(300, false), 0);
    assert_eq!(cache_entry_size::<GreenNode>(), 17);
}

#[test]
fn classes_round_up_to_four_bytes() {
    assert_eq!(class(Layout { size: 0, align: 1 }), Some((0, 4)));
    assert_eq!(class(Layout { size: 4, align: 4 }), Some((0, 4)));
    assert_eq!(class(Layout { size: 5, align: 4 }), Some((1, 8)));
    assert_eq!(class(Layout { size: 256, align: 4 }), Some((63, 256)));
    assert_eq!(class(Layout { size: 257, align: 4 }), None);
    assert_eq!(class(Layout { size: 8, align: 8 }), None);
    assert_eq!(blocks_per_chunk(12), 341);
    assert_eq!(page_of(3 * PAGE + 4100), 3 * PAGE);
}

#[test]
fn children_are_packed_within_reach() {
    let parent: usize = 0x1000_0000;
    let near = ChildAddress { address: parent + 64, is_token: true };
    let packed = PackedGreenChild::try_from_element(parent, near).unwrap();
    assert_eq!(packed.raw(), 33);
    assert!(packed.is_token());
    assert_eq!(packed.into_element(parent), near);

    let before = ChildAddress { address: parent - 4, is_token: false };
    let packed = PackedGreenChild::try_from_element(parent, before).unwrap();
    assert_eq!(packed.raw(), 0xffff_fffe);
    assert_eq!(packed.untagged(parent), parent - 4);
    assert!(!packed.is_token());
}

#[test]
fn the_reach_of_packed_children_is_exact() {
    let parent: usize = 1 << 40;
    let unit: usize = 4;
    for (address, fits) in [
        (parent + unit * 0x3fff_ffff, true),
        (parent + unit * 0x4000_0000, false),
        (parent - unit * 0x4000_0000, true),
        (parent - unit * 0x4000_0001, false),
    ] {
        let child = ChildAddress { address, is_token: true };
        match PackedGreenChild::try_from_element(parent, child) {
            Ok(packed) => {
                assert!(fits);
                assert_eq!(packed.into_element(parent), child);
            }
            Err(unpacked) => {
                assert!(!fits);
                assert_eq!(unpacked, child);
            }
        }
    }
}

#[test]
fn wide_children_are_tagged() {
    let token = GreenChild::from_element(ChildAddress { address: 4096, is_token: true });
    assert_eq!(token.ptr(), 4097);
    assert!(token.is_token());
    assert_eq!(token.untagged(), 4096);
    let node = GreenChild::from_element(ChildAddress { address: 4096, is_token: false });
    assert_eq!(node.ptr(), 4096);
    assert_eq!(node.into_element(), ChildAddress { address: 4096, is_token: false });
}

fn placed(address: usize, text_len: u32) -> PlacedChild {
    PlacedChild {
        child: ChildAddress { address, is_token: address % 8 == 0 },
        text_len: TextSize::new(text_len),
    }
}

#[test]
fn images_store_their_children() {
    let parent: usize = 1 << 40;
    let near: Vec<PlacedChild> = (1..8).map(|index| placed(parent + 12 * index, 10)).collect();
    let image = NodeImage::new(SyntaxKind(3), parent, &near);
    assert!(!image.head().is_wide());
    assert_eq!(image.head().child_count(), 7);
    assert_eq!(image.head().text_len(), TextSize::new(70));
    assert_eq!(image.checkpoints(), &[TextSize::new(40)]);
    assert_eq!(image.layout(), node_allocation_layout(7, false));
    let released = image.children().release(parent);
    assert_eq!(released, near.iter().map(|placed| placed.child).collect::<Vec<_>>());
}

#[test]
fn images_with_a_distant_child_are_wide() {
    let parent: usize = 1 << 40;
    let mut children: Vec<PlacedChild> =
        (1..6).map(|index| placed(parent + 12 * index, 1)).collect();
    children.push(placed(64, 1));
    let image = NodeImage::new(SyntaxKind(3), parent, &children);
    assert!(image.head().is_wide());
    assert!(image.children().is_wide());
    assert_eq!(
        image.children().release(parent),
        children.iter().map(|placed| placed.child).collect::<Vec<_>>()
    );
    assert_eq!(image.children().child(parent, 5).address, 64);

    let long = NodeImage::new(SyntaxKind(3), parent, &[placed(parent + 12, 16383)]);
    assert!(long.head().is_wide());
    let short = NodeImage::new(SyntaxKind(3), parent, &[placed(parent + 12, 16382)]);
    assert!(!short.head().is_wide());
    assert!(NodeImage::new(SyntaxKind(1023), parent, &[]).head().is_wide());
}

#[test]
fn a_node_goes_with_its_last_reference() {
    let children: Vec<PlacedChild> = (1..8).map(|index| placed(PAGE + 256 * index, 10)).collect();
    let layout = node_allocation_layout(7, false);
    let mut pools = Pools::new();
    pools.add_page(layout, PAGE);
    let Allocation::Block(storage) = pools.allocate(layout) else { unreachable!() };
    let image = NodeImage::new(SyntaxKind(3), storage + 4, &children);
    assert_eq!(image.layout(), layout);

    match image.drop_reference(3, storage, &mut pools) {
        NodeDrop::Counted(left) => assert_eq!(left, 2),
        other => panic!("{other:?}"),
    }
    match image.drop_reference(1, storage, &mut pools) {
        NodeDrop::Gone { children: released, storage: freed } => {
            let held: Vec<ChildAddress> = children.iter().map(|child| child.child).collect();
            assert_eq!(released, held);
            assert_eq!(freed, Deallocation::Kept);
        }
        other => panic!("{other:?}"),
    }
    assert_eq!(pools.allocate(layout), Allocation::Block(storage));

    let wide = NodeImage::new(SyntaxKind(3), 4, &[placed(1 << 50, 1)]);
    match wide.drop_reference(1, 1 << 20, &mut pools) {
        NodeDrop::Gone { children: released, storage: freed } => {
            assert_eq!(released, vec![placed(1 << 50, 1).child]);
            assert_eq!(freed, Deallocation::Unpooled);
        }
        other => panic!("{other:?}"),
    }
}

#[test]
fn stored_words_are_read_back() {
    let packed = NodeHead::new(SyntaxKind(3), 7, TextSize::new(70), false);
    assert_eq!(NodeHead::from_raw(packed.raw(), None), packed);
    let wide = NodeHead::new(SyntaxKind(2000), 7, TextSize::new(70), true);
    let fields =
        WideGreenNodeHead { child_count: 7, text_len: TextSize::new(70), kind: SyntaxKind(2000) };
    assert_eq!(NodeHead::from_raw(wide.raw(), Some(fields)), wide);

    let child = ChildAddress { address: PAGE + 64, is_token: true };
    let near = PackedGreenChild::try_from_element(PAGE, child).unwrap();
    assert_eq!(PackedGreenChild::from_raw(near.raw()).into_element(PAGE), child);
    let far = GreenChild::from_element(child);
    assert_eq!(GreenChild::from_raw(far.ptr()).into_element(), child);

    let token = TokenHead::new(SyntaxKind(5), 40);
    assert_eq!(TokenHead::from_raw(token.raw(), None, 0), token);
    let long = TokenHead::new(SyntaxKind(5), 5000);
    let fields = WideGreenTokenHead { kind: 5, text_len: 5000 };
    assert_eq!(TokenHead::from_raw(long.raw(), Some(fields), 0), long);

    let children: Vec<PlacedChild> = (1..8).map(|index| placed(PAGE + 256 * index, 10)).collect();
    let image = NodeImage::new(SyntaxKind(3), PAGE, &children);
    let StoredChildren::Packed(stored) = image.children() else { unreachable!() };
    let checkpoints = image.checkpoints().to_vec();
    let stored = StoredChildren::Packed(stored.clone());
    let again = NodeImage::from_parts(image.head(), stored, checkpoints).unwrap();
    assert_eq!(again.children().child(PAGE, 6), children[6].child);
    let none = StoredChildren::Packed(Vec::new());
    assert!(NodeImage::from_parts(image.head(), none, Vec::new()).is_none());
    let empty = NodeImage::new(SyntaxKind(3), PAGE, &[]);
    let other = StoredChildren::Wide(Vec::new());
    assert!(NodeImage::from_parts(empty.head(), other, Vec::new()).is_none());
}

#[test]
fn references_to_nodes_are_counted_up_to_a_limit() {
    assert_eq!(NodeImage::add_reference(1), Ok(2));
    assert_eq!(NodeImage::add_reference(MAX_REFCOUNT), Ok(MAX_REFCOUNT + 1));
    assert_eq!(NodeImage::add_reference(MAX_REFCOUNT + 1), Err(RefcountLimit));
}

#[test]
fn promotion_takes_wide_storage_and_gives_back_the_packed_one() {
    let packed = node_allocation_layout(3, false);
    let mut pools = Pools::new();
    pools.add_page(packed, PAGE);
    let Allocation::Block(storage) = pools.allocate(packed) else { unreachable!() };
    let moved = Promotion::Moved { wide: Allocation::Unpooled, packed: Deallocation::Kept };
    assert_eq!(promote(3, storage, &mut pools), moved);
    assert_eq!(pools.allocate(packed), Allocation::Block(storage));

    let moved = Promotion::Moved { wide: Allocation::Unpooled, packed: Deallocation::Unpooled };
    assert_eq!(promote(100, 1 << 20, &mut pools), moved);
}

#[test]
fn pools_hand_out_each_block_once() {
    let mut pool = Pool::new(256);
    assert!(pool.needs_page());
    pool.add_page(PAGE);
    let mut blocks = Vec::new();
    while !pool.needs_page() {
        blocks.push(pool.allocate());
    }
    assert_eq!(blocks.len(), 256);
    blocks.sort();
    assert!(blocks.windows(2).all(|pair| pair[0] + 256 <= pair[1]));
    assert_eq!(blocks[0], PAGE);
    assert_eq!(blocks[255], 2 * PAGE - 256);

    assert_eq!(pool.deallocate(blocks[7]), None);
    assert!(!pool.needs_page());
    assert_eq!(pool.allocate(), blocks[7]);
}

#[test]
fn pools_give_up_pages_they_do_not_need() {
    let mut pool = Pool::new(256);
    pool.add_page(PAGE);
    let first: Vec<usize> = (0..256).map(|_| pool.allocate()).collect();
    pool.add_page(4 * PAGE);
    let second = pool.allocate();
    assert_eq!(page_of(second), 4 * PAGE);
    assert_eq!(pool.deallocate(second), Some(4 * PAGE));
    for block in &first {
        assert_eq!(pool.deallocate(*block), None);
    }
    assert_eq!(page_of(pool.allocate()), PAGE);
}

#[test]
fn blocks_do_not_cross_chunks() {
    let mut pool = Pool::new(12);
    pool.add_page(PAGE);
    while !pool.needs_page() {
        let block = pool.allocate();
        assert_eq!(block % 4, 0);
        assert_eq!(block / 4096, (block + 11) / 4096);
    }
}

#[test]
fn idle_chunks_are_reclaimed_once() {
    let layout = Layout { size: 200, align: 4 };
    let mut pools = Pools::new();
    assert_eq!(pools.allocate(layout), Allocation::NeedsPage);
    pools.add_page(layout, PAGE);
    let mut blocks = Vec::new();
    while let Allocation::Block(address) = pools.allocate(layout) {
        blocks.push(address);
        if blocks.len() == 45 {
            break;
        }
    }
    assert!(pools.empty_chunks().is_empty());
    for block in blocks.iter().filter(|block| **block < PAGE + 2 * 4096) {
        assert_eq!(pools.deallocate(layout, *block), Deallocation::Kept);
    }
    assert_eq!(pools.empty_chunks(), vec![PAGE, PAGE + 4096]);
    assert_eq!(trim_memory(&mut pools, &[PAGE + 4096, PAGE + 8192, 12]), 4096);
    assert_eq!(pools.empty_chunks(), vec![PAGE]);
    assert_eq!(trim_memory(&mut pools, &[PAGE + 4096, PAGE]), 4096);
    assert_eq!(trim_memory(&mut pools, &[PAGE + 4096, PAGE]), 0);
    match pools.allocate(layout) {
        Allocation::Block(address) => assert_eq!(page_of(address), PAGE),
        other => panic!("{other:?}"),
    }
}

#[test]
fn emptied_pages_are_released() {
    let layout = Layout { size: 256, align: 4 };
    let mut pools = Pools::new();
    pools.add_page(layout, PAGE);
    while pools.allocate(layout) != Allocation::NeedsPage {}
    pools.add_page(layout, 9 * PAGE);
    let Allocation::Block(address) = pools.allocate(layout) else { unreachable!() };
    assert_eq!(address, 9 * PAGE);
    assert_eq!(pools.deallocate(layout, address), Deallocation::Released(9 * PAGE));
    assert_eq!(pools.allocate(layout), Allocation::NeedsPage);
}

#[test]
fn large_storage_does_not_come_from_the_pools() {
    let mut pools = Pools::new();
    let layout = Layout { size: 300, align: 4 };
    assert_eq!(pools.allocate(layout), Allocation::Unpooled);
    assert_eq!(pools.deallocate(layout, 64), Deallocation::Unpooled);
}

#[test]
fn references_beyond_the_packed_word_are_counted_aside() {
    let mut overflows = RefcountOverflows::new();
    let mut head = TokenHead::new(SyntaxKind(5), 40);
    for _ in 0..5000 {
        assert_eq!(head.increment_refcount(64, &mut overflows), Ok(()));
    }
    assert_eq!(overflows.get(64), Some(5001));
    assert_eq!(head.get_kind(), SyntaxKind(5));
    assert_eq!(head.get_text_len(), 40);
    for _ in 0..5000 {
        assert!(!head.decrement_refcount(64, &mut overflows));
    }
    assert_eq!(overflows.get(64), None);
    assert!(head.decrement_refcount(64, &mut overflows));
}

#[test]
fn short_tokens_have_a_counter_of_their_own() {
    let mut overflows = RefcountOverflows::new();
    let mut head = TokenHead::new(SyntaxKind(5), 8);
    assert!(head.uses_hot_count());
    for _ in 0..5000 {
        assert_eq!(head.increment_refcount(64, &mut overflows), Ok(()));
    }
    assert_eq!(overflows.get(64), None);
    for _ in 0..5000 {
        assert!(!head.decrement_refcount(64, &mut overflows));
    }
    assert!(head.decrement_refcount(64, &mut overflows));
    assert!(!TokenHead::new(SyntaxKind(5), 9).uses_hot_count());
    assert!(TokenHead::new(SyntaxKind(2000), 3).is_wide());
}

#[test]
fn counting_stops_at_the_limit() {
    let mut overflows = RefcountOverflows::new();
    let mut head = TokenHead::new(SyntaxKind(1), 100);
    for _ in 0..4094 {
        assert_eq!(head.increment_refcount(8, &mut overflows), Ok(()));
    }
    overflows.set(8, MAX_REFCOUNT - 1);
    assert_eq!(head.increment_refcount(8, &mut overflows), Ok(()));
    assert_eq!(head.increment_refcount(8, &mut overflows), Err(RefcountLimit));
    assert_eq!(overflows.get(8), Some(MAX_REFCOUNT));
    overflows.remove(8);
    assert_eq!(overflows.get(8), None);
}

#[test]
fn plans_follow_the_packed_word() {
    let one = 1 << 20;
    assert_eq!(plan_increment(one + 7), IncrementPlan::Exchange(2 * one + 7));
    assert_eq!(plan_increment(4094 * one), IncrementPlan::Overflow);
    assert_eq!(
        plan_overflow_increment(4094 * one, None),
        OverflowIncrement::Enter { packed: 4095 * one, count: 4095 }
    );
    assert_eq!(plan_overflow_increment(4095 * one, Some(4095)), OverflowIncrement::Count(4096));
    assert_eq!(
        plan_overflow_increment(4095 * one, Some(MAX_REFCOUNT)),
        OverflowIncrement::Limit
    );
    assert_eq!(plan_overflow_increment(one, None), OverflowIncrement::Retry);
    assert_eq!(
        plan_decrement(2 * one + 7),
        DecrementPlan::Exchange { packed: one + 7, last: false }
    );
    assert_eq!(plan_decrement(one + 7), DecrementPlan::Exchange { packed: 7, last: true });
    assert_eq!(plan_decrement(4095 * one), DecrementPlan::Overflow);
    assert_eq!(
        plan_overflow_decrement(4095 * one, Some(4095)),
        OverflowDecrement::Leave { packed: 4094 * one }
    );
    assert_eq!(plan_overflow_decrement(4095 * one, Some(4097)), OverflowDecrement::Count(4096));
    assert_eq!(plan_overflow_decrement(one, None), OverflowDecrement::Retry);
}
