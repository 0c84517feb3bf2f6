use rowan::green::children::GreenChildRef;
use rowan::green::element::GreenElement;
use rowan::green::hash::{node_hash, token_hash};
use rowan::green::node_head::NodeHead;
use rowan::{
    GreenNode, GreenNodeData, GreenToken, GreenTokenData, NodeOrToken, SyntaxKind, TextRange,
    TextSize,
};
use std::collections::hash_map::DefaultHasher;
use std::hash::{Hash, Hasher};

fn token(kind: u16, text: &str) -> GreenElement {
    GreenToken::new(SyntaxKind(kind), text).into()
}

/// A node whose children are tokens with these texts.
fn row(texts: &[&str]) -> GreenNode {
    let mut children: Vec<GreenElement> = Vec::new();
    for text in texts {
        children.push(token(1, text));
    }
    GreenNode::new(SyntaxKind(0), children)
}

fn texts(node: &GreenNode) -> Vec<String> {
    let mut found = Vec::new();
    let mut children = node.children();
    while let Some(child) = children.next() {
        found.push(match child {
            NodeOrToken::Node(node) => node.to_string(),
            NodeOrToken::Token(token) => token.to_string(),
        });
    }
    found
}

fn hash_of<T: Hash>(value: &T) -> u64 {
    let mut hasher = DefaultHasher::new();
    value.hash(&mut hasher);
    hasher.finish()
}

#[test]
fn assert_send_sync() {
    fn f<T: Send + Sync>() {}
    f::<GreenNode>();
    f::<GreenToken>();
    f::<GreenElement>();
}

#[test]
fn compact_children_preserve_tree_behavior() {
    let kind = SyntaxKind(0);
    let node = GreenNode::new(
        kind,
        vec![
            GreenToken::new(kind, "a").into(),
            GreenNode::new(kind, vec![GreenToken::new(kind, "bb").into()]).into(),
            GreenToken::new(kind, "c").into(),
        ],
    );

    assert_eq!(node.child_offset(0), TextSize::new(0));
    assert_eq!(node.child_offset(1), TextSize::new(1));
    assert_eq!(node.child_offset(2), TextSize::new(3));
    assert_eq!(node.child_at_range(TextRange::new(1.into(), 3.into())).unwrap().0, 1);

    let clone = node.clone();
    drop(node);
    assert_eq!(clone.to_string(), "abbc");

    let same = GreenNode::new(
        kind,
        vec![
            GreenToken::new(kind, "a").into(),
            GreenNode::new(kind, vec![GreenToken::new(kind, "bb").into()]).into(),
            GreenToken::new(kind, "c").into(),
        ],
    );
    assert_eq!(clone, same);

    let hash = |node: &GreenNode| {
        let mut hasher = DefaultHasher::new();
        node.hash(&mut hasher);
        hasher.finish()
    };
    assert_eq!(hash(&clone), hash(&same));
}

#[test]
fn tokens_know_their_kind_text_and_length() {
    let token = GreenToken::new(SyntaxKind(7), "é!");
    assert_eq!(token.kind(), SyntaxKind(7));
    assert_eq!(token.text(), "é!");
    assert_eq!(token.text_len(), TextSize::new(3));
    assert_eq!(token.to_string(), "é!");

    let wide = GreenToken::new(SyntaxKind(u16::MAX), &"x".repeat(5000));
    assert_eq!(wide.kind(), SyntaxKind(u16::MAX));
    assert_eq!(wide.text_len(), TextSize::new(5000));
    assert_eq!(wide.text().len(), 5000);

    assert_eq!(GreenToken::new(SyntaxKind(0), "").text_len(), TextSize::new(0));
}

#[test]
fn tokens_are_equal_if_kind_and_text_are() {
    let token = GreenToken::new(SyntaxKind(1), "one");
    assert_eq!(token, token.clone());
    assert_eq!(token, GreenToken::new(SyntaxKind(1), "one"));
    assert_ne!(token, GreenToken::new(SyntaxKind(2), "one"));
    assert_ne!(token, GreenToken::new(SyntaxKind(1), "two"));
    assert_ne!(token, GreenToken::new(SyntaxKind(1), "ones"));
    assert!(std::ptr::eq::<GreenTokenData>(&*token, &*token.clone()));
}

#[test]
fn nodes_are_equal_if_their_trees_are() {
    let node = row(&["a", "b"]);
    assert_eq!(node, row(&["a", "b"]));
    assert_ne!(node, row(&["a", "c"]));
    assert_ne!(node, row(&["a"]));
    assert_ne!(node, row(&["ab", ""]));
    let node_child = GreenNode::new(SyntaxKind(0), vec![row(&["a"]).into()]);
    let token_child = GreenNode::new(SyntaxKind(0), vec![token(0, "a")]);
    assert_ne!(node_child, token_child);
}

#[test]
fn wide_nodes_keep_kind_count_and_length() {
    let children: Vec<GreenElement> = (0..300).map(|_| token(3, "ab")).collect();
    let node = GreenNode::new(SyntaxKind(2000), children);
    assert_eq!(node.kind(), SyntaxKind(2000));
    assert_eq!(node.child_count(), 300);
    assert_eq!(node.text_len(), TextSize::new(600));
    assert_eq!(node.child_offset(299), TextSize::new(598));

    let long = GreenNode::new(SyntaxKind(1), vec![token(2, &"y".repeat(20_000))]);
    assert_eq!(long.text_len(), TextSize::new(20_000));
    assert_eq!(long.child_count(), 1);
    assert_eq!(long.kind(), SyntaxKind(1));
}

#[test]
fn packed_heads_hold_what_fits() {
    let packed = NodeHead::new(SyntaxKind(5), 3, TextSize::new(7), false);
    assert!(!packed.is_wide());
    assert_eq!(packed.kind(), SyntaxKind(5));
    assert_eq!(packed.child_count(), 3);
    assert_eq!(packed.text_len(), TextSize::new(7));

    let largest = NodeHead::new(SyntaxKind(1022), 254, TextSize::new(16382), false);
    assert_eq!(largest.kind(), SyntaxKind(1022));
    assert_eq!(largest.child_count(), 254);
    assert_eq!(largest.text_len(), TextSize::new(16382));

    assert!(NodeHead::starts_wide(SyntaxKind(1023), 0));
    assert!(NodeHead::starts_wide(SyntaxKind(0), 255));
    assert!(!NodeHead::starts_wide(SyntaxKind(1022), 254));
    assert!(NodeHead::ends_wide(TextSize::new(16383)));
    assert!(!NodeHead::ends_wide(TextSize::new(16382)));

    let wide = NodeHead::new(SyntaxKind(1023), 70_000, TextSize::new(u32::MAX), true);
    assert!(wide.is_wide());
    assert_eq!(wide.kind(), SyntaxKind(1023));
    assert_eq!(wide.child_count(), 70_000);
    assert_eq!(wide.text_len(), TextSize::new(u32::MAX));
}

#[test]
fn every_fourth_offset_is_recorded() {
    let node = row(&["a", "bb", "ccc", "dddd", "e", "ff", "g", "h", "i"]);
    assert_eq!(node.checkpoints(), &[TextSize::new(10), TextSize::new(15)]);
    let offsets: Vec<u32> = (0..9).map(|index| node.child_offset(index).into()).collect();
    assert_eq!(offsets, vec![0, 1, 3, 6, 10, 11, 13, 14, 15]);
    assert_eq!(GreenNodeData::block_offset(node.checkpoints(), 0), TextSize::new(0));
    assert_eq!(GreenNodeData::block_offset(node.checkpoints(), 2), TextSize::new(15));
    assert!(row(&["a", "b", "c", "d"]).checkpoints().is_empty());
}

#[test]
fn children_are_visited_from_either_end() {
    let node = row(&["a", "bb", "ccc", "dddd", "eeeee", "f"]);
    let mut children = node.children_with_offsets();
    assert_eq!(children.len(), 6);
    assert_eq!(children.size_hint(), (6, Some(6)));
    assert_eq!(children.next().unwrap().rel_offset(), TextSize::new(0));
    assert_eq!(children.next_back().unwrap().rel_offset(), TextSize::new(15));
    assert_eq!(children.nth(1).unwrap().rel_offset(), TextSize::new(3));
    assert_eq!(children.nth_back(0).unwrap().rel_offset(), TextSize::new(10));
    assert_eq!(children.clone().count(), 1);
    let last: GreenChildRef<'_> = children.next().unwrap();
    assert_eq!(last.rel_offset(), TextSize::new(6));
    assert_eq!(last.as_ref().text_len(), TextSize::new(4));
    assert!(children.next().is_none());
    assert!(children.next_back().is_none());
}

#[test]
fn passing_the_end_leaves_no_children() {
    let node = row(&["a", "b"]);
    let mut children = node.children();
    assert!(children.nth(2).is_none());
    assert!(children.next().is_none());
    let mut children = node.children();
    assert!(children.nth_back(5).is_none());
    assert_eq!(children.len(), 0);
    assert_eq!(children.size_hint(), (0, Some(0)));
    assert_eq!(node.children().count(), 2);
    assert_eq!(node.children().next_back().unwrap().kind(), SyntaxKind(1));
    assert!(node.child(2).is_none());
    assert_eq!(node.child(1).unwrap().text_len(), TextSize::new(1));
}

fn owner(node: &GreenNode, lo: u32, hi: u32) -> Option<(usize, u32)> {
    node.child_at_range(TextRange::new(lo.into(), hi.into()))
        .map(|(index, offset, _)| (index, offset.into()))
}

#[test]
fn ranges_belong_to_the_child_that_covers_them() {
    let node = row(&["aa", "", "bbb", "c", "dd", "", "eeee"]);
    assert_eq!(owner(&node, 0, 0), Some((0, 0)));
    assert_eq!(owner(&node, 0, 2), Some((0, 0)));
    assert_eq!(owner(&node, 1, 1), Some((0, 0)));
    assert_eq!(owner(&node, 2, 2), Some((1, 2)));
    assert_eq!(owner(&node, 2, 3), Some((2, 2)));
    assert_eq!(owner(&node, 5, 5), Some((2, 2)));
    assert_eq!(owner(&node, 5, 6), Some((3, 5)));
    assert_eq!(owner(&node, 6, 6), Some((3, 5)));
    assert_eq!(owner(&node, 6, 8), Some((4, 6)));
    assert_eq!(owner(&node, 8, 8), Some((5, 8)));
    assert_eq!(owner(&node, 8, 12), Some((6, 8)));
    assert_eq!(owner(&node, 12, 12), Some((6, 8)));
    assert_eq!(owner(&node, 1, 3), None);
    assert_eq!(owner(&node, 11, 13), None);
    assert_eq!(owner(&node, 13, 13), None);
    assert_eq!(owner(&row(&[]), 0, 0), None);
}

#[test]
fn children_can_be_replaced_inserted_and_removed() {
    let node = row(&["a", "b", "c"]);
    assert_eq!(texts(&node.replace_child(1, token(1, "x"))), vec!["a", "x", "c"]);
    assert_eq!(node.replace_child(3, token(1, "x")), node);
    let longer = node.insert_child(1, token(1, "x"));
    assert_eq!(texts(&longer), vec!["a", "x", "b", "c"]);
    assert_eq!(longer.remove_child(1), node);
    assert_eq!(texts(&node.insert_child(3, token(1, "x"))), vec!["a", "b", "c", "x"]);
    assert_eq!(texts(&node.remove_child(0)), vec!["b", "c"]);
    let spliced = node.splice_children(1..3, vec![token(1, "y"), token(1, "z"), token(1, "w")]);
    assert_eq!(texts(&spliced), vec!["a", "y", "z", "w"]);
    assert_eq!(spliced.kind(), SyntaxKind(0));
    assert_eq!(node.to_string(), "abc");
}

/// Whether the two are one and the same element.
fn same_element(left: &GreenElement, right: NodeOrToken<&GreenNode, &GreenToken>) -> bool {
    match (left, right) {
        (NodeOrToken::Node(left), NodeOrToken::Node(right)) => {
            std::ptr::eq::<GreenNodeData>(&**left, &**right)
        }
        (NodeOrToken::Token(left), NodeOrToken::Token(right)) => {
            std::ptr::eq::<GreenTokenData>(&**left, &**right)
        }
        _ => false,
    }
}

#[test]
fn nodes_hold_the_elements_they_are_made_of() {
    let elements = vec![token(1, "a"), row(&["b", "c"]).into(), token(1, "a")];
    let node = GreenNode::new(SyntaxKind(7), elements.clone());
    let mut children = node.children();
    for element in &elements {
        assert!(same_element(element, children.next().unwrap()));
    }
    assert!(children.next().is_none());
    assert!(!same_element(&elements[0], node.child(2).unwrap()));

    let new = token(1, "x");
    let edited = node.insert_child(1, new.clone()).remove_child(0).replace_child(2, new.clone());
    assert!(same_element(&new, edited.child(0).unwrap()));
    assert!(same_element(&elements[1], edited.child(1).unwrap()));
    assert!(same_element(&new, edited.child(2).unwrap()));
    let spliced = node.splice_children(0..1, vec![new.clone(), new.clone()]);
    assert!(same_element(&new, spliced.children().nth(1).unwrap()));
    assert!(same_element(&elements[2], spliced.children().next_back().unwrap()));
    let (_, _, found) = node.child_at_range(TextRange::new(1.into(), 3.into())).unwrap();
    assert!(same_element(&elements[1], found));
}

#[test]
fn equal_trees_hash_equally() {
    let (left, right) = (row(&["a", "bb"]), row(&["a", "bb"]));
    assert!(!std::ptr::eq::<GreenNodeData>(&*left, &*right));
    assert_eq!(hash_of(&left), hash_of(&right));
    assert_eq!(hash_of::<GreenNodeData>(&left), hash_of(&right));
    let token = GreenToken::new(SyntaxKind(3), "a");
    assert_eq!(hash_of(&token), hash_of::<GreenTokenData>(&GreenToken::new(SyntaxKind(3), "a")));
    assert_ne!(hash_of(&left), hash_of(&row(&["ab", "b"])));
}

#[test]
fn nodes_feed_everything_to_a_hasher() {
    let inner = GreenNode::new(SyntaxKind(5), vec![token(6, "bb")]);
    let node = GreenNode::new(SyntaxKind(4), vec![token(3, "a"), inner.into()]);
    let mut expected = DefaultHasher::new();
    4u16.hash(&mut expected);
    2usize.hash(&mut expected);
    3u32.hash(&mut expected);
    0u32.hash(&mut expected);
    true.hash(&mut expected);
    3u16.hash(&mut expected);
    "a".hash(&mut expected);
    1u32.hash(&mut expected);
    false.hash(&mut expected);
    5u16.hash(&mut expected);
    2u32.hash(&mut expected);
    0u32.hash(&mut expected);
    true.hash(&mut expected);
    6u16.hash(&mut expected);
    "bb".hash(&mut expected);
    assert_eq!(hash_of(&node), expected.finish());

    let mut expected = DefaultHasher::new();
    3u16.hash(&mut expected);
    "a".hash(&mut expected);
    assert_eq!(hash_of(&GreenToken::new(SyntaxKind(3), "a")), expected.finish());
}

#[test]
fn digests_are_those_of_the_hasher() {
    let token = GreenToken::new(SyntaxKind(3), "text");
    let mut expected = rustc_hash::FxHasher::default();
    3u16.hash(&mut expected);
    "text".hash(&mut expected);
    assert_eq!(token_hash(&token), expected.finish());

    let node = GreenNode::new(SyntaxKind(9), vec![token.clone().into(), row(&["x"]).into()]);
    let mut expected = rustc_hash::FxHasher::default();
    9u16.hash(&mut expected);
    token_hash(&token).hash(&mut expected);
    node_hash(&row(&["x"])).hash(&mut expected);
    assert_eq!(node_hash(&node), expected.finish());

    assert_eq!(node_hash(&GreenNode::new(SyntaxKind(0), Vec::new())), 0);
    assert_ne!(node_hash(&GreenNode::new(SyntaxKind(1), Vec::new())), 0);
}
