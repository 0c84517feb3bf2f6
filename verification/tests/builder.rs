use rowan::{
    GreenNode, GreenNodeBuilder, GreenNodeData, GreenTokenData, NodeCache, NodeOrToken,
    SharedNodeCache, SyntaxKind,
};

fn build(cache: &SharedNodeCache) -> GreenNode {
    let mut builder = GreenNodeBuilder::with_shared_cache(cache);
    builder.start_node(SyntaxKind(0));
    builder.token(SyntaxKind(1), "one");
    builder.finish_node();
    builder.finish()
}

/// Whether the first children of two nodes are one and the same token.
fn share_first_token(left: &GreenNode, right: &GreenNode) -> bool {
    let left = left.children().next().unwrap().into_token().unwrap();
    let right = right.children().next().unwrap().into_token().unwrap();
    std::ptr::eq::<GreenTokenData>(&**left, &**right)
}

/// Whether the first children of two nodes are one and the same node.
fn share_first_node(left: &GreenNode, right: &GreenNode) -> bool {
    let left = left.children().next().unwrap().into_node().unwrap();
    let right = right.children().next().unwrap().into_node().unwrap();
    std::ptr::eq::<GreenNodeData>(&**left, &**right)
}

#[test]
fn shared_cache_detaches_roots_but_reuses_descendants() {
    let cache = SharedNodeCache::default();
    let first = build(&cache);
    let second = build(&cache);

    assert!(!std::ptr::eq::<GreenNodeData>(&*first, &*second));
    assert!(share_first_token(&first, &second));
}

#[test]
fn shared_cache_does_not_share_long_tokens_through_unary_nodes() {
    fn build(cache: &SharedNodeCache) -> GreenNode {
        let mut builder = GreenNodeBuilder::with_shared_cache(cache);
        builder.start_node(SyntaxKind(0));
        builder.token(SyntaxKind(1), "123456789");
        builder.finish_node();
        builder.finish()
    }

    let cache = SharedNodeCache::default();
    let first = build(&cache);
    let second = build(&cache);

    assert!(!std::ptr::eq::<GreenNodeData>(&*first, &*second));
    assert!(!share_first_token(&first, &second));
}

#[test]
fn shared_cache_does_not_share_wide_nodes_through_unary_parents() {
    fn build(cache: &SharedNodeCache) -> GreenNode {
        let mut builder = GreenNodeBuilder::with_shared_cache(cache);
        builder.start_node(SyntaxKind(0));
        builder.start_node(SyntaxKind(1));
        builder.token(SyntaxKind(2), "one");
        builder.token(SyntaxKind(2), "two");
        builder.finish_node();
        builder.finish_node();
        builder.finish()
    }

    let cache = SharedNodeCache::default();
    let first = build(&cache);
    let second = build(&cache);

    assert!(!std::ptr::eq::<GreenNodeData>(&*first, &*second));
    assert!(!share_first_node(&first, &second));
}

#[test]
fn shared_cache_shares_recursively_eligible_unary_chains() {
    fn build(cache: &SharedNodeCache) -> GreenNode {
        let mut builder = GreenNodeBuilder::with_shared_cache(cache);
        builder.start_node(SyntaxKind(0));
        builder.start_node(SyntaxKind(1));
        builder.token(SyntaxKind(2), "short");
        builder.finish_node();
        builder.finish_node();
        builder.finish()
    }

    let cache = SharedNodeCache::default();
    let first = build(&cache);
    let second = build(&cache);

    assert!(!std::ptr::eq::<GreenNodeData>(&*first, &*second));
    assert!(share_first_node(&first, &second));
}

#[test]
fn clearing_shared_cache_preserves_returned_trees() {
    let cache = SharedNodeCache::default();
    let first = build(&cache);

    cache.clear();

    assert_eq!(first.to_string(), "one");
    let second = build(&cache);
    assert!(!std::ptr::eq::<GreenNodeData>(&*first, &*second));
    assert_eq!(first, second);
}

#[test]
fn shared_cache_limits_nodes_and_tokens() {
    fn build(cache: &SharedNodeCache, text: &str) -> GreenNode {
        let mut builder = GreenNodeBuilder::with_shared_cache(cache);
        builder.start_node(SyntaxKind(0));
        builder.token(SyntaxKind(1), text);
        builder.token(SyntaxKind(1), text);
        builder.finish_node();
        builder.finish()
    }

    let cache = SharedNodeCache::default();
    let short_first = build(&cache, "short");
    let short_second = build(&cache, "short");
    let edge_first = build(&cache, "12345678");
    let edge_second = build(&cache, "12345678");
    let utf8_edge_first = build(&cache, "éééé");
    let utf8_edge_second = build(&cache, "éééé");
    let long_first = build(&cache, "long text");
    let long_second = build(&cache, "long text");

    assert!(!std::ptr::eq::<GreenNodeData>(&*short_first, &*short_second));
    assert!(share_first_token(&short_first, &short_second));
    assert!(share_first_token(&edge_first, &edge_second));
    assert!(share_first_token(&utf8_edge_first, &utf8_edge_second));
    assert!(!share_first_token(&long_first, &long_second));
}

#[test]
fn shared_cache_does_not_retain_wide_subtrees() {
    fn build(cache: &SharedNodeCache, middle: &str) -> GreenNode {
        let mut builder = GreenNodeBuilder::with_shared_cache(cache);
        builder.start_node(SyntaxKind(0));
        builder.start_node(SyntaxKind(1));
        for index in 0..65 {
            builder.token(SyntaxKind(2), if index == 32 { middle } else { "x" });
        }
        builder.finish_node();
        builder.finish_node();
        builder.finish()
    }

    let cache = SharedNodeCache::default();
    let first = build(&cache, "one");
    let second = build(&cache, "two");
    let repeated = build(&cache, "two");

    assert!(!std::ptr::eq::<GreenNodeData>(&*first, &*second));
    assert!(!std::ptr::eq::<GreenNodeData>(&*second, &*repeated));
    assert_eq!(second, repeated);
}

#[test]
fn shared_cache_uses_local_fallback_for_ineligible_elements() {
    let cache = SharedNodeCache::default();
    let mut builder = GreenNodeBuilder::with_shared_cache(&cache);
    builder.start_node(SyntaxKind(0));
    for _ in 0..2 {
        builder.start_node(SyntaxKind(1));
        builder.token(SyntaxKind(2), "long text");
        builder.token(SyntaxKind(2), "long text");
        builder.finish_node();
    }
    builder.finish_node();
    let root = builder.finish();
    let mut children = root.children();
    let first = children.next().unwrap().into_node().unwrap();
    let second = children.next().unwrap().into_node().unwrap();

    assert!(std::ptr::eq::<GreenNodeData>(&**first, &**second));
    let mut tokens = first.children();
    assert!(std::ptr::eq::<GreenTokenData>(
        &**tokens.next().unwrap().into_token().unwrap(),
        &**tokens.next().unwrap().into_token().unwrap(),
    ));
}

fn sum(builder: &mut GreenNodeBuilder<'_>, wrap: bool) {
    builder.start_node(SyntaxKind(0));
    let checkpoint = builder.checkpoint();
    if !wrap {
        builder.start_node(SyntaxKind(2));
    }
    builder.token(SyntaxKind(1), "1");
    if wrap {
        builder.start_node_at(checkpoint, SyntaxKind(2));
    }
    builder.token(SyntaxKind(3), "+");
    builder.token(SyntaxKind(1), "2");
    builder.finish_node();
    builder.finish_node();
}

#[test]
fn wrapping_is_starting_the_node_earlier() {
    let mut wrapped = GreenNodeBuilder::new();
    sum(&mut wrapped, true);
    let mut started = GreenNodeBuilder::default();
    sum(&mut started, false);
    let tree = wrapped.finish();
    assert_eq!(tree, started.finish());
    assert_eq!(tree.to_string(), "1+2");
    assert_eq!(tree.child_count(), 1);
    let inner = tree.children().next().unwrap().into_node().unwrap();
    assert_eq!(inner.kind(), SyntaxKind(2));
    assert_eq!(inner.child_count(), 3);
}

#[test]
fn a_checkpoint_without_elements_makes_an_empty_node() {
    let mut builder = GreenNodeBuilder::new();
    builder.start_node(SyntaxKind(0));
    let checkpoint = builder.checkpoint();
    builder.start_node_at(checkpoint, SyntaxKind(1));
    builder.finish_node();
    builder.token(SyntaxKind(2), "x");
    builder.finish_node();
    let tree = builder.finish();
    assert_eq!(tree.child_count(), 2);
    assert_eq!(tree.children().next().unwrap().kind(), SyntaxKind(1));
    assert_eq!(tree.to_string(), "x");
}

#[test]
fn the_cache_does_not_change_the_tree() {
    let shared = SharedNodeCache::default();
    let mut local = NodeCache::default();
    let mut own = GreenNodeBuilder::new();
    sum(&mut own, true);
    let expected = own.finish();
    for _ in 0..3 {
        let mut builder = GreenNodeBuilder::with_cache(&mut local);
        sum(&mut builder, true);
        assert_eq!(builder.finish(), expected);
        let mut builder = GreenNodeBuilder::with_shared_cache(&shared);
        sum(&mut builder, true);
        assert_eq!(builder.finish(), expected);
    }
}

#[test]
fn builders_with_one_cache_share_trees() {
    let mut cache = NodeCache::default();
    let mut first = GreenNodeBuilder::with_cache(&mut cache);
    sum(&mut first, false);
    let first = first.finish();
    let mut second = GreenNodeBuilder::with_cache(&mut cache);
    sum(&mut second, false);
    let second = second.finish();
    assert!(std::ptr::eq::<GreenNodeData>(&*first, &*second));
    let mut other = GreenNodeBuilder::new();
    sum(&mut other, false);
    assert!(!std::ptr::eq::<GreenNodeData>(&*first, &*other.finish()));
}

#[test]
fn a_lent_cache_keeps_what_was_built() {
    let mut cache = NodeCache::default();
    let mut builder = GreenNodeBuilder::with_cache(&mut cache);
    builder.start_node(SyntaxKind(0));
    builder.token(SyntaxKind(1), "one");
    builder.finish_node();
    let first = builder.finish();
    let mut builder = GreenNodeBuilder::with_cache(&mut cache);
    builder.start_node(SyntaxKind(0));
    builder.token(SyntaxKind(1), "one");
    builder.finish_node();
    let second = builder.finish();
    assert!(std::ptr::eq::<GreenNodeData>(&*first, &*second));
    assert_eq!(first.to_string(), "one");

    let (_, token) = cache.token(SyntaxKind(1), "one");
    let Some(NodeOrToken::Token(held)) = first.child(0) else { unreachable!() };
    assert!(std::ptr::eq::<GreenTokenData>(&*token, &**held));
}

fn replay(builder: &mut GreenNodeBuilder<'_>, node: &GreenNode) {
    builder.start_node(node.kind());
    let mut children = node.children();
    while let Some(child) = children.next() {
        match child {
            rowan::NodeOrToken::Node(child) => replay(builder, child),
            rowan::NodeOrToken::Token(token) => builder.token(token.kind(), token.text()),
        }
    }
    builder.finish_node();
}

#[test]
fn replaying_a_tree_gives_back_the_tree() {
    let mut builder = GreenNodeBuilder::new();
    builder.start_node(SyntaxKind(9));
    for index in 0..10 {
        builder.start_node(SyntaxKind(index));
        for _ in 0..index {
            builder.token(SyntaxKind(100 + index), "é");
        }
        builder.finish_node();
    }
    builder.finish_node();
    let tree = builder.finish();
    let mut again = GreenNodeBuilder::new();
    replay(&mut again, &tree);
    assert_eq!(again.finish(), tree);
    assert_eq!(tree.text_len(), rowan::TextSize::new(90));
}
