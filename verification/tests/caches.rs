use rowan::green::backend::SharedCacheBackend;
use rowan::green::cached::{cached_node_hash, node_weight, CachedElement};
use rowan::green::element::GreenElement;
use rowan::green::hash::{node_hash, token_hash};
use rowan::green::layout::{token_weight, token_weight_for_len};
use rowan::green::matching::NoHash;
use rowan::green::shared_cache::{
    shard_index, NodeShardData, TokenShardData, NODE_CAPACITY_PER_SHARD,
    NODE_RETAINED_WEIGHT_PER_SHARD, SHARD_COUNT, TOKEN_CAPACITY_PER_SHARD,
    TOKEN_RETAINED_WEIGHT_PER_SHARD,
};
use rowan::{
    GreenNode, GreenNodeData, GreenToken, GreenTokenData, NodeCache, NodeOrToken, SharedNodeCache,
    SyntaxKind,
};
use std::mem;

/// The digest of the token with this kind and text.
fn token_hash_parts(kind: SyntaxKind, text: &str) -> u64 {
    token_hash(&GreenToken::new(kind, text))
}

#[test]
fn local_cache_tracks_hashes_without_changing_map_entry_layout() {
    let mut cache = NodeCache::default();
    let token = cache.shared_token(SyntaxKind(1), "one");
    let mut children = vec![token];
    let node = cache.shared_node(SyntaxKind(0), &mut children, 0);

    assert!(node.interned());
    assert_eq!(mem::size_of::<NoHash<GreenNode>>(), mem::size_of::<GreenNode>());
    assert_eq!(mem::size_of::<NoHash<GreenToken>>(), mem::size_of::<GreenToken>());
    if usize::BITS == 64 {
        assert_eq!(mem::size_of::<CachedElement>(), 32);
    }
}

#[test]
fn token_weight_saturates() {
    assert_eq!(token_weight_for_len(usize::MAX), u32::MAX);
}

#[test]
fn retained_weights_include_allocation_and_cache_entry_storage() {
    assert!(token_weight_for_len(0) > mem::size_of::<GreenToken>() as u32);
    assert!(node_weight(&[]).unwrap() > mem::size_of::<GreenNode>() as u32);
}

#[test]
fn shared_backend_records_production_retained_weights() {
    let cache = SharedNodeCache::default();
    let mut backend = SharedCacheBackend::new(&cache);
    backend.token(SyntaxKind(1), "token");

    let token = &backend.children()[0];
    assert_eq!(token.retained_weight(), token_weight("token"));
    assert_eq!(
        cache.token_shard_usage(shard_index(token.hash())).retained_weight,
        token.retained_weight()
    );

    let node_hash = cached_node_hash(SyntaxKind(2), backend.children());
    let node_weight = node_weight(backend.children()).unwrap();
    backend.node(SyntaxKind(2), 0);

    assert_eq!(backend.children()[0].retained_weight(), node_weight);
    assert_eq!(cache.node_shard_usage(shard_index(node_hash)).retained_weight, node_weight);
}

#[test]
fn shared_backend_rotates_token_shards_by_production_weight() {
    let cache = SharedNodeCache::default();
    let mut backend = SharedCacheBackend::new(&cache);
    let mut expected_weight: u32 = 0;

    for index in 0_u32.. {
        let text = format!("{index:08x}");
        let hash = token_hash_parts(SyntaxKind(1), &text);
        if shard_index(hash) != 0 {
            continue;
        }

        let weight = token_weight(&text);
        let rotated = expected_weight.saturating_add(weight) > TOKEN_RETAINED_WEIGHT_PER_SHARD;
        if rotated {
            expected_weight = 0;
        }
        expected_weight += weight;

        backend.token(SyntaxKind(1), &text);
        let token = backend.pop().unwrap();
        assert_eq!(token.retained_weight(), weight);
        assert_eq!(cache.token_shard_usage(0).retained_weight, expected_weight);

        if rotated {
            break;
        }
    }
}

#[test]
fn shared_fallback_does_not_mark_uncached_nodes_canonical() {
    let cache = SharedNodeCache::default();
    let mut shared = SharedCacheBackend::new(&cache);
    for kind in 0..4 {
        shared.token(SyntaxKind(kind), "x");
    }

    shared.node(SyntaxKind(4), 0);
    assert!(!shared.children()[0].shareable());

    shared.node(SyntaxKind(5), 0);
    assert!(!shared.children()[0].shareable());
}

#[test]
fn shared_finish_returns_local_fallback_root_directly() {
    let cache = SharedNodeCache::default();
    let root = GreenNode::new(SyntaxKind(0), Vec::new());
    let original = root.clone();
    let mut shared = SharedCacheBackend::new(&cache);
    shared.push(CachedElement::local(0, false, root.into()));

    let finished = shared.finish();

    assert!(std::ptr::eq::<GreenNodeData>(&*original, &*finished));
}

#[test]
fn shared_cache_checks_equality_after_hash_match() {
    let cache = SharedNodeCache::default();
    let mut children = Vec::new();
    let first = cache.node(0, SyntaxKind(1), &mut children, 0, 1);
    let second = cache.node(0, SyntaxKind(2), &mut children, 0, 1);
    let repeated = cache.node(0, SyntaxKind(2), &mut children, 0, 1);
    let first_repeated = cache.node(0, SyntaxKind(1), &mut children, 0, 1);

    assert!(!std::ptr::eq::<GreenNodeData>(&*first, &*second));
    assert!(std::ptr::eq::<GreenNodeData>(&*second, &*repeated));
    assert!(std::ptr::eq::<GreenNodeData>(&*first, &*first_repeated));
}

#[test]
fn shared_cache_grows_shards_on_demand() {
    let cache = SharedNodeCache::default();
    cache.node(0, SyntaxKind(1), &mut Vec::new(), 0, 1);
    cache.token(0, SyntaxKind(1), "x", 1);

    let node_capacity = cache.node_shard_usage(0).capacity;
    let token_capacity = cache.token_shard_usage(0).capacity;
    assert!((1..NODE_CAPACITY_PER_SHARD).contains(&node_capacity));
    assert!((1..TOKEN_CAPACITY_PER_SHARD).contains(&token_capacity));
}

#[test]
fn shared_cache_rotates_node_shards_by_retained_weight() {
    let cache = SharedNodeCache::default();
    let first = cache.node(0, SyntaxKind(1), &mut Vec::new(), 0, NODE_RETAINED_WEIGHT_PER_SHARD);
    let second = cache.node(0, SyntaxKind(2), &mut Vec::new(), 0, 1);

    assert!(!std::ptr::eq::<GreenNodeData>(&*first, &*second));
    let shard = cache.node_shard_usage(0);
    assert_eq!(shard.entries, 1);
    assert_eq!(shard.retained_weight, 1);
}

#[test]
fn shared_cache_rotates_token_shards_by_retained_weight() {
    let cache = SharedNodeCache::default();
    let first = cache.token(0, SyntaxKind(1), "one", TOKEN_RETAINED_WEIGHT_PER_SHARD);
    let second = cache.token(0, SyntaxKind(2), "two", 1);

    assert!(!std::ptr::eq::<GreenTokenData>(&*first, &*second));
    let shard = cache.token_shard_usage(0);
    assert_eq!(shard.entries, 1);
    assert_eq!(shard.retained_weight, 1);
}

#[test]
fn shared_cache_rotates_node_shards_by_entry_count() {
    let cache = SharedNodeCache::default();
    for kind in 0..=NODE_CAPACITY_PER_SHARD {
        cache.node(kind as u64, SyntaxKind(kind as u16), &mut Vec::new(), 0, 1);
    }

    let shard = cache.node_shard_usage(0);
    assert_eq!(shard.entries, 1);
    assert_eq!(shard.retained_weight, 1);
}

#[test]
fn shared_cache_rotates_token_shards_by_entry_count() {
    let cache = SharedNodeCache::default();
    for index in 0..=TOKEN_CAPACITY_PER_SHARD {
        cache.token(index as u64, SyntaxKind(1), &index.to_string(), 1);
    }

    let shard = cache.token_shard_usage(0);
    assert_eq!(shard.entries, 1);
    assert_eq!(shard.retained_weight, 1);
}

#[test]
fn shared_cache_is_empty_after_quiescent_clear() {
    let cache = SharedNodeCache::default();
    cache.node(0, SyntaxKind(1), &mut Vec::new(), 0, 1);
    cache.token(0, SyntaxKind(1), "one", 1);

    cache.clear();

    assert!((0..SHARD_COUNT).all(|index| {
        let shard = cache.node_shard_usage(index);
        shard.entries == 0 && shard.retained_weight == 0
    }));
    assert!((0..SHARD_COUNT).all(|index| {
        let shard = cache.token_shard_usage(index);
        shard.entries == 0 && shard.retained_weight == 0
    }));
}

#[test]
fn shard_index_uses_high_hash_bits_below_the_fingerprint() {
    assert_ne!(shard_index(0), shard_index(1 << 49));
}

#[test]
fn shard_index_ignores_hashbrown_fingerprint_bits() {
    let middle = 0x5a << 49;

    assert_eq!(shard_index(middle), shard_index(middle | (0xfe << 56)));
}

#[test]
fn shard_index_ignores_low_bucket_bits() {
    assert_eq!(shard_index(0), shard_index((1 << 49) - 1));
}

#[test]
fn shared_token_cache_checks_equality_after_hash_match() {
    let cache = SharedNodeCache::default();
    let first = cache.token(0, SyntaxKind(1), "one", 1);
    let second = cache.token(0, SyntaxKind(1), "two", 1);
    let repeated = cache.token(0, SyntaxKind(1), "two", 1);
    let first_repeated = cache.token(0, SyntaxKind(1), "one", 1);

    assert!(!std::ptr::eq::<GreenTokenData>(&*first, &*second));
    assert!(std::ptr::eq::<GreenTokenData>(&*second, &*repeated));
    assert!(std::ptr::eq::<GreenTokenData>(&*first, &*first_repeated));
}

#[test]
fn shard_indices_are_the_eight_bits_below_the_fingerprint() {
    assert_eq!(shard_index(0x5a << 49), 0x5a);
    assert_eq!(shard_index(u64::MAX), 255);
    assert_eq!(shard_index(1 << 57), 0);
}

#[test]
fn weights_are_exact() {
    // A head of four bytes, a counter of four, the text, and seventeen bytes for the entry.
    assert_eq!(token_weight_for_len(0), 8 + 17);
    assert_eq!(token_weight("token"), 16 + 17);
    assert_eq!(token_weight_for_len(9), 16 + 17);
    assert_eq!(token_weight_for_len(1023), 4 + 8 + 1024 + 17);
    assert_eq!(node_weight(&[]).unwrap(), 8 + 17);
}

#[test]
fn local_caches_intern_small_nodes() {
    let mut cache = NodeCache::default();
    let (first_hash, first) = cache.token(SyntaxKind(1), "one");
    let (second_hash, second) = cache.token(SyntaxKind(1), "one");
    assert_eq!(first_hash, second_hash);
    assert!(std::ptr::eq::<GreenTokenData>(&*first, &*second));
    assert_eq!(first_hash, token_hash(&first));

    let kept: (u64, GreenElement) = (7, GreenToken::new(SyntaxKind(2), "kept").into());
    let mut children = vec![kept, (first_hash, first.into())];
    let (hash, node) = cache.node(SyntaxKind(3), &mut children, 1);
    assert_eq!(children.len(), 1);
    assert_eq!(hash, node_hash(&node));
    assert_eq!(node.to_string(), "one");
    let mut again = vec![(second_hash, second.into())];
    let (_, other) = cache.node(SyntaxKind(3), &mut again, 0);
    assert!(std::ptr::eq::<GreenNodeData>(&*node, &*other));
}

#[test]
fn local_caches_leave_large_and_unknown_nodes_alone() {
    let mut cache = NodeCache::default();
    let mut many: Vec<(u64, GreenElement)> = Vec::new();
    for _ in 0..4 {
        let (hash, token) = cache.token(SyntaxKind(1), "x");
        many.push((hash, token.into()));
    }
    let (hash, node) = cache.node(SyntaxKind(2), &mut many, 0);
    assert_eq!(hash, 0);
    assert_eq!(node.child_count(), 4);

    let mut unknown: Vec<(u64, GreenElement)> = vec![(0, node.into())];
    let (hash, parent) = cache.node(SyntaxKind(3), &mut unknown, 0);
    assert_eq!(hash, 0);
    assert_eq!(parent.to_string(), "xxxx");

    let mut uncached = vec![CachedElement::local(0, false, parent.into())];
    let element = cache.shared_node(SyntaxKind(4), &mut uncached, 0);
    assert!(!element.interned());
    assert_eq!(element.hash(), 0);
}

#[test]
fn cached_nodes_hold_the_elements_they_are_asked_for() {
    let mut cache = NodeCache::default();
    let (hash, token) = cache.token(SyntaxKind(1), "one");
    for _ in 0..2 {
        let mut children: Vec<(u64, GreenElement)> = vec![(hash, token.clone().into())];
        let (_, node) = cache.node(SyntaxKind(3), &mut children, 0);
        let Some(NodeOrToken::Token(held)) = node.child(0) else { unreachable!() };
        assert!(std::ptr::eq::<GreenTokenData>(&**held, &*token));
    }

    let other = GreenToken::new(SyntaxKind(1), "one");
    let mut children: Vec<(u64, GreenElement)> = vec![(hash, other.clone().into())];
    let (_, node) = cache.node(SyntaxKind(3), &mut children, 0);
    let Some(NodeOrToken::Token(held)) = node.child(0) else { unreachable!() };
    assert!(std::ptr::eq::<GreenTokenData>(&**held, &*other));
}

#[test]
fn tokens_are_handed_out_again_whatever_comes_between() {
    let mut cache = NodeCache::default();
    let (first_hash, first) = cache.token(SyntaxKind(1), "one");
    for index in 0..1000 {
        cache.token(SyntaxKind(1), &index.to_string());
    }
    cache.node(SyntaxKind(2), &mut Vec::new(), 0);
    let (second_hash, second) = cache.token(SyntaxKind(1), "one");
    assert_eq!(first_hash, second_hash);
    assert!(std::ptr::eq::<GreenTokenData>(&*first, &*second));
    let (_, other) = cache.token(SyntaxKind(2), "one");
    assert!(!std::ptr::eq::<GreenTokenData>(&*first, &*other));
}

#[test]
fn nodes_are_handed_out_again_whatever_comes_between() {
    let mut cache = NodeCache::default();
    let (hash, token) = cache.token(SyntaxKind(1), "one");
    let mut children: Vec<(u64, GreenElement)> = vec![(hash, token.clone().into())];
    let (first_hash, first) = cache.node(SyntaxKind(3), &mut children, 0);
    for index in 0..1000 {
        let (hash, token) = cache.token(SyntaxKind(1), &index.to_string());
        cache.node(SyntaxKind(3), &mut vec![(hash, token.into())], 0);
    }
    let mut children: Vec<(u64, GreenElement)> = vec![(hash, token.into())];
    let (second_hash, second) = cache.node(SyntaxKind(3), &mut children, 0);
    assert_eq!(first_hash, second_hash);
    assert!(std::ptr::eq::<GreenNodeData>(&*first, &*second));
}

#[test]
fn shared_caches_take_entries_of_any_weight() {
    let cache = SharedNodeCache::default();
    cache.node(0, SyntaxKind(1), &mut Vec::new(), 0, 7);
    let heavy = cache.node(0, SyntaxKind(2), &mut Vec::new(), 0, u32::MAX);
    let again = cache.node(0, SyntaxKind(2), &mut Vec::new(), 0, 1);
    assert!(std::ptr::eq::<GreenNodeData>(&*heavy, &*again));
    assert_eq!(cache.node_shard_usage(0).entries, 1);
    assert_eq!(cache.node_shard_usage(0).retained_weight, u32::MAX);
    cache.node(0, SyntaxKind(3), &mut Vec::new(), 0, 5);
    cache.node(0, SyntaxKind(4), &mut Vec::new(), 0, 6);
    assert_eq!(cache.node_shard_usage(0).entries, 2);
    assert_eq!(cache.node_shard_usage(0).retained_weight, 11);

    cache.token(0, SyntaxKind(1), "a", TOKEN_RETAINED_WEIGHT_PER_SHARD + 1);
    assert_eq!(
        cache.token_shard_usage(0).retained_weight,
        TOKEN_RETAINED_WEIGHT_PER_SHARD + 1
    );
    cache.token(0, SyntaxKind(1), "b", 1);
    assert_eq!(cache.token_shard_usage(0).entries, 1);
    assert_eq!(cache.token_shard_usage(0).retained_weight, 1);
}

#[test]
fn shared_caches_start_empty() {
    let cache = SharedNodeCache::default();
    for index in 0..SHARD_COUNT {
        assert_eq!(cache.node_shard_usage(index).entries, 0);
        assert_eq!(cache.token_shard_usage(index).retained_weight, 0);
    }
}

#[test]
fn shards_rotate_as_accounted() {
    let mut nodes = NodeShardData::new();
    nodes.node(1, SyntaxKind(1), &mut Vec::new(), 0, u32::MAX);
    assert_eq!(nodes.usage().retained_weight, u32::MAX);
    nodes.node(1, SyntaxKind(1), &mut Vec::new(), 0, 5);
    assert_eq!(nodes.usage().entries, 1);
    nodes.node(2, SyntaxKind(1), &mut Vec::new(), 0, 5);
    assert_eq!(nodes.usage().entries, 1);
    assert_eq!(nodes.usage().retained_weight, 5);
    nodes.node(3, SyntaxKind(1), &mut Vec::new(), 0, 6);
    assert_eq!(nodes.usage().entries, 2);
    assert_eq!(nodes.usage().retained_weight, 11);
    nodes.clear();
    assert_eq!(nodes.usage().entries, 0);

    let mut tokens = TokenShardData::new();
    tokens.token(1, SyntaxKind(1), "a", 2);
    tokens.token(1, SyntaxKind(1), "b", 3);
    assert_eq!(tokens.usage().entries, 2);
    assert_eq!(tokens.usage().retained_weight, 5);
    tokens.clear();
    assert_eq!(tokens.usage().retained_weight, 0);
}
