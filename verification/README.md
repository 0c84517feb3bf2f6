# rowan

Lossless syntax trees, with contracts that Verus proves.

The crate holds the *green* layer of a syntax tree library: immutable trees that know their text but
not their position, interners that let equal subtrees share memory, and a builder that assembles a
tree from the events of a parser. Next to it stands the bookkeeping of pooled storage in which trees
can be placed by hand: packed heads, relative child pointers, size classes, pages and free lists.

## Layout

- `src/green/tree.rs` is the mathematical model: a tree is a node with children or a token with
  text. All contracts of nodes, tokens, interners and builders speak of it; which elements a node
  holds, and which ones an interner hands out again, is stated next to it.
- `src/green/token.rs`, `node.rs`, `children.rs`, `search.rs`, `edit.rs`, `hash.rs`: trees, and what
  can be asked of them.
- `src/green/node_cache.rs`, `shared_cache.rs`, `backend.rs`, `builder.rs`: interning and building.
  `tables.rs` holds the hash tables, which are maps of `hashbrown` behind trusted contracts.
- `src/green/token_head.rs`, `node_head.rs`, `packed_child.rs`, `node_image.rs`, `layout.rs`: how
  tokens and nodes are stored.
- `src/green/allocator.rs`, `page.rs`, `pool.rs`, `pools.rs`: pooled storage.
- `app/` is ordinary Rust around the library: memory for the pools and trees that are stored in it,
  atomic reference counts, iterators and text output.
