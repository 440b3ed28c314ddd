# devnet_mempool

The transaction pool of a local Starknet development node, with its ordering policies,
block-selection decisions, forking-origin response rewriting and web-UI path handling,
verified with Verus.

## Layout

- `src/` — the verified library.
  - `felt.rs` — field elements as two 128-bit halves.
  - `entry.rs`, `config.rs`, `error.rs` — what the pool records, its configuration and
    policy names, and its errors.
  - `index_map.rs` — the pool's insertion-ordered entry table (`indexmap`), behind
    trusted wrappers.
  - `mempool.rs` — the pool: admission, lifecycle (RECEIVED → CANDIDATE → PRE_CONFIRMED),
    removal, sealing and aborting the open proposal, configuration updates; and the laws
    that hold of it.
  - `comparator.rs`, `splitmix.rs`, `ordering.rs` — the Starknet fee-priority order, the
    seeded mixing function, the FIFO / Starknet / random policies and the policy registry.
  - `block_builder.rs` — chunk building: system lane first, selection rounds for user
    policies (the caller consults the policy on the prepared round and hands back its
    pick), forced selections, and the bookkeeping of processed transactions.
  - `json.rs`, `block_cache.rs`, `origin.rs` — JSON values and the field elements they
    encode (read with `serde_json` and `starknet-core`, behind a trusted wrapper), the
    bounded LRU cache of transaction blocks (`lru`), and the forking-origin forwarder's
    rewriting rules.
  - `ui.rs` — asset path normalisation, client-side route fallback, content types and
    cache policy of the bundled UI.
- `tests/` — tests of the library.
- `app/` — the node-facing side: serde forms of the library's types, error messages, the
  driver that runs block building against a node (execution and nonce checks), the HTTP
  forwarder and the UI routes.
