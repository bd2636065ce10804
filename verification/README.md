# ldk_node

The chain source of a Lightning node that follows Bitcoin Core over RPC or REST, and the node's
logging. What is decided and computed is a library that [Verus](https://github.com/verus-lang/verus)
verifies; what touches the network, files and subscribers stands around it.

- `src/client.rs`, `src/replies.rs`: which request goes to which interface, and what its answer
  means.
- `src/responses.rs`, `src/json.rs`, `src/fee_rate.rs`: reading replies. Fee rates are computed as
  binary64 arithmetic would, on integers.
- `src/mempool.rs`: the mempool cache and its poll, as a sequence of steps; `src/mempool_laws.rs`
  says what a whole update or poll amounts to, `src/mempool_history.rs` what holds over many.
- `src/header_cache.rs`: the bounded cache of block headers.
- `src/http.rs`: endpoints, credentials and HTTP failures.
- `src/logger.rs`, `src/tracing.rs`: which log records are written, where and how, and how trace
  headers join those of a request.
- `src/hash_table.rs`, `src/text.rs`: a table keyed by hashes, and text building blocks.

The functions named `law_..` state what holds of the library as a whole.

`app/` connects the library to `lightning`, `lightning-block-sync`, `log`, `tracing` and
`vss-client`. `tests/` runs the library.
