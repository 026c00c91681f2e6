# moonblokz-mempool

A bounded mempool, verified with Verus: a compacted byte buffer and a fixed-size
index that hold pending transactions within a fixed memory budget.

- `Mempool<COMPACT_BYTES, MAX_ENTRIES>` holds at most `COMPACT_BYTES` bytes
  (up to 65535) of at most `MAX_ENTRIES` transactions (up to 255). Usual sizes
  are 20160 and 128.
- Index entries store `hash_crc32`, the IEEE CRC-32 over the canonical
  transaction hash, as a fingerprint for lookup. It is not the CRC-32 of the
  serialized bytes.
- Index entries store `transaction_fee` as supplied at admission, after any
  UTXO-backed fee has been resolved. Iteration reuses it.
- `top_n_for_exchange(n)` offers eligible transactions with their fees in
  priority order: fee per byte descending, own before other, ascending
  `hash_crc32`, then the bytes.

## Layout

- `src/` is the verified library. It knows serialized transactions as bytes, and
  takes the functions that hash and parse them, and that tell balances, as
  arguments.
  - `model.rs` says what a mempool holds and what each operation does to it;
    `layout.rs` says how entries lie in the buffer.
  - `mempool.rs` is the mempool, `eligible.rs` and `top_n.rs` its two iterators,
    `priority.rs` the order of exchange, `transaction.rs` what is read of
    transactions and blocks, `crc32.rs` the checksum.
  - `laws/` states and proves what holds of the mempool as a whole.
- `app/` puts the library on the types of `moonblokz_chain_types`.
- `tests/` runs the library.
