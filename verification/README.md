# redips

A proof-of-work blockchain node: REDIPS coins and tokens, BIP-39 wallets,
secp256k1 signatures, Merkle roots, mining with difficulty retargeting, a
key-value store and an HTTP API.

The library in `src/` holds the node's rules, proved with Verus:

- `block_utils` — Merkle roots, block hashes, the proof-of-work target,
  mining, timestamp checks and difficulty retargeting.
- `chain` — the pending pool, the mining lock, screening of incoming
  transactions, assembling the next block, the balance changes a block
  makes and the chain's statistics.
- `crypto` — wallets from mnemonic phrases, addresses, signing and
  verification.
- `store` — the keys of the store and the order in which blocks are read
  back.
- `api` — the response envelope, address histories, block pages and query
  numbers.
- `types`, `text`, `hexcode`, `digest`, `clock` — the data types and the
  small helpers around SHA-256, RIPEMD-160, hex, the clock and randomness.

Calls into `sha2`, `ripemd`, `hex`, `bip39`, `secp256k1`, `serde_json`,
`chrono`, `rand` and `uuid` go through small trusted wrappers whose
contracts name what each call returns.

`app/` is the program around the library: the HTTP server (actix-web), the
sled database, the environment, and the parts of the node that work on
floating-point amounts (rewards, balances, supply, hash rate).
