# blockchain

A small proof-of-work blockchain written in Verus.

- `src/` is the verified library:
  - `block.rs`: blocks and their proof of work (bincode-encoded header,
    SHA-256 hex hash, least nonce whose hash starts with four zeros);
  - `transaction.rs`: inputs, outputs and transactions;
  - `blockchain.rs`: what a chain's transactions say (unspent outputs,
    transactions paying an address, lookup by id), with the laws that the
    unspent-output map lists exactly the outputs nothing spends;
  - `wallet.rs`: key pairs, addresses and the store of wallets by address;
  - `table.rs`: string-keyed association lists read as maps;
  - `hashing.rs`: the digests, key generation and address encoding that
    rust-crypto, rand and bitcoincash-addr compute;
  - `cli.rs`, `error.rs`: the command front end and the errors.
- `app/` is the program: sled databases for blocks and wallets, serde copies of
  the stored types, and clap command parsing.
- `tests/` runs the library against the outside crates.
