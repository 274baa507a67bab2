# snarkos-ledger

The ledger state of an Aleo node: the canonical chain of blocks, the
transactions, transitions and records they hold, the ledger tree of block
hashes, and the rules by which a block is accepted as the next block or the
latest blocks are removed. The library is verified with Verus.

Layout:

- `src/` is the verified library.
  - `digest.rs`, `types.rs`: hashes as 32-byte values, and the blocks,
    transactions and transitions as the ledger reads them.
  - `data_map.rs`: the key-value maps that hold the ledger's storage.
  - `transaction_state.rs`, `block_state.rs`: the stored transactions and
    blocks, with their indexes by serial number, commitment and ciphertext ID.
  - `locators.rs`: the heights of the block locators of a ledger.
  - `network.rs`: the calls into the network's library (the ledger tree, the
    block reward, the fork depth), each with the contract it is trusted to meet.
  - `ledger.rs`: the ledger state: opening it, accepting the next block,
    removing the latest blocks, the block template and ledger proofs.
  - `laws.rs`, `storage_laws.rs`: what holds across operations: that adding
    a block keeps the ledger consistent and reads back as written, that
    removing it undoes adding it, and the shape of the block locators.
- `tests/`: tests on concrete ledgers.
- `app/`: conversions from the network's own block types, the clock, and the
  steps that need the network's proofs: mining, the validity and difficulty
  checks of a network block, and the assembly of a ledger proof.
