# simplified-btc

A proof-of-work, UTXO-based blockchain demo (P2PKH-style addresses), written
in Verus.

- `src/` is the verified library: transactions and their hash (`txn`),
  blocks (`block`), the unspent-output scan with its soundness and
  completeness lemmas (`utxo`), wallets and address derivation (`wallet`),
  message framing (`framing`), a node's peer bookkeeping and the reading
  of its JSON seed list (`server`), configuration (`config`) and the command-line entry (`cli`).
  Digests, Ed25519 key derivation, Base58 encoding, JSON parsing and
  bincode calls stand behind the trusted items of `hashing`, `server`,
  `txn` and `framing`.
- `app/` is the program around it: logging, argument parsing with clap, the
  sled databases for blocks and wallets, the seed file, TCP connections, and
  the serde copies of the library's types.
- `tests/` exercises the library on concrete values.
