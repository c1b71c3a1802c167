# leios-tools

Building blocks of a Leios node, verified with Verus.

- `src/cbor.rs`, `src/header.rs`, `src/block.rs`, `src/eb.rs`: what the bytes of
  headers, blocks and endorser-block manifests mean. Reading and writing single
  CBOR items is left to `minicbor`, hashing to `blake2`.
- `src/behaviour/`: behaviours that decide on what a node sends, the selection
  of the nodes that run them (shuffles come from `rand`), and the store of block
  variants of an equivocating producer.
- `src/peer/`: the responder side of each mini-protocol, as a function from a
  state and an event to the next state and what to do.
- `src/consensus.rs`: what the Praos and the Leios layer tell each other.
- `src/partition.rs`: which links of a simulated network are cut at a point of
  virtual time.

Functions named `law_..` state what holds across calls. `app/` ties the library
to connections, stores, configuration files and logs.
