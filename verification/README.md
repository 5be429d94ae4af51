# cola

A CRDT for text: several peers edit the same text at once, and all of them end up with the same text
without a server that coordinates them. A `Replica` does not hold the text itself. It is told how the
buffer of its peer changes, and it tells the peer how the buffer should change when edits of other
peers come in.

The library is written in [Verus](https://github.com/verus-lang/verus): every function has a contract
that is proved, and so is what holds of a session as a whole.

## Layout

- `src/model.rs`: the text as a sequence of characters, and what edits do to it.
- `src/state.rs`: the state of a replica, and how each operation changes it.
- `src/replica.rs`, `src/backlogged.rs`: the replica, whose contracts speak of its state.
- `src/edit_run.rs`, `src/run_tree.rs`, `src/tree_deletion.rs`, `src/merged_deletion.rs`,
  `src/run_indices.rs`: the text as runs of characters.
- `src/layout.rs`, `src/parts.rs`: how each operation changes the runs and the other parts that a
  replica is made of and that its encoding holds.
- `src/text_order.rs`, `src/sorted_text.rs`: the order of the characters, which does not depend on
  when they arrive.
- `src/history.rs`, `src/session.rs`, `src/local_edits.rs`: what the peers of a session have done, and
  that they stay in it.
- `src/laws.rs`: what can be relied on. `law_all_peers_converge` is what it is all for.
- `src/wire.rs`, `src/encode.rs`, `src/encoded_replica.rs`: replicas as bytes, written and read by
  way of `bincode`.
- `src/invariants.rs`: a check of whether a replica is sound, for those decoded from bytes of unknown
  origin.
- `app/`: formatting and statistics around the library.

## What is trusted

`bincode::serialize` and `bincode::deserialize` on 64-bit integers and on vectors of them
(`src/encode.rs`), and the bounds of an inclusive range of the standard library (`src/offset_range.rs`).
