# maroon

A node of maroon, a durable distributed task queue, with its decisions verified by Verus.

Transactions are identified by 64-bit ids split into ranges of 2^30 ids. Each node stores the
transactions it receives, advertises how far it has a gap-free run in each range (its offsets),
asks the furthest node for what it lacks, agrees with the other nodes on consensus offsets and
commits epochs: hash-chained lists of id intervals.

- `src/` is the verified library:
  - `range_key`: ids, ranges and offsets.
  - `transaction`, `value`: plain data.
  - `peer`: peer ids, per-peer offsets, the consensus maximum and a node's position.
  - `offsets`: grouping transactions by range, moving the node's own offsets, epoch increments.
  - `delays`: what the node lacks compared with the others, and answering requests for
    transactions.
  - `epoch`: epochs and their SHA-256 chain (the digest comes from the `sha2` crate).
  - `app`: the node's state machine: inbox messages, advertising, state queries, commits.
  - `network`: which peers are alive, by role.
  - `linearizer`, `coordinator`: epoch consumers and commit coordination.
- `tests/` runs the library on concrete values.
- `app/` is the program around it: libp2p networking, tokio channels and timers, serde
  messages, logging, and a gateway mode (`GATEWAY` set) that sends transactions to the nodes.
