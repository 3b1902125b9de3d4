# graph

Graphs whose nodes live in numbered slots of an arena, with verified
contracts.

- `Graph<T>` (src/graph.rs): an undirected simple graph. Each slot holds a
  value and a neighbour list; deleted slots are kept on a free list and
  reused, last freed first.
- `WUGraph<T>` (src/wugraph.rs): a directed graph whose nodes keep their
  outgoing and incoming edges. Self-loops and parallel edges are each
  allowed or refused when the graph is made. A new node always takes a new
  slot: the slot of a deleted node is never reused, so no two nodes ever
  share a handle and the handle of a deleted node stays invalid.
- src/traverse.rs: breadth-first and depth-first order over neighbour lists,
  specified exactly, with proofs that both visit exactly the reachable nodes
  and that each order is unique.
- src/laws.rs: properties that relate the operations (edges are symmetric,
  disconnecting undoes connecting, deletion isolates a node, `connect_all`
  joins every pair, edge counts are exact, ...).
- src/seq_util.rs: list helpers and their lemmas.
- A handle (`NodeIndex`) is the number of a slot and carries no
  generation. In a `Graph`, once a node is deleted and its slot is reused
  by a new node, an old handle to the deleted node names the new node: it
  is accepted, not refused as stale. A `WUGraph` never reuses a slot, so
  there an old handle is always refused.
- app/: a demonstration program that prints the results of each operation.
