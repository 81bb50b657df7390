# bnode

The nodes of a B+ tree over byte-string keys, written and verified in Verus.

A node is responsible for a half-open range of keys, from `lo` up to `hi`; an
empty `hi` is no bound. It is a leaf, with a value for each key, or an index,
with a child page for each. The bytes that all keys of the range share are left
out of the stored keys. Nodes take changes (`Link`), are split when they grow
and merged with their right sibling when they shrink.

- `src/order.rs`, `src/ivec.rs`: byte strings and their order
- `src/prefix.rs`: keys with a shared prefix left out
- `src/search.rs`, `src/sorted.rs`: searching and checking sorted lists
- `src/page.rs`, `src/link.rs`: page identifiers and changes
- `src/model.rs`: what a node is, and what each operation makes of it
- `src/data.rs`, `src/node.rs`: the entries, the node and its operations
- `src/laws/`: what holds of nodes as a whole, such as that a split loses no
  entry and that merging the halves gives the node back
