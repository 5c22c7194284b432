# index-db

An ordered map laid out as a B+tree, written in Verus: every function carries a
contract, and Verus proves that the code meets it, does not panic, and does not
overflow.

`BPlusTree<K, V>` keeps its keys sorted across a tree of fixed-fan-out nodes.
Point lookups, inserts and removals descend one node per level; removals borrow
from or merge with a sibling so every leaf stays at the same depth; sorted input
can be bulk-loaded bottom-up; and `Iter` walks the entries in ascending order
from either end, over the whole tree or over a key range.

## What the contracts say

- The tree is viewed as a map, `tree@`, and its entries as an ascending
  listing, `tree.listing()`. `get`, `contains_key`, `insert` and `remove` are
  specified over the map; `iter` yields exactly the listing and `range` exactly
  the listing filtered by its two bounds.
- Every operation keeps the B+tree invariant (`wf`): balanced, sorted, every
  node within its fan-out and, below the root, at least half full. Replacing a
  value never changes the height, an insert grows the tree only by splitting
  the root, and removing an absent key changes nothing.
- The restructuring steps are stated exactly: where a full leaf or internal
  node splits and which key moves up, how an entry rotates between siblings,
  how two siblings merge, and in which order an under-full node tries them.
  Bulk loading builds the shortest possible tree, each level split into the
  fewest nodes with sizes spread as evenly as possible (leading nodes take the
  remainder), and every separator the least key of the subtree to its right.
- A public law states balance and fill: every leaf lies at depth
  `levels() - 1`, and every node below the root holds between `min_fill` and
  `fanout - 1` keys.
- An iterator records what each end has yielded; the two ends meet exactly
  when every entry has been yielded once.
- The laws that relate operations — a read returns what was written, lengths
  after insert and remove, the listing is the map in ascending order and is
  determined by it, the height is logarithmic in the size and bounds its
  capacity — are proof functions in `src/tree.rs` and `src/iter.rs`.

The contracts hold for key types whose `Ord` is a total order consistent with
`==` and whose `Clone` gives an equal key (`lawful_key`). Verified callers can
establish `lawful_key` only for key types whose ordering vstd specifies; the
crate proves it for the primitive integer types. vstd gives `String` no ordering
specification, so verified code cannot call the key-reading operations (`get`,
`insert`, `remove`, `range`, `from_sorted`, ...) with `String` keys. Ordinary,
unverified Rust code can use any `Ord + Clone` key, `String` included, as the
tests do; the contracts then hold provided the key type keeps the promises that
`Ord` and `Clone` document.

## Layout

- `src/order.rs` — the key order, binary search.
- `src/model.rs` — sorted entry sequences and the maps they denote.
- `src/node.rs` — nodes, the B+tree invariant, and lemmas about it.
- `src/ops.rs` — search, insert with splits, remove with borrow and merge,
  bulk load.
- `src/tree.rs` — the public `BPlusTree` type and the laws.
- `src/iter.rs` — cursors, range bounds and the double-ended `Iter`.
- `tests/` — scenario, stress and soak tests against `BTreeMap`.
