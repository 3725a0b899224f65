# buddy_allocator

A buddy allocator of physical pages, verified with Verus.

The region managed is split into blocks of `4096 << order` bytes, for orders
`0..=10`. Free blocks wait in one FIFO queue per order; one bitmap per order
has a bit per block of that order, clear exactly for the free ones. A request
takes the first free block of the least order that has one and splits it
down, returning the upper halves to the free queues; a block given back is
merged with its free buddies.

Layout of `src/`:

- `sizes.rs` – block sizes, buddies and the arithmetic facts about them.
- `queue.rs` – `PageQueue`, the FIFO queue of free block addresses.
- `bits.rs`, `map.rs` – `MemBitMap`, one bit per block, all set at first.
- `state.rs` – `BuddyView`, the abstract state, and what each operation
  does to it (`alloc_result`, `free_result`, `init_queues`).
- `buddy.rs`, `buddy/init.rs` – `BuddyAllocator`: `new`, `init`,
  `alloc_pages`, `free_pages`, proved against `BuddyView`.
- `laws.rs` – properties that span operations, such as a block handed out
  and given straight back restoring the free queues.
- `bit_set.rs`, `node.rs`, `lvl.rs`, `list.rs` – the parts of a skip-list
  allocator: a padded bit set, free-list nodes, level heads and the list.

`tests/` runs the library on concrete regions.
