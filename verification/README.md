# context_allocator

Memory allocators whose book-keeping is verified with Verus.

Every allocator works on addresses (`usize`) and decides which ranges of an address space to
hand out and take back; it never touches the memory itself. Contracts are stated over
mathematical models: the set of free bytes, the sequence of free blocks of each size, the bits
of a bit set.

## Layout

- `src/allocator.rs`: the `Allocator` trait, with default `reallocate` and `allocate_zeroed`,
  and the `GlobalAlloc`-style and `AllocRef`-style entry points built on it.
- `src/memory_source.rs`, `src/arena_memory_source.rs`: where allocators get their memory, and
  give it back with `release_memory`; an arena hands out fixed-size slots from a free list.
- `src/bump_allocator.rs`: a bump allocator that can free, grow or shrink only its most recent
  allocation in place.
- `src/bit_set/`: a bit-set allocator that searches 64-bit words for runs of free blocks.
- `src/binary_search_trees/`: red-black trees of free block addresses, one per
  power-of-two block size, with cursors and iterators.
- `src/multiple_binary_search_tree_allocator.rs`: a buddy-style allocator over those trees
  that splits blocks on allocation and coalesces neighbours on deallocation.
- `src/local_allocator.rs`, `src/memory_usage.rs`, `src/global.rs`: allocators with a known
  address range, usage tracking, and the switch between coroutine-local, thread-local and
  global allocators.
- `tests/`: tests of the library on concrete values.
- `app/`: the adaptors to `std::alloc::GlobalAlloc` and the system allocator, which touch real
  memory and are not verified.
