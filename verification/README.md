# allocators

Memory allocators, verified with Verus.

- `src/frame/` hands out runs of frames, whose numbers are powers of two.
  `buddy2` keeps a binary tree in an array: a node holds the size of the largest free run below it.
  `tree` is what that tree means. `buddy_system` keeps a set of free runs for each size.
- `src/heap/` hands out ranges of bytes. `block` is how a block lies in memory, with its size in
  front of it and behind it; `free_list` is what holds of all blocks and of the list of free ones;
  `usage` is what users hold; `explicit_free_list` is the allocator.
- `src/slab/` hands out objects of one size, from slabs of pages, each cpu from a slab of its own.
  `cache` is the allocator, `model` and `stored` are what it means and how it lies in memory.
  `std_impl` gives it pages out of one chunk of memory. `tid` gives numbers to threads. `atomic` is
  a pointer with a counter that can be exchanged atomically.
- `src/new_slab.rs` is the start of a slab allocator whose sizes are constants.
- `src/memory.rs` is memory that is read and written a word at a time, `src/bits.rs` is arithmetic
  with powers of two.
- `app/` holds the locks, the global allocator, the threads and a measurement of the slab
  allocator.

The contracts speak of models: a tree of numbers, sets of free runs, a map of blocks, a sequence of
slabs. What holds of several calls stands in the proof functions whose names begin with `law_`.
