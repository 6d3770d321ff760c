# metal_merkle

Verified planning logic for hashing Merkle trees and running number-theoretic transforms over the
Goldilocks field on Metal devices.

The library decides; the device computes. A tree or a transform becomes a list of kernel launches
with their parameters, grids and buffers. What the device left in its buffers comes back as plain
words, and the library turns it into digests, caps and polynomial values.

- `src/bits.rs`, `src/flat.rs`, `src/launch.rs`: powers of two, rows in flat buffers, thread grids.
- `src/math/`: the Goldilocks field, its roots of unity, transforms and their radix-2 decomposition.
- `src/hash/metal/`: transform tables and launches (`ntt`), what the transform kernels compute
  (`ntt_kernels`), the runtime of the tree kernels, and the jobs of the device's thread.
- `src/gpu/metal/`: digest layouts, the buffer pool, launch plans for every kernel family, what the
  hash kernels compute (`tree_kernels`, `coalesced_kernels`) and that it is well defined
  (`tree_effects`), the tree that the results make up (`tree_results`), chunked builds and submitted
  jobs.
- `src/fri/`: polynomial commitments: extension to the coset, leaves, opened values, and the
  polynomial that goes into the low-degree test.
- `app/`: devices, threads, the environment and process-wide state around the library.
- `tests/`: runs of the library on concrete values, with the kernels played by plain Rust.

Trees are stored in three layouts. The kernels write binary heaps, with or without a place for the
root; proofs are read from the recursive layout, in which siblings are adjacent. `layout` states
where each node stands, and `utils` converts.
