# topo_core

The core of a topology-aware memory allocator, written in Verus. Every function of the library
has a contract that Verus proves.

- `bitmap`, `huge_bin`, `filler_model`, `filler`, `filler_laws`: packing page runs into hugepages.
- `region_cache`, `huge_backend`, `huge_laws`: the hugepage backend over a memory provider.
- `release`, `arena`: when and how much memory goes back to the operating system.
- `node_router`, `topology`, `pinned`: placement across the nodes of a machine.
- `pagemap`, `span`, `ptr_class`: from an address to what it is, and whether it may be freed.
- `extent`, `large`: large allocations.
- `placement`, `placement_table`, `sampling`, `sampled_set`, `bloom`: allocation-site profiles.
- `lock`, `init`, `profile`, `ids`, `flags`, `overflow`, `bootstrap`, `backend`: what the rest
  stands on.

A memory provider, a region cache, a manager of extents and a source of core numbers are traits.
Spec functions say what an implementation may answer; nothing is taken for granted of it, and the
contracts hold whatever it answers. A provider also has the history of its requests, over which
the contracts say what is asked of it, in which order, and how often.

`app/` holds what a process needs around the library: spin locks, the shared start-up phase,
thread-local re-entrancy, and backends that give their reservation back when dropped.
