# braid_core

A verified library for Braid synchronisation: the sequence CRDT and the
Antimatter protocol around it (version graph, acknowledgements, fissures,
pruning), the simpleton, diamond and antimatter merge types, per-resource
update rules, Braid-HTTP header helpers, and the naming, mapping and
bookkeeping rules of the BraidFS file-system daemon.

- `src/` is written in Verus: every function carries a contract and is
  proved against it. Calls into `diamond-types`, `url`, `dissimilar`,
  `sha2`, `uuid` and a few `std` functions go through small trusted
  wrappers. Their contracts are not proved: each states what the called
  function's source shows, and its `requires` leaves out the inputs on
  which that function panics (for `diamond-types`, the reserved agent
  name `ROOT`, and version lists that are not a frontier of the log:
  in increasing order, none in the history of another).
- `tests/` exercises the library on concrete values.
- `app/` is ordinary Rust around the library: the merge-type interface and
  registry, the shared registry of resources, the JSON form of Antimatter
  messages, the clock and the file system.
