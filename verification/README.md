# rle_vec

`RleVec` is a vector-like container that stores runs of identical values:
each run is kept as its value and the index of its last value. Reading the
value at an index is a binary search over the runs.

The library is written in Verus and proved:

- `src/run.rs`: the model. `Run` (a length and a value), `flatten` (what a
  sequence of runs stands for), the shortest coding `encode`, the runs that
  each edit leaves (`runs_after_set`, `runs_after_drain`, ...), and laws about
  them, among which the uniqueness of the shortest coding.
- `src/encoding.rs`: the stored runs (end indexes and values), how they map to
  the model, and lemmas about replacing some of them.
- `src/edit.rs`: the editing steps of `set`, `insert`, `remove`, `truncate`
  and `drain` on the stored runs, each with its proof.
- `src/rle_vec.rs`: `RleVec` and its operations, with their contracts.
- `src/iter.rs`: iterators over the values (from both ends) and over the runs,
  and laws on what a run of calls to `next` or `next_back` hands out.
- `src/laws.rs`: how the operations undo each other on the values. On the
  runs, `remove` undoes `insert` for an `RleVec` in shortest coding, since
  both keep that coding and it is unique.

`app/` holds the serde form of an `RleVec` and its conversions.
