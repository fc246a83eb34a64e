# udb-lab

A laboratory of small data-processing kernels and an embedded key-value store,
with contracts that Verus proves.

* `src/` is the library. Each kernel is a module: factorized sums, answer cells
  over a lower envelope, executable regions, progressive and block filters,
  list intersections, triangles, reservation quotas, coded redundancy, scans and
  lookups, shared indexes, rounded sums, pointer chains, prefix sums, ranking
  certificates. `src/spi/` is the store: checksummed append-only arenas, a
  copy-on-write index in one of two formats, snapshots, optimistic transactions,
  compaction, collection and verification.
* The store keeps no file open. Its operations hand out steps (write, sync,
  replace the manifest) that have to be carried out in order; the laws in
  `src/spi/update.rs` and `src/spi/maintenance.rs` say what is on disk if that is
  interrupted, and those in `src/spi/damage.rs` what verifying finds if a byte there
  is changed.
  What compaction leaves out is stated in `src/spi/reclaim.rs`, and which pages an
  update of a packed store writes as deltas in `src/spi/layout.rs`.
* The library holds every arena whole in memory, a retired one too for as long as a
  snapshot pins it, where a store on disk would read records one by one. A process
  needs memory for all the bytes of its arenas, whatever budget its cache has.
* `tests/` runs the library on concrete values, with the files of a store held in
  memory.
* `app/` holds the programs: the laboratory (`udb-lab [--quick] [--only NAME]`),
  the store's command line (`udb-lab spi ...`) and two benchmarks
  (`udb-lab spi-bench`, `udb-lab spi-compare`).
