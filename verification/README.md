# soa_lab

Data-oriented experiments (column layouts, dense binning, flat trees, write-ahead
logging, an entity simulation) whose integer logic is a verified Verus library.

- `src/` — the library, verified by Verus. One module per experiment:
  `deck` (a card table in columns), `exprtree` (boxed, arena and flat expression
  trees), `scene` (a pre-ordered scene tree), `sheet` (a spreadsheet dependency
  graph), `binning` (counting-sort buckets), `sim` (the entity table and its single
  writer), `wal` (a checksummed event log and its recovery), `logger`, `simlog` and
  `logread` (a columnar record log and its byte formats), `measure`, `chase`,
  `hetero`, `fpfragility` (exact orientation), `lcg` (the generator they share).
  Laws that span several functions are public proof functions beside them.
- `tests/` — tests of the library on concrete values.
- `app/` — the benchmark programs: timing, threads, file and device I/O, and the
  floating-point halves of the experiments, calling the library for the rest.
