# chronodb

An embedded time-series storage engine, verified with Verus.

Points `(series, timestamp, value)` are stored per series in fixed-width,
time-aligned partitions kept sorted by timestamp. Range queries scan the
half-open range `[from, to)` and group the points into windows aligned to
absolute time (`start = (t / window) * window`); retention drops whole
partitions lying before a cutoff. An append-only log of records replays into a
store.

## Layout

- `src/` — the verified library. Values are carried through generically and
  never inspected; every contract is stated over mathematical models:
  - `point.rs`: data points, time order, bucket alignment, range filters;
  - `partition.rs`: one sorted partition;
  - `series.rs`: a series as a map from partition start to points;
  - `aggregate.rs`: grouping points into aligned windows;
  - `store.rs`: the multi-series store, its ingest/query/retention/replay
    model;
  - `retention.rs`, `query.rs`, `error.rs`, `key.rs`, `cli.rs`;
  - `wal.rs`: log records, the log trait, the in-memory log, and the split of
    a log file's text into record lines.
- `app/` — the command-line program: argument parsing, the file-backed log
  and its JSON codec, and the floating-point folding of window values
  (min/max/sum/avg/count).
- `tests/` — tests of the library.
