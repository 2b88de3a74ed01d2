# wadachi

Directory frecency: records the directories you visit and serves a fuzzy,
frecency-ranked `cd` from one store that every tool shares.

## Layout

- `src/` — the verified library.
  - `text`, `path`: character sequences and a model of Unix path syntax
    (components, prefix, order).
  - `binary64`: scores and weights held by their IEEE-754 encodings.
  - `matching`: how a needle matches a path (`MatchKind`, `MatchProfile`).
  - `spec`, `env`, `interp`: the ranking pipeline as data, the clock, and
    the interpreter (`Ranker`) that runs every phase but the binary64
    arithmetic, which it hands back to its caller step by step.
  - `store`: the `DirStore` contract, the in-memory store, and the reading
    of stored rows into candidates.
  - `config`: the configuration tiers.
  - `indexer`: the background indexer's decisions (ignore set, admissible
    paths, event routing, walks, pruning, the re-walk schedule, the watch
    daemon's step after each wait, reports).
  - `facade`: the per-`cd` entry points.
- `app/` — the `wadachi` command: SQLite store, filesystem walks, the watch
  daemon, the binary64 arithmetic of ranking, and the command line.
- `tests/` — the library's tests.
