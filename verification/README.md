# atlas

A codebase knowledge graph for agents and humans. `atlas` scans a repository,
records its source files (Rust, TypeScript/JavaScript, Python, Go), extracts
imports and exports, resolves local dependencies, and answers orientation
questions before an edit: dependencies, reverse dependencies, blast radius,
hotspots, exported symbols, and a doctor report on how far the map can be
trusted.

## Layout

- `src/` — the library, written in Verus and verified:
  - `text.rs`, `order.rs`: character-sequence operations and the order of paths.
  - `graph.rs`: the graph (nodes sorted by path), the reverse-dependency
    index, the breadth-first blast radius, statistics.
  - `parse.rs`: import and export extraction (regular expressions via the
    `regex` crate, post-processing verified).
  - `resolve.rs`, `scan.rs`: resolving raw imports to files, and building a
    graph from source files.
  - `store.rs`: index freshness against the files on disk now.
  - `report.rs`: the doctor's gates, actions and recommendations, hotspots,
    symbol search, map warnings and blast-radius hints.
  - `cli.rs`, `error.rs`: the command line and the errors, as plain data.
  - `laws.rs`: properties that span several operations.
- `app/` — the `atlas` command: argument parsing (clap), the directory walk
  (walkdir), reading files, the JSON index (serde), and printing.
- `tests/` — tests of the library.

## Commands

```sh
atlas scan --force
atlas modules
atlas deps src/main.rs
atlas rdeps src/graph.rs
atlas blast src/graph.rs --depth 3
atlas stats
atlas doctor
atlas doctor --strict      # exit 0 (none), 10 (refresh), 30 (review/stop)
atlas hotspots --limit 20
atlas symbols [query] --limit 50
atlas impact <file> --depth 5
atlas --format json doctor
```
