# depg

A dependency graph builder for Rust (Cargo.lock), Node.js (package-lock.json or an
installed node_modules tree), Python (Poetry) and Go (`go mod graph`) projects, with a small
web viewer.

- `src/` is the library, verified with Verus: the lockfile models, dependency resolution
  (Cargo name/version matching, Node's nested-then-hoisted lookup, Poetry's
  case-insensitive names, Go module ids), the breadth-first traversal that turns an
  adjacency into a graph (`graph::bfs`, specified by `graph::is_bfs_of`), ecosystem
  detection, and the laws in `laws.rs`.
- `app/` is the program: command line, file and process I/O, TOML/JSON decoding into the
  library's types, and the web server.
- `tests/` exercises the library on concrete inputs.
