# atlas

Deterministic, bounded analyses over explicitly selected code facts, written in Verus.
Every public function states in its contract what it returns for every input it
accepts, and Verus proves the code against those contracts.

## Layout

- `src/` — the verified library.
  - `graph.rs`: component and path analyses over a selected call graph (strongly
    connected components, breadth-first paths, response budgets).
  - `dataflow.rs`, `flow.rs`, `facts.rs`: reaching definitions over imported compiler
    control-flow graphs.
  - `complexity.rs`: cyclomatic measures of compiler control-flow pages.
  - `bundle.rs`, `compiler.rs`: the compiler bundle checks and the body records they read.
  - `trace.rs`, `observation.rs`, `evidence.rs`, `statistics.rs`: runtime trace windows
    and observation bundles.
  - `syntax.rs`, `configuration.rs`, `inheritance.rs`: `cfg` attributes and their
    inheritance through a syntax tree.
  - `capture.rs`, `discovery.rs`, `options.rs`, `listing.rs`: captured files, relative
    paths and command-line options.
  - `model.rs`, `envelope.rs`, `limits.rs`, `control.rs`, `output.rs`, `text.rs`,
    `decimal.rs`: shared coverage model, budgets, cancellation and text helpers.
- `tests/` — executable tests of the library.
- `app/` — the command-line front end: file I/O, JSON and the serializable copies of the
  library's types.

Calls into `petgraph`, `ra_ap_syntax`, `serde_json` and `sha2` stand behind small
trusted wrappers, each with a doc comment saying what its contract claims.
