# slop-gate

A deterministic CI gate for Rust code that grows too large, too complex, or too similar to
code a repository already has. It indexes a trusted base commit into a versioned baseline
artifact and judges only the Rust functions, lint suppressions, unsafe constructs and Cargo
dependencies that a change adds or touches.

## Layout

- `src/` is the library, written and proved with Verus:
  - `syntax.rs` parses Rust with Tree-sitter into plain values and accepts a tree whose
    parser errors all lie inside macros;
  - `analysis.rs` extracts function facts (normalized tokens, AST shapes, shingles, SLOC,
    cyclomatic complexity), lint suppressions and unsafe surface from that tree;
  - `clones.rs` indexes functions by shingle and selects the most similar near-clone;
  - `artifact.rs`, `digest.rs` and `encoding.rs` hold the baseline artifact and its checks;
  - `config.rs` is the policy; `report.rs` orders, filters and renders findings;
  - `rules.rs`, `manifest.rs` and `facts.rs` decide the growth rules; `gate.rs` the mass
    check's decisions; `manifest.rs` parses Cargo manifests with the `toml` crate; `diff.rs`
    and `repo.rs` read Git's output;
  - `text.rs`, `scan.rs`, `path.rs`, `order.rs`, `sort.rs`, `measure.rs` and `error.rs` are
    the text, ordering, number and error routines the rest is built on;
  - `laws.rs` states and proves properties that span several functions.
- `app/` is the command line: argument handling, Git and file I/O, the JSON and SARIF
  encodings and the policy file's TOML (through serde), and the real-valued mass and
  similarity arithmetic.
- `tests/` exercises the library on concrete inputs.
