# labrs

Reactive notebooks for Rust, kept as plain `.rs` files: `#[labrs::cell]`
functions are named cells whose parameters name the cells they depend on,
plain functions are helpers, `#[labrs::markdown]` constants are prose.

## Layout

- `src/` — the engine, verified with Verus. Each public function states its
  result in its `ensures` over a character-level model of text (`text`).
  - `parse`, `syntax`: reading a notebook file (through `syn`, whose
    answers are named as functions of the text) into cells, helpers,
    markdown and shared definitions.
  - `graph`, `deps`, `graph_laws`: the dependency graph, its topological
    order and diagnostics, and the laws that hold of them.
  - `edit`, `source_util`, `source_laws`: rewriting items in the file, and
    the translation between the editor form of an item and its disk form.
  - `session`, `session_edit`, `session_run`, `session_view`,
    `session_laws`: outputs, dirty flags, the reactive cascade, and what
    each edit does to them.
  - `codegen`, `runner`, `fmt`: the programs generated to run cells and the
    reading of what they print.
  - `protocol`, `browse`, `cli`, `lsp_frame`: the UI's messages, the file
    browser's decisions, the command-line reports, and the framing of
    language-server messages.
  - `json`: JSON values kept with the text they were read from.
- `app/` — the program around it: command line, file and process I/O, the
  web server and the rust-analyzer proxy.
- `tests/` — tests of the library on concrete values.
