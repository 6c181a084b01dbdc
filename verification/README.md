# sva_core

Block-level dataflow analysis of SystemVerilog designs, written in Verus.
The library's functions carry `requires` / `ensures` contracts that Verus
proves. Where an answer comes from a waveform file, the contract states
what holds whatever the answer is, and a separate verified function states
what follows from given answers where there is one. A coverage tracker (a
trait that users implement) gives each of its answers a spec function, and
the Blues slice is stated over those.

## Layout

- `src/` — the verified library.
  - `types`, `block` — signals, blocks and block sets (`block::set`), the
    cutting of modeled source files into blocks (`block::blockize`), block
    equality, the dataflow and the conditions of always-block statements
    (`block::dataflow`), module instances and the elaboration of module
    templates into a design (`block::instances`, `block::elaborate`),
    signal-name rules (`block::names`) and source snippets
    (`block::source`).
  - `slicer` — static and coverage-guided (Blues) backward slices and their
    stable JSON form; `slicer::blues::blues_slice_from` computes the Blues
    slice from any coverage tracker (answers given as plain data among
    them), and states exactly which nodes and edges it holds.
  - `coverage` — Verilator elaboration indexes, the collection of
    assignment statements from modeled sources (`coverage::assignments`)
    and statement coverage.
  - `wave` — waveform reading over `wellen`, scope remapping, value text.
  - `services`, `backend`, `mcp` — the requests the tools answer, slice
    artifact queries and block queries.
  - `tui` — the slice-graph explorer: tree walking, selection, key handling
    and pane text.
  - `text`, `order`, `name_map`, `json`, `debug_text`, `error` — text,
    ordering, maps, JSON values and errors the rest builds on.
- `tests/` — tests run against the compiled library.
- `app/` — the command line program: argument parsing, files, the terminal,
  and the reading of SystemVerilog with sv-parser into the library's source
  model (`blockize`, `coverage`).
