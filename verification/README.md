# crunchie_core

A small language for everyday arithmetic in a text buffer, as a library. Each line of the
buffer is an assignment (`x = 5 kg`), a query (`area =`, filled in with the result) or an
assertion (`10m + 50cm = 10.5m`). A line that does not make sense is poisoned and reported;
the lines that do not depend on it keep working.

The library is written in Verus: every stage carries a contract over a mathematical model
of the workspace, and the properties that span stages are proved as lemmas. What fend
answers is not claimed (some of its functions and units go through platform floating
point): the contracts state the results over the names fend was found to know and the
replies it gave.

## Layout

- `src/model.rs`: the workspace (atoms, containers, interning, positions, diagnostics) and
  its view `WorkspaceV`.
- `src/parser.rs`: stage 0, the structural sweep of the buffer.
- `src/distiller.rs`, `src/muncher.rs`: stage 1, typing of raw symbols (numbers, units,
  variables, poison).
- `src/janitor.rs`: stage 2, line splitting, sequence normalisation, collapsing of inert
  containers.
- `src/unroller.rs`: stage 3, shunting-yard and instruction tapes.
- `src/engine.rs`: stage 4, the executioner, which hands each instruction to fend.
- `src/printer.rs`: a readable dump of a workspace.
- `src/edits.rs`: applying fills to the buffer.
- `src/fend.rs`: the boundary to `fend-core`; `src/ident.rs`: fend identifiers and their
  serialised form.
- `src/builtins.rs`, `src/config.rs`: the built-in symbols and the configuration.
- `src/maps.rs`, `src/text.rs`, `src/shape.rs`: small maps keyed by ids and names, UTF-8
  offsets, and the shape of a workspace that every stage keeps.
- `src/lib.rs`: the pipeline (`parse`, `distiller`, `janitor`, `unroller`, `executioner`,
  `evaluate`, `process_buffer`), and `try_` variants that check the sizes and id budgets
  their counterparts require, and say when they do not hold.
- `tests/`: scenario tests; `app/`: a small program that runs a few buffers, with
  serializable copies of the public data types.
