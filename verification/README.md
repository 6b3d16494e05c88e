# mimz_core

The core of the Min-Mozhi hardware description language's front end,
written in Verus: the syntax tree, the semantic checker and the source-level
lowerings, each function with a contract that Verus proves.

## Layout

- `src/ast/` — the syntax tree, and the lowerings that rewrite it:
  `foreach` over ranges and arrays, `sync loop` state machines, and the
  `sync.double_flop` / `sync.pulse` primitives.
- `src/checker/` — the semantic checker. `check` runs its passes over a
  loaded project and collects every diagnostic:
  - `symbols` — duplicate declarations and function names;
  - `extern_module` — extern module ports;
  - `funcs` — recursion between functions, unreachable statements;
  - `consteval` — compile-time constants (arbitrary width, exact): each
    constant stands for an integer (`const_value`), and `eval`'s contract
    gives the integer an expression folds to (`const_sem`);
  - `names` — name resolution, instantiations, types;
  - `clocks` — clock-domain ownership and the placement of the
    synchronizer primitives.
- `src/wide.rs` — arbitrary-width two's-complement patterns as `u64` limbs,
  with the number each pattern spells (`limbs_value`, `pattern_value`) and
  the arithmetic, shift and bitwise operations on them.
- `src/bits.rs` — small/wide bit patterns of constants, shrinking to the
  minimal width, decimal rendering.
- `src/analysis.rs` — the symbol index behind hover and completion.
- `src/text.rs`, `src/span.rs`, `src/diag.rs` — strings, source spans,
  diagnostics.

The tests under `tests/` build syntax trees directly and run the checker and
lowerings on them.
