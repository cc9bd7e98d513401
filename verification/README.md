# loom

A toolkit for modernising legacy programs: parsers for a simple line
language, COBOL, RPG and PL/I, a language-independent IR, an interpreter,
control-flow and SSA analyses, optimisation passes, translators, and
strangler-fig migration wrappers. The library is written in Verus, and the
functions in `src/` carry contracts that Verus proves, with one exception:
a few small wrappers around std and `rand` are marked
`#[verifier::external_body]`, and their contracts are believed, not
proved. They are `to_upper` and `to_lower` (std's Unicode case mapping)
and `push_char` in `src/text.rs`, `debug_expression` and `debug_function`
(derived `Debug` text) in `src/translate_rust.rs`, and `thread_rng` and
`gen_range` in `src/validation.rs`.

Translation targets are Python, Rust, Kotlin, Dart and Zig. Python output writes
variable names in lower case, and `DISPLAY X` of a name prints the
variable: `MOVE 5 TO X / ADD 10 TO X / DISPLAY X` becomes

    def translated_func():
        x = 5
        x = x + 10
        print(x)

Layout:

- `src/text.rs`, `src/names.rs` — characters, numbers and ordered name maps.
- `src/ir.rs` — the IR and its mathematical models.
- `src/parser.rs`, `src/parser_cobol.rs`, `src/parser_rpg.rs`, `src/parser_pli.rs`,
  `src/preprocessor.rs`, `src/data_division/`, `src/pic_parser.rs` —
  front ends, each specified by a grammar over character sequences.
- `src/cfg.rs`, `src/dataflow.rs`, `src/ssa.rs`, `src/phi.rs` — control-flow
  graphs, dominators, liveness, phi placement and SSA renaming.
- `src/interpreter.rs` — a step-bounded interpreter with its semantics.
- `src/optimizer.rs` — folding, propagation and dead-code removal.
- `src/translate_*.rs`, `src/report.rs` — generated code and reports.
- `src/semantic/`, `src/lowering.rs`, `src/ast.rs` — semantic checks.
- `src/migration.rs`, `src/validation.rs` — migration wrappers and the
  pieces of translation validation.
- `app/main.rs` — the command line (files, Python runs, JSON test cases).
