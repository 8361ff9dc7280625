# barkus

A grammar-based fuzzing library, verified with Verus.

A grammar, written in EBNF, PEG or ANTLR v4 (combined, or split into a
lexer and a parser grammar), is compiled to an intermediate representation
(`GrammarIr`). Generation walks that IR with a random source and records
every decision on a *decision tape*; decoding replays a tape to the same
tree. Mutation operators edit tapes, and the analysis modules report
coverage, reachability and profile advice over a corpus.

## Layout

- `src/` – the verified library. Front ends (`ebnf`, `peg`, `antlr`,
  `tokenizer`, `raw`, `ir_builder`), the IR and its analyses (`grammar`,
  `validate`, `analysis`), generation and replay (`generate`, `decode`,
  `tape`, `tape_map`, `hooks`), mutation (`mutation`), corpus and report
  logic (`corpus`, `stats`, `reachability`, `recommend`, `readiness`),
  SQL generation (`sql`, `sql_gen`), and small wrappers around outside
  crates (`rng`, `text`, `cli`, `html_target`, `css_target`).
- `tests/` – tests run against the compiled library.
- `app/` – the command-line program: argument handling, file I/O, report
  rendering and serialisation.
