# reflect

A self-correction service for coding agents: it runs evaluators (test
runners, linters, type checkers) on code, turns their output into structured
signals, recognises known error patterns in failed signals, and keeps
reflections (lessons learned) with their patterns in a store.

The library under `src/` is written in Verus and verified:

- `text` — character classes (`\s` as Unicode `White_Space`, `\d` as Unicode
  `Nd`), line splitting, digit runs, decimal numbers.
- `types` — evaluation signals and errors, with their views.
- `tsc`, `eslint` — the grammars of the TypeScript compiler's diagnostics and
  of ESLint's stylish report, as specifications over characters, and parsers
  proved to compute them; with the laws that TypeScript diagnostics are read
  line by line (outputs joined by a line break give the diagnostics of both,
  other lines add nothing) and that an ESLint report lists one problem per
  problem line before its closing line, in the file named last.
- `pattern` — pattern rules over regular expressions (the `regex` crate,
  behind two trusted wrappers) and extraction of matches, with its laws:
  ids are distinct, every match is justified by a failed signal, every firing
  rule is reported, passed signals change nothing, matches come in the order
  of each id's first firing, and adding a rule is the same as building the
  engine with it.
- `recording` — recording a reflection's pattern (create it, count it again,
  or answer a failed lookup) and reading the id of a reflection to forget
  (the `uuid` crate, behind one trusted wrapper).
- `config`, `tools`, `stats` — settings and their defaults, request types,
  and the decisions and aggregates of the service's tools on plain values.

`app/` is the MCP server around the library (stdio transport, SQLite store,
running evaluators); it is ordinary Rust.
