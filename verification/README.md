# dicelint

A linter for dice notation (`[N]dM[kh#|kl#][!]` terms joined by `+`/`-`,
scaled with `* N`, grouped with parentheses; a term written `dM` rolls one
die), written in Verus.

- `src/text.rs`: character classes (Unicode whitespace, digits) and decimal rendering.
- `src/lexer.rs`: `tokenize`, specified by `lex`.
- `src/linter.rs`: the parser (`parse_terms`, specified by `parse`), the rules
  (`check_terms`, specified by `check`), `lint_line` (specified by `lint`) and
  `Finding::render`.
- `src/grammar.rs`: the grammar as a recursive-descent specification, and the proof
  that the parser computes exactly it.
- `src/run.rs`: linting a file's lines (`lint_lines`), skipping blank and comment
  lines, and whether a run fails (`is_failure`, strict or lenient).
- `src/laws.rs`: properties of the whole, proved: token and finding columns,
  line numbers, the severity of each code, whitespace only separating tokens,
  parse-error descriptions reading back as their token, parse errors standing alone, ordering,
  and what `--lenient` changes.
- `app/main.rs`: the command-line tool (arguments, reading the file, printing).
