# json_parser

A small JSON lexer, recursive-descent parser and pretty printer, verified
with Verus.

- `src/lexer.rs`: the lexer over a `String`, position counted in characters,
  with `spec_next_token` (one step) and `lex_stream` (all tokens) as its model.
- `src/parser.rs`: the parser; `spec_value`, `spec_object`, ... give the
  meaning of each grammar rule over a token stream, and `spec_parse_json` the
  meaning of a whole text.
- `src/dumper.rs`: the indented writer and its model `spec_dump`, with
  `Dumper::fits`, which tests that the indentation of the deepest level fits
  in `usize`.
- `src/value.rs`, `src/number.rs`, `src/tokens.rs`, `src/error.rs`: values
  (objects kept as entries in increasing key order, numbers as canonical
  decimal text, exact to the last digit, written with `{:?}` in the exponent
  form that `f64` uses from `1e16` on and below `1e-4`), tokens and errors
  with their views.
- `src/roundtrip.rs`: the proof that parsing the dump of a value gives the
  value back.
- `src/whitespace.rs`: the proof that whitespace (any Unicode `White_Space`
  character) inserted between tokens, or after the text of a lexer error,
  changes nothing but the position of a lexer error that follows it.
- `src/panics.rs`: when parsing can panic (only on a malformed number the
  lexer meets), and `lexes_without_panic`, which tests for it.
- `src/chars.rs`, `src/text.rs`: the character classes and text operations of
  the standard library that the rest uses.
- `app/main.rs`: the command-line program.
