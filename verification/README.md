# interp_parser

A recursive-descent parser for a small indentation-based scripting language,
written in Verus. It reads a sequence of tokens (words, string literals,
punctuation and line breaks with their indentation) and builds a tree of
statements: assignments, function definitions with an indented body, and
expressions with calls, member access, parentheses and the four arithmetic
operators (`*` and `/` binding more tightly than `+` and `-`, all grouping to
the left). Integer literals may carry a prefix that gives their base
(`bin_`, `dec_`, `hex_`, `#`, `base_<n>_`); float literals are kept as their
text. Errors name the line and column of the source where they occur, when
the source text is known.

Layout:

- `src/token.rs`, `src/error.rs`, `src/ast.rs`: the tokens, the errors and the
  syntax tree, each with its mathematical view;
- `src/text.rs`: character classes, integer and float literal syntax, decimal
  and `Debug` rendering;
- `src/model.rs`: the parser as a function on token sequences, which the
  contracts of `src/parser.rs` refer to;
- `src/ends.rs`: where each parse step leaves the parser, on success and on error;
- `src/parser.rs`: the executable parser; `Parser::parse_tokens` is proved to
  return exactly what the model gives, on tokens that hold no word the parser
  cannot read; `Parser::try_parse_tokens` reports such a word as `None`;
- `src/placing.rs`, `src/prefixes.rs`, `src/shape.rs`, `src/progress.rs`, `src/grouping.rs`:
  lemmas over the model, from which `src/laws.rs` proves properties of every
  parse;
- `tests/`: scenarios run against the compiled library;
- `app/`: what stays outside the verified library: reading float literals as
  `f64`, and a `parse_tokens` that panics where a word cannot be read.
