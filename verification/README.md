# css_parser_core

A syntax-oriented CSS parser whose library is verified with Verus: the lexer, the
recursive-descent parser with its error recovery, the selector parser, the AST printer,
custom-property (`var()`) resolution and the typed value layer each state in their
contracts what they compute, as spec functions over the input.

## Layout

- `src/lexer.rs`: tokenization. `lexeme` says what one lexeme at an index gives;
  `lex_from` says which tokens (kind, byte span, line) `Lexer::scan` produces.
- `src/parser.rs`: the syntax tree and the parser. `value_at`, `declaration_at`,
  `at_rule_at`, `style_block_at`, `qualified_rule_at` and `rules_from` say which tree each
  parsing method builds from the tokens, and the matching `*_errors` functions which
  errors it records.
- `src/selector.rs`, `src/selector_grammar.rs`: the selector syntax tree, its parser, and
  the grammar that the parser is proved against.
- `src/printer.rs`: `AstPrinter`, which renders a stylesheet as an indented tree; the text
  is stated by `stylesheet_text`.
- `src/resolver.rs`: `var()` substitution over a custom-property environment.
- `src/values.rs`: declaration values, colors, property grammars and `calc()` expressions.
- `src/reader.rs`: reading a source once and decoding it as UTF-8.
- `tests/`: the test suite.
- `app/`: the command-line driver, which reads a file, prints its tree and reports parse
  errors on standard error, and the floating-point evaluation of expressions.
