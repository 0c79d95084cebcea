# json_lex

A zero-copy JSON lexer, written in Verus and proved against a specification
of the JSON lexical grammar.

The lexer reads a `&str` and yields tokens (`{ } [ ] : ,`, strings, numbers,
`true`, `false`, `null`, end of input), each with the byte span it occupies in
the input. Strings without escapes and all numbers borrow their text from
the input. Errors carry the line and column where they were found.

## Layout

- `src/grammar.rs`: the grammar as spec functions over the characters of the
  input: which token starts at a character index, where it ends, or which
  error is reported and at which line and column.
- `src/lexer/`: the executable lexer. `JSONLexer::next_token` and `next` are
  proved to produce exactly what the grammar says, with spans given as byte
  offsets of the UTF-8 encoding.
- `src/text.rs`: byte offsets of character indices in UTF-8 text, and reading
  a character or a slice at such an offset.
- `src/chars.rs`: the character classes that the grammar uses.
- `src/token.rs`, `src/error.rs`: tokens, spans and errors, with the views
  that the contracts speak of; `LexError::message` gives an error's text.
- `src/laws.rs`: properties proved of the grammar for every input: spans lie
  within the input, every token but the end takes input, end of input is
  stable, number tokens are exactly the JSON numbers, unescaped strings are
  their source text, escaped strings read back what was written, what
  precedes a token (such as leading whitespace) does not change it, over
  any number of calls, a token's own text lexes to itself, the case of hex
  digits in escapes does not matter, `next` is `next_token` without `Eof`,
  iteration ends, lines and columns count line feeds and characters, errors
  point into the input.
- `app/`: an `Iterator` over tokens, an error type with `Display`, and the two
  demonstration programs (`print_tokens`, `token_count`).
