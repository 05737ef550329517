# hoi4_parser

A reader and writer for Paradox / Hearts of Iron IV script text and localisation files,
written in Verus. Every function of the library carries a contract over a mathematical
model of the text, and Verus proves the code against it.

## Layout

- `src/` — the verified library.
  - `tokenizer` — script text to tokens (`spec_tokenize` is the model).
  - `parse_spec`, `parser` — tokens to a tree of `Value`s (`parse_document` is the model).
  - `gen_spec`, `generator` — a tree back to script text (`document_text` is the model).
  - `compat`, `nested` — the escapes that let awkward scalars survive a round trip.
  - `round_trip` — the proof that generating and then parsing a plain document (names,
    numbers, quoted texts, colors, nested blocks, lists of names and anonymous blocks,
    duplicate keys) gives the same tree back.
  - `loc` — `l_<language>:` localisation files and their inline colour/icon markup.
  - `perf` — a timed parse/generate loop around trusted wrappers of `Instant` and `Duration`.
  - `tools` — the small decisions of the command-line tools (arguments, file keys,
    line-ending normalisation, first differing line).
  - `text` — character-sequence helpers and lemmas shared by all of the above.
- `tests/` — ordinary Rust tests against the compiled library.
- `app/` — the command-line program: directory walking, file I/O, JSON output (serde),
  parallel batches (rayon) and timing reports in floating point.
