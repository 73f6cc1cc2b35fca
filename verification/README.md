# fjson-fmt-engine

A JSON formatter in the FracturedJson style: compact, human-readable output
with smart line breaks and table-like alignment, written in Verus and proved
against its contracts.

Layout:

- `src/tokenizer.rs` — the scanner; `lex` states each step exactly (tokens,
  positions, error messages), and `TokenGenerator::next` meets it.
- `src/parse_spec.rs` — what parsing means, as a function of the tokens:
  `value_at`, `array_from`, `object_from` and `top_from` give the document
  model (as plain values) that a token list makes, or `None`.
- `src/parser.rs` — builds the document model, attaching comments; a parse
  succeeds exactly when `parse_result` gives items, and then gives those
  items, well formed.
- `src/table_template.rs`, `src/number.rs` — column measurement for table
  layout, and exact decimal normalization of numbers.
- `src/formatter.rs` — layout (`reformat`), `minify`, JSON Lines and in-memory
  values; minifying gives exactly `minify_result`; reformatting gives the
  text of a layout that `laid_ok` allows (one line, compact, table or
  expanded, decided per container as the options and the measured column
  templates say), and every line of it ends without whitespace.
- `src/buffer.rs`, `src/text.rs`, `src/model.rs`, `src/options.rs`,
  `src/error.rs` — output buffer, text helpers, the document model, options.
- `src/convert.rs`, `src/config.rs` — in-memory JSON values to the model, and
  option overrides given by name.
- `app/` — the WebAssembly entry point (`format`), reading its options from a
  JSON blob, and serialization of any `serde` value.
