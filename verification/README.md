# json5-to-json

Converts JSON5 documents to plain JSON, optionally sorting the keys of every
object and choosing the indentation (a fixed width, 0 for compact output, or
the width that the input itself uses).

The library under `src/` is verified with Verus:

- `indent.rs`: the `--indent` option (`IndentOption`, read from and written to
  text) and `detect_indent`, which finds the indentation of a document.
- `json.rs`: the tree that a `serde_json::Value` holds, and the few
  operations on values and the JSON5 parser that `serde_json` and `json5`
  perform for the library.
- `sort.rs`: `sort_value`, which sorts the keys of every object, with the
  laws of the order and of sorting (sorted output, idempotence, members kept).
- `convert.rs`: `convert`, from JSON5 text to JSON text, through
  `convert_value` (a parsed document to JSON text), `indent_width` and
  `write_json`.
- `cli.rs`: the decisions of the command-line tool (which option
  combinations it refuses, what it does with each converted file).

`app/main.rs` is the command-line tool: argument parsing, reading and writing
files, printing.
