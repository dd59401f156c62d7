# noyalib_lsp

The protocol logic of a YAML language server, verified with Verus:

- `text` — characters of a document, UTF-8 and UTF-16 widths, lines.
- `position` — byte offsets clamped to character boundaries, and their
  LSP line/UTF-16-column positions and ranges.
- `json` — JSON string escaping (proved lossless against a decoder),
  numbers, positions and ranges, written compactly with object keys in
  lexicographic order.
- `json_value` — a model of JSON values, their compact text and a reader
  for that text, with the proof that every written value reads back as
  itself. The tests also check the output against `serde_json`.
- `diagnostics` — YAML parse errors (from `noyalib`) as LSP diagnostics and
  the `textDocument/publishDiagnostics` notification.
- `format` — whole-document formatting edits from noyalib's CST formatter,
  with the proof that applying them gives the formatted document.

`app/` turns the library's JSON text into `serde_json` values.
