# gram-data

Tooling for gram notation, a graph data format: extraction of ` ```gram ` / ` ~~~gram `
blocks from Markdown, the analysis of syntax trees into diagnostics, LSP positions of byte
offsets, and the decisions of the `gram lint` command.

- `src/` is the library, verified with Verus: `text` (lines, trimming), `markdown`
  (snippet extraction and its laws), `utf16` (byte offsets, LSP positions), `diagnostics`
  (the shared diagnostic types), `analyze` (syntax findings, stable sorting, public form),
  `lint` (plan, exit code, reports, character spans).
- `app/` is the `gram` command line around it: argument parsing, file and stdin reading,
  tree-sitter parsing, pretty and JSON output.
- `tests/` runs the library on concrete inputs.
