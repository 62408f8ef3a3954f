# sql_lsp

A SQL formatter, linter and language server for the Zed editor, whose logic is
verified with Verus.

- `src/parser.rs`: the tree-sitter parse of a document, read as preorder
  records and rebuilt into a tree (`parse_sql`).
- `src/formatter.rs`: the formatting rules (`format_sql`, `format_tree`).
- `src/linter.rs`: syntax errors, UPDATE/DELETE without WHERE, `SELECT *`,
  LIMIT without ORDER BY, unaliased subqueries, `= NULL`, empty `IN ()`,
  literal-to-literal comparisons and missing SELECT columns (`lint_sql`).
- `src/ir.rs`: the small rendering IR (`render`).
- `src/text.rs`: character-level helpers (trimming, white space, UTF-8 lengths).
- `src/dump.rs`: the text dump of a syntax tree (`dump_lines`).
- `src/server.rs`, `src/wire.rs`, `src/extension.rs`: the decisions of the
  language server, its message framing, and the steps by which the editor
  extension finds or installs the server (`Launcher`).
- `app/`: the binaries (server loop, `format-file`, `ast-dump`, `lsp-test`)
  and the Zed extension glue, which do the I/O around the library.
- `tests/`: tests run against the compiled library.
