# relate

A command-line tool for `.cypher` and `.gram` files and Neo4j, built around a
library whose behaviour is specified and proved with Verus.

## Layout

- `src/` — the verified library.
  - `cli` — the command line as plain values.
  - `text`, `json`, `syntax` — characters and strings, JSON values carried
    opaquely, and the tree-sitter syntax trees of Cypher and cypherdoc.
  - `diagnostics`, `lint` — lint findings; byte offsets; fenced snippets in
    Markdown and AsciiDoc; linting by file type.
  - `query`, `listing`, `plan` — statements and their cypherdoc, `[QUERY]`
    resolution, parameters, the checks made before connecting, and the text
    that `relate query` prints.
  - `apply` — the rows of a `--apply` file (CSV, JSON or JSON Lines), the
    parameters of each run, and how runs are grouped into transactions.
  - `graph`, `render` — the graph a gram document describes, and the
    decisions of rendering it that need no geometry.
  - `external` — running `relate-<name>` subcommands.
- `app/` — the program: argument parsing, files, terminals, the Neo4j driver,
  the MCP server, and the floating-point layout and drawing.
- `tests/` — tests of the library.
