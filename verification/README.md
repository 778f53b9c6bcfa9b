# zerosyntax

Language tooling for the INI files of Command & Conquer Generals: Zero Hour,
written in Verus: what the library does is stated in contracts and proved.

- `src/` is the library. A lexer and a lossless parser with incremental reparsing
  (`lexer`, `parser`, `incremental`), schema-driven analysis (`analyzer`,
  `diagnostics`, `completion`, `nav`, `semantic`, `outline`, `format`, `actions`),
  the workspace index (`index`, `facts`, `symbols`), documents and positions
  (`document`, `convert`, `wire`), asset formats and scans (`w3d`, `big`, `ingest`,
  `scan`, `runner`, `cachefile`), what a preview draws (`preview`, `texture`,
  `thumbnail`), and the state of a client session (`session`, `server`).
- What holds of several functions together stands as public proof functions beside
  them, or in `index_laws`, `action_laws`, `lossless`, `layout`, `scopes` and
  `settled`.
- Calls into other crates stand behind small trusted items in `green` (rowan),
  `rope` (ropey), `table` (dashmap), `uri` (url, percent-encoding), `texture`
  and `thumbnail` (image), and for a few functions of the standard library in
  `names`, `text` and `tree`. Each says what it claims of the function it calls.
- `app/` is the language server and the `check` command: files, JSON, the
  protocol, and drawing.
- `tests/` runs the library from outside.

The schema is read from `schema.json` beside the program.
