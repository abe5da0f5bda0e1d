# dead_code_detector

Finds exports of a Next.js project that no file imports.

- `src/` is the verified library:
  - `lexers.rs`: the lexer for the import/export subset of ECMAScript modules, specified
    by `scan` and `lex`, with laws on the token stream it produces;
  - `parser.rs`: the reader of import and export statements, specified by `parse_from`;
  - `graph.rs`: the dependency graph, the dead-export analysis (`find_dead_exports`,
    specified by `dead_exports`) with its laws, and the rules for resolving an import;
  - `file_scanner.rs`: which directory entries the scan descends into and collects;
  - `errors.rs`, `text.rs`: lexer errors, character classes and string building.
- `app/main.rs` is the command-line program: it walks the directory, reads files,
  looks paths up on disk and prints the result.
- `tests/` runs the library on concrete inputs.
