# vimhelp-index

Full-text index and search over vimdoc (`:h`) files, with its core logic
proved correct by Verus.

## Layout

- `src/` — the verified library.
  - `text.rs`, `paths.rs` — character-level helpers (whitespace, trimming,
    line splitting, joining) and path comparison by components.
  - `domain/` — documents, sections and queries.
  - `adapters/parser/vimdoc.rs` — the vimdoc parser: section rules, headers
    and `*tag*` markers (the markers are found with the `regex` crate).
  - `adapters/manifest.rs` — the incremental-build manifest: a table of file
    states keyed by path, and the diff that classifies files as new, changed,
    removed or unchanged.
  - `adapters/tantivy.rs` — the index schema (built with `tantivy`), the
    record indexed per section, and how a stored section reads back as a hit.
  - `cli/` — what the command line decides and renders: the union of the
    `--docs` globs, build reports, output formats and console output.
- `app/` — the program around it: argument parsing, file and index I/O, JSON
  output.
- `tests/` — tests of the library.

## Usage

```sh
vimhelp-index build --docs='/path/to/**/doc/*.txt' --out=./index [--incremental]
vimhelp-index search --index=./index [--limit N] [--format console|json] 'floating window'
```
