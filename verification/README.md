# har_viewer

A viewer for HTTP Archive (HAR) files: it indexes a HAR document, lists its
entries in a filterable, sortable history, and renders the raw HTTP request
and response of the selected entry.

## Layout

- `src/` — the library, verified with Verus.
  - `har/scanner.rs` — the byte scanner that finds `log.entries` and the byte
    range of every entry object, honouring string literals and escapes.
  - `har/parser.rs` — history rows and inspector details built from decoded
    entries (URL splitting, size sums, HTTP version normalization).
  - `har/message.rs` — raw request and response messages, with a derived
    `Host` line and pretty-printed JSON bodies.
  - `har/types.rs` — entry ranges, rows, details, decoded entries, errors.
  - `filter/` — the toolbar filter.
  - `state/` — the viewer state: selection, sorting (a verified stable merge
    sort), loaded details.
  - `text.rs` — character-level string helpers.
- `app/` — the program: JSON decoding of entries with serde, the indexing
  pipeline, floating-point durations, and the Leptos user interface.
- `tests/` — tests of the library.
