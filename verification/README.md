# Folder ACL Viewer

A desktop viewer for large, pipe-delimited folder-permission (ACL) exports
(`Folder|Identity|Rights|AccessControl|Inherited`, with a header row): browse
by folder, user or sub-path, drill into a permissions tree, or search and
sort the table of every record.

The logic is a library verified with Verus; the window around it is plain
Rust.

## Layout

- `src/` — the verified library
  - `text.rs` — string ordering, trimming, substring search, splitting of
    backslash paths and of lines
  - `strmap.rs` — string-keyed maps kept in key order
  - `model.rs` — `Record` and the fixed folder split
  - `interner.rs` — one shared allocation per distinct field value
  - `tree.rs` — permission trees, expansion state, flattening into rows
  - `trie.rs` — the folder trie behind the automatic split
  - `loader.rs` — reading an export into records and indexes
  - `sorting.rs` — comparing and sorting table rows
  - `browse.rs` — the viewer's state and its answers to user actions
  - `table.rs` — the searchable table of all records
- `app/` — `main`, the egui windows, background file loading, the theme
- `tests/` — tests of the library

## What rests on trust

Everything in `src/` is proved except these calls, whose contracts are
assumed (each is documented where it is declared):

- `csv::ReaderBuilder` … `records()` (`loader::read_csv_rows`): its rows are
  only named (`csv_rows`), not described;
- the `Display` text of `csv::Error` (`loader::csv_error_text`);
- `str::to_lowercase` (`text::to_lowercase`), named `lowercase`;
- `slice::sort_unstable_by` and `slice::sort_by` with the library's own
  comparisons (`sorting::sort_rows`, `sorting::sort_rows_stable`,
  `sorting::sort_entries`);
- `Arc::clone` (`interner::share`).

## Running

```sh
folder-acl-viewer [--table] [path/to/export.csv]
```

`--table` opens the plain searchable table instead of the full viewer.
