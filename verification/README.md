# kist_core

The archive core of Kist, a desktop archive manager, written in Verus.

- `src/archive.rs` — the archive model (formats, entries, summaries,
  documents, errors), format detection from a path, and the listing of a
  ZIP archive into a document with saturating size totals.
- `src/zip_source.rs` — the `zip` crate as the library uses it: declared
  outside types, names for what an archive holds, trusted wrappers.
- `src/paths.rs` — the standard library's reading of paths behind trusted
  wrappers; path normalization, parent folder and file type.
- `src/browser.rs` — the rows shown for a folder of an archive, the search
  over them, the breadcrumb trail, and the unit of a byte count.
- `src/session.rs` — the window state and what opening an archive does to it.
- `src/text.rs` — character-level helpers with their specifications.
- `src/laws.rs` — properties that span several functions.

`app/` holds the egui/eframe window, file reading, file dialogs, and the
floating-point display code (savings percentage, byte formatting).
