# boilmaster

A verified library for serving game data: reading excel rows against sheet
schemas, filtering their fields, searching them, converting textures into
images, and keeping track of the versions of the game data and the patches
that make them up.

Every function under `src/` is verified with Verus against its contract.

## Layout

- `src/version.rs`, `src/version/` — version keys, the registry of known
  versions and their names, patch lists resolved from Thaliak data, and the
  decisions of the patcher.
- `src/claims.rs` — a table of values produced once per key (patch files,
  cached repository data).
- `src/read.rs`, `src/read/` — reading rows of a sheet into values, with
  filters.
- `src/search.rs`, `src/search/` — search queries, their normalisation
  against a schema, and their resolution into a statement over per-language
  tables.
- `src/asset.rs`, `src/texture.rs` — asset formats, texture decoding, image
  encoding and map composition.
- `src/http/` — the request logic of the HTTP API and the admin pages:
  filter strings, row specifiers, pagination, error responses.
- `src/schema.rs`, `src/excel.rs`, `src/language.rs`, `src/data.rs`,
  `src/text.rs` — shared types and text handling.
- `tests/` — tests of the library.
- `app/` — a command-line front end: version metadata on disk, local patch
  files, filter strings and entity tags.
