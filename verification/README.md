# Mytube catalog

The catalog behind Mytube, a local video library: library sources (folders),
the videos found in them, channels, playback progress, watch history and
playlists, kept in SQLite. The library is written in Verus. Its own logic is
proved against its contracts; the calls into SQLite, SHA-256, hex encoding,
the clock and a few standard-library text functions go through small trusted
wrappers (`#[verifier::external_body]`) whose contracts are believed, not
proved. Their doc comments say what each one claims.

## Layout

- `src/text.rs` — character-level helpers (trimming, case folding, digits, ordering of texts).
- `src/pathutil.rs` — path identity: normalization, comparison keys, source overlap, the first folder under a source.
- `src/slug.rs` — channel slugs.
- `src/clock.rs` — UTC timestamps.
- `src/metadata.rs` — which files are videos, and how a video's metadata is chosen from its companion files.
- `src/store.rs` — the SQLite tables as sequences of rows, and one trusted wrapper per SQL statement.
- `src/rows.rs` — loading tables, and the order each listing uses.
- `src/order.rs` — the stable listing sort, paging, and lemmas about filtering.
- `src/catalog.rs` — listings (Home, search, channels, history, "more from"), single lookups, progress and history writes.
- `src/upkeep.rs` — adding and removing sources, storing scanned videos, dropping what is gone, pruning channels.
- `src/playlists.rs` — playlists and their entries.
- `src/scan.rs` — the decisions of a folder scan and its counts.
- `app/` — the program around the library: opening the database, reading the file system, ffmpeg, walking folders, and the commands.

File-system facts (whether a path exists, its canonical form, the working
directory) are gathered by the caller into `PathFacts`, so the path rules are
proved for every answer the file system may give.
