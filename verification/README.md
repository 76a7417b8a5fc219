# Universal Bookmarks

An Alfred workflow that searches the bookmarks of all installed browsers at once
(Safari and the Chromium family), with case-insensitive and pinyin-aware matching,
deletion of a bookmark from its browser's file, and a self-updater.

## Layout

- `src/` — the verified library (Verus):
  - `text.rs` — character-level string helpers with exact specifications;
  - `pinyin.rs` — pinyin matching of a keyword against a name;
  - `types.rs` — bookmark records, the shapes of the bookmark files, the browser table;
  - `extractor.rs` — flattening a bookmark tree into a list of bookmarks;
  - `search.rs` — matching, ranking (name, then pinyin, then URL) and de-duplication by URL;
  - `deleter.rs` — removing a bookmark by URL from a bookmark document;
  - `updater.rs` — version comparison, reading the release description, choosing the
    package, and the step function of an update run;
  - `cache.rs` — the cache file name and freshness rule.
- `app/` — the `ub` command: argument handling, file and process I/O, the serde and
  rkyv mappings, and the loop that performs the updater's steps.
- `tests/` — tests of the library.
