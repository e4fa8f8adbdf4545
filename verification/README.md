# vernacular

A dead-simple localization library, verified with Verus.

Translation strings live in CSV and RON files under a content path:

```text
assets/loc/
├── items.csv        # root CSV: a header row names the locale columns
├── en_US/
│   ├── items.csv    # per-locale CSV: key,value rows
│   └── ui.ron       # per-locale RON: {"key": "value"}
└── ja_JP/
    └── ui.ron
```

Root CSVs are loaded first, then a locale's CSV files, then its RON files,
each kind in file-name order, so later files overwrite earlier ones. A key
missing from the current locale falls back to the fallback locale (`en_US`
by default); a key missing from both is returned as it is. Templates use `{}`
for arguments in order, `{0}`, `{1}` for arguments by position, and `{{`,
`}}` for literal braces.

## Layout

- `src/` is the verified library.
  - `model.rs`: templates (parsing and rendering) and translation entries.
  - `context.rs`: the context: settings, tables, lookups with fallback, and
    loading as a state machine that names the directory it needs next
    (`next_load_for_lookup`, `next_load_for_locale`) and merges what was read
    (`complete_load`, `try_reload`).
  - `source.rs`: directory listings and the choice and order of files.
  - `parsing/`: CSV (through the `csv` crate) and RON (through the `ron`
    crate) files.
  - `error.rs`, `strmap.rs`, `text.rs`: errors, a text-keyed map, text helpers.
  - `laws.rs`: properties across operations (load order, overrides, lazy
    loading that ends, templates).
- `app/` reads the file system for the library and offers a thread-safe
  `Context`, a process-wide context behind free functions, and `loc!`.
- `tests/` runs the library on in-memory directory trees.
