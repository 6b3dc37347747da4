# surf_fed

The backend logic of the Surf FED browser, verified with Verus.

- `src/blocking.rs` — the ad-block rule engine: rules, the host patterns
  extracted from them, the built-in blocklist, and the URL check.
- `src/extensions.rs` — the extension registry keyed by id, the state
  persisted across restarts, kind guessing and the sorted listing.
- `src/manifest.rs` — reading an extension's descriptor fields from JSON text
  (through `serde_json`).
- `src/fedgram.rs` — finding the image URLs of an Instagram post page
  (through `scraper`), and the answers of the extraction command.
- `src/commands.rs`, `src/helpers.rs` — the answers and decisions of the
  remaining commands and path helpers, among them which file manager to
  start next when showing a folder.
- `src/text.rs` — character-level text operations and their specifications.
- `app/` — the Tauri application around the library: windows, dialogs,
  HTTP, the file system and serialisation.
- `tests/` — tests of the library on concrete values.
