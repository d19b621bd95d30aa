# engramark

The Engramark kernel as a verified Verus library: `.mem` cards (parsing,
canonical serialization and the round-trip law), text normalization and
display helpers, anchors and the entity radar (automaton scan, blob framing
and structural validation, hits with scope isolation and ranking), card
lifecycle transitions, tool-argument validation, the MCP session (protocol
negotiation, roots, request routing), hook request checks and block packing,
the host configuration edits (managed blocks, the Codex user and project
TOML configs, the plan of host files to touch), the tool catalog, the radar
compiler (anchor table, automaton that finds exactly the anchors occurring
in a text, canonical sections, framing), the hook
cache gate and hint ranking, the incremental index update plan, project ids
the human-facing display lines and reading settings from the configuration.

Layout:

- `src/` — the library; every function is verified. Calls into `regex`,
  `sha1`, `sha2`, `toml` and `unicode-normalization`, and into
  `Instant::now`, `str::to_lowercase`, `Path::is_absolute` and
  `Path::file_name`, stand behind small trusted wrappers whose contracts name
  what they return or state what holds of every answer.
- `tests/` — tests run against the compiled library.
- `app/` — a small program around it: the clock, data directory discovery,
  file system probes for project context, JSON parsing of radar sections
  with `serde_json`, and a command line of four card tools (`check`,
  `hash`, `normalize`, `path`). The full product's MCP server loop, hook
  commands, SQLite cache and search, locks, transactions, backups and
  host-setup file writes are not part of this repository.
