# meetily

The core of a meeting assistant, written in Verus and proved against its
contracts.

- `src/detection.rs`: the debounced detector that confirms when a Teams
  meeting starts and ends, and the manager that holds it with the user's
  on/off preference.
- `src/teams.rs`, `src/assertions.rs`: which processes hold call-like power
  assertions, and which of them is Microsoft Teams.
- `src/search.rs`, `src/text.rs`: transcript search patterns and the context
  snippets shown around a match.
- `src/protocol.rs`: the statement scripts that the repositories run against
  the database, and the next-action function that drives them;
  `src/meetings.rs`, `src/tags.rs`, `src/transcripts.rs` build the scripts.
- `src/ids.rs`, `src/time.rs`: fresh identifiers and recording start times.

`app/` holds what runs around the library: the SQLite repositories that
carry the scripts out, the polling loop, and the macOS platform queries.
