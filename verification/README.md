# agent_sessions

A verified library for reading the session transcripts of coding agents.

- `src/text.rs` — characters, white space, trimming, words and string order.
- `src/bash.rs` — the programs a shell command line runs (`extract_bash_commands`),
  and blanking the quoted regions of a command line byte by byte
  (`strip_quoted_strings`).
- `src/quoting.rs` — blanking quoted bytes: its per-byte statement, that it
  keeps valid UTF-8, how it relates to blanking characters, and that
  blanking twice is blanking once.
- `src/bash_laws.rs` — joining two command lines with `; ` joins their programs.
- `src/session.rs` — the session model, per-model usage summaries, message
  text, first and last timestamps, and selecting the parts of a session.
- `src/summary_laws.rs` — the model summary, and each usage total, do not
  depend on the order of events.
- `src/selection.rs` — `ParseSelection`, the parts of a session a parse keeps.
- `src/projection.rs` — what a tool input says: command, file, lines added
  and removed.
- `src/agent.rs` — source entries of a provider and candidate roles.
- `src/error.rs` — `SessionError` and its messages.
- `app/lib.rs` — JSON decoding of tool inputs and an `Error` type with
  `std::error::Error`, around the library.

Every function in `src/` is verified by Verus against its `requires` and
`ensures`, except `string_from_utf8` in `src/bash.rs`, whose contract
restates what std documents of `String::from_utf8`; the `law_*` proof
functions state properties that relate results.
