# meetily_audio

Recordings that come from elsewhere, for a meeting assistant: files that a phone uploads over the
local network, and transcripts that an outside speech recogniser makes.

- `src/` is the library, verified with Verus. It parses requests, decides what they are answered,
  plans and counts uploads, names files, keeps track of the one running server, and turns a
  recogniser's answer into a transcript. `src/wire.rs` and `src/laws.rs` state what holds of it as a
  whole, among it that what a phone sends is what arrives.
- `tests/` runs the library on concrete values.
- `app/` is ordinary Rust around it: sockets, files, JSON, seconds in floating point, and the
  commands of the user interface.

The library trusts a few outside functions, each behind one item with a contract:
`String::push` and `String::from_utf8_lossy` (`src/text.rs`), `Path::file_stem` and
`chrono::Utc::now` with its format (`src/filename.rs`), and `uuid::Uuid::new_v4` (`src/ids.rs`).
