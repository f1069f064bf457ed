# cordial

What Cordial decides when it runs an Android game engine on a desktop host, as a Verus
library: executable Rust whose behaviour is stated in contracts and proved.

- `src/elf.rs` reads the undefined symbols out of an ELF64 shared object. A caller that
  holds the file in memory uses `undefined_symbols`; one that does not answers the
  `Request`s that `begin` and `Request::advance` make.
- `src/survey.rs` unions the imports of a directory's shared objects.
- `src/imports.rs` is the ordered collection of imports that both of them fill.
- `src/permissions.rs` answers the engine's permission requests; `src/json.rs` is how it
  reads and writes JSON.
- `src/versions.rs` is what the Version page shows, and what follows a click on it.
- `src/bytes.rs`, `src/text.rs` and `src/utf8.rs` are what the others are built from.

`app/` is the program around the library: files, the message bus and the widgets.
What is believed without proof are the `external_body` functions in `json.rs`, `text.rs`
and `utf8.rs`, thin calls into `serde_json` and the standard library.
