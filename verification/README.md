# aa_engine

The project-tooling core of the AA engine: the logic behind the `aa` command
line (project resolution, `validate`, `check`, `index`, `scene`, `eval`,
`playtest`, `world`), the RON and JSON-schema subsets it reads, layered TOML
configuration, the asset registry and tag dictionary, and the asset loaders of
the ability and experience systems. Every function in `src/` carries a
`requires`/`ensures` contract that Verus proves.

Layout:

- `src/` — the verified library, one module per area. Calls into outside crates
  (`regex`, `sha2`, the parsers of `toml`, `serde_json` and `ron` for
  configuration, JSON documents and RON syntax checks, `serde_json`'s `Debug`
  rendering, and a few `std` string functions) stand behind small trusted
  wrappers whose contracts are stated in their doc comments.
- `app/` — the `aa` binary: argument parsing with `clap`, file and process I/O,
  `serde`-based reading of typed records (the project manifest, the tag
  dictionary, the asset manifest, eval suites, playtest reports) and printing.
  The engine's Bevy runtime (plugins, ECS systems, the `f32` attribute and
  effect arithmetic) is not part of this crate.
- `tests/` — tests of the library on concrete values.

Run `verus` on `src/lib.rs` to check the proofs; the tests run with `cargo test`.
