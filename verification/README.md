# uranus

Verified core of a set of macros that read package metadata (`package_version!`,
`readme_text!`, `license_text!` and friends).

- `src/` is the library, verified with Verus: the format-string scanners
  (`fmt::check_format`, `fmt::format`), the reading of the macro input
  (`version::VersionInput::parse`, over plain tokens), its expansion with the
  package's metadata (`VersionInput::expand`), and the text helpers they use.
  `syn` answers two questions about single tokens (`syntax.rs`); those calls are
  the trusted part.
- `app/` is the macro side: it reads Cargo's environment variables and files,
  turns the macro input into plain tokens, calls the library, and emits tokens
  or compile errors.
- `tests/` runs the library on concrete inputs.
