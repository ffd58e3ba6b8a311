//! Format strings with `{field}` interpolations and the input of a
//! `package_version!` macro: reading the macro's tokens, checking its format
//! string, and expanding it with the package's metadata.
//!
//! - `fmt`: `check_format` and `format`, the scanners of format strings.
//! - `version`: what the macro input asks for (`VersionInput::parse`).
//! - `expand`: the value it expands to (`VersionInput::expand`).
//! - `number`, `text`, `bytes`: reading numbers, trimming and cutting text.
//! - `syntax`: the questions about single tokens that `syn` answers.
pub mod bytes;
pub mod fmt;
pub mod syntax;
pub mod text;
pub mod number;
pub mod version;
pub mod expand;
