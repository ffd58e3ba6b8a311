//! What the macro input's tokens say, as decided by `syn`.
//!
//! The tokens themselves are handed over as plain values (see
//! `version::MacroToken`); these two questions about single tokens are left to
//! `syn`, which the macro's parser is built on.
use vstd::prelude::*;

verus! {

/// Whether `syn` takes `word` as an identifier (`syn::Ident`'s parser).
pub uninterp spec fn syn_accepts_ident(word: Seq<char>) -> bool;

/// The value of the string literal written as `repr`, as `syn::LitStr` gives it,
/// or `None` when `repr` is not a string literal.
pub uninterp spec fn syn_string_literal(repr: Seq<char>) -> Option<Seq<char>>;

/// The words that `syn` refuses as identifiers: `_` and the keywords of Rust.
pub open spec fn reserved_word(word: Seq<char>) -> bool {
    ||| word == "_"@
    ||| word == "abstract"@ ||| word == "as"@ ||| word == "async"@ ||| word == "await"@
    ||| word == "become"@ ||| word == "box"@ ||| word == "break"@ ||| word == "const"@
    ||| word == "continue"@ ||| word == "crate"@ ||| word == "do"@ ||| word == "dyn"@
    ||| word == "else"@ ||| word == "enum"@ ||| word == "extern"@ ||| word == "false"@
    ||| word == "final"@ ||| word == "fn"@ ||| word == "for"@ ||| word == "if"@
    ||| word == "impl"@ ||| word == "in"@ ||| word == "let"@ ||| word == "loop"@
    ||| word == "macro"@ ||| word == "match"@ ||| word == "mod"@ ||| word == "move"@
    ||| word == "mut"@ ||| word == "override"@ ||| word == "priv"@ ||| word == "pub"@
    ||| word == "ref"@ ||| word == "return"@ ||| word == "Self"@ ||| word == "self"@
    ||| word == "static"@ ||| word == "struct"@ ||| word == "super"@ ||| word == "trait"@
    ||| word == "true"@ ||| word == "try"@ ||| word == "type"@ ||| word == "typeof"@
    ||| word == "unsafe"@ ||| word == "unsized"@ ||| word == "use"@ ||| word == "virtual"@
    ||| word == "where"@ ||| word == "while"@ ||| word == "yield"@
}

/// A nonempty word of lowercase ASCII letters.
pub open spec fn lowercase_word(word: Seq<char>) -> bool {
    word.len() > 0 && forall|i: int| 0 <= i < word.len() ==> 'a' <= #[trigger] word[i] && word[i] <= 'z'
}

/// A plain string literal: a quote, text without quotes, backslashes or
/// carriage returns, and a closing quote.
pub open spec fn plain_string_literal(repr: Seq<char>, text: Seq<char>) -> bool {
    &&& repr == seq!['"'] + text + seq!['"']
    &&& forall|i: int| 0 <= i < text.len() ==> #[trigger] text[i] != '"' && text[i] != '\\' && text[i] != '\r'
}

/// `syn::parse_str::<syn::Ident>(word)` succeeds: `syn` reads `word` as one
/// identifier that is not reserved. Stated: the result is `syn_accepts_ident`
/// of the word, reserved words are refused, and other words of lowercase ASCII
/// letters are accepted. What other texts are accepted (the identifier syntax
/// of Rust) is left to the name.
#[verifier::external_body]
pub(crate) fn ident_accepted(word: &str) -> (r: bool)
    ensures
        r == syn_accepts_ident(word@),
        reserved_word(word@) ==> !r,
        lowercase_word(word@) && !reserved_word(word@) ==> r,
{
    syn::parse_str::<syn::Ident>(word).is_ok()
}

/// `syn::parse_str::<syn::LitStr>(repr)` and `LitStr::value`: the value of the
/// string literal written as `repr`. Stated: the result is `syn_string_literal`
/// of `repr`, and a plain literal (no escapes) stands for the text between its
/// quotes. Escapes, raw literals and suffixes are left to the name.
#[verifier::external_body]
pub(crate) fn string_literal_value(repr: &str) -> (r: Option<String>)
    ensures
        r is Some == syn_string_literal(repr@) is Some,
        r matches Some(v) ==> v@ == syn_string_literal(repr@)->0,
        r is Some || !exists|text: Seq<char>| #[trigger] plain_string_literal(repr@, text),
        r matches Some(v) ==> forall|text: Seq<char>|
            #[trigger] plain_string_literal(repr@, text) ==> v@ == text,
{
    match syn::parse_str::<syn::LitStr>(repr) {
        Ok(lit) => Some(lit.value()),
        Err(_) => None,
    }
}

} // verus!
