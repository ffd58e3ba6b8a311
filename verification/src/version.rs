//! The input of the `package_version!` macro: what it asks for, read from its
//! tokens, and the value it expands to.
use vstd::prelude::*;
use vstd::string::StringSliceAdditionalSpecFns;
use vstd::utf8::*;
use crate::fmt::{
    check_format, check_format_outcome, check_scan, called_ok, called_with, CheckFormatError,
    CheckFormatResult,
};
use crate::syntax::{
    ident_accepted, string_literal_value, syn_accepts_ident, syn_string_literal,
};
use crate::text::same_text;

verus! {

/// A piece of package metadata that a format string can interpolate.
#[derive(Debug, Clone, Copy)]
pub enum VersionField {
    /// `{package}`: the package name.
    Package,
    /// `{full}`: the full version.
    Full,
    /// `{id}`: the package ID spec, `name@version`.
    Id,
    /// `{major}`.
    Major,
    /// `{minor}`.
    Minor,
    /// `{patch}`.
    Patch,
    /// `{prerelease}` or `{pre}`.
    Prerelease,
}

/// The field that an interpolation names, if any.
pub open spec fn field_of(name: Seq<char>) -> Option<VersionField> {
    if name == "package"@ {
        Some(VersionField::Package)
    } else if name == "full"@ {
        Some(VersionField::Full)
    } else if name == "id"@ {
        Some(VersionField::Id)
    } else if name == "major"@ {
        Some(VersionField::Major)
    } else if name == "minor"@ {
        Some(VersionField::Minor)
    } else if name == "patch"@ {
        Some(VersionField::Patch)
    } else if name == "prerelease"@ || name == "pre"@ {
        Some(VersionField::Prerelease)
    } else {
        None
    }
}

/// The field that the interpolation `name` names, if any.
pub fn field_named(name: &str) -> (r: Option<VersionField>)
    ensures
        r == field_of(name@),
{
    if same_text(name, "package") {
        Some(VersionField::Package)
    } else if same_text(name, "full") {
        Some(VersionField::Full)
    } else if same_text(name, "id") {
        Some(VersionField::Id)
    } else if same_text(name, "major") {
        Some(VersionField::Major)
    } else if same_text(name, "minor") {
        Some(VersionField::Minor)
    } else if same_text(name, "patch") {
        Some(VersionField::Patch)
    } else if same_text(name, "prerelease") || same_text(name, "pre") {
        Some(VersionField::Prerelease)
    } else {
        None
    }
}

/// Whether a version number is emitted as a string or as an integer.
#[derive(Debug, Clone, Copy)]
pub enum StrOrInt {
    Str,
    Int,
}

impl Default for StrOrInt {
    fn default() -> (r: Self)
        ensures
            r == StrOrInt::Str,
    {
        StrOrInt::Str
    }
}

/// One token of the macro input, as plain values.
#[derive(Debug)]
pub enum MacroToken {
    /// An identifier, as written.
    Ident(String),
    /// A literal, as written (a string literal with its quotes).
    Literal(String),
    /// A punctuation character.
    Punct(char),
    /// A delimited group of tokens.
    Group,
}

/// What the macro is asked to expand to.
#[derive(Debug)]
pub enum VersionInput {
    /// The full version, `1.2.3-pre+build`.
    Full,
    /// The package ID spec, `package@1.2.3-pre+build`.
    Id,
    Patch(StrOrInt),
    Minor(StrOrInt),
    Major(StrOrInt),
    Prerelease,
    /// A format string with interpolations.
    FmtLit(String),
}

impl Default for VersionInput {
    fn default() -> (r: Self)
        ensures
            r is Full,
    {
        VersionInput::Full
    }
}

/// `VersionInput` with its string as a sequence of characters.
pub enum VersionInputView {
    Full,
    Id,
    Patch(StrOrInt),
    Minor(StrOrInt),
    Major(StrOrInt),
    Prerelease,
    FmtLit(Seq<char>),
}

impl View for VersionInput {
    type V = VersionInputView;

    open spec fn view(&self) -> VersionInputView {
        match self {
            VersionInput::Full => VersionInputView::Full,
            VersionInput::Id => VersionInputView::Id,
            VersionInput::Patch(k) => VersionInputView::Patch(*k),
            VersionInput::Minor(k) => VersionInputView::Minor(*k),
            VersionInput::Major(k) => VersionInputView::Major(*k),
            VersionInput::Prerelease => VersionInputView::Prerelease,
            VersionInput::FmtLit(s) => VersionInputView::FmtLit(s@),
        }
    }
}

/// Why the macro input was refused. Positions of tokens are indices into the
/// token list (the list's length stands for its end).
#[derive(Debug)]
pub enum VersionInputError {
    /// "Unexpected input." at this token.
    UnexpectedInput(usize),
    /// "Unexpected word." for the word at this token.
    UnexpectedWord(usize),
    /// An identifier was expected at this token.
    ExpectedIdent(usize),
    /// A token is left over at this position.
    UnexpectedToken(usize),
    /// The format string has a `{` without a `}` at this byte offset.
    UnclosedBrace(usize),
    /// The format string interpolates a name that is not a field.
    InvalidInterpolation(String),
}

/// `VersionInputError` with its string as a sequence of characters.
pub enum VersionInputErrorView {
    UnexpectedInput(usize),
    UnexpectedWord(usize),
    ExpectedIdent(usize),
    UnexpectedToken(usize),
    UnclosedBrace(usize),
    InvalidInterpolation(Seq<char>),
}

impl View for VersionInputError {
    type V = VersionInputErrorView;

    open spec fn view(&self) -> VersionInputErrorView {
        match self {
            VersionInputError::UnexpectedInput(i) => VersionInputErrorView::UnexpectedInput(*i),
            VersionInputError::UnexpectedWord(i) => VersionInputErrorView::UnexpectedWord(*i),
            VersionInputError::ExpectedIdent(i) => VersionInputErrorView::ExpectedIdent(*i),
            VersionInputError::UnexpectedToken(i) => VersionInputErrorView::UnexpectedToken(*i),
            VersionInputError::UnclosedBrace(i) => VersionInputErrorView::UnclosedBrace(*i),
            VersionInputError::InvalidInterpolation(s) => VersionInputErrorView::InvalidInterpolation(
                s@,
            ),
        }
    }
}

/// The word at token `i`, if it is an identifier that `syn` accepts.
pub open spec fn word_at(ts: Seq<MacroToken>, i: int) -> Option<Seq<char>> {
    if 0 <= i < ts.len() && ts[i] is Ident && syn_accepts_ident(ts[i]->Ident_0@) {
        Some(ts[i]->Ident_0@)
    } else {
        None
    }
}

/// The value of the string literal at token `i`, if it is one.
pub open spec fn string_at(ts: Seq<MacroToken>, i: int) -> Option<Seq<char>> {
    if 0 <= i < ts.len() && ts[i] is Literal {
        syn_string_literal(ts[i]->Literal_0@)
    } else {
        None
    }
}

/// Whether token `i` is a comma.
pub open spec fn comma_at(ts: Seq<MacroToken>, i: int) -> bool {
    0 <= i < ts.len() && ts[i] == MacroToken::Punct(',')
}

/// `str` or `int` read from the word at token `i`.
pub open spec fn str_or_int_at(ts: Seq<MacroToken>, i: int) -> Result<StrOrInt, VersionInputErrorView> {
    match word_at(ts, i) {
        None => Err(VersionInputErrorView::ExpectedIdent(i as usize)),
        Some(w) => if w == "str"@ {
            Ok(StrOrInt::Str)
        } else if w == "int"@ {
            Ok(StrOrInt::Int)
        } else {
            Err(VersionInputErrorView::UnexpectedInput((i + 1) as usize))
        },
    }
}

/// The text of byte range `range` of `b`.
pub open spec fn range_text(b: Seq<u8>, range: (int, int)) -> Seq<char> {
    decode_utf8(b.subrange(range.0, range.1))
}

/// The first of `ranges` from the `k`-th on whose text names no field.
pub open spec fn first_unknown(b: Seq<u8>, ranges: Seq<(int, int)>, k: int) -> Option<int>
    decreases ranges.len() - k,
{
    if k < 0 || k >= ranges.len() {
        None
    } else if field_of(range_text(b, ranges[k])) is None {
        Some(k)
    } else {
        first_unknown(b, ranges, k + 1)
    }
}

/// Whether a format string interpolates fields only, with every `{` closed.
pub open spec fn check_fields(v: Seq<char>) -> Result<(), VersionInputErrorView> {
    let b = encode_utf8(v);
    let (ranges, unclosed) = check_scan(b, 0);
    match first_unknown(b, ranges, 0) {
        Some(k) => Err(VersionInputErrorView::InvalidInterpolation(range_text(b, ranges[k]))),
        None => match unclosed {
            Some(p) => Err(VersionInputErrorView::UnclosedBrace(p as usize)),
            None => Ok(()),
        },
    }
}

/// A version number part (`patch`, `minor`, `major`) at token 0, with the kind
/// of value asked for and the number of tokens it takes.
pub open spec fn number_part(ts: Seq<MacroToken>) -> Result<(StrOrInt, int), VersionInputErrorView> {
    if comma_at(ts, 1) {
        match str_or_int_at(ts, 2) {
            Ok(k) => Ok((k, 3)),
            Err(e) => Err(e),
        }
    } else {
        Ok((StrOrInt::Str, 1))
    }
}

/// What the macro input asks for, with the number of tokens it takes.
pub open spec fn leading_input(ts: Seq<MacroToken>) -> Result<(VersionInputView, int), VersionInputErrorView> {
    if ts.len() == 0 {
        Ok((VersionInputView::Full, 0))
    } else if string_at(ts, 0) is Some {
        let v = string_at(ts, 0)->0;
        match check_fields(v) {
            Ok(_) => Ok((VersionInputView::FmtLit(v), 1)),
            Err(e) => Err(e),
        }
    } else {
        match word_at(ts, 0) {
            None => Err(VersionInputErrorView::UnexpectedInput(0)),
            Some(w) => if w == "full"@ {
                Ok((VersionInputView::Full, 1))
            } else if w == "id"@ {
                Ok((VersionInputView::Id, 1))
            } else if w == "patch"@ {
                match number_part(ts) {
                    Ok((k, n)) => Ok((VersionInputView::Patch(k), n)),
                    Err(e) => Err(e),
                }
            } else if w == "minor"@ {
                match number_part(ts) {
                    Ok((k, n)) => Ok((VersionInputView::Minor(k), n)),
                    Err(e) => Err(e),
                }
            } else if w == "major"@ {
                match number_part(ts) {
                    Ok((k, n)) => Ok((VersionInputView::Major(k), n)),
                    Err(e) => Err(e),
                }
            } else if w == "prerelease"@ || w == "pre"@ {
                Ok((VersionInputView::Prerelease, 1))
            } else {
                Err(VersionInputErrorView::UnexpectedWord(0))
            },
        }
    }
}

/// The word at token `i`, if it is an identifier that `syn` accepts.
fn word_token(tokens: &[MacroToken], i: usize) -> (r: Option<&str>)
    ensures
        match r {
            Some(w) => word_at(tokens@, i as int) == Some(w@),
            None => word_at(tokens@, i as int) is None,
        },
{
    if i < tokens.len() {
        match &tokens[i] {
            MacroToken::Ident(w) => {
                if ident_accepted(w.as_str()) {
                    Some(w.as_str())
                } else {
                    None
                }
            },
            _ => None,
        }
    } else {
        None
    }
}

/// The value of the string literal at token `i`, if it is one.
fn string_token(tokens: &[MacroToken], i: usize) -> (r: Option<String>)
    ensures
        match r {
            Some(v) => string_at(tokens@, i as int) == Some(v@),
            None => string_at(tokens@, i as int) is None,
        },
{
    if i < tokens.len() {
        match &tokens[i] {
            MacroToken::Literal(repr) => string_literal_value(repr.as_str()),
            _ => None,
        }
    } else {
        None
    }
}

impl StrOrInt {
    /// `str` or `int` read from the word at token `at`.
    pub fn parse(tokens: &[MacroToken], at: usize) -> (r: Result<StrOrInt, VersionInputError>)
        ensures
            match r {
                Ok(k) => str_or_int_at(tokens@, at as int) == Ok::<StrOrInt, VersionInputErrorView>(k),
                Err(e) => str_or_int_at(tokens@, at as int) == Err::<StrOrInt, VersionInputErrorView>(e@),
            },
    {
        match word_token(tokens, at) {
            None => Err(VersionInputError::ExpectedIdent(at)),
            Some(word) => {
                if same_text(word, "str") {
                    Ok(StrOrInt::Str)
                } else if same_text(word, "int") {
                    Ok(StrOrInt::Int)
                } else {
                    assert(at < tokens@.len());
                    assert(tokens@.len() == tokens.len());
                    Err(VersionInputError::UnexpectedInput(at + 1))
                }
            },
        }
    }
}

proof fn lemma_first_unknown(b: Seq<u8>, ranges: Seq<(int, int)>, k: int, m: int)
    requires
        0 <= k <= m <= ranges.len(),
        forall|j: int| k <= j < m ==> field_of(range_text(b, #[trigger] ranges[j])) is Some,
    ensures
        m == ranges.len() ==> first_unknown(b, ranges, k) is None,
        m < ranges.len() && field_of(range_text(b, ranges[m])) is None ==> first_unknown(
            b,
            ranges,
            k,
        ) == Some(m),
    decreases m - k,
{
    if k < m {
        lemma_first_unknown(b, ranges, k + 1, m);
    }
}

/// The interpolations that a callback accepting only field names has accepted
/// are field names.
proof fn lemma_accepted_are_fields<'a, F: FnMut(&'a str) -> CheckFormatResult<'a>>(
    f: F,
    b: Seq<u8>,
    ranges: Seq<(int, int)>,
    m: int,
)
    requires
        0 <= m <= ranges.len(),
        forall|x: &'a str, r: CheckFormatResult<'a>|
            #[trigger] f.ensures((x,), r) && r is Ok ==> field_of(x@) is Some,
        forall|j: int| 0 <= j < m ==> called_ok(f, b, #[trigger] ranges[j]),
    ensures
        forall|j: int| 0 <= j < m ==> field_of(range_text(b, #[trigger] ranges[j])) is Some,
{
    broadcast use group_utf8_lib;

    assert forall|j: int| 0 <= j < m implies field_of(range_text(b, #[trigger] ranges[j])) is Some by {
        assert(called_ok(f, b, ranges[j]));
        let rr = choose|rr: CheckFormatResult<'a>| #[trigger] called_with(f, b, ranges[j], rr) && rr is Ok;
        let x = choose|x: &'a str|
            #[trigger] f.ensures((x,), rr) && x.spec_bytes() == b.subrange(ranges[j].0, ranges[j].1);
        assert(x@ == range_text(b, ranges[j]));
    }
}

/// Checks that the format string `v` interpolates fields only and closes every
/// `{`, by `check_format`.
fn check_fields_of<'a>(v: &'a str) -> (r: Result<(), VersionInputError>)
    ensures
        match r {
            Ok(_) => check_fields(v@) is Ok,
            Err(e) => check_fields(v@) == Err::<(), VersionInputErrorView>(e@),
        },
{
    broadcast use group_utf8_lib;

    let check = |s: &'a str| -> (r: CheckFormatResult<'a>)
        ensures
            field_of(s@) is Some ==> r is Ok,
            field_of(s@) is None ==> r == Err::<(), CheckFormatError<'a>>(
                CheckFormatError::InvalidInterpolation(s),
            ),
        {
            match field_named(s) {
                Some(_) => Ok(()),
                None => Err(CheckFormatError::InvalidInterpolation(s)),
            }
        };
    let res = check_format(v, check);
    let ghost b = v.spec_bytes();
    let ghost ranges = check_scan(b, 0).0;
    let ghost unclosed = check_scan(b, 0).1;
    assert(b == encode_utf8(v@));
    assert(forall|x: &'a str, r: CheckFormatResult<'a>|
        #[trigger] check.ensures((x,), r) && r is Ok ==> field_of(x@) is Some);
    match res {
        Ok(()) => {
            proof {
                lemma_accepted_are_fields(check, b, ranges, ranges.len() as int);
                lemma_first_unknown(b, ranges, 0, ranges.len() as int);
            }
            Ok(())
        },
        Err(e) => {
            let ghost err = e;
            // Either the callback refused the `k`-th interpolation, or all were
            // accepted and a brace is left unclosed.
            let ghost refused = exists|k: int|
                0 <= k < ranges.len() && (forall|j: int|
                    0 <= j < k ==> called_ok(check, b, #[trigger] ranges[j]))
                    && #[trigger] called_with(check, b, ranges[k], Err(err));
            let ghost k = choose|k: int|
                0 <= k < ranges.len() && (forall|j: int|
                    0 <= j < k ==> called_ok(check, b, #[trigger] ranges[j]))
                    && #[trigger] called_with(check, b, ranges[k], Err(err));
            proof {
                if refused {
                    let x = choose|x: &'a str|
                        #[trigger] check.ensures((x,), Err(err)) && x.spec_bytes() == b.subrange(
                            ranges[k].0,
                            ranges[k].1,
                        );
                    assert(x@ == range_text(b, ranges[k]));
                    assert(err == CheckFormatError::<'a>::InvalidInterpolation(x));
                    lemma_accepted_are_fields(check, b, ranges, k);
                    lemma_first_unknown(b, ranges, 0, k);
                } else {
                    lemma_accepted_are_fields(check, b, ranges, ranges.len() as int);
                    lemma_first_unknown(b, ranges, 0, ranges.len() as int);
                }
            }
            match e {
                CheckFormatError::InvalidInterpolation(s) => Err(
                    VersionInputError::InvalidInterpolation(s.to_owned()),
                ),
                CheckFormatError::UnclosedBrace(i) => Err(VersionInputError::UnclosedBrace(i)),
                // The callback gives no I/O error: this arm is unreachable.
                CheckFormatError::Io(_) => Err(VersionInputError::UnclosedBrace(0)),
            }
        },
    }
}

/// A version number part (`patch`, `minor`, `major`) at token 0: its kind of
/// value and the number of tokens it takes.
fn number_part_of(tokens: &[MacroToken]) -> (r: Result<(StrOrInt, usize), VersionInputError>)
    ensures
        match r {
            Ok((k, n)) => number_part(tokens@) == Ok::<(StrOrInt, int), VersionInputErrorView>(
                (k, n as int),
            ),
            Err(e) => number_part(tokens@) == Err::<(StrOrInt, int), VersionInputErrorView>(e@),
        },
{
    let comma = tokens.len() > 1 && match &tokens[1] {
        MacroToken::Punct(c) => *c == ',',
        _ => false,
    };
    assert(comma == comma_at(tokens@, 1));
    if comma {
        match StrOrInt::parse(tokens, 2) {
            Ok(k) => Ok((k, 3)),
            Err(e) => Err(e),
        }
    } else {
        Ok((StrOrInt::Str, 1))
    }
}

impl VersionInput {
    /// Reads what the macro input asks for: nothing (the full version); a
    /// string literal, a format string whose interpolations must all name a
    /// field; or one of the words `full`, `id`, `prerelease`, `pre`, `patch`,
    /// `minor`, `major`, the last three optionally followed by `, str` or
    /// `, int`. Returns it with the number of tokens it takes; the tokens after
    /// those are left to the caller (see `expect_end`).
    pub fn parse(tokens: &[MacroToken]) -> (r: Result<(VersionInput, usize), VersionInputError>)
        ensures
            match r {
                Ok((v, n)) => leading_input(tokens@) == Ok::<(VersionInputView, int), VersionInputErrorView>(
                    (v@, n as int),
                ),
                Err(e) => leading_input(tokens@) == Err::<(VersionInputView, int), VersionInputErrorView>(
                    e@,
                ),
            },
    {
        let (input, used): (VersionInput, usize) = if tokens.len() == 0 {
            (VersionInput::Full, 0)
        } else {
            match string_token(tokens, 0) {
                Some(lit_val) => {
                    match check_fields_of(lit_val.as_str()) {
                        Ok(()) => (VersionInput::FmtLit(lit_val), 1),
                        Err(e) => {
                            return Err(e);
                        },
                    }
                },
                None => match word_token(tokens, 0) {
                    None => {
                        return Err(VersionInputError::UnexpectedInput(0));
                    },
                    Some(word) => {
                        if same_text(word, "full") {
                            (VersionInput::Full, 1)
                        } else if same_text(word, "id") {
                            (VersionInput::Id, 1)
                        } else if same_text(word, "patch") {
                            match number_part_of(tokens) {
                                Ok((k, n)) => (VersionInput::Patch(k), n),
                                Err(e) => {
                                    return Err(e);
                                },
                            }
                        } else if same_text(word, "minor") {
                            match number_part_of(tokens) {
                                Ok((k, n)) => (VersionInput::Minor(k), n),
                                Err(e) => {
                                    return Err(e);
                                },
                            }
                        } else if same_text(word, "major") {
                            match number_part_of(tokens) {
                                Ok((k, n)) => (VersionInput::Major(k), n),
                                Err(e) => {
                                    return Err(e);
                                },
                            }
                        } else if same_text(word, "prerelease") || same_text(word, "pre") {
                            (VersionInput::Prerelease, 1)
                        } else {
                            return Err(VersionInputError::UnexpectedWord(0));
                        }
                    },
                },
            }
        };
        Ok((input, used))
    }
}

/// Whether the macro input ends after its first `used` tokens: a token left
/// over is "unexpected token" at its position.
pub fn expect_end(tokens: &[MacroToken], used: usize) -> (r: Result<(), VersionInputError>)
    ensures
        r is Ok <==> used >= tokens@.len(),
        r matches Err(e) ==> e@ == VersionInputErrorView::UnexpectedToken(used),
{
    if used < tokens.len() {
        Err(VersionInputError::UnexpectedToken(used))
    } else {
        Ok(())
    }
}

/// A format string that the macro input is read as has passed `check_fields`:
/// it interpolates fields only and closes every `{`.
pub proof fn lemma_parsed_format_is_checked(ts: Seq<MacroToken>)
    ensures
        leading_input(ts) matches Ok((VersionInputView::FmtLit(v), _)) ==> check_fields(v) is Ok,
{
}

/// The documented macro inputs read as documented: nothing is the full
/// version; `full`, `id`, `prerelease` and `pre` name what they say; `major`,
/// `minor` and `patch` give that part, as a string unless `, int` follows, and
/// `, str` or `, int` is the kind of value written.
pub proof fn lemma_documented_inputs(ts: Seq<MacroToken>)
    ensures
        ts.len() == 0 ==> leading_input(ts) == Ok::<(VersionInputView, int), VersionInputErrorView>(
            (VersionInputView::Full, 0),
        ),
        word_at(ts, 0) == Some("full"@) ==> leading_input(ts) == Ok::<
            (VersionInputView, int),
            VersionInputErrorView,
        >((VersionInputView::Full, 1)),
        word_at(ts, 0) == Some("id"@) ==> leading_input(ts) == Ok::<
            (VersionInputView, int),
            VersionInputErrorView,
        >((VersionInputView::Id, 1)),
        word_at(ts, 0) == Some("prerelease"@) ==> leading_input(ts) == Ok::<
            (VersionInputView, int),
            VersionInputErrorView,
        >((VersionInputView::Prerelease, 1)),
        word_at(ts, 0) == Some("pre"@) ==> leading_input(ts) == Ok::<
            (VersionInputView, int),
            VersionInputErrorView,
        >((VersionInputView::Prerelease, 1)),
        word_at(ts, 0) == Some("major"@) && !comma_at(ts, 1) ==> leading_input(ts) == Ok::<
            (VersionInputView, int),
            VersionInputErrorView,
        >((VersionInputView::Major(StrOrInt::Str), 1)),
        word_at(ts, 0) == Some("major"@) && comma_at(ts, 1) && word_at(ts, 2) == Some("str"@)
            ==> leading_input(ts) == Ok::<(VersionInputView, int), VersionInputErrorView>(
            (VersionInputView::Major(StrOrInt::Str), 3),
        ),
        word_at(ts, 0) == Some("major"@) && comma_at(ts, 1) && word_at(ts, 2) == Some("int"@)
            ==> leading_input(ts) == Ok::<(VersionInputView, int), VersionInputErrorView>(
            (VersionInputView::Major(StrOrInt::Int), 3),
        ),
        word_at(ts, 0) == Some("minor"@) && !comma_at(ts, 1) ==> leading_input(ts) == Ok::<
            (VersionInputView, int),
            VersionInputErrorView,
        >((VersionInputView::Minor(StrOrInt::Str), 1)),
        word_at(ts, 0) == Some("minor"@) && comma_at(ts, 1) && word_at(ts, 2) == Some("str"@)
            ==> leading_input(ts) == Ok::<(VersionInputView, int), VersionInputErrorView>(
            (VersionInputView::Minor(StrOrInt::Str), 3),
        ),
        word_at(ts, 0) == Some("minor"@) && comma_at(ts, 1) && word_at(ts, 2) == Some("int"@)
            ==> leading_input(ts) == Ok::<(VersionInputView, int), VersionInputErrorView>(
            (VersionInputView::Minor(StrOrInt::Int), 3),
        ),
        word_at(ts, 0) == Some("patch"@) && !comma_at(ts, 1) ==> leading_input(ts) == Ok::<
            (VersionInputView, int),
            VersionInputErrorView,
        >((VersionInputView::Patch(StrOrInt::Str), 1)),
        word_at(ts, 0) == Some("patch"@) && comma_at(ts, 1) && word_at(ts, 2) == Some("str"@)
            ==> leading_input(ts) == Ok::<(VersionInputView, int), VersionInputErrorView>(
            (VersionInputView::Patch(StrOrInt::Str), 3),
        ),
        word_at(ts, 0) == Some("patch"@) && comma_at(ts, 1) && word_at(ts, 2) == Some("int"@)
            ==> leading_input(ts) == Ok::<(VersionInputView, int), VersionInputErrorView>(
            (VersionInputView::Patch(StrOrInt::Int), 3),
        ),
        ts.len() > 0 && string_at(ts, 0) is Some && check_fields(string_at(ts, 0)->0) is Ok
            ==> leading_input(ts) == Ok::<(VersionInputView, int), VersionInputErrorView>(
            (VersionInputView::FmtLit(string_at(ts, 0)->0), 1),
        ),
        ts.len() > 0 && string_at(ts, 0) is None && word_at(ts, 0) is None ==> leading_input(ts)
            == Err::<(VersionInputView, int), VersionInputErrorView>(
            VersionInputErrorView::UnexpectedInput(0),
        ),
        word_at(ts, 2) == Some("str"@) ==> str_or_int_at(ts, 2) == Ok::<StrOrInt, VersionInputErrorView>(
            StrOrInt::Str,
        ),
        word_at(ts, 2) == Some("int"@) ==> str_or_int_at(ts, 2) == Ok::<StrOrInt, VersionInputErrorView>(
            StrOrInt::Int,
        ),
{
    reveal_strlit("full");
    reveal_strlit("id");
    reveal_strlit("patch");
    reveal_strlit("minor");
    reveal_strlit("major");
    reveal_strlit("prerelease");
    reveal_strlit("pre");
    reveal_strlit("str");
    reveal_strlit("int");
    assert("full"@.len() == 4 && "id"@.len() == 2 && "prerelease"@.len() == 10);
    assert("patch"@.len() == 5 && "minor"@.len() == 5 && "major"@.len() == 5);
    assert("pre"@.len() == 3 && "str"@.len() == 3 && "int"@.len() == 3);
    assert("patch"@[0] == 'p' && "minor"@[0] == 'm' && "major"@[0] == 'm');
    assert("minor"@[1] == 'i' && "major"@[1] == 'a');
    assert("str"@[0] == 's' && "int"@[0] == 'i');
    if ts.len() > 0 && word_at(ts, 0) is Some {
        assert(string_at(ts, 0) is None);
    }
}

/// The interpolations of a format string name the documented fields:
/// `package`, `full`, `id`, `major`, `minor`, `patch`, and `prerelease` or
/// `pre`; any other name names none.
pub proof fn lemma_interpolation_names(name: Seq<char>)
    ensures
        field_of("package"@) == Some(VersionField::Package),
        field_of("full"@) == Some(VersionField::Full),
        field_of("id"@) == Some(VersionField::Id),
        field_of("major"@) == Some(VersionField::Major),
        field_of("minor"@) == Some(VersionField::Minor),
        field_of("patch"@) == Some(VersionField::Patch),
        field_of("prerelease"@) == Some(VersionField::Prerelease),
        field_of("pre"@) == Some(VersionField::Prerelease),
        field_of(name) is Some ==> name == "package"@ || name == "full"@ || name == "id"@ || name
            == "major"@ || name == "minor"@ || name == "patch"@ || name == "prerelease"@ || name
            == "pre"@,
{
    reveal_strlit("package");
    reveal_strlit("full");
    reveal_strlit("id");
    reveal_strlit("major");
    reveal_strlit("minor");
    reveal_strlit("patch");
    reveal_strlit("prerelease");
    reveal_strlit("pre");
    assert("package"@.len() == 7 && "full"@.len() == 4 && "id"@.len() == 2);
    assert("patch"@.len() == 5 && "minor"@.len() == 5 && "major"@.len() == 5);
    assert("prerelease"@.len() == 10 && "pre"@.len() == 3);
    assert("patch"@[0] == 'p' && "minor"@[0] == 'm' && "major"@[0] == 'm');
    assert("minor"@[1] == 'i' && "major"@[1] == 'a');
}

} // verus!
