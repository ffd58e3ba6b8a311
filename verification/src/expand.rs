//! The value that `package_version!` expands to, given the package's metadata.
use vstd::prelude::*;
use vstd::string::StringSliceAdditionalSpecFns;
use vstd::string::StringExecFns;
use vstd::utf8::*;
use crate::bytes::{find_from, lemma_find_from};
use crate::fmt::{
    check_scan, close_end, escaped_at, lemma_close_end, CLOSE_BRACE, OPEN_BRACE,
    format_scan, format_trace, format_end, interp_bytes, piece_text, CheckFormatError,
    CheckFormatResult, Piece,
};
use crate::number::{parse_u32, parsed_u32};
use crate::syntax::lowercase_word;
use crate::version::{
    check_fields, field_named, field_of, first_unknown, range_text, StrOrInt, VersionField,
    VersionInput,
};

verus! {

/// One of the environment variables that Cargo sets for a build.
#[derive(Debug, Clone, Copy)]
pub enum PackageVar {
    /// `CARGO_PKG_NAME`.
    Name,
    /// `CARGO_PKG_VERSION`.
    Version,
    /// `CARGO_PKG_VERSION_MAJOR`.
    Major,
    /// `CARGO_PKG_VERSION_MINOR`.
    Minor,
    /// `CARGO_PKG_VERSION_PATCH`.
    Patch,
    /// `CARGO_PKG_VERSION_PRE`.
    Pre,
}

/// The package metadata that Cargo hands to a build; `None` where the
/// variable is not set.
pub struct PackageInfo {
    /// `CARGO_PKG_NAME`.
    pub name: Option<String>,
    /// `CARGO_PKG_VERSION`.
    pub version: Option<String>,
    /// `CARGO_PKG_VERSION_MAJOR`.
    pub major: Option<String>,
    /// `CARGO_PKG_VERSION_MINOR`.
    pub minor: Option<String>,
    /// `CARGO_PKG_VERSION_PATCH`.
    pub patch: Option<String>,
    /// `CARGO_PKG_VERSION_PRE`.
    pub pre: Option<String>,
}

/// The text of a variable, if it is set.
pub open spec fn text_of(s: Option<String>) -> Option<Seq<char>> {
    match s {
        Some(t) => Some(t@),
        None => None,
    }
}

/// Whether every variable is set.
pub open spec fn complete(info: PackageInfo) -> bool {
    &&& info.name is Some
    &&& info.version is Some
    &&& info.major is Some
    &&& info.minor is Some
    &&& info.patch is Some
    &&& info.pre is Some
}

/// The text that `field` stands for, if the variables it reads are set.
pub open spec fn field_value(info: PackageInfo, field: VersionField) -> Option<Seq<char>> {
    match field {
        VersionField::Package => text_of(info.name),
        VersionField::Full => text_of(info.version),
        VersionField::Id => match (info.name, info.version) {
            (Some(n), Some(v)) => Some(n@ + seq!['@'] + v@),
            _ => None,
        },
        VersionField::Major => text_of(info.major),
        VersionField::Minor => text_of(info.minor),
        VersionField::Patch => text_of(info.patch),
        VersionField::Prerelease => text_of(info.pre),
    }
}

/// The first variable that `field` reads and that is missing (`Id` reads the
/// name, then the version).
pub open spec fn missing_var(info: PackageInfo, field: VersionField) -> PackageVar {
    match field {
        VersionField::Package => PackageVar::Name,
        VersionField::Full => PackageVar::Version,
        VersionField::Id => if info.name is None {
            PackageVar::Name
        } else {
            PackageVar::Version
        },
        VersionField::Major => PackageVar::Major,
        VersionField::Minor => PackageVar::Minor,
        VersionField::Patch => PackageVar::Patch,
        VersionField::Prerelease => PackageVar::Pre,
    }
}

fn append_var(out: &mut String, var: &Option<String>, which: PackageVar) -> (r: Result<(), PackageVar>)
    ensures
        match text_of(*var) {
            Some(t) => r is Ok && final(out)@ == old(out)@ + t,
            None => r == Err::<(), PackageVar>(which) && final(out)@ == old(out)@,
        },
{
    match var {
        Some(t) => {
            out.append(t.as_str());
            Ok(())
        },
        None => Err(which),
    }
}

impl PackageInfo {
    /// Appends the text of `field` to `out`, or names the first missing
    /// variable that it reads (and leaves `out` as it is).
    pub fn push_field(&self, field: VersionField, out: &mut String) -> (r: Result<(), PackageVar>)
        ensures
            match field_value(*self, field) {
                Some(t) => r is Ok && final(out)@ == old(out)@ + t,
                None => r == Err::<(), PackageVar>(missing_var(*self, field)) && final(out)@ == old(
                    out,
                )@,
            },
    {
        match field {
            VersionField::Package => append_var(out, &self.name, PackageVar::Name),
            VersionField::Full => append_var(out, &self.version, PackageVar::Version),
            VersionField::Id => match (&self.name, &self.version) {
                (Some(n), Some(v)) => {
                    out.append(n.as_str());
                    out.append("@");
                    out.append(v.as_str());
                    proof {
                        reveal_strlit("@");
                        assert(final(out)@ =~= old(out)@ + field_value(*self, field)->0);
                    }
                    Ok(())
                },
                (None, _) => Err(PackageVar::Name),
                (Some(_), None) => Err(PackageVar::Version),
            },
            VersionField::Major => append_var(out, &self.major, PackageVar::Major),
            VersionField::Minor => append_var(out, &self.minor, PackageVar::Minor),
            VersionField::Patch => append_var(out, &self.patch, PackageVar::Patch),
            VersionField::Prerelease => append_var(out, &self.pre, PackageVar::Pre),
        }
    }

    /// The text of `field`, or the first missing variable that it reads.
    pub fn field(&self, field: VersionField) -> (r: Result<String, PackageVar>)
        ensures
            match field_value(*self, field) {
                Some(t) => r matches Ok(s) && s@ == t,
                None => r == Err::<String, PackageVar>(missing_var(*self, field)),
            },
    {
        let mut out = String::new();
        match self.push_field(field, &mut out) {
            Ok(()) => Ok(out),
            Err(v) => Err(v),
        }
    }

    /// The first missing variable that `field` reads.
    pub fn first_missing(&self, field: VersionField) -> (r: PackageVar)
        ensures
            r == missing_var(*self, field),
    {
        match field {
            VersionField::Package => PackageVar::Name,
            VersionField::Full => PackageVar::Version,
            VersionField::Id => if self.name.is_none() {
                PackageVar::Name
            } else {
                PackageVar::Version
            },
            VersionField::Major => PackageVar::Major,
            VersionField::Minor => PackageVar::Minor,
            VersionField::Patch => PackageVar::Patch,
            VersionField::Prerelease => PackageVar::Pre,
        }
    }
}

/// What the macro expands to: a string literal or an integer literal.
#[derive(Debug)]
pub enum VersionValue {
    Str(String),
    Int(u32),
}

pub enum VersionValueView {
    Str(Seq<char>),
    Int(u32),
}

impl View for VersionValue {
    type V = VersionValueView;

    open spec fn view(&self) -> VersionValueView {
        match self {
            VersionValue::Str(s) => VersionValueView::Str(s@),
            VersionValue::Int(n) => VersionValueView::Int(*n),
        }
    }
}

/// Why the macro cannot expand.
#[derive(Debug)]
pub enum ExpandError {
    /// A variable that the expansion reads is not set.
    MissingVar(PackageVar),
    /// The version part (`Major`, `Minor` or `Patch`) is not a `u32`.
    NotANumber(VersionField),
    /// The format string interpolates a name that is not a field.
    InvalidInterpolation(String),
    /// The format string has a `{` without a `}` at this byte offset.
    UnclosedBrace(usize),
}

pub enum ExpandErrorView {
    MissingVar(PackageVar),
    NotANumber(VersionField),
    InvalidInterpolation(Seq<char>),
    UnclosedBrace(usize),
}

impl View for ExpandError {
    type V = ExpandErrorView;

    open spec fn view(&self) -> ExpandErrorView {
        match self {
            ExpandError::MissingVar(v) => ExpandErrorView::MissingVar(*v),
            ExpandError::NotANumber(f) => ExpandErrorView::NotANumber(*f),
            ExpandError::InvalidInterpolation(s) => ExpandErrorView::InvalidInterpolation(s@),
            ExpandError::UnclosedBrace(i) => ExpandErrorView::UnclosedBrace(*i),
        }
    }
}

/// The text that the interpolation `name` stands for, if it names a field
/// whose variables are set.
pub open spec fn interp_value(info: PackageInfo, name: Seq<char>) -> Option<Seq<char>> {
    match field_of(name) {
        Some(field) => field_value(info, field),
        None => None,
    }
}

/// Why the interpolation `name` cannot be filled in.
pub open spec fn interp_error(info: PackageInfo, name: Seq<char>) -> ExpandErrorView {
    match field_of(name) {
        Some(field) => ExpandErrorView::MissingVar(missing_var(info, field)),
        None => ExpandErrorView::InvalidInterpolation(name),
    }
}

/// The text that step `p` of a format string appends.
pub open spec fn step_text(b: Seq<u8>, p: Piece, info: PackageInfo) -> Seq<char> {
    match p {
        Piece::Interp(_, _) => match interp_value(info, decode_utf8(interp_bytes(b, p))) {
            Some(t) => t,
            None => seq![],
        },
        _ => piece_text(b, p),
    }
}

/// The text after the first `j` steps.
pub open spec fn expanded(b: Seq<u8>, pieces: Seq<Piece>, info: PackageInfo, j: int) -> Seq<char>
    decreases j,
{
    if j <= 0 {
        seq![]
    } else {
        expanded(b, pieces, info, j - 1) + step_text(b, pieces[j - 1], info)
    }
}

/// Whether step `p` is an interpolation that cannot be filled in.
pub open spec fn failing_step(b: Seq<u8>, p: Piece, info: PackageInfo) -> bool {
    p is Interp && interp_value(info, decode_utf8(interp_bytes(b, p))) is None
}

/// The first step from the `k`-th on that cannot be filled in.
pub open spec fn first_failing_step(b: Seq<u8>, pieces: Seq<Piece>, info: PackageInfo, k: int) -> Option<int>
    decreases pieces.len() - k,
{
    if k < 0 || k >= pieces.len() {
        None
    } else if failing_step(b, pieces[k], info) {
        Some(k)
    } else {
        first_failing_step(b, pieces, info, k + 1)
    }
}

/// The expansion of the format string `v`: its steps in order, the first
/// interpolation that cannot be filled in giving its error.
pub open spec fn expand_format(v: Seq<char>, info: PackageInfo) -> Result<Seq<char>, ExpandErrorView> {
    let b = encode_utf8(v);
    let (pieces, unclosed) = format_scan(b, 0);
    match first_failing_step(b, pieces, info, 0) {
        Some(k) => Err(interp_error(info, decode_utf8(interp_bytes(b, pieces[k])))),
        None => match unclosed {
            Some(p) => Err(ExpandErrorView::UnclosedBrace(p as usize)),
            None => Ok(expanded(b, pieces, info, pieces.len() as int)),
        },
    }
}

/// A version part as text or as a number.
pub open spec fn number_value(text: Seq<char>, kind: StrOrInt, field: VersionField) -> Result<VersionValueView, ExpandErrorView> {
    match kind {
        StrOrInt::Str => Ok(VersionValueView::Str(text)),
        StrOrInt::Int => match parsed_u32(text) {
            Some(n) => Ok(VersionValueView::Int(n)),
            None => Err(ExpandErrorView::NotANumber(field)),
        },
    }
}

/// The text of `field` as a string value.
pub open spec fn direct_value(info: PackageInfo, field: VersionField) -> Result<VersionValueView, ExpandErrorView> {
    match field_value(info, field) {
        Some(t) => Ok(VersionValueView::Str(t)),
        None => Err(ExpandErrorView::MissingVar(missing_var(info, field))),
    }
}

/// A version part read as `kind`.
pub open spec fn part_value(info: PackageInfo, kind: StrOrInt, field: VersionField) -> Result<VersionValueView, ExpandErrorView> {
    match field_value(info, field) {
        Some(t) => number_value(t, kind, field),
        None => Err(ExpandErrorView::MissingVar(missing_var(info, field))),
    }
}

/// What `input` expands to for the package `info`.
pub open spec fn expansion(input: VersionInput, info: PackageInfo) -> Result<VersionValueView, ExpandErrorView> {
    match input {
        VersionInput::Full => direct_value(info, VersionField::Full),
        VersionInput::Id => direct_value(info, VersionField::Id),
        VersionInput::Patch(k) => part_value(info, k, VersionField::Patch),
        VersionInput::Minor(k) => part_value(info, k, VersionField::Minor),
        VersionInput::Major(k) => part_value(info, k, VersionField::Major),
        VersionInput::Prerelease => direct_value(info, VersionField::Prerelease),
        VersionInput::FmtLit(v) => match expand_format(v@, info) {
            Ok(s) => Ok(VersionValueView::Str(s)),
            Err(e) => Err(e),
        },
    }
}

proof fn lemma_first_failing_step(b: Seq<u8>, pieces: Seq<Piece>, info: PackageInfo, k: int, m: int)
    requires
        0 <= k <= m <= pieces.len(),
        forall|j: int| k <= j < m ==> !failing_step(b, #[trigger] pieces[j], info),
    ensures
        m == pieces.len() ==> first_failing_step(b, pieces, info, k) is None,
        m < pieces.len() && failing_step(b, pieces[m], info) ==> first_failing_step(
            b,
            pieces,
            info,
            k,
        ) == Some(m),
    decreases m - k,
{
    if k < m {
        lemma_first_failing_step(b, pieces, info, k + 1, m);
    }
}

proof fn lemma_expanded(
    b: Seq<u8>,
    pieces: Seq<Piece>,
    info: PackageInfo,
    mid: Seq<Seq<char>>,
    done: int,
    j: int,
)
    requires
        format_trace(b, pieces, mid, done),
        0 <= j <= done,
        forall|i: int|
            0 <= i < done && #[trigger] pieces[i] is Interp ==> mid[i + 1] == mid[i] + step_text(
                b,
                pieces[i],
                info,
            ),
    ensures
        mid[j] == expanded(b, pieces, info, j),
    decreases j,
{
    if j > 0 {
        lemma_expanded(b, pieces, info, mid, done, j - 1);
        if !(pieces[j - 1] is Interp) {
            assert(mid[j] == mid[j - 1] + piece_text(b, pieces[j - 1]));
        }
    }
}

/// Expands the format string `fmt` with the fields of `info`, by `format`.
pub fn expand_format_string<'a>(fmt: &'a str, info: &PackageInfo) -> (r: Result<String, ExpandError>)
    ensures
        match r {
            Ok(s) => expand_format(fmt@, *info) == Ok::<Seq<char>, ExpandErrorView>(s@),
            Err(e) => expand_format(fmt@, *info) == Err::<Seq<char>, ExpandErrorView>(e@),
        },
{
    broadcast use group_utf8_lib;

    let fill = |interp: &'a str, sb: &mut String| -> (r: CheckFormatResult<'a>)
        ensures
            interp_value(*info, interp@) matches Some(t) ==> r is Ok && (*final(sb))@ == (*old(
                sb,
            ))@ + t,
            interp_value(*info, interp@) is None ==> r == Err::<(), CheckFormatError<'a>>(
                CheckFormatError::InvalidInterpolation(interp),
            ),
        {
            // An interpolation that cannot be filled in is handed back as
            // invalid; the caller tells a missing variable from an unknown name.
            match field_named(interp) {
                Some(field) => match info.push_field(field, sb) {
                    Ok(()) => Ok(()),
                    Err(_) => Err(CheckFormatError::InvalidInterpolation(interp)),
                },
                None => Err(CheckFormatError::InvalidInterpolation(interp)),
            }
        };
    let res = crate::fmt::format(fmt, fill);
    let ghost b = fmt.spec_bytes();
    let ghost pieces = format_scan(b, 0).0;
    let ghost unclosed = format_scan(b, 0).1;
    assert(b == encode_utf8(fmt@));
    proof {
        assert forall|mid: Seq<Seq<char>>, done: int|
            {
                &&& #[trigger] format_trace(b, pieces, mid, done)
                &&& format_end(pieces, unclosed, mid, done, res)
                &&& forall|j: int|
                    0 <= j < done && #[trigger] pieces[j] is Interp ==> exists|
                        x: &'a str,
                        buf: &mut String,
                        rr: CheckFormatResult<'a>,
                    |
                        #![trigger fill.ensures((x, buf), rr)]
                        rr is Ok && fill.ensures((x, buf), rr) && x.spec_bytes() == interp_bytes(
                            b,
                            pieces[j],
                        ) && (*buf)@ == mid[j] && (*final(buf))@ == mid[j + 1]
                &&& done < pieces.len() ==> exists|x: &'a str, buf: &mut String|
                    #![trigger fill.ensures((x, buf), Err::<(), CheckFormatError<'a>>(res->Err_0))]
                    fill.ensures((x, buf), Err::<(), CheckFormatError<'a>>(res->Err_0))
                        && x.spec_bytes() == interp_bytes(b, pieces[done]) && (*buf)@ == mid[done]
            } implies format_matches(res, fmt@, *info) by {
            assert forall|j: int|
                0 <= j < done && #[trigger] pieces[j] is Interp implies !failing_step(
                b,
                pieces[j],
                *info,
            ) && mid[j + 1] == mid[j] + step_text(b, pieces[j], *info) by {
                let (x, buf, rr) = choose|x: &'a str, buf: &mut String, rr: CheckFormatResult<'a>|
                    #![trigger fill.ensures((x, buf), rr)]
                    rr is Ok && fill.ensures((x, buf), rr) && x.spec_bytes() == interp_bytes(
                        b,
                        pieces[j],
                    ) && (*buf)@ == mid[j] && (*final(buf))@ == mid[j + 1];
                assert(x@ == decode_utf8(interp_bytes(b, pieces[j])));
            }
            lemma_first_failing_step(b, pieces, *info, 0, done);
            lemma_expanded(b, pieces, *info, mid, done, done);
            if done < pieces.len() {
                let (x, buf) = choose|x: &'a str, buf: &mut String|
                    #![trigger fill.ensures((x, buf), Err::<(), CheckFormatError<'a>>(res->Err_0))]
                    fill.ensures((x, buf), Err::<(), CheckFormatError<'a>>(res->Err_0))
                        && x.spec_bytes() == interp_bytes(b, pieces[done]) && (*buf)@ == mid[done];
                assert(x@ == decode_utf8(interp_bytes(b, pieces[done])));
            }
        }
    }
    match res {
        Ok(out) => Ok(out),
        Err(CheckFormatError::InvalidInterpolation(s)) => match field_named(s) {
            Some(field) => Err(ExpandError::MissingVar(info.first_missing(field))),
            None => Err(ExpandError::InvalidInterpolation(s.to_owned())),
        },
        Err(CheckFormatError::UnclosedBrace(i)) => Err(ExpandError::UnclosedBrace(i)),
        // The callback gives no I/O error: `format_matches` rules this arm out.
        Err(CheckFormatError::Io(_)) => Err(ExpandError::UnclosedBrace(0)),
    }
}

/// How the result of `format` with the fields of `info` maps to the expansion
/// of the format string `v`; no I/O error can come out of it.
pub open spec fn format_matches<'a>(res: CheckFormatResult<'a, String>, v: Seq<char>, info: PackageInfo) -> bool {
    match res {
        Ok(out) => expand_format(v, info) == Ok::<Seq<char>, ExpandErrorView>(out@),
        Err(CheckFormatError::InvalidInterpolation(s)) => expand_format(v, info)
            == Err::<Seq<char>, ExpandErrorView>(interp_error(info, s@)),
        Err(CheckFormatError::UnclosedBrace(i)) => expand_format(v, info) == Err::<
            Seq<char>,
            ExpandErrorView,
        >(ExpandErrorView::UnclosedBrace(i)),
        Err(CheckFormatError::Io(_)) => false,
    }
}

/// A version part as text or, for `int`, as a number.
fn part_of(info: &PackageInfo, kind: StrOrInt, field: VersionField) -> (r: Result<VersionValue, ExpandError>)
    ensures
        match r {
            Ok(v) => part_value(*info, kind, field) == Ok::<VersionValueView, ExpandErrorView>(v@),
            Err(e) => part_value(*info, kind, field) == Err::<VersionValueView, ExpandErrorView>(e@),
        },
{
    let text = match info.field(field) {
        Ok(text) => text,
        Err(var) => {
            return Err(ExpandError::MissingVar(var));
        },
    };
    match kind {
        StrOrInt::Str => Ok(VersionValue::Str(text)),
        StrOrInt::Int => match parse_u32(text.as_str()) {
            Some(n) => Ok(VersionValue::Int(n)),
            None => Err(ExpandError::NotANumber(field)),
        },
    }
}

/// The text of `field` as a string value.
fn direct_of(info: &PackageInfo, field: VersionField) -> (r: Result<VersionValue, ExpandError>)
    ensures
        match r {
            Ok(v) => direct_value(*info, field) == Ok::<VersionValueView, ExpandErrorView>(v@),
            Err(e) => direct_value(*info, field) == Err::<VersionValueView, ExpandErrorView>(e@),
        },
{
    match info.field(field) {
        Ok(text) => Ok(VersionValue::Str(text)),
        Err(var) => Err(ExpandError::MissingVar(var)),
    }
}

impl VersionInput {
    /// The value that the macro expands to for the package `info`: the
    /// version or one of its parts (as a number for `int`), the package ID
    /// `name@version`, or the format string with its interpolations replaced.
    pub fn expand(&self, info: &PackageInfo) -> (r: Result<VersionValue, ExpandError>)
        ensures
            match r {
                Ok(v) => expansion(*self, *info) == Ok::<VersionValueView, ExpandErrorView>(v@),
                Err(e) => expansion(*self, *info) == Err::<VersionValueView, ExpandErrorView>(e@),
            },
    {
        match self {
            VersionInput::Full => direct_of(info, VersionField::Full),
            VersionInput::Id => direct_of(info, VersionField::Id),
            VersionInput::Patch(k) => part_of(info, *k, VersionField::Patch),
            VersionInput::Minor(k) => part_of(info, *k, VersionField::Minor),
            VersionInput::Major(k) => part_of(info, *k, VersionField::Major),
            VersionInput::Prerelease => direct_of(info, VersionField::Prerelease),
            VersionInput::FmtLit(fmt) => match expand_format_string(fmt.as_str(), info) {
                Ok(s) => Ok(VersionValue::Str(s)),
                Err(e) => Err(e),
            },
        }
    }
}

/// Whether the interpolation at byte range `r` of `b` is closed by `}}`.
pub open spec fn closed_by_doubled_brace(b: Seq<u8>, r: (int, int)) -> bool {
    r.1 + 1 < b.len() && b[r.1 + 1] == CLOSE_BRACE
}

proof fn lemma_first_unknown_none(b: Seq<u8>, ranges: Seq<(int, int)>, k: int)
    requires
        0 <= k,
        first_unknown(b, ranges, k) is None,
    ensures
        forall|j: int| k <= j < ranges.len() ==> field_of(range_text(b, #[trigger] ranges[j])) is Some,
    decreases ranges.len() - k,
{
    if k < ranges.len() {
        lemma_first_unknown_none(b, ranges, k + 1);
    }
}

/// From byte `i` on, where `check_format` finds only field names, every `{`
/// closed, and no interpolation closed by `}}`, `format` meets the same
/// interpolations and leaves no brace unclosed.
proof fn lemma_scans_agree(b: Seq<u8>, info: PackageInfo, i: int)
    requires
        0 <= i,
        complete(info),
        check_scan(b, i).1 is None,
        forall|k: int|
            0 <= k < check_scan(b, i).0.len() ==> field_of(
                range_text(b, #[trigger] check_scan(b, i).0[k]),
            ) is Some && !closed_by_doubled_brace(b, check_scan(b, i).0[k]),
    ensures
        format_scan(b, i).1 is None,
        forall|j: int|
            0 <= j < format_scan(b, i).0.len() ==> !failing_step(
                b,
                #[trigger] format_scan(b, i).0[j],
                info,
            ),
    decreases b.len() + 1 - i,
{
    if i < b.len() {
        lemma_find_from(b, i, OPEN_BRACE);
        if let Some(open) = find_from(b, i, OPEN_BRACE) {
            if escaped_at(b, open) {
                assert(check_scan(b, i) == check_scan(b, open + 2));
                lemma_scans_agree(b, info, open + 2);
                let rest = format_scan(b, open + 2);
                assert(format_scan(b, i) == (
                    seq![Piece::Text(i, open), Piece::Escape] + rest.0,
                    rest.1,
                ));
                assert forall|j: int| 0 <= j < format_scan(b, i).0.len() implies !failing_step(
                    b,
                    #[trigger] format_scan(b, i).0[j],
                    info,
                ) by {
                    if j > 1 {
                        assert(format_scan(b, i).0[j] == rest.0[j - 2]);
                    }
                }
            } else {
                lemma_find_from(b, open + 1, CLOSE_BRACE);
                let close = find_from(b, open + 1, CLOSE_BRACE)->0;
                let crest = check_scan(b, close + 1);
                assert(check_scan(b, i) == (seq![(open + 1, close)] + crest.0, crest.1));
                assert(check_scan(b, i).0[0] == (open + 1, close));
                assert forall|k: int| 0 <= k < crest.0.len() implies field_of(
                    range_text(b, #[trigger] crest.0[k]),
                ) is Some && !closed_by_doubled_brace(b, crest.0[k]) by {
                    assert(crest.0[k] == check_scan(b, i).0[k + 1]);
                }
                lemma_scans_agree(b, info, close + 1);
                assert(close_end(b, open + 1) == Some(close));
                lemma_close_end(b, open + 1);
                let rest = format_scan(b, close + 1);
                let steps = seq![Piece::Text(i, open), Piece::Interp(open + 1, close)];
                assert(format_scan(b, i) == (steps + rest.0, rest.1));
                assert(interp_bytes(b, steps[1]) == b.subrange(open + 1, close));
                assert forall|j: int| 0 <= j < format_scan(b, i).0.len() implies !failing_step(
                    b,
                    #[trigger] format_scan(b, i).0[j],
                    info,
                ) by {
                    if j > 1 {
                        assert(format_scan(b, i).0[j] == rest.0[j - 2]);
                    }
                }
            }
        }
    }
}

/// A format string that `VersionInput::parse` accepts (every interpolation
/// names a field, every `{` is closed) expands without error for every
/// package whose variables are all set, unless one of its interpolations is
/// closed by `}}`: `format` reads `}}` as part of the interpolation where
/// `check_format` ends it at the first `}`.
pub proof fn lemma_checked_format_expands(v: Seq<char>, info: PackageInfo)
    requires
        check_fields(v) is Ok,
        complete(info),
        forall|k: int|
            0 <= k < check_scan(encode_utf8(v), 0).0.len() ==> !closed_by_doubled_brace(
                encode_utf8(v),
                #[trigger] check_scan(encode_utf8(v), 0).0[k],
            ),
    ensures
        expand_format(v, info) is Ok,
{
    let b = encode_utf8(v);
    lemma_first_unknown_none(b, check_scan(b, 0).0, 0);
    lemma_scans_agree(b, info, 0);
    let pieces = format_scan(b, 0).0;
    lemma_first_failing_step(b, pieces, info, 0, pieces.len() as int);
}

/// The names of fields are words of lowercase ASCII letters.
proof fn lemma_field_names_are_words(name: Seq<char>)
    requires
        field_of(name) is Some,
    ensures
        lowercase_word(name),
{
    reveal_strlit("package");
    reveal_strlit("full");
    reveal_strlit("id");
    reveal_strlit("major");
    reveal_strlit("minor");
    reveal_strlit("patch");
    reveal_strlit("prerelease");
    reveal_strlit("pre");
}

/// A text result as a string value.
pub open spec fn as_str_value(r: Result<Seq<char>, ExpandErrorView>) -> Result<VersionValueView, ExpandErrorView> {
    match r {
        Ok(t) => Ok(VersionValueView::Str(t)),
        Err(e) => Err(e),
    }
}

/// The interpolation `{name}` of a field, alone in a format string, expands to
/// that field's text (or fails on the first variable it reads that is not
/// set), exactly as the macro input naming the field (`full`, `id`, `major`,
/// `minor`, `patch`, `prerelease`) does.
pub proof fn lemma_single_interpolation(name: Seq<char>, info: PackageInfo)
    requires
        field_of(name) is Some,
    ensures
        ({
            let field = field_of(name)->0;
            expand_format(seq!['{'] + name + seq!['}'], info) == match field_value(info, field) {
                Some(t) => Ok::<Seq<char>, ExpandErrorView>(t),
                None => Err(ExpandErrorView::MissingVar(missing_var(info, field))),
            }
        }),
        ({
            let formatted = as_str_value(expand_format(seq!['{'] + name + seq!['}'], info));
            &&& field_of(name) == Some(VersionField::Full) ==> expansion(VersionInput::Full, info)
                == formatted
            &&& field_of(name) == Some(VersionField::Id) ==> expansion(VersionInput::Id, info)
                == formatted
            &&& field_of(name) == Some(VersionField::Major) ==> expansion(
                VersionInput::Major(StrOrInt::Str),
                info,
            ) == formatted
            &&& field_of(name) == Some(VersionField::Minor) ==> expansion(
                VersionInput::Minor(StrOrInt::Str),
                info,
            ) == formatted
            &&& field_of(name) == Some(VersionField::Patch) ==> expansion(
                VersionInput::Patch(StrOrInt::Str),
                info,
            ) == formatted
            &&& field_of(name) == Some(VersionField::Prerelease) ==> expansion(
                VersionInput::Prerelease,
                info,
            ) == formatted
        }),
{
    broadcast use group_utf8_lib;

    lemma_field_names_are_words(name);
    let n = name.len() as int;
    let w = seq!['{'] + name + seq!['}'];
    assert(w.len() == n + 2);
    assert(w[0] == '{' && w[n + 1] == '}');
    assert forall|i: int| 0 <= i < n implies w[i + 1] == name[i] by {}
    assert(is_ascii_chars(w)) by {
        assert forall|i: int| 0 <= i < w.len() implies '\0' <= #[trigger] w[i] <= '\u{7f}' by {
            if 0 < i < n + 1 {
                assert(w[i] == name[i - 1]);
            }
        }
    }
    assert(is_ascii_chars(name)) by {
        assert forall|i: int| 0 <= i < name.len() implies '\0' <= #[trigger] name[i] <= '\u{7f}' by {
            assert('a' <= name[i] && name[i] <= 'z');
        }
    }
    let b = encode_utf8(w);
    assert(b.len() == n + 2);
    assert(b[0] == OPEN_BRACE) by {
        assert(w[0] as u8 == b[0]);
    }
    assert(b[n + 1] == CLOSE_BRACE) by {
        assert(w[n + 1] as u8 == b[n + 1]);
    }
    assert forall|i: int| 1 <= i <= n implies 0x61 <= #[trigger] b[i] <= 0x7a by {
        assert(w[i] as u8 == b[i]);
        assert(w[i] == name[i - 1]);
        assert('a' <= name[i - 1] && name[i - 1] <= 'z');
    }
    assert(b.subrange(1, n + 1) =~= encode_utf8(name)) by {
        assert forall|i: int| 0 <= i < n implies b.subrange(1, n + 1)[i] == encode_utf8(name)[i] by {
            assert(w[i + 1] as u8 == b[i + 1]);
            assert(name[i] as u8 == encode_utf8(name)[i]);
        }
    }
    lemma_find_from(b, 0, OPEN_BRACE);
    assert(find_from(b, 0, OPEN_BRACE) == Some(0int));
    assert(!escaped_at(b, 0)) by {
        assert(0x61 <= b[1] <= 0x7a);
    }
    lemma_find_from(b, 1, CLOSE_BRACE);
    assert(find_from(b, 1, CLOSE_BRACE) == Some(n + 1)) by {
        if let Some(c) = find_from(b, 1, CLOSE_BRACE) {
            if c <= n {
                assert(0x61 <= b[c] <= 0x7a);
            }
        }
    }
    assert(close_end(b, 1) == Some(n + 1));
    let steps = seq![Piece::Text(0, 0), Piece::Interp(1, n + 1)];
    assert(format_scan(b, n + 2) == (Seq::<Piece>::empty(), None::<int>));
    assert(format_scan(b, 0) == (steps + Seq::<Piece>::empty(), None::<int>));
    assert(steps + Seq::<Piece>::empty() =~= steps);
    assert(decode_utf8(interp_bytes(b, steps[1])) == name);
    assert(b.subrange(0, 0) =~= Seq::<u8>::empty());
    assert(decode_utf8(b.subrange(0, 0)) =~= Seq::<char>::empty());
    if interp_value(info, name) is Some {
        assert(first_failing_step(b, steps, info, 0) is None) by {
            lemma_first_failing_step(b, steps, info, 0, 2);
        }
        assert(expanded(b, steps, info, 2) =~= field_value(info, field_of(name)->0)->0) by {
            assert(steps[0] == Piece::Text(0, 0));
            assert(step_text(b, steps[0], info) == decode_utf8(b.subrange(0, 0)));
            assert(expanded(b, steps, info, 0) == Seq::<char>::empty());
            assert(expanded(b, steps, info, 1) =~= Seq::<char>::empty());
        }
    } else {
        assert(first_failing_step(b, steps, info, 0) == Some(1int)) by {
            lemma_first_failing_step(b, steps, info, 0, 1);
        }
    }
}

/// Every field is the variable it reads, unchanged, and the package ID is the
/// package name, `@` and the version; the macro inputs and the
/// interpolations `{package}` and `{id}` give exactly these texts.
pub proof fn lemma_field_values(info: PackageInfo)
    ensures
        info.name matches Some(t) ==> field_value(info, VersionField::Package) == Some(t@),
        info.name is None ==> field_value(info, VersionField::Package) is None,
        info.version matches Some(t) ==> field_value(info, VersionField::Full) == Some(t@),
        info.version is None ==> field_value(info, VersionField::Full) is None,
        info.major matches Some(t) ==> field_value(info, VersionField::Major) == Some(t@),
        info.major is None ==> field_value(info, VersionField::Major) is None,
        info.minor matches Some(t) ==> field_value(info, VersionField::Minor) == Some(t@),
        info.minor is None ==> field_value(info, VersionField::Minor) is None,
        info.patch matches Some(t) ==> field_value(info, VersionField::Patch) == Some(t@),
        info.patch is None ==> field_value(info, VersionField::Patch) is None,
        info.pre matches Some(t) ==> field_value(info, VersionField::Prerelease) == Some(t@),
        info.pre is None ==> field_value(info, VersionField::Prerelease) is None,
        info.name is Some && info.version is Some ==> field_value(
            info,
            VersionField::Id,
        ) == Some(info.name->0@ + seq!['@'] + info.version->0@),
        info.name is None || info.version is None ==> field_value(info, VersionField::Id) is None,
        info.version matches Some(v) ==> expansion(VersionInput::Full, info) == Ok::<
            VersionValueView,
            ExpandErrorView,
        >(VersionValueView::Str(v@)),
        info.name is Some && info.version is Some ==> expansion(
            VersionInput::Id,
            info,
        ) == Ok::<VersionValueView, ExpandErrorView>(
            VersionValueView::Str(info.name->0@ + seq!['@'] + info.version->0@),
        ),
        info.pre matches Some(p) ==> expansion(VersionInput::Prerelease, info) == Ok::<
            VersionValueView,
            ExpandErrorView,
        >(VersionValueView::Str(p@)),
        info.major matches Some(t) ==> expansion(VersionInput::Major(StrOrInt::Str), info) == Ok::<
            VersionValueView,
            ExpandErrorView,
        >(VersionValueView::Str(t@)),
        info.minor matches Some(t) ==> expansion(VersionInput::Minor(StrOrInt::Str), info) == Ok::<
            VersionValueView,
            ExpandErrorView,
        >(VersionValueView::Str(t@)),
        info.patch matches Some(t) ==> expansion(VersionInput::Patch(StrOrInt::Str), info) == Ok::<
            VersionValueView,
            ExpandErrorView,
        >(VersionValueView::Str(t@)),
        info.name matches Some(n) ==> expand_format(seq!['{'] + "package"@ + seq!['}'], info)
            == Ok::<Seq<char>, ExpandErrorView>(n@),
        info.name is Some && info.version is Some ==> expand_format(
            seq!['{'] + "id"@ + seq!['}'],
            info,
        ) == Ok::<Seq<char>, ExpandErrorView>(info.name->0@ + seq!['@'] + info.version->0@),
{
    reveal_strlit("package");
    reveal_strlit("full");
    reveal_strlit("id");
    assert(field_of("package"@) == Some(VersionField::Package));
    assert(field_of("id"@) == Some(VersionField::Id));
    lemma_single_interpolation("package"@, info);
    lemma_single_interpolation("id"@, info);
}

} // verus!
