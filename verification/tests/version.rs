use uranus::expand::{expand_format_string, ExpandError, PackageInfo, PackageVar, VersionValue};
use uranus::version::{
    expect_end, field_named, MacroToken, StrOrInt, VersionField, VersionInput, VersionInputError,
};

fn ident(s: &str) -> MacroToken {
    MacroToken::Ident(s.to_string())
}

fn lit(s: &str) -> MacroToken {
    MacroToken::Literal(format!("{:?}", s))
}

fn comma() -> MacroToken {
    MacroToken::Punct(',')
}

fn info() -> PackageInfo {
    PackageInfo {
        name: Some("uranus".to_string()),
        version: Some("1.2.3-beta.1+build.5".to_string()),
        major: Some("1".to_string()),
        minor: Some("2".to_string()),
        patch: Some("3".to_string()),
        pre: Some("beta.1".to_string()),
    }
}

/// Reads the whole input: what it asks for, with no token left over.
fn parse(tokens: &[MacroToken]) -> Result<VersionInput, VersionInputError> {
    let (input, used) = VersionInput::parse(tokens)?;
    expect_end(tokens, used)?;
    Ok(input)
}

fn expand(tokens: &[MacroToken]) -> Result<VersionValue, ExpandError> {
    let input = parse(tokens).ok().expect("the input parses");
    input.expand(&info())
}

fn expand_str(tokens: &[MacroToken]) -> String {
    match expand(tokens) {
        Ok(VersionValue::Str(s)) => s,
        other => panic!("expected a string, got {:?}", other),
    }
}

fn expand_int(tokens: &[MacroToken]) -> u32 {
    match expand(tokens) {
        Ok(VersionValue::Int(n)) => n,
        other => panic!("expected an integer, got {:?}", other),
    }
}

#[test]
fn empty_input_is_the_full_version() {
    assert!(matches!(VersionInput::parse(&[]), Ok((VersionInput::Full, 0))));
    assert_eq!(expand_str(&[]), "1.2.3-beta.1+build.5");
}

#[test]
fn full_gives_the_full_version() {
    assert_eq!(expand_str(&[ident("full")]), "1.2.3-beta.1+build.5");
}

#[test]
fn id_gives_the_package_id_spec() {
    assert_eq!(expand_str(&[ident("id")]), "uranus@1.2.3-beta.1+build.5");
}

#[test]
fn parts_as_strings_and_integers() {
    assert_eq!(expand_str(&[ident("major")]), "1");
    assert_eq!(expand_str(&[ident("minor")]), "2");
    assert_eq!(expand_str(&[ident("patch")]), "3");
    assert_eq!(expand_str(&[ident("patch"), comma(), ident("str")]), "3");
    assert_eq!(expand_int(&[ident("major"), comma(), ident("int")]), 1);
    assert_eq!(expand_int(&[ident("minor"), comma(), ident("int")]), 2);
    assert_eq!(expand_int(&[ident("patch"), comma(), ident("int")]), 3);
}

#[test]
fn prerelease_and_pre() {
    assert_eq!(expand_str(&[ident("prerelease")]), "beta.1");
    assert_eq!(expand_str(&[ident("pre")]), "beta.1");
}

#[test]
fn documented_format_literal() {
    let tokens = [lit("Package: {package}\nVersion: {full}\nPrerelease: {prerelease}")];
    assert_eq!(
        expand_str(&tokens),
        "Package: uranus\nVersion: 1.2.3-beta.1+build.5\nPrerelease: beta.1"
    );
}

#[test]
fn format_literal_with_every_field() {
    let tokens = [lit("{package} {full} {id} {major}.{minor}.{patch} {prerelease} {pre}")];
    assert_eq!(
        expand_str(&tokens),
        "uranus 1.2.3-beta.1+build.5 uranus@1.2.3-beta.1+build.5 1.2.3 beta.1 beta.1"
    );
}

#[test]
fn format_literal_reads_escapes() {
    let tokens = [MacroToken::Literal("\"v\\t{major}\"".to_string())];
    assert_eq!(expand_str(&tokens), "v\t1");
    let raw = [MacroToken::Literal("r#\"{major}\"#".to_string())];
    assert_eq!(expand_str(&raw), "1");
}

#[test]
fn format_literal_with_unknown_field_is_refused() {
    match parse(&[lit("v{nope}")]) {
        Err(VersionInputError::InvalidInterpolation(s)) => assert_eq!(s, "nope"),
        other => panic!("unexpected {:?}", other),
    }
}

#[test]
fn format_literal_with_unclosed_brace_is_refused() {
    match parse(&[lit("v{major")]) {
        Err(VersionInputError::UnclosedBrace(i)) => assert_eq!(i, 1),
        other => panic!("unexpected {:?}", other),
    }
}

#[test]
fn unknown_word_is_refused() {
    assert!(matches!(
        parse(&[ident("build")]),
        Err(VersionInputError::UnexpectedWord(0))
    ));
}

#[test]
fn keyword_is_not_a_word() {
    assert!(matches!(
        parse(&[ident("fn")]),
        Err(VersionInputError::UnexpectedInput(0))
    ));
}

#[test]
fn other_tokens_are_unexpected_input() {
    assert!(matches!(
        parse(&[MacroToken::Punct('#')]),
        Err(VersionInputError::UnexpectedInput(0))
    ));
    assert!(matches!(
        parse(&[MacroToken::Literal("42".to_string())]),
        Err(VersionInputError::UnexpectedInput(0))
    ));
    assert!(matches!(
        parse(&[MacroToken::Group]),
        Err(VersionInputError::UnexpectedInput(0))
    ));
}

#[test]
fn value_kind_must_be_str_or_int() {
    assert!(matches!(
        parse(&[ident("patch"), comma(), ident("float")]),
        Err(VersionInputError::UnexpectedInput(3))
    ));
    assert!(matches!(
        parse(&[ident("patch"), comma()]),
        Err(VersionInputError::ExpectedIdent(2))
    ));
    assert!(matches!(
        parse(&[ident("patch"), comma(), lit("int")]),
        Err(VersionInputError::ExpectedIdent(2))
    ));
}

#[test]
fn leftover_tokens_are_refused() {
    assert!(matches!(
        parse(&[ident("full"), comma()]),
        Err(VersionInputError::UnexpectedToken(1))
    ));
    assert!(matches!(
        parse(&[ident("patch"), ident("int")]),
        Err(VersionInputError::UnexpectedToken(1))
    ));
    assert!(matches!(
        parse(&[lit("{full}"), lit("x")]),
        Err(VersionInputError::UnexpectedToken(1))
    ));
}

#[test]
fn str_or_int_parse() {
    let tokens = [ident("int"), ident("str"), ident("other")];
    assert!(matches!(StrOrInt::parse(&tokens, 0), Ok(StrOrInt::Int)));
    assert!(matches!(StrOrInt::parse(&tokens, 1), Ok(StrOrInt::Str)));
    assert!(matches!(StrOrInt::parse(&tokens, 2), Err(VersionInputError::UnexpectedInput(3))));
    assert!(matches!(StrOrInt::parse(&tokens, 3), Err(VersionInputError::ExpectedIdent(3))));
    assert!(matches!(StrOrInt::default(), StrOrInt::Str));
    assert!(matches!(VersionInput::default(), VersionInput::Full));
}

#[test]
fn field_names() {
    assert!(matches!(field_named("package"), Some(VersionField::Package)));
    assert!(matches!(field_named("full"), Some(VersionField::Full)));
    assert!(matches!(field_named("id"), Some(VersionField::Id)));
    assert!(matches!(field_named("major"), Some(VersionField::Major)));
    assert!(matches!(field_named("minor"), Some(VersionField::Minor)));
    assert!(matches!(field_named("patch"), Some(VersionField::Patch)));
    assert!(matches!(field_named("prerelease"), Some(VersionField::Prerelease)));
    assert!(matches!(field_named("pre"), Some(VersionField::Prerelease)));
    assert!(field_named("Package").is_none());
    assert!(field_named("").is_none());
    assert!(field_named("fulll").is_none());
}

#[test]
fn int_part_that_is_no_number_fails() {
    let mut odd = info();
    odd.patch = Some("3a".to_string());
    let input = VersionInput::Patch(StrOrInt::Int);
    assert!(matches!(input.expand(&odd), Err(ExpandError::NotANumber(VersionField::Patch))));
    let input = VersionInput::Patch(StrOrInt::Str);
    assert!(matches!(input.expand(&odd), Ok(VersionValue::Str(s)) if s == "3a"));
}

#[test]
fn unchecked_format_literal_errors_at_expansion() {
    let input = VersionInput::FmtLit("{nope}".to_string());
    assert!(matches!(input.expand(&info()), Err(ExpandError::InvalidInterpolation(s)) if s == "nope"));
    let input = VersionInput::FmtLit("ab{full".to_string());
    assert!(matches!(input.expand(&info()), Err(ExpandError::UnclosedBrace(2))));
}

#[test]
fn checked_literal_closed_by_doubled_brace_fails_at_expansion() {
    // Accepted by the check, which ends the interpolation at the first `}`.
    assert!(parse(&[lit("{full}}x}")]).is_ok());
    // The expansion reads `full}}x` as the interpolation.
    match expand_format_string("{full}}x}", &info()) {
        Err(ExpandError::InvalidInterpolation(s)) => assert_eq!(s, "full}}x"),
        other => panic!("unexpected {:?}", other),
    }
}

#[test]
fn package_info_fields() {
    let i = info();
    assert_eq!(i.field(VersionField::Id).ok().unwrap(), "uranus@1.2.3-beta.1+build.5");
    assert_eq!(i.field(VersionField::Package).ok().unwrap(), "uranus");
    let mut out = "x:".to_string();
    assert!(i.push_field(VersionField::Major, &mut out).is_ok());
    assert_eq!(out, "x:1");
}

#[test]
fn single_interpolation_matches_direct_input() {
    let cases = [
        ("{full}", VersionInput::Full),
        ("{id}", VersionInput::Id),
        ("{major}", VersionInput::Major(StrOrInt::Str)),
        ("{minor}", VersionInput::Minor(StrOrInt::Str)),
        ("{patch}", VersionInput::Patch(StrOrInt::Str)),
        ("{prerelease}", VersionInput::Prerelease),
        ("{pre}", VersionInput::Prerelease),
    ];
    for (fmt, input) in cases {
        let direct = match input.expand(&info()) {
            Ok(VersionValue::Str(s)) => s,
            other => panic!("unexpected {:?}", other),
        };
        let formatted = expand_format_string(fmt, &info()).ok().unwrap();
        assert_eq!(formatted, direct, "case {}", fmt);
    }
    assert_eq!(expand_format_string("{package}", &info()).ok().unwrap(), "uranus");
}

#[test]
fn parse_leaves_trailing_tokens_to_the_caller() {
    let tokens = [lit("{full}"), lit("x")];
    match VersionInput::parse(&tokens) {
        Ok((VersionInput::FmtLit(v), 1)) => assert_eq!(v, "{full}"),
        other => panic!("unexpected {:?}", other),
    }
    assert!(matches!(expect_end(&tokens, 1), Err(VersionInputError::UnexpectedToken(1))));
    assert!(expect_end(&tokens, 2).is_ok());
    let tokens = [ident("major"), comma(), ident("int"), comma()];
    assert!(matches!(VersionInput::parse(&tokens), Ok((VersionInput::Major(StrOrInt::Int), 3))));
    let tokens = [ident("patch"), ident("int")];
    assert!(matches!(VersionInput::parse(&tokens), Ok((VersionInput::Patch(StrOrInt::Str), 1))));
}

#[test]
fn missing_variables_are_reported_when_read() {
    let mut partial = info();
    partial.pre = None;
    // `full` does not read the prerelease variable.
    assert!(matches!(VersionInput::Full.expand(&partial), Ok(VersionValue::Str(s)) if s == "1.2.3-beta.1+build.5"));
    assert!(matches!(VersionInput::Prerelease.expand(&partial), Err(ExpandError::MissingVar(PackageVar::Pre))));
    let input = VersionInput::FmtLit("{major} {pre}".to_string());
    assert!(matches!(input.expand(&partial), Err(ExpandError::MissingVar(PackageVar::Pre))));
    // An unknown interpolation before the missing one is reported first.
    let input = VersionInput::FmtLit("{nope} {pre}".to_string());
    assert!(matches!(input.expand(&partial), Err(ExpandError::InvalidInterpolation(s)) if s == "nope"));
    let mut no_name = info();
    no_name.name = None;
    no_name.version = None;
    assert!(matches!(VersionInput::Id.expand(&no_name), Err(ExpandError::MissingVar(PackageVar::Name))));
    let mut no_version = info();
    no_version.version = None;
    assert!(matches!(VersionInput::Id.expand(&no_version), Err(ExpandError::MissingVar(PackageVar::Version))));
    let mut no_patch = info();
    no_patch.patch = None;
    assert!(matches!(VersionInput::Patch(StrOrInt::Int).expand(&no_patch), Err(ExpandError::MissingVar(PackageVar::Patch))));
}
