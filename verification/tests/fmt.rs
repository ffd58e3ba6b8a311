use uranus::fmt::{check_format, CheckFormatError, CheckFormatResult};

fn collect(fmt: &str) -> (Vec<String>, CheckFormatResult<'_>) {
    let mut seen: Vec<String> = Vec::new();
    let result = check_format(fmt, |s| {
        seen.push(s.to_string());
        Ok(())
    });
    (seen, result)
}

fn upper<'a>(s: &'a str, buf: &mut String) -> CheckFormatResult<'a> {
    buf.push_str(&s.to_uppercase());
    Ok(())
}

#[test]
fn check_format_visits_interpolations_in_order() {
    let (seen, result) = collect("a{x}b{yy}c");
    assert!(result.is_ok());
    assert_eq!(seen, vec!["x".to_string(), "yy".to_string()]);
}

#[test]
fn check_format_skips_escaped_braces() {
    let (seen, result) = collect("{{x}} and {y}");
    assert!(result.is_ok());
    assert_eq!(seen, vec!["y".to_string()]);
}

#[test]
fn check_format_reports_unclosed_brace_offset() {
    let (seen, result) = collect("ab{c}d{e");
    assert_eq!(seen, vec!["c".to_string()]);
    match result {
        Err(CheckFormatError::UnclosedBrace(i)) => assert_eq!(i, 6),
        _ => panic!("expected an unclosed brace"),
    }
}

#[test]
fn check_format_offsets_are_bytes() {
    let (_, result) = collect("é{");
    match result {
        Err(CheckFormatError::UnclosedBrace(i)) => assert_eq!(i, 2),
        _ => panic!("expected an unclosed brace"),
    }
}

#[test]
fn check_format_stops_at_first_error() {
    let mut calls = 0;
    let result = check_format("{ok}{bad}{later}", |s| {
        calls += 1;
        if s == "ok" {
            Ok(())
        } else {
            Err(CheckFormatError::InvalidInterpolation(s))
        }
    });
    assert_eq!(calls, 2);
    match result {
        Err(CheckFormatError::InvalidInterpolation(s)) => assert_eq!(s, "bad"),
        _ => panic!("expected an invalid interpolation"),
    }
}

#[test]
fn check_format_inner_text_may_hold_open_brace() {
    let (seen, result) = collect("{a{b}");
    assert!(result.is_ok());
    assert_eq!(seen, vec!["a{b".to_string()]);
}

#[test]
fn check_format_without_braces_calls_nothing() {
    let (seen, result) = collect("plain text, no braces");
    assert!(result.is_ok());
    assert!(seen.is_empty());
    let (seen, result) = collect("");
    assert!(result.is_ok());
    assert!(seen.is_empty());
}

#[test]
fn format_replaces_interpolations() {
    let out = uranus::fmt::format("v{ab}-{c}!", upper).ok().unwrap();
    assert_eq!(out, "vAB-C!");
}

#[test]
fn format_copies_text_without_braces() {
    let out = uranus::fmt::format("héllo wörld", upper).ok().unwrap();
    assert_eq!(out, "héllo wörld");
}

#[test]
fn format_keeps_escaped_braces_and_the_text_before_them() {
    let out = uranus::fmt::format("ab{{c", upper).ok().unwrap();
    assert_eq!(out, "ab{{c");
    let out = uranus::fmt::format("{x}{{y", upper).ok().unwrap();
    assert_eq!(out, "X{{y");
    let out = uranus::fmt::format("a{{b", upper).ok().unwrap();
    assert_eq!(out, "a{{b");
}

#[test]
fn format_copies_text_with_only_escaped_braces() {
    for s in ["a{{b", "{{", "x{{y{{z", "é{{ü}}ß", "}{{}", "{{{{"] {
        let mut calls = 0;
        let out = uranus::fmt::format(s, |_, _| {
            calls += 1;
            Ok(())
        })
        .ok()
        .unwrap();
        assert_eq!(out, s);
        assert_eq!(calls, 0);
    }
}

#[test]
fn scanners_agree_without_doubled_close_braces() {
    for s in ["a{x}b{y}", "{{x}} {a}", "é{ü}", "{a{b}c", "plain", "{a}{{", "x{a}{b}}"] {
        if s.contains("}}") {
            continue;
        }
        let (checked, result) = collect(s);
        assert!(result.is_ok(), "case {}", s);
        let mut formatted: Vec<String> = Vec::new();
        let out = uranus::fmt::format(s, |name, _| {
            formatted.push(name.to_string());
            Ok(())
        });
        assert!(out.is_ok(), "case {}", s);
        assert_eq!(checked, formatted, "case {}", s);
    }
    for (s, at) in [("ab{c", 2usize), ("{a}x{y", 4)] {
        assert!(matches!(collect(s).1, Err(CheckFormatError::UnclosedBrace(i)) if i == at));
        let out = uranus::fmt::format(s, |_, _| Ok(()));
        assert!(matches!(out, Err(CheckFormatError::UnclosedBrace(i)) if i == at));
    }
    // A `{` as the last byte: unclosed for `check_format`, an empty
    // interpolation for `format`.
    assert!(matches!(collect("ab{").1, Err(CheckFormatError::UnclosedBrace(2))));
}

#[test]
fn format_doubled_close_brace_stays_in_interpolation() {
    let mut seen: Vec<String> = Vec::new();
    let out = uranus::fmt::format("{a}}b}c", |s, buf| {
        seen.push(s.to_string());
        buf.push('#');
        Ok(())
    })
    .ok()
    .unwrap();
    assert_eq!(seen, vec!["a}}b".to_string()]);
    assert_eq!(out, "#c");
}

#[test]
fn format_reports_unclosed_brace() {
    match uranus::fmt::format("ab{cd", upper) {
        Err(CheckFormatError::UnclosedBrace(i)) => assert_eq!(i, 2),
        _ => panic!("expected an unclosed brace"),
    }
}

#[test]
fn format_brace_at_end_is_an_empty_interpolation() {
    let mut seen: Vec<String> = Vec::new();
    let out = uranus::fmt::format("ab{", |s, buf| {
        seen.push(s.to_string());
        buf.push('#');
        Ok(())
    })
    .ok()
    .unwrap();
    assert_eq!(seen, vec!["".to_string()]);
    assert_eq!(out, "ab#");
}

#[test]
fn format_passes_the_output_so_far() {
    let mut seen: Vec<String> = Vec::new();
    let out = uranus::fmt::format("x{a}y{b}", |_, buf| {
        seen.push(buf.clone());
        buf.push('!');
        Ok(())
    })
    .ok()
    .unwrap();
    assert_eq!(seen, vec!["x".to_string(), "x!y".to_string()]);
    assert_eq!(out, "x!y!");
}

#[test]
fn format_returns_callback_error() {
    match uranus::fmt::format("a{bad}b", |s, _| Err(CheckFormatError::InvalidInterpolation(s))) {
        Err(CheckFormatError::InvalidInterpolation(s)) => assert_eq!(s, "bad"),
        _ => panic!("expected an invalid interpolation"),
    }
}

#[test]
fn io_error_converts_into_check_format_error() {
    let err: CheckFormatError<'static> =
        CheckFormatError::from(std::io::Error::new(std::io::ErrorKind::Other, "disk"));
    match err {
        CheckFormatError::Io(e) => assert_eq!(e.to_string(), "disk"),
        _ => panic!("expected an I/O error"),
    }
}
