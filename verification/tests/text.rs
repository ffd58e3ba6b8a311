use uranus::bytes::{byte_range, find_byte};
use uranus::number::parse_u32;
use uranus::text::{same_text, trimmed_text};

#[test]
fn parse_u32_agrees_with_std() {
    let cases = [
        "0", "7", "42", "007", "+5", "+", "", "-0", "-5", "4294967295", "4294967296",
        "99999999999999999999", " 1", "1 ", "1_000", "12a", "٣", "+-1", "++1", "0x10",
    ];
    for case in cases {
        assert_eq!(parse_u32(case), case.parse::<u32>().ok(), "case {:?}", case);
    }
}

#[test]
fn parse_u32_values() {
    assert_eq!(parse_u32("3"), Some(3));
    assert_eq!(parse_u32("4294967295"), Some(u32::MAX));
    assert_eq!(parse_u32("4294967296"), None);
    assert_eq!(parse_u32(""), None);
}

#[test]
fn trimmed_text_agrees_with_std() {
    let cases = [
        "", "abc", "abc \n\t", "  lead", "mid dle  ", "\u{3000}x\u{3000}", "x\u{a0}\u{85}",
        "é \u{2028}", "only   ", "\r\n", "ends with nbsp\u{202f}\u{205f}\u{1680}\u{200a}",
        "zero width\u{200b}",
    ];
    for case in cases {
        assert_eq!(trimmed_text(case), case.trim_end(), "case {:?}", case);
    }
}

#[test]
fn trimmed_readme_text() {
    assert_eq!(trimmed_text("# Title\n\nBody.\n\n"), "# Title\n\nBody.");
}

#[test]
fn same_text_compares_contents() {
    assert!(same_text("abc", "abc"));
    assert!(same_text("", ""));
    assert!(!same_text("abc", "abd"));
    assert!(!same_text("abc", "ab"));
    assert!(same_text("héé", "héé"));
}

#[test]
fn find_byte_from_position() {
    let bytes = "a{b{c".as_bytes();
    assert_eq!(find_byte(bytes, 0, b'{'), Some(1));
    assert_eq!(find_byte(bytes, 2, b'{'), Some(3));
    assert_eq!(find_byte(bytes, 4, b'{'), None);
    assert_eq!(find_byte(bytes, 5, b'{'), None);
}

#[test]
fn byte_range_cuts_next_to_ascii() {
    let s = "é{ü}ß";
    assert_eq!(byte_range(s, 3, 5), "ü");
    assert_eq!(byte_range(s, 0, 2), "é");
    assert_eq!(byte_range(s, 6, 8), "ß");
}
