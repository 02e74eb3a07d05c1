use cl_parser::parser::text::{decimal_string, letter, trim, whitespace};

#[test]
fn whitespace_agrees_with_the_unicode_property() {
    for n in 0u32..=0x10ffff {
        if let Some(c) = char::from_u32(n) {
            assert_eq!(whitespace(c), c.is_whitespace(), "U+{:04X}", n);
        }
    }
}

#[test]
fn whitespace_on_named_characters() {
    for c in [' ', '\t', '\n', '\u{b}', '\u{c}', '\r', '\u{85}', '\u{a0}', '\u{2009}', '\u{3000}'] {
        assert!(whitespace(c));
    }
    for c in ['a', '0', '\u{8}', '\u{e}', '\u{1f}', '\u{200b}', '\u{180e}', '\u{feff}'] {
        assert!(!whitespace(c));
    }
}

#[test]
fn letter_is_ascii_alphabetic() {
    for n in 0u32..=0x10ffff {
        if let Some(c) = char::from_u32(n) {
            assert_eq!(letter(c), c.is_ascii_alphabetic(), "U+{:04X}", n);
        }
    }
}

#[test]
fn trim_removes_whitespace_at_both_ends_only() {
    assert_eq!(trim("  cmd a  "), "cmd a");
    assert_eq!(trim("cmd a"), "cmd a");
    assert_eq!(trim("\t a \t b \n"), "a \t b");
    assert_eq!(trim(""), "");
    assert_eq!(trim(" \t\n"), "");
    assert_eq!(trim("x"), "x");
    assert_eq!(trim(" x"), "x");
    assert_eq!(trim("x "), "x");
}

#[test]
fn trim_agrees_with_the_standard_library() {
    for s in [
        "",
        " ",
        "a",
        " a b ",
        "\u{3000}\u{e9} \u{e8}\u{a0}",
        "\u{200b} x \u{200b}",
        "\r\n\t  line\twith tabs \r\n",
        "\u{1f600}  ",
    ] {
        assert_eq!(trim(s), s.trim());
    }
}

#[test]
fn decimal_string_writes_every_digit() {
    assert_eq!(decimal_string(0), "0");
    assert_eq!(decimal_string(7), "7");
    assert_eq!(decimal_string(9), "9");
    assert_eq!(decimal_string(10), "10");
    assert_eq!(decimal_string(1234567890), "1234567890");
    assert_eq!(decimal_string(usize::MAX), format!("{}", usize::MAX));
}
