use meetily::assertions::parse_i32;
use meetily::text::{char_is_whitespace, is_blank};

#[test]
fn whitespace_agrees_with_the_unicode_property_on_every_char() {
    for code in 0u32..=0x10FFFF {
        if let Some(c) = char::from_u32(code) {
            assert_eq!(char_is_whitespace(c), c.is_whitespace(), "U+{:04X}", code);
        }
    }
}

#[test]
fn blank_means_only_white_space() {
    assert!(is_blank(""));
    assert!(is_blank(" \t\r\n\u{a0}\u{3000}"));
    assert!(!is_blank("meeting-1"));
    assert!(!is_blank("  x  "));
    assert!(!is_blank("\u{200b}"));
}

#[test]
fn decimal_parsing_agrees_with_std() {
    let cases = [
        "", "0", "7", "+7", "-7", "-0", "+", "-", "+-1", "007", "2147483647", "2147483648",
        "-2147483648", "-2147483649", "99999999999999999999", "00000000000000000000001",
        " 1", "1 ", "1_000", "١٢", "12a", "abc",
    ];
    for case in cases {
        assert_eq!(parse_i32(case), case.parse::<i32>().ok(), "{:?}", case);
    }
}
