use gcode::chars::{is_blank, is_digit, is_letter, is_number_char, is_sign, is_whitespace, to_upper};
use gcode::number::Number;

fn parts(text: &str) -> Option<(bool, u128, u8)> {
    Number::parse(text).map(|n| (n.negative, n.mantissa, n.scale))
}

#[test]
fn literal_without_point() {
    assert_eq!(Some((false, 5, 0)), parts("5"));
    assert_eq!(Some((false, 9876, 0)), parts("9876"));
    assert_eq!(Some((false, 0, 0)), parts("0"));
}

#[test]
fn literal_with_sign() {
    assert_eq!(Some((false, 5, 0)), parts("+5"));
    assert_eq!(Some((true, 5, 0)), parts("-5"));
    assert_eq!(Some((true, 0, 0)), parts("-0"));
}

#[test]
fn literal_with_fraction() {
    assert_eq!(Some((false, 1234, 2)), parts("12.34"));
    assert_eq!(Some((true, 4567, 2)), parts("-45.67"));
    assert_eq!(Some((false, 50, 1)), parts("5.0"));
    assert_eq!(Some((false, 1234, 4)), parts("0.1234"));
}

#[test]
fn literal_with_bare_point() {
    assert_eq!(Some((true, 3, 1)), parts("-.3"));
    assert_eq!(Some((false, 7, 1)), parts(".7"));
    assert_eq!(Some((false, 2, 0)), parts("+2."));
    assert_eq!(Some((false, 2, 0)), parts("2."));
}

#[test]
fn leading_zeros_do_not_count() {
    assert_eq!(Some((false, 10, 0)), parts("0010"));
    assert_eq!(Some((false, 0, 0)), parts("000"));
    assert_eq!(Some((false, 5, 3)), parts("0.005"));
    assert_eq!(Some((false, 5, 3)), parts(".005"));
}

#[test]
fn text_without_digit_is_no_literal() {
    assert_eq!(None, parts(""));
    assert_eq!(None, parts("."));
    assert_eq!(None, parts("+"));
    assert_eq!(None, parts("-"));
    assert_eq!(None, parts("+."));
    assert_eq!(None, parts("-."));
}

#[test]
fn misplaced_sign_is_no_literal() {
    assert_eq!(None, parts("+-+5"));
    assert_eq!(None, parts("5-"));
    assert_eq!(None, parts("5+5"));
    assert_eq!(None, parts("--5"));
    assert_eq!(None, parts("1.-5"));
}

#[test]
fn second_point_is_no_literal() {
    assert_eq!(None, parts("1.2.3"));
    assert_eq!(None, parts(".."));
    assert_eq!(None, parts("1.."));
}

#[test]
fn foreign_character_is_no_literal() {
    assert_eq!(None, parts("1e5"));
    assert_eq!(None, parts("inf"));
    assert_eq!(None, parts("nan"));
    assert_eq!(None, parts("1 2"));
    assert_eq!(None, parts("12x"));
    assert_eq!(None, parts("\u{0663}"));
    assert_eq!(None, parts("1\u{00bd}"));
}

#[test]
fn literal_of_full_length() {
    let digits = "12345678901234567890123456789012";
    assert_eq!(32, digits.len());
    assert_eq!(Some((false, 12345678901234567890123456789012, 0)), parts(digits));
    let nines = "99999999999999999999999999999999";
    assert_eq!(Some((false, 99999999999999999999999999999999, 0)), parts(nines));
    let fraction = ".1234567890123456789012345678901";
    assert_eq!(32, fraction.len());
    assert_eq!(Some((false, 1234567890123456789012345678901, 31)), parts(fraction));
    let signed = "-123456789012345.678901234567890";
    assert_eq!(32, signed.len());
    assert_eq!(Some((true, 123456789012345678901234567890, 15)), parts(signed));
}

#[test]
fn literal_over_length_is_refused() {
    let digits = "123456789012345678901234567890123";
    assert_eq!(33, digits.len());
    assert_eq!(None, parts(digits));
    assert_eq!(None, parts("000000000000000000000000000000001"));
    assert_eq!(None, parts("+12345678901234567890123456789012"));
}

#[test]
fn literal_agrees_with_float_parsing() {
    let samples = [
        "5", "+5", "-5", "5.0", "-5.0", "-.3", ".7", "+2.", "42.3", "0.1234", "12.34", "-45.67",
        "9876", "000", "100", "0010", "-0", "3.", "+.5", ".", "+", "", "1.2.3", "+-+5", "5-",
    ];
    for text in samples {
        let float: Option<f64> = text.parse().ok();
        let ours: Option<f64> = Number::parse(text).map(|n| {
            let sign = if n.negative { "-" } else { "" };
            format!("{}{}e-{}", sign, n.mantissa, n.scale).parse().unwrap()
        });
        assert_eq!(float, ours, "{:?}", text);
        if let (Some(float), Some(number)) = (float, Number::parse(text)) {
            assert_eq!(float.is_sign_negative(), number.negative, "{:?}", text);
        }
    }
}

#[test]
fn classes_of_characters() {
    assert!(is_blank(' '));
    assert!(is_blank('\t'));
    assert!(!is_blank('\n'));
    assert!(!is_blank('\r'));
    assert!(!is_blank('x'));
    for c in ['a', 'z', 'A', 'Z', 'g', 'N'] {
        assert!(is_letter(c));
    }
    for c in ['@', '[', '`', '{', '0', ' ', '\u{e9}'] {
        assert!(!is_letter(c));
    }
    for c in ['0', '5', '9'] {
        assert!(is_digit(c));
        assert!(is_number_char(c));
    }
    for c in ['/', ':', 'a', '\u{0663}'] {
        assert!(!is_digit(c));
        assert!(!is_number_char(c));
    }
    assert!(is_sign('+'));
    assert!(is_sign('-'));
    assert!(!is_sign('.'));
    assert!(is_number_char('+'));
    assert!(is_number_char('-'));
    assert!(is_number_char('.'));
    assert!(!is_number_char(','));
}

#[test]
fn upper_case_of_every_character() {
    for code in 0..0x800u32 {
        if let Some(c) = char::from_u32(code) {
            assert_eq!(c.to_ascii_uppercase(), to_upper(c));
            assert_eq!(c.is_ascii_alphabetic(), is_letter(c));
            assert_eq!(c.is_ascii_digit(), is_digit(c));
        }
    }
}

#[test]
fn whitespace_is_what_trimming_removes() {
    for code in 0..0x11000u32 {
        if let Some(c) = char::from_u32(code) {
            assert_eq!(c.is_whitespace(), is_whitespace(c), "{:x}", code);
        }
    }
}
