use gcode::lexer::{Lexer, LexerError, Reader, Token};
use gcode::number::Number;

fn number(negative: bool, mantissa: u128, scale: u8) -> Token {
    Token::Number(Number { negative, mantissa, scale })
}

/// Every token of `text`, and the error that ended them if one did.
fn scan(text: &str) -> (Vec<Token>, Option<LexerError>) {
    let mut lexer = Lexer::new(text.chars());
    let mut tokens = Vec::new();
    loop {
        match lexer.next() {
            Ok(Some(token)) => tokens.push(token),
            Ok(None) => return (tokens, None),
            Err(e) => return (tokens, Some(e)),
        }
    }
}

fn tokens(text: &str) -> Vec<Token> {
    let (tokens, failure) = scan(text);
    assert!(failure.is_none(), "{:?}", failure);
    tokens
}

#[test]
fn reader_passes_over_leading_blanks() {
    let mut r = Reader::new(" \t x".chars());
    assert_eq!(Some('x'), r.current());
    assert_eq!('x', r.enhance());
    assert_eq!(None, r.current());
}

#[test]
fn reader_of_blanks_only() {
    let r = Reader::new(" \t  \t".chars());
    assert_eq!(None, r.current());
}

#[test]
fn reader_keeps_line_feeds_and_other_whitespace() {
    let mut r = Reader::new("\n\r \u{a0}".chars());
    assert_eq!('\n', r.enhance());
    assert_eq!('\r', r.enhance());
    assert_eq!('\u{a0}', r.enhance());
    assert_eq!(None, r.current());
}

#[test]
fn reader_current_does_not_move() {
    let r = Reader::new("ab".chars());
    assert_eq!(Some('a'), r.current());
    assert_eq!(Some('a'), r.current());
}

#[test]
fn reader_over_any_iterator() {
    let mut r = Reader::new(vec!['a', ' ', 'b'].into_iter());
    assert_eq!('a', r.enhance());
    assert_eq!('b', r.enhance());
    assert_eq!(None, r.current());
}

#[test]
fn letters_come_out_in_upper_case() {
    assert_eq!(vec![Token::Letter('G'), Token::Letter('G')], tokens("gG"));
    assert_eq!(vec![Token::Letter('X'), Token::Letter('Z'), Token::Letter('A')], tokens("x z a"));
}

#[test]
fn every_letter_lexes_alike_in_both_cases() {
    for c in 'a'..='z' {
        let lower = format!("{}1", c);
        let upper = format!("{}1", c.to_ascii_uppercase());
        assert_eq!(tokens(&lower), tokens(&upper));
        assert_eq!(vec![Token::Letter(c.to_ascii_uppercase()), number(false, 1, 0)], tokens(&lower));
    }
}

#[test]
fn number_takes_the_whole_run() {
    assert_eq!(vec![number(false, 423, 1)], tokens(" + 4 2 . 3"));
    assert_eq!(vec![Token::Letter('X'), number(false, 1234, 4), Token::Letter('Y')], tokens("x +0. 1234y"));
}

#[test]
fn number_ends_at_the_first_other_character() {
    assert_eq!(vec![number(false, 1, 0), Token::Letter('G'), number(false, 2, 0)], tokens("1G2"));
    assert_eq!(vec![number(false, 1, 0), Token::BlockDelete, number(false, 2, 0)], tokens("1/2"));
    assert_eq!(vec![number(false, 1, 0), number(false, 2, 0)], tokens("1(c)2"));
}

#[test]
fn end_is_reported_again_and_again() {
    let mut l = Lexer::new("G".chars());
    assert_eq!(Some(Token::Letter('G')), l.next().unwrap());
    assert_eq!(None, l.next().unwrap());
    assert_eq!(None, l.next().unwrap());
    assert_eq!(None, l.next().unwrap());
}

#[test]
fn illegal_symbol_is_reported_with_the_symbol() {
    for c in ['@', '#', '*', '!', ')', '=', '\r', '\u{e9}', ','] {
        let text = format!("G1 {} X2", c);
        let (tokens, failure) = scan(&text);
        assert_eq!(vec![Token::Letter('G'), number(false, 1, 0)], tokens);
        match failure {
            Some(LexerError::IllegalSymbol { symbol }) => assert_eq!(c, symbol),
            other => panic!("{:?}", other),
        }
    }
}

#[test]
fn illegal_symbol_stays_pending() {
    let mut l = Lexer::new("@G".chars());
    assert!(matches!(l.next(), Err(LexerError::IllegalSymbol { symbol: '@' })));
    assert!(matches!(l.next(), Err(LexerError::IllegalSymbol { symbol: '@' })));
}

#[test]
fn invalid_number_is_reported_with_its_text() {
    for (text, run) in [
        ("+-+5", "+-+5"),
        ("X1.2.3", "1.2.3"),
        ("X.", "."),
        ("X+", "+"),
        ("X - Y", "-"),
        ("5-", "5-"),
        ("1 + 1", "1+1"),
        ("X 1 . 2 . 3 Y", "1.2.3"),
    ] {
        let (_, failure) = scan(text);
        match failure {
            Some(LexerError::InvalidNumber { text }) => assert_eq!(run, text),
            other => panic!("{:?}", other),
        }
    }
}

#[test]
fn invalid_number_is_passed_over() {
    let mut l = Lexer::new("1.2.3G".chars());
    assert!(matches!(l.next(), Err(LexerError::InvalidNumber { .. })));
    assert_eq!(Some(Token::Letter('G')), l.next().unwrap());
    assert_eq!(None, l.next().unwrap());
}

#[test]
fn number_that_fills_the_buffer() {
    let digits = "12345678901234567890123456789012";
    assert_eq!(32, digits.len());
    assert_eq!(vec![number(false, 12345678901234567890123456789012, 0)], tokens(digits));
    let text = format!("X{}Y", digits);
    assert_eq!(
        vec![Token::Letter('X'), number(false, 12345678901234567890123456789012, 0), Token::Letter('Y')],
        tokens(&text)
    );
}

#[test]
fn number_that_overflows_the_buffer() {
    let digits = "123456789012345678901234567890123";
    assert_eq!(33, digits.len());
    let (tokens, failure) = scan(digits);
    assert!(tokens.is_empty());
    match failure {
        Some(LexerError::InvalidNumber { text }) => {
            assert_eq!("12345678901234567890123456789012", text)
        }
        other => panic!("{:?}", other),
    }
}

#[test]
fn overflowing_number_is_passed_over_whole() {
    let long = "1".repeat(100);
    let text = format!("{} G", long);
    let mut l = Lexer::new(text.chars());
    match l.next() {
        Err(LexerError::InvalidNumber { text }) => assert_eq!("1".repeat(32), text),
        other => panic!("{:?}", other),
    }
    assert_eq!(Some(Token::Letter('G')), l.next().unwrap());
    assert_eq!(None, l.next().unwrap());
}

#[test]
fn overflow_counts_characters_without_blanks() {
    let spaced = "1 ".repeat(32);
    assert_eq!(vec![number(false, 11111111111111111111111111111111, 0)], tokens(&spaced));
    let spaced = "1 ".repeat(33);
    assert!(matches!(scan(&spaced).1, Some(LexerError::InvalidNumber { .. })));
}

#[test]
fn block_comment_is_dropped() {
    assert_eq!(vec![Token::Letter('G'), Token::Letter('G')], tokens("G (ignored) G"));
    assert_eq!(vec![Token::Letter('G')], tokens("(first) G"));
    assert_eq!(vec![Token::Letter('G')], tokens("G (last)"));
    assert!(tokens("(alone)").is_empty());
    assert!(tokens("()").is_empty());
}

#[test]
fn block_comment_may_hold_anything_but_its_end() {
    assert_eq!(vec![Token::Letter('G')], tokens("(@#;( /% 1.2.3 \u{e9})G"));
}

#[test]
fn block_comment_ends_at_the_first_closing() {
    let (tokens, failure) = scan("(a(b)c)G");
    assert_eq!(vec![Token::Letter('C')], tokens);
    assert!(matches!(failure, Some(LexerError::IllegalSymbol { symbol: ')' })));
}

#[test]
fn block_comment_without_end_runs_to_the_end() {
    assert_eq!(vec![Token::Letter('G')], tokens("G (never closed G1 X2"));
}

#[test]
fn second_comment_in_a_row_is_not_dropped() {
    let (tokens, failure) = scan("G(a)(b)");
    assert_eq!(vec![Token::Letter('G')], tokens);
    assert!(matches!(failure, Some(LexerError::IllegalSymbol { symbol: '(' })));
    let (_, failure) = scan("(a);b");
    assert!(matches!(failure, Some(LexerError::IllegalSymbol { symbol: ';' })));
}

#[test]
fn line_comment_is_dropped() {
    assert_eq!(vec![Token::Letter('G')], tokens("G ;ignored G"));
    assert!(tokens(";alone").is_empty());
    assert!(tokens(";").is_empty());
    assert_eq!(vec![Token::Letter('G'), number(false, 1, 0)], tokens("G1;(x) @ ; y"));
}

#[test]
fn line_comment_ends_before_the_line_feed() {
    let mut l = Lexer::new("G;c\nX".chars());
    assert_eq!(Some(Token::Letter('G')), l.next().unwrap());
    assert!(matches!(l.next(), Err(LexerError::IllegalSymbol { symbol: '\n' })));
}

#[test]
fn block_comment_behind_a_line_comment_on_the_next_line() {
    let mut r = Reader::new(";c\n(d)G".chars());
    assert_eq!(';', r.enhance());
    let mut l = Lexer::new(";c\n(d)G".chars());
    assert!(matches!(l.next(), Err(LexerError::IllegalSymbol { symbol: '\n' })));
}

#[test]
fn checksum_marker_is_illegal() {
    let (tokens, failure) = scan("N3 T0*57");
    assert_eq!(
        vec![Token::Letter('N'), number(false, 3, 0), Token::Letter('T'), number(false, 0, 0)],
        tokens
    );
    assert!(matches!(failure, Some(LexerError::IllegalSymbol { symbol: '*' })));
}

#[test]
fn lexer_ends_on_any_mix_of_its_alphabet() {
    let alphabet = ['a', 'Z', '0', '9', '+', '-', '.', ' ', '\t', '(', ')', ';', '/', '%', '\n'];
    let mut seed: u32 = 12345;
    for _ in 0..500 {
        let mut text = String::new();
        for _ in 0..40 {
            seed = seed.wrapping_mul(1103515245).wrapping_add(12345);
            text.push(alphabet[(seed >> 16) as usize % alphabet.len()]);
        }
        let pending = text.chars().filter(|c| *c != ' ' && *c != '\t').count();
        let (tokens, failure) = scan(&text);
        assert!(tokens.len() <= pending);
        match failure {
            None => {}
            Some(LexerError::IllegalSymbol { symbol }) => assert!(text.contains(symbol)),
            Some(LexerError::InvalidNumber { text: run }) => {
                assert!(!run.is_empty());
                assert!(run.len() <= 32);
                assert!(run.chars().all(|c| c.is_ascii_digit() || c == '+' || c == '-' || c == '.'));
                assert!(run.parse::<f64>().is_err() || run.len() == 32);
            }
        }
    }
}

#[test]
fn blanks_do_not_change_the_tokens() {
    let text = "/N10g1x+0.1234y7(c)z-.5;end";
    let plain = scan(text).0;
    for at in 0..=text.len() {
        for blanks in [" ", "\t", "  \t "] {
            let mut spaced = String::from(&text[..at]);
            spaced.push_str(blanks);
            spaced.push_str(&text[at..]);
            assert_eq!(plain, tokens(&spaced), "{:?}", spaced);
        }
    }
}
