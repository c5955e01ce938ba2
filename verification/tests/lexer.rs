use gcode::lexer::{Lexer, Reader, Token};

/// A token with its number as a float.
#[derive(Debug, Clone, Copy, PartialEq)]
enum Tok {
    BlockDelete,
    Letter(char),
    Number(f64),
    Demarcation,
}

fn tok(token: Option<Token>) -> Option<Tok> {
    token.map(|token| match token {
        Token::BlockDelete => Tok::BlockDelete,
        Token::Letter(c) => Tok::Letter(c),
        Token::Number(n) => {
            let sign = if n.negative { "-" } else { "" };
            Tok::Number(format!("{}{}e-{}", sign, n.mantissa, n.scale).parse().unwrap())
        }
        Token::Demarcation => Tok::Demarcation,
    })
}

#[test]
fn test_reader_empty() {
    let r = Reader::new("".chars());
    assert_eq!(None, r.current());
}

#[test]
fn test_reader_last() {
    let mut r = Reader::new("x".chars());
    assert_eq!(Some('x'), r.current());
    assert_eq!('x', r.enhance());

    assert_eq!(None, r.current());
}

#[test]
fn test_reader_many() {
    let mut r = Reader::new("satanarchaeolidealcohellish".chars());
    assert_eq!(Some('s'), r.current());
    assert_eq!('s', r.enhance());

    assert_eq!(Some('a'), r.current());
    assert_eq!('a', r.enhance());

    assert_eq!(Some('t'), r.current());
    assert_eq!('t', r.enhance());
    assert_eq!('a', r.enhance());
    assert_eq!('n', r.enhance());
}

#[test]
fn test_reader_whitespaces() {
    let mut r = Reader::new("x \t y \n z".chars());
    assert_eq!('x', r.enhance());
    assert_eq!('y', r.enhance());
    assert_eq!('\n', r.enhance());
    assert_eq!('z', r.enhance());
    assert_eq!(None, r.current());
}

#[test]
fn test_lex_empty() {
    let mut l = Lexer::new("".chars());
    assert_eq!(None, tok(l.next().unwrap()));
}

#[test]
fn test_lex_block_delete() {
    let mut l = Lexer::new("/".chars());
    assert_eq!(Some(Tok::BlockDelete), tok(l.next().unwrap()));
    assert_eq!(None, tok(l.next().unwrap()));
}

#[test]
fn test_lex_demarcation() {
    let mut l = Lexer::new("%".chars());
    assert_eq!(Some(Tok::Demarcation), tok(l.next().unwrap()));
    assert_eq!(None, tok(l.next().unwrap()));
}

#[test]
fn test_lex_letter() {
    let mut l = Lexer::new("G".chars());
    assert_eq!(Some(Tok::Letter('G')), tok(l.next().unwrap()));
    assert_eq!(None, tok(l.next().unwrap()));
}

#[test]
fn test_lex_number() {
    let mut l = Lexer::new("5".chars());
    assert_eq!(Some(Tok::Number(5.0)), tok(l.next().unwrap()));
    assert_eq!(None, tok(l.next().unwrap()));

    let mut l = Lexer::new("X5 X+5 X-5 X5.0 X-5.0 X-.3 X.7 X+2. X + 4 2 . 3".chars());
    assert_eq!(Some(Tok::Letter('X')), tok(l.next().unwrap()));
    assert_eq!(Some(Tok::Number(5.0)), tok(l.next().unwrap()));
    assert_eq!(Some(Tok::Letter('X')), tok(l.next().unwrap()));
    assert_eq!(Some(Tok::Number(5.0)), tok(l.next().unwrap()));
    assert_eq!(Some(Tok::Letter('X')), tok(l.next().unwrap()));
    assert_eq!(Some(Tok::Number(-5.0)), tok(l.next().unwrap()));
    assert_eq!(Some(Tok::Letter('X')), tok(l.next().unwrap()));
    assert_eq!(Some(Tok::Number(5.0)), tok(l.next().unwrap()));
    assert_eq!(Some(Tok::Letter('X')), tok(l.next().unwrap()));
    assert_eq!(Some(Tok::Number(-5.0)), tok(l.next().unwrap()));
    assert_eq!(Some(Tok::Letter('X')), tok(l.next().unwrap()));
    assert_eq!(Some(Tok::Number(-0.3)), tok(l.next().unwrap()));
    assert_eq!(Some(Tok::Letter('X')), tok(l.next().unwrap()));
    assert_eq!(Some(Tok::Number(0.7)), tok(l.next().unwrap()));
    assert_eq!(Some(Tok::Letter('X')), tok(l.next().unwrap()));
    assert_eq!(Some(Tok::Number(2.)), tok(l.next().unwrap()));
    assert_eq!(Some(Tok::Letter('X')), tok(l.next().unwrap()));
    assert_eq!(Some(Tok::Number(42.3)), tok(l.next().unwrap()));
}

#[test]
fn test_lex_whitespaces() {
    let mut l = Lexer::new(" / N123 G1  ".chars());
    assert_eq!(Some(Tok::BlockDelete), tok(l.next().unwrap()));
    assert_eq!(Some(Tok::Letter('N')), tok(l.next().unwrap()));
    assert_eq!(Some(Tok::Number(123.0)), tok(l.next().unwrap()));
    assert_eq!(Some(Tok::Letter('G')), tok(l.next().unwrap()));
    assert_eq!(Some(Tok::Number(1.0)), tok(l.next().unwrap()));
    assert_eq!(None, tok(l.next().unwrap()));
}

#[test]
fn test_lex_example_01() {
    // From "The NIST RS274NGC Interpreter - Version 3"
    let mut l = Lexer::new("g0x +0. 1234y 7".chars());
    assert_eq!(Some(Tok::Letter('G')), tok(l.next().unwrap()));
    assert_eq!(Some(Tok::Number(0.0)), tok(l.next().unwrap()));
    assert_eq!(Some(Tok::Letter('X')), tok(l.next().unwrap()));
    assert_eq!(Some(Tok::Number(0.1234)), tok(l.next().unwrap()));
    assert_eq!(Some(Tok::Letter('Y')), tok(l.next().unwrap()));
    assert_eq!(Some(Tok::Number(7.0)), tok(l.next().unwrap()));
    assert_eq!(None, tok(l.next().unwrap()));
}

#[test]
fn test_lex_block_comment() {
    let mut l = Lexer::new("G (ignored) G".chars());
    assert_eq!(Some(Tok::Letter('G')), tok(l.next().unwrap()));
    assert_eq!(Some(Tok::Letter('G')), tok(l.next().unwrap()));
    assert_eq!(None, tok(l.next().unwrap()));
}

#[test]
fn test_lex_line_comment() {
    let mut l = Lexer::new("G ;ignored G".chars());
    assert_eq!(Some(Tok::Letter('G')), tok(l.next().unwrap()));
    assert_eq!(None, tok(l.next().unwrap()));
}
