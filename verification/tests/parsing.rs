use gcode::lexer::{LexerError, Token};
use gcode::number::Number;
use gcode::parser::{parse, parse_all, Block, Parser, ParserError, Word};

fn number(negative: bool, mantissa: u128, scale: u8) -> Number {
    Number { negative, mantissa, scale }
}

fn w(mnemonic: char, mantissa: u128, scale: u8) -> Word {
    Word { mnemonic, value: number(false, mantissa, scale) }
}

fn as_float(n: Number) -> f64 {
    let sign = if n.negative { "-" } else { "" };
    format!("{}{}e-{}", sign, n.mantissa, n.scale).parse().unwrap()
}

fn floats(block: &Block) -> Vec<(char, f64)> {
    block.words.iter().map(|word| (word.mnemonic, as_float(word.value))).collect()
}

/// The block without its text.
fn content(block: Block) -> (Option<Number>, bool, Vec<Word>) {
    (block.line_number, block.deleted, block.words)
}

#[test]
fn one_word() {
    let block = parse("G1").unwrap();
    assert_eq!(None, block.line_number);
    assert!(!block.deleted);
    assert_eq!(vec![('G', 1.0)], floats(&block));
    assert_eq!("G1", block.line);
    assert_eq!(
        Block { line_number: None, deleted: false, words: vec![w('G', 1, 0)], line: "G1".to_owned() },
        block
    );
}

#[test]
fn several_words() {
    let block = parse("G1 X12.34 Y-45.67").unwrap();
    assert_eq!(vec![('G', 1.0), ('X', 12.34), ('Y', -45.67)], floats(&block));
    assert_eq!(None, block.line_number);
    assert!(!block.deleted);
}

#[test]
fn line_number_among_the_words() {
    let block = parse("G1 N9876 X12.34 Y-45.67").unwrap();
    assert_eq!(Some(9876.0), block.line_number.map(as_float));
    assert_eq!(vec![('G', 1.0), ('X', 12.34), ('Y', -45.67)], floats(&block));
}

#[test]
fn deleted_block_with_words() {
    let block = parse("/ G1 X100").unwrap();
    assert!(block.deleted);
    assert_eq!(vec![('G', 1.0), ('X', 100.0)], floats(&block));
    assert_eq!(None, block.line_number);
    assert_eq!("/ G1 X100", block.line);
}

#[test]
fn example_of_the_interpreter_manual() {
    let block = parse("g0x +0. 1234y 7").unwrap();
    assert_eq!(vec![('G', 0.0), ('X', 0.1234), ('Y', 7.0)], floats(&block));
    assert_eq!(vec![w('G', 0, 0), w('X', 1234, 4), w('Y', 7, 0)], block.words);
}

#[test]
fn letter_behind_a_comment_lacks_its_value() {
    assert!(matches!(
        parse("G (ignored) G"),
        Err(ParserError::UnexpectedToken { token: Token::Letter('G') })
    ));
    assert!(matches!(parse("G (ignored)"), Err(ParserError::MissingValue)));
}

#[test]
fn two_lines_with_line_numbers() {
    let program = "N0010 G1 X000 Y000\nN0020 G1 X100 Y000\n";
    let blocks = parse_all(program.lines()).unwrap();
    assert_eq!(2, blocks.len());
    assert_eq!(Some(10.0), blocks[0].line_number.map(as_float));
    assert_eq!(Some(20.0), blocks[1].line_number.map(as_float));
    assert_eq!(vec![('G', 1.0), ('X', 0.0), ('Y', 0.0)], floats(&blocks[0]));
    assert_eq!(vec![('G', 1.0), ('X', 100.0), ('Y', 0.0)], floats(&blocks[1]));
    assert_eq!("N0010 G1 X000 Y000", blocks[0].line);
    assert_eq!("N0020 G1 X100 Y000", blocks[1].line);
}

#[test]
fn empty_input_has_no_blocks() {
    assert!(parse_all("".lines()).unwrap().is_empty());
    assert!(parse_all(Vec::<&str>::new().into_iter()).unwrap().is_empty());
    let mut p = Parser::new("".lines());
    assert!(p.next().unwrap().is_none());
    assert!(p.next().unwrap().is_none());
}

#[test]
fn empty_line_is_an_empty_block() {
    for line in ["", " ", " \t  ", "\r", "(comment)", "  ( comment )  ", ";comment", " ; (x", "(open"] {
        let block = parse(line).unwrap();
        assert_eq!((None, false, vec![]), content(block.clone()), "{:?}", line);
        assert_eq!(line.trim(), block.line);
    }
}

#[test]
fn empty_lines_count_as_blocks() {
    let blocks = parse_all("G1\n\n  \nG2\n".lines()).unwrap();
    assert_eq!(4, blocks.len());
    assert!(blocks[1].words.is_empty());
    assert!(blocks[2].words.is_empty());
    assert_eq!("", blocks[2].line);
}

#[test]
fn bare_block_delete() {
    for line in ["/", " / ", "/(note)", "/ ;note", "\t/\t"] {
        let block = parse(line).unwrap();
        assert_eq!((None, true, vec![]), content(block), "{:?}", line);
    }
}

#[test]
fn block_delete_behind_a_comment() {
    let block = parse("(note) / G1").unwrap();
    assert!(block.deleted);
    assert_eq!(vec![w('G', 1, 0)], block.words);
}

#[test]
fn second_block_delete_is_unexpected() {
    assert!(matches!(parse("//"), Err(ParserError::UnexpectedToken { token: Token::BlockDelete })));
    assert!(matches!(
        parse("/ G1 / X2"),
        Err(ParserError::UnexpectedToken { token: Token::BlockDelete })
    ));
    assert!(matches!(parse("G1 /"), Err(ParserError::UnexpectedToken { token: Token::BlockDelete })));
    assert!(matches!(parse("G /"), Err(ParserError::UnexpectedToken { token: Token::BlockDelete })));
}

#[test]
fn demarcation_is_unexpected() {
    assert!(matches!(parse("%"), Err(ParserError::UnexpectedToken { token: Token::Demarcation })));
    assert!(matches!(parse("/ %"), Err(ParserError::UnexpectedToken { token: Token::Demarcation })));
    assert!(matches!(parse("G1 %"), Err(ParserError::UnexpectedToken { token: Token::Demarcation })));
    assert!(matches!(parse("G %"), Err(ParserError::UnexpectedToken { token: Token::Demarcation })));
}

#[test]
fn number_without_letter_is_unexpected() {
    match parse("12 G1") {
        Err(ParserError::UnexpectedToken { token: Token::Number(n) }) => assert_eq!(number(false, 12, 0), n),
        other => panic!("{:?}", other),
    }
    match parse("G1 (c) 2.5") {
        Err(ParserError::UnexpectedToken { token: Token::Number(n) }) => assert_eq!(number(false, 25, 1), n),
        other => panic!("{:?}", other),
    }
    match parse("/ -1") {
        Err(ParserError::UnexpectedToken { token: Token::Number(n) }) => assert_eq!(number(true, 1, 0), n),
        other => panic!("{:?}", other),
    }
}

#[test]
fn blank_inside_a_number_does_not_end_it() {
    let block = parse("G1 2.5").unwrap();
    assert_eq!(vec![w('G', 125, 1)], block.words);
    let block = parse("X - 1 . 5 Y 2").unwrap();
    assert_eq!(vec![('X', -1.5), ('Y', 2.0)], floats(&block));
}

#[test]
fn letter_without_number_lacks_its_value() {
    for line in ["G", "G1 X", "/ N", "g ", "G1 X2 Y ;end", "M (stop)"] {
        assert!(matches!(parse(line), Err(ParserError::MissingValue)), "{:?}", line);
    }
}

#[test]
fn lexer_error_is_wrapped() {
    assert!(matches!(
        parse("G1 @"),
        Err(ParserError::SyntaxError(LexerError::IllegalSymbol { symbol: '@' }))
    ));
    assert!(matches!(
        parse("@"),
        Err(ParserError::SyntaxError(LexerError::IllegalSymbol { symbol: '@' }))
    ));
    assert!(matches!(
        parse("/ #1"),
        Err(ParserError::SyntaxError(LexerError::IllegalSymbol { symbol: '#' }))
    ));
    assert!(matches!(
        parse("G *"),
        Err(ParserError::SyntaxError(LexerError::IllegalSymbol { symbol: '*' }))
    ));
    match parse("G1 X1.2.3") {
        Err(ParserError::SyntaxError(LexerError::InvalidNumber { text })) => assert_eq!("1.2.3", text),
        other => panic!("{:?}", other),
    }
    match parse("+-+5") {
        Err(ParserError::SyntaxError(LexerError::InvalidNumber { text })) => assert_eq!("+-+5", text),
        other => panic!("{:?}", other),
    }
}

#[test]
fn lexer_error_converts_to_parser_error() {
    let e = ParserError::from(LexerError::IllegalSymbol { symbol: '@' });
    assert!(matches!(e, ParserError::SyntaxError(LexerError::IllegalSymbol { symbol: '@' })));
}

#[test]
fn first_fault_of_a_line_wins() {
    assert!(matches!(
        parse("G G @"),
        Err(ParserError::UnexpectedToken { token: Token::Letter('G') })
    ));
    assert!(matches!(parse("% 1.2.3"), Err(ParserError::UnexpectedToken { token: Token::Demarcation })));
    assert!(matches!(
        parse("@ G G"),
        Err(ParserError::SyntaxError(LexerError::IllegalSymbol { symbol: '@' }))
    ));
}

#[test]
fn overlong_number_is_a_syntax_error() {
    let line = format!("G1 X{}", "9".repeat(33));
    match parse(&line) {
        Err(ParserError::SyntaxError(LexerError::InvalidNumber { text })) => {
            assert_eq!("9".repeat(32), text)
        }
        other => panic!("{:?}", other),
    }
    let line = format!("G1 X{}", "9".repeat(32));
    let block = parse(&line).unwrap();
    assert_eq!(99999999999999999999999999999999u128, block.words[1].value.mantissa);
}

#[test]
fn last_line_number_wins() {
    let block = parse("N1 G1 N2 X3 N4.5").unwrap();
    assert_eq!(Some(number(false, 45, 1)), block.line_number);
    assert_eq!(vec![w('G', 1, 0), w('X', 3, 0)], block.words);
}

#[test]
fn line_number_is_lifted_out_of_the_words() {
    for line in ["N1", "n5 G1", "G1 N5", "/ N10 G1 X2 N20", "G1 X2", "/", "N0"] {
        let block = parse(line).unwrap();
        assert!(block.words.iter().all(|word| word.mnemonic != 'N'));
        assert!(block.words.iter().all(|word| word.mnemonic.is_ascii_uppercase()));
        let has = line.to_ascii_uppercase().contains('N');
        assert_eq!(has, block.line_number.is_some(), "{:?}", line);
    }
}

#[test]
fn words_keep_their_order() {
    let block = parse("Z3 Y2 X1 Z0").unwrap();
    assert_eq!(vec![w('Z', 3, 0), w('Y', 2, 0), w('X', 1, 0), w('Z', 0, 0)], block.words);
}

#[test]
fn line_is_kept_trimmed() {
    let block = parse("  G1 X1 (c) \t").unwrap();
    assert_eq!("G1 X1 (c)", block.line);
    let block = parse("\u{a0}g1\r").unwrap();
    assert_eq!("g1", block.line);
    assert_eq!(vec![w('G', 1, 0)], block.words);
}

#[test]
fn every_letter_parses_alike_in_both_cases() {
    for c in 'a'..='z' {
        let lower = parse(&format!("{}1", c)).unwrap();
        let upper = parse(&format!("{}1", c.to_ascii_uppercase())).unwrap();
        assert_eq!(content(lower), content(upper));
    }
    let lower = parse("/n10 g1 x-2.5 (Note) y.5 ;End").unwrap();
    let upper = parse("/N10 G1 X-2.5 (NOTE) Y.5 ;END").unwrap();
    assert_eq!(content(lower), content(upper));
}

#[test]
fn blanks_do_not_change_the_block() {
    let line = "/N10G1X+0.1234Y7Z-.5";
    let plain = content(parse(line).unwrap());
    for at in 0..=line.len() {
        let spaced = format!("{} \t {}", &line[..at], &line[at..]);
        assert_eq!(plain, content(parse(&spaced).unwrap()), "{:?}", spaced);
    }
}

#[test]
fn comments_between_tokens_do_not_change_the_block() {
    let line = "/N10G1X+0.1234Y7Z-.5";
    let plain = content(parse(line).unwrap());
    let cuts = [0, 1, 2, 4, 5, 6, 7, 14, 15, 16, 17, 20];
    for at in cuts {
        for comment in ["(note)", "()", "( G1 X2 ; @ )"] {
            let with = format!("{}{}{}", &line[..at], comment, &line[at..]);
            assert_eq!(plain, content(parse(&with).unwrap()), "{:?}", with);
        }
    }
    for comment in [";note", ";", "; (x) G1 @ ;"] {
        let with = format!("{}{}", line, comment);
        assert_eq!(plain, content(parse(&with).unwrap()), "{:?}", with);
    }
}

#[test]
fn comment_inside_a_number_splits_it() {
    assert!(matches!(parse("X1(c)2"), Err(ParserError::UnexpectedToken { .. })));
}

#[test]
fn parse_all_stops_at_the_first_error() {
    let r = parse_all("G1\nG\nG2 @\n".lines());
    assert!(matches!(r, Err(ParserError::MissingValue)));
    let r = parse_all("G1\nG2 @\nG\n".lines());
    assert!(matches!(r, Err(ParserError::SyntaxError(LexerError::IllegalSymbol { symbol: '@' }))));
    let r = parse_all(vec!["%", "G1"].into_iter());
    assert!(matches!(r, Err(ParserError::UnexpectedToken { token: Token::Demarcation })));
}

#[test]
fn parse_all_keeps_the_order_of_the_lines() {
    let blocks = parse_all(vec!["G1", "/G2", "N3 G3"].into_iter()).unwrap();
    assert_eq!(3, blocks.len());
    assert_eq!(vec![w('G', 1, 0)], blocks[0].words);
    assert!(blocks[1].deleted);
    assert_eq!(vec![w('G', 2, 0)], blocks[1].words);
    assert_eq!(Some(number(false, 3, 0)), blocks[2].line_number);
}

#[test]
fn parser_goes_on_behind_a_faulty_line() {
    let mut p = Parser::new("G1\nG\nG2\n".lines());
    assert_eq!(vec![w('G', 1, 0)], p.next().unwrap().unwrap().words);
    assert!(matches!(p.next(), Err(ParserError::MissingValue)));
    assert_eq!(vec![w('G', 2, 0)], p.next().unwrap().unwrap().words);
    assert!(p.next().unwrap().is_none());
}

#[test]
fn parser_agrees_with_parse() {
    let program = "N10 G1 X1\n/ G2 (c)\n\nM30 ;end\n";
    let mut p = Parser::new(program.lines());
    for line in program.lines() {
        assert_eq!(Some(parse(line).unwrap()), p.next().unwrap());
    }
    assert_eq!(None, p.next().unwrap());
}
