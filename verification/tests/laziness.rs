use std::cell::Cell;

use gcode::lexer::{Lexer, Token};
use gcode::parser::Parser;

#[test]
fn character_reader_reads_up_to_the_character_it_holds() {
    let pulled = Cell::new(0);
    let input = " \ta  b c".chars().inspect(|_| pulled.set(pulled.get() + 1));
    let mut r = gcode::lexer::Reader::new(input);
    assert_eq!(Some('a'), r.current());
    assert_eq!(3, pulled.get());
    assert_eq!(Some('a'), r.current());
    assert_eq!(3, pulled.get());
    assert_eq!('a', r.enhance());
    assert_eq!(Some('b'), r.current());
    assert_eq!(6, pulled.get());
    assert_eq!('b', r.enhance());
    assert_eq!(8, pulled.get());
    assert_eq!('c', r.enhance());
    assert_eq!(None, r.current());
    assert_eq!(8, pulled.get());
}

#[test]
fn character_reader_of_blanks_reads_to_the_end() {
    let pulled = Cell::new(0);
    let input = "   ".chars().inspect(|_| pulled.set(pulled.get() + 1));
    let r = gcode::lexer::Reader::new(input);
    assert_eq!(None, r.current());
    assert_eq!(3, pulled.get());
}

#[test]
fn character_reader_leaves_the_rest_to_its_input() {
    let mut input = " a b".chars();
    {
        let r = gcode::lexer::Reader::new(input.by_ref());
        assert_eq!(Some('a'), r.current());
    }
    assert_eq!(" b", input.as_str());
}

#[test]
fn lexer_reads_one_character_ahead() {
    let pulled = Cell::new(0);
    let input = " G 1 2 X ( c ) 3".chars().inspect(|_| pulled.set(pulled.get() + 1));
    let mut l = Lexer::new(input);
    assert_eq!(2, pulled.get());
    assert_eq!(Some(Token::Letter('G')), l.next().unwrap());
    assert_eq!(4, pulled.get());
    assert!(matches!(l.next().unwrap(), Some(Token::Number(_))));
    assert_eq!(8, pulled.get());
    assert_eq!(Some(Token::Letter('X')), l.next().unwrap());
    assert_eq!(10, pulled.get());
    assert!(matches!(l.next().unwrap(), Some(Token::Number(_))));
    assert_eq!(16, pulled.get());
    assert_eq!(None, l.next().unwrap());
    assert_eq!(16, pulled.get());
}

#[test]
fn line_reader_reads_up_to_the_line_it_holds() {
    let pulled = Cell::new(0);
    let lines = vec!["", "  ", " G1 ", "", "G2", " ", "G3"];
    let input = lines.into_iter().inspect(|_| pulled.set(pulled.get() + 1));
    let mut r = gcode::parser::Reader::new(input);
    assert_eq!(Some("G1"), r.current());
    assert_eq!(3, pulled.get());
    assert_eq!("G1", r.enhance());
    assert_eq!(Some("G2"), r.current());
    assert_eq!(5, pulled.get());
    assert_eq!("G2", r.enhance());
    assert_eq!(7, pulled.get());
    assert_eq!("G3", r.enhance());
    assert_eq!(None, r.current());
    assert_eq!(7, pulled.get());
}

#[test]
fn line_reader_leaves_the_rest_to_its_input() {
    let mut input = vec!["", "G1", "", "G2"].into_iter();
    {
        let r = gcode::parser::Reader::new(input.by_ref());
        assert_eq!(Some("G1"), r.current());
    }
    assert_eq!(vec!["", "G2"], input.collect::<Vec<_>>());
}

#[test]
fn parser_pulls_one_line_for_each_block() {
    let pulled = Cell::new(0);
    let input = "G1\n\nG2\nG".lines().inspect(|_| pulled.set(pulled.get() + 1));
    let mut p = Parser::new(input);
    assert_eq!(0, pulled.get());
    assert!(p.next().unwrap().is_some());
    assert_eq!(1, pulled.get());
    assert!(p.next().unwrap().unwrap().words.is_empty());
    assert_eq!(2, pulled.get());
    assert!(p.next().unwrap().is_some());
    assert_eq!(3, pulled.get());
    assert!(p.next().is_err());
    assert_eq!(4, pulled.get());
    assert!(p.next().unwrap().is_none());
    assert_eq!(4, pulled.get());
}
