use gcode::parser::{Block, Parser, Word};

/// A word with its number as a float.
#[derive(Debug, Clone, Copy, PartialEq)]
struct W {
    mnemonic: char,
    value: f64,
}

/// A block with its numbers as floats.
#[derive(Debug, Clone, PartialEq)]
struct B {
    line_number: Option<f64>,
    deleted: bool,
    words: Vec<W>,
    line: String,
}

fn float(n: gcode::number::Number) -> f64 {
    let sign = if n.negative { "-" } else { "" };
    format!("{}{}e-{}", sign, n.mantissa, n.scale).parse().unwrap()
}

fn word(word: &Word) -> W {
    W { mnemonic: word.mnemonic, value: float(word.value) }
}

fn block(block: Option<Block>) -> Option<B> {
    block.map(|block| B {
        line_number: block.line_number.map(float),
        deleted: block.deleted,
        words: block.words.iter().map(word).collect(),
        line: block.line,
    })
}

#[test]
fn test_parser_empty() {
    let mut p = Parser::new("".lines());
    assert_eq!(None, block(p.next().unwrap()));
}

#[test]
fn test_parser_simple() {
    let mut p = Parser::new("G1".lines());
    assert_eq!(Some(B {
        line_number: None,
        deleted: false,
        words: vec![W { mnemonic: 'G', value: 1.0 }],
        line: "G1".to_owned(),
    }), block(p.next().unwrap()));
}

#[test]
fn test_parser_multiple() {
    let mut p = Parser::new("G1 X12.34 Y-45.67".lines());
    assert_eq!(Some(B {
        line_number: None,
        deleted: false,
        words: vec![W { mnemonic: 'G', value: 1.0 },
                    W { mnemonic: 'X', value: 12.34 },
                    W { mnemonic: 'Y', value: -45.67 }],
        line: "G1 X12.34 Y-45.67".to_owned(),
    }), block(p.next().unwrap()));
}

#[test]
fn test_parser_line_number() {
    let mut p = Parser::new("G1 N9876 X12.34 Y-45.67".lines());
    assert_eq!(Some(B {
        line_number: Some(9876.0),
        deleted: false,
        words: vec![W { mnemonic: 'G', value: 1.0 },
                    W { mnemonic: 'X', value: 12.34 },
                    W { mnemonic: 'Y', value: -45.67 }],
        line: "G1 N9876 X12.34 Y-45.67".to_owned(),
    }), block(p.next().unwrap()));
}

#[test]
fn test_parser_deleted() {
    let mut p = Parser::new("/ G1 X100".lines());
    assert_eq!(Some(B {
        line_number: None,
        deleted: true,
        words: vec![W { mnemonic: 'G', value: 1.0 },
                    W { mnemonic: 'X', value: 100.0 }],
        line: "/ G1 X100".to_owned(),
    }), block(p.next().unwrap()));
}

#[test]
fn test_parser_multiline() {
    let mut p = Parser::new("N0010 G1 X000 Y000\nN0020 G1 X100 Y000\nN0030 G1 X100 Y100\nN0040 G1 X000 Y100\nN0050 G1 X000 Y000\n".lines());
    assert_eq!(Some(B {
        line_number: Some(10.0),
        deleted: false,
        words: vec![W { mnemonic: 'G', value: 1.0 },
                    W { mnemonic: 'X', value: 000.0 },
                    W { mnemonic: 'Y', value: 000.0 }],
        line: "N0010 G1 X000 Y000".to_owned(),
    }), block(p.next().unwrap()));
    assert_eq!(Some(B {
        line_number: Some(20.0),
        deleted: false,
        words: vec![W { mnemonic: 'G', value: 1.0 },
                    W { mnemonic: 'X', value: 100.0 },
                    W { mnemonic: 'Y', value: 000.0 }],
        line: "N0020 G1 X100 Y000".to_owned(),
    }), block(p.next().unwrap()));
    assert_eq!(Some(B {
        line_number: Some(30.0),
        deleted: false,
        words: vec![W { mnemonic: 'G', value: 1.0 },
                    W { mnemonic: 'X', value: 100.0 },
                    W { mnemonic: 'Y', value: 100.0 }],
        line: "N0030 G1 X100 Y100".to_owned(),
    }), block(p.next().unwrap()));
    assert_eq!(Some(B {
        line_number: Some(40.0),
        deleted: false,
        words: vec![W { mnemonic: 'G', value: 1.0 },
                    W { mnemonic: 'X', value: 000.0 },
                    W { mnemonic: 'Y', value: 100.0 }],
        line: "N0040 G1 X000 Y100".to_owned(),
    }), block(p.next().unwrap()));
    assert_eq!(Some(B {
        line_number: Some(50.0),
        deleted: false,
        words: vec![W { mnemonic: 'G', value: 1.0 },
                    W { mnemonic: 'X', value: 000.0 },
                    W { mnemonic: 'Y', value: 000.0 }],
        line: "N0050 G1 X000 Y000".to_owned(),
    }), block(p.next().unwrap()));
}
