use vm_compiler::compiler::Compiler;
use vm_compiler::error::{ErrorKind, Reason};
use vm_compiler::token::{Token, TokenKind};

fn compiler() -> Compiler {
    Compiler::new("main.src".to_string())
}

fn lex(line: &str) -> Result<Vec<Token>, Reason> {
    compiler().parse_line(line.to_string(), 7).map_err(|d| d.reason)
}

fn ident(t: &Token) -> String {
    match &t.kind {
        TokenKind::Identifier(s) => s.clone(),
        _ => panic!("not an identifier"),
    }
}

#[test]
fn declaration_tokens() {
    let toks = lex("let x:number = 1.05 + y").unwrap();
    assert_eq!(toks.len(), 6);
    assert_eq!(ident(&toks[0]), "let");
    match &toks[1].kind {
        TokenKind::DoubleIdentifier(a, b) => {
            assert_eq!(a, "x");
            assert_eq!(b, "number");
        }
        _ => panic!("expected a typed identifier"),
    }
    assert!(matches!(toks[2].kind, TokenKind::Equality));
    // the digits after the dot are read as an integer: `1.05` keeps 1 and 5
    assert!(matches!(toks[3].kind, TokenKind::Number { integral: 1, fractional: 5 }));
    assert!(matches!(toks[4].kind, TokenKind::Add));
    assert_eq!(ident(&toks[5]), "y");
    assert!(toks.iter().all(|t| t.line_pos == 7));
}

#[test]
fn empty_and_blank_lines() {
    assert_eq!(lex("").unwrap().len(), 0);
    assert_eq!(lex(" \t \r").unwrap().len(), 0);
}

#[test]
fn comment_ends_the_line() {
    let toks = lex("print a # anything $ goes").unwrap();
    assert_eq!(toks.len(), 2);
    assert_eq!(lex("# only a comment").unwrap().len(), 0);
}

#[test]
fn operators_and_punctuation() {
    let toks = lex("a == b = c , ( ) - * /").unwrap();
    let kinds: Vec<&TokenKind> = toks.iter().map(|t| &t.kind).collect();
    assert!(matches!(kinds[1], TokenKind::DoubleEquality));
    assert!(matches!(kinds[3], TokenKind::Equality));
    assert!(matches!(kinds[5], TokenKind::Comma));
    assert!(matches!(kinds[6], TokenKind::OpenParen));
    assert!(matches!(kinds[7], TokenKind::ClosedParen));
    assert!(matches!(kinds[8], TokenKind::Sub));
    assert!(matches!(kinds[9], TokenKind::Mul));
    assert!(matches!(kinds[10], TokenKind::Div));
    assert_eq!(toks.len(), 11);
}

#[test]
fn colon_joins_only_after_identifier() {
    let toks = lex("x :number").unwrap();
    assert_eq!(toks.len(), 1);
    assert!(matches!(&toks[0].kind, TokenKind::DoubleIdentifier(a, b) if a == "x" && b == "number"));
    let toks = lex("1:number").unwrap();
    assert_eq!(toks.len(), 3);
    assert!(matches!(toks[1].kind, TokenKind::Colon));
    let toks = lex("x: number").unwrap();
    assert_eq!(toks.len(), 3);
    assert!(matches!(toks[1].kind, TokenKind::Colon));
}

#[test]
fn string_literals() {
    let toks = lex("print \"hello world\" 'x'").unwrap();
    assert_eq!(toks.len(), 3);
    assert!(matches!(&toks[1].kind, TokenKind::String(s) if s == "hello world"));
    assert!(matches!(&toks[2].kind, TokenKind::String(s) if s == "x"));
    // either quote closes a string
    let toks = lex("\"a'").unwrap();
    assert!(matches!(&toks[0].kind, TokenKind::String(s) if s == "a"));
    assert_eq!(lex("print \"open").unwrap_err(), Reason::UnclosedString);
}

#[test]
fn numbers() {
    let toks = lex("42 3.14 7. 0.0").unwrap();
    assert!(matches!(toks[0].kind, TokenKind::Number { integral: 42, fractional: 0 }));
    assert!(matches!(toks[1].kind, TokenKind::Number { integral: 3, fractional: 14 }));
    assert!(matches!(toks[2].kind, TokenKind::Number { integral: 7, fractional: 0 }));
    assert!(matches!(toks[3].kind, TokenKind::Number { integral: 0, fractional: 0 }));
    let toks = lex("4294967295").unwrap();
    assert!(matches!(toks[0].kind, TokenKind::Number { integral: 4294967295, fractional: 0 }));
    // a number ends at the first character that is not a digit or its dot
    let toks = lex("12ab").unwrap();
    assert_eq!(toks.len(), 2);
}

#[test]
fn number_errors() {
    assert_eq!(lex("1.2.3").unwrap_err(), Reason::RedundantDot);
    assert_eq!(lex("4294967296").unwrap_err(), Reason::IntegerOverflow);
    assert_eq!(lex("1.99999999999").unwrap_err(), Reason::IntegerOverflow);
}

#[test]
fn identifier_length_limit() {
    let long32 = "a".repeat(32);
    let toks = lex(&long32).unwrap();
    assert_eq!(ident(&toks[0]).len(), 32);
    // 32 characters may not be followed by anything
    assert_eq!(lex(&format!("{} ", long32)).unwrap_err(), Reason::TooLongIdentifier);
    let toks = lex(&format!("{} x", "b".repeat(31))).unwrap();
    assert_eq!(toks.len(), 2);
}

#[test]
fn unrecognized_character() {
    let err = compiler().parse_line("let a = $".to_string(), 2).err().unwrap();
    assert_eq!(err.reason, Reason::UnrecognizedCharacter('$'));
    assert_eq!(err.line_pos, 2);
    assert_eq!(err.kind(), ErrorKind::UnrecognizedCharacter);
    assert_eq!(lex("é").unwrap_err(), Reason::UnrecognizedCharacter('é'));
}

#[test]
fn parse_file_numbers_lines_from_one() {
    let lines = vec!["let a:number = 1".to_string(), "".to_string(), "end".to_string()];
    let toks = compiler().parse_file(lines).ok().unwrap();
    assert_eq!(toks.len(), 3);
    assert!(toks[0].iter().all(|t| t.line_pos == 1));
    assert!(toks[1].is_empty());
    assert_eq!(toks[2][0].line_pos, 3);
}

#[test]
fn parse_file_stops_at_first_bad_line() {
    let lines = vec!["ok".to_string(), "bad ?".to_string(), "also ?".to_string()];
    let err = compiler().parse_file(lines).err().unwrap();
    assert_eq!(err.line_pos, 2);
    assert_eq!(err.reason, Reason::UnrecognizedCharacter('?'));
}

#[test]
fn comment_after_whitespace_changes_nothing() {
    for line in ["", "let x:number = 1.5 ", "print \"a # b\"\t", "set y = f(a, b) "] {
        let plain = lex(line).unwrap();
        let commented = lex(&format!("{}#then $ anything 'unclosed", line)).unwrap();
        assert_eq!(plain, commented);
    }
    // inside a string `#` is text, not a comment
    let toks = lex("print \"a # b\"").unwrap();
    assert!(matches!(&toks[1].kind, TokenKind::String(s) if s == "a # b"));
}
