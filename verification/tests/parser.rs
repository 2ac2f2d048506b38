use vm_compiler::compiler::Compiler;
use vm_compiler::error::{PanicSite, Reason, Stop};
use vm_compiler::syntax::{Command, CommandKind, VariableType};
use vm_compiler::token::{Token, TokenKind};

fn compiler() -> Compiler {
    Compiler::new("prog.src".to_string())
}

fn lines(src: &[&str]) -> Vec<Vec<Token>> {
    compiler().parse_file(src.iter().map(|s| s.to_string()).collect()).ok().unwrap()
}

fn parse(src: &[&str]) -> Result<Vec<Command>, Reason> {
    compiler().parse_tokens(lines(src), &mut Vec::new()).map_err(|d| d.reason)
}

#[test]
fn from_string_knows_number() {
    assert_eq!(VariableType::from_string("number".to_string()), Some(VariableType::Number));
    assert_eq!(VariableType::from_string("Number".to_string()), None);
    assert_eq!(VariableType::from_string("".to_string()), None);
}

#[test]
fn new_keeps_filename() {
    assert_eq!(Compiler::new("a.src".to_string()).filename, "a.src");
}

#[test]
fn function_header() {
    // every parameter, the last one too, is followed by a comma
    let cmds = parse(&["func add(a:number, b:number,) number", "end"]).unwrap();
    assert_eq!(cmds.len(), 2);
    match &cmds[0].kind {
        CommandKind::FunctionHeader { name, args, return_type } => {
            assert_eq!(name, "add");
            assert_eq!(args.len(), 2);
            assert_eq!(args[0].ident, "a");
            assert_eq!(args[1].ident, "b");
            assert_eq!(args[1].ty, VariableType::Number);
            assert_eq!(return_type, "number");
        }
        _ => panic!("expected a header"),
    }
    assert!(matches!(cmds[1].kind, CommandKind::End));
    assert_eq!(cmds[1].line_pos, 2);
    let cmds = parse(&["func main() void"]).unwrap();
    assert!(matches!(&cmds[0].kind, CommandKind::FunctionHeader { args, .. } if args.is_empty()));
    assert_eq!(parse(&["func f(a:number) number"]).unwrap_err(), Reason::ExpectedCommaAfterArgument);
}

#[test]
fn function_header_errors() {
    assert_eq!(parse(&["func"]).unwrap_err(), Reason::ExpectedIdentifier);
    assert_eq!(parse(&["func 1"]).unwrap_err(), Reason::ExpectedIdentifier);
    assert_eq!(parse(&["func f x"]).unwrap_err(), Reason::ExpectedOpenParen);
    assert_eq!(parse(&["func f("]).unwrap_err(), Reason::ExpectedClosedParenAfterArguments);
    assert_eq!(parse(&["func f(a:number"]).unwrap_err(), Reason::ExpectedClosedParenAfterArguments);
    assert_eq!(parse(&["func f(a:number b:number) number"]).unwrap_err(), Reason::ExpectedCommaAfterArgument);
    assert_eq!(parse(&["func f(a) number"]).unwrap_err(), Reason::ExpectedTypedIdentifier);
    assert_eq!(parse(&["func f()"]).unwrap_err(), Reason::ExpectedReturnType);
    assert_eq!(parse(&["func f() number extra"]).unwrap_err(), Reason::RedundantTokens);
    let err = compiler().parse_tokens(lines(&["func f(a:text) number"]), &mut Vec::new()).err().unwrap();
    assert_eq!(err.reason, Reason::UnknownType);
    assert_eq!(err.subject, "text");
}

#[test]
fn function_header_without_parameters_aborts() {
    match compiler().try_parse_tokens(lines(&["func f"]), &mut Vec::new()) {
        Err(Stop::Panic(PanicSite::MissingArgumentList)) => {}
        _ => panic!("expected the compiler to give up"),
    }
}

#[test]
fn end_takes_nothing() {
    assert_eq!(parse(&["end x"]).unwrap_err(), Reason::RedundantTokens);
}

#[test]
fn declarations() {
    let cmds = parse(&["let x:number = 1 + 2", "shadow x:number = x"]).unwrap();
    match &cmds[0].kind {
        CommandKind::VariableDecl { shadowing, name, op, expr } => {
            assert!(!shadowing);
            assert_eq!(name.ident, "x");
            assert_eq!(*op, TokenKind::Equality);
            assert_eq!(expr.len(), 3);
        }
        _ => panic!("expected a declaration"),
    }
    assert!(matches!(&cmds[1].kind, CommandKind::VariableDecl { shadowing: true, .. }));
    // an empty right-hand side is accepted, and reported
    let mut notes = Vec::new();
    let cmds = compiler().parse_tokens(lines(&["print", "let x:number ="]), &mut notes).ok().unwrap();
    assert!(matches!(&cmds[1].kind, CommandKind::VariableDecl { expr, .. } if expr.is_empty()));
    assert_eq!(notes.len(), 1);
    assert_eq!(notes[0].line_pos, 2);
    assert_eq!(notes[0].reason, Reason::EmptyExpression);
}

#[test]
fn declaration_errors() {
    assert_eq!(parse(&["let x:number"]).unwrap_err(), Reason::ExpectedOperator);
    assert_eq!(parse(&["let x = 1"]).unwrap_err(), Reason::ExpectedTypedIdentifier);
    assert_eq!(parse(&["let x:number + 1"]).unwrap_err(), Reason::ExpectedEqualitySymbol);
    assert_eq!(parse(&["let x:bool = 1"]).unwrap_err(), Reason::UnknownType);
    // the expression is checked before the name
    assert_eq!(parse(&["let x = 1 1"]).unwrap_err(), Reason::ExpectedOperatorOrClosedParen);
}

#[test]
fn updates() {
    let cmds = parse(&["set x + 2", "set y = f(1)"]).unwrap();
    match &cmds[0].kind {
        CommandKind::VariableUpdate { name, op, expr } => {
            assert_eq!(name, "x");
            assert_eq!(*op, TokenKind::Add);
            assert_eq!(expr.len(), 1);
        }
        _ => panic!("expected an update"),
    }
    assert_eq!(parse(&["set x == 2"]).unwrap_err(), Reason::InvalidOperator);
    assert_eq!(parse(&["set x:number = 2"]).unwrap_err(), Reason::ExpectedIdentifier);
}

#[test]
fn calls() {
    let cmds = parse(&["print", "print 1, a + 2", "print f(1, 2)"]).unwrap();
    assert!(matches!(&cmds[0].kind, CommandKind::FunctionCall { name, args } if name == "print" && args.is_empty()));
    match &cmds[1].kind {
        CommandKind::FunctionCall { args, .. } => {
            assert_eq!(args.len(), 2);
            assert_eq!(args[1].len(), 3);
        }
        _ => panic!("expected a call"),
    }
    assert!(matches!(&cmds[2].kind, CommandKind::FunctionCall { args, .. } if args.len() == 1 && args[0].len() == 1));
}

#[test]
fn call_errors() {
    assert_eq!(parse(&["print 1,"]).unwrap_err(), Reason::ExpectedExpression);
    assert_eq!(parse(&["print )"]).unwrap_err(), Reason::UnmatchedClosedParen);
    // a parenthesized argument list is one expression, and its comma is refused
    assert_eq!(parse(&["print (1, 2)"]).unwrap_err(), Reason::ExpectedOperatorOrClosedParen);
    assert_eq!(parse(&["1 + 2"]).unwrap_err(), Reason::ExpectedIdentifier);
}

#[test]
fn empty_lines_give_no_command() {
    let cmds = parse(&["", "# note", "end", ""]).unwrap();
    assert_eq!(cmds.len(), 1);
    assert_eq!(cmds[0].line_pos, 3);
}

#[test]
fn first_error_wins() {
    let err = compiler().parse_tokens(lines(&["print", "end 1", "func"]), &mut Vec::new()).err().unwrap();
    assert_eq!(err.line_pos, 2);
    assert_eq!(err.reason, Reason::RedundantTokens);
}

fn outcome(r: Result<Vec<Command>, Reason>) -> String {
    format!("{:?}", r)
}

#[test]
fn lines_are_read_one_by_one() {
    let a: &[&str] = &["let x:number = 1", "", "print x"];
    let b: &[&str] = &["set x = x + 1", "print f(x, 2)"];
    let bad: &[&str] = &["end x"];
    let mut ab = lines(a);
    ab.extend(lines(b));
    let joined = parse_lines(ab).unwrap();
    let (ca, cb) = (parse(a).unwrap(), parse(b).unwrap());
    assert_eq!(joined.len(), ca.len() + cb.len());
    assert_eq!(format!("{:?}", &joined[..ca.len()]), format!("{:?}", ca));
    assert_eq!(format!("{:?}", &joined[ca.len()..]), format!("{:?}", cb));
    // the first line in error decides the outcome
    let mut a_bad = lines(a);
    a_bad.extend(lines(bad));
    assert_eq!(outcome(parse_lines(a_bad)), outcome(parse(bad)));
    let mut bad_a = lines(bad);
    bad_a.extend(lines(&["let x = 1 1"]));
    assert_eq!(outcome(parse_lines(bad_a)), outcome(parse(bad)));
}

fn parse_lines(ls: Vec<Vec<Token>>) -> Result<Vec<Command>, Reason> {
    compiler().parse_tokens(ls, &mut Vec::new()).map_err(|d| d.reason)
}

fn notes_of(ls: Vec<Vec<Token>>) -> Vec<(usize, Reason)> {
    let mut notes = Vec::new();
    let _ = compiler().parse_tokens(ls, &mut notes);
    notes.iter().map(|d| (d.line_pos, d.reason)).collect()
}

#[test]
fn lines_are_reported_one_by_one() {
    let a: &[&str] = &["let x:number =", "print 1"];
    let b: &[&str] = &["", "let y:number ="];
    let mut ab = lines(a);
    ab.extend(lines(b));
    let mut expected = notes_of(lines(a));
    expected.extend(notes_of(lines(b)));
    assert_eq!(expected, vec![(1, Reason::EmptyExpression), (2, Reason::EmptyExpression)]);
    assert_eq!(notes_of(ab), expected);
    // after a line in error nothing more is reported
    let mut bad_b = lines(&["end x"]);
    bad_b.extend(lines(b));
    assert_eq!(notes_of(bad_b), vec![]);
}
