use vm_compiler::compiler::Compiler;
use vm_compiler::error::{PanicSite, Reason, Stop};
use vm_compiler::token::{Token, TokenKind};

fn compiler() -> Compiler {
    Compiler::new("expr.src".to_string())
}

fn tokens(line: &str) -> Vec<Token> {
    compiler().parse_line(line.to_string(), 5).ok().unwrap()
}

fn check(line: &str) -> Result<(), Reason> {
    compiler().check_expression(&tokens(line), 5).map_err(|d| d.reason)
}

fn collect(line: &str) -> Result<Vec<Token>, Reason> {
    match compiler().collect_expr(&tokens(line), 5, &mut Vec::new()) {
        Ok(v) => Ok(v),
        Err(Stop::Error(d)) => Err(d.reason),
        Err(Stop::Panic(p)) => panic!("compilation would abort: {:?}", p),
    }
}

#[test]
fn well_formed_expressions() {
    assert_eq!(check(""), Ok(()));
    assert_eq!(check("1"), Ok(()));
    assert_eq!(check("a + 2 * (b - 3) == \"s\""), Ok(()));
    assert_eq!(check("((1))"), Ok(()));
}

#[test]
fn malformed_expressions() {
    assert_eq!(check("1 2"), Err(Reason::ExpectedOperatorOrClosedParen));
    assert_eq!(check("+ 1"), Err(Reason::ExpectedOperand));
    assert_eq!(check("1 +"), Err(Reason::ExpectedOperand));
    assert_eq!(check("( 1"), Err(Reason::MissingClosedParen));
    assert_eq!(check("1 )"), Err(Reason::UnmatchedClosedParen));
    assert_eq!(check("()"), Err(Reason::ExpectedOperand));
    assert_eq!(check("1 , 2"), Err(Reason::ExpectedOperatorOrClosedParen));
    assert_eq!(check("a = 1"), Err(Reason::ExpectedOperatorOrClosedParen));
    assert_eq!(check("1 (2)"), Err(Reason::ExpectedOperatorOrClosedParen));
}

#[test]
fn parenthesis_depth_limit() {
    let ok = format!("{}1{}", "(".repeat(127), ")".repeat(127));
    assert_eq!(check(&ok), Ok(()));
    let deep = format!("{}1{}", "(".repeat(128), ")".repeat(128));
    assert_eq!(check(&deep), Err(Reason::TooManyNestedParentheses));
}

#[test]
fn depth_labels() {
    let c = compiler();
    // f ( 1 + ( 3 * 3 ) + g ( ) )
    let d = c.calculate_depths(&tokens("f(1 + (3 * 3) + g())"), 5, &mut Vec::new()).unwrap();
    assert_eq!(d, vec![1, 0, 0, 0, 0, 0, 0, 0, 0, 0, 2, 0, 0, 0]);
    // only the name of a call carries a label; every parenthesis gets 0
    let d = c.calculate_depths(&tokens("f(g())"), 5, &mut Vec::new()).unwrap();
    assert_eq!(d, vec![1, 0, 2, 0, 0, 0]);
    let d = c.calculate_depths(&tokens("a + b"), 5, &mut Vec::new()).unwrap();
    assert_eq!(d, vec![0, 0, 0]);
    let mut notes = Vec::new();
    assert_eq!(c.calculate_depths(&[], 5, &mut notes).unwrap().len(), 0);
    // an empty expression is reported, and labelled all the same
    assert_eq!(notes, vec![Reason::EmptyExpression]);
}

#[test]
fn depth_overflow_aborts() {
    let c = compiler();
    let nested = format!("{}1{}", "f(".repeat(256), ")".repeat(256));
    assert!(c.calculate_depths(&tokens(&nested), 5, &mut Vec::new()).is_none());
    let nested = format!("{}1{}", "f(".repeat(255), ")".repeat(255));
    assert!(c.calculate_depths(&tokens(&nested), 5, &mut Vec::new()).is_some());
    match c.collect_expr(&tokens(&format!("{}1", "f(".repeat(256))), 5, &mut Vec::new()) {
        Err(Stop::Panic(PanicSite::CallNestingOverflow)) => {}
        _ => panic!("expected the compiler to give up"),
    }
}

#[test]
fn calls_are_gathered() {
    let e = collect("f(1, g(2)) + 3").unwrap();
    assert_eq!(e.len(), 3);
    match &e[0].kind {
        TokenKind::InlineFunctionCall { name, args } => {
            assert_eq!(name, "f");
            assert_eq!(args.len(), 2);
            assert_eq!(args[0].len(), 1);
            assert!(matches!(args[0][0].kind, TokenKind::Number { integral: 1, fractional: 0 }));
            assert_eq!(args[1].len(), 1);
            match &args[1][0].kind {
                TokenKind::InlineFunctionCall { name, args } => {
                    assert_eq!(name, "g");
                    assert_eq!(args.len(), 1);
                }
                _ => panic!("expected a nested call"),
            }
        }
        _ => panic!("expected a call"),
    }
    assert!(matches!(e[1].kind, TokenKind::Add));
}

#[test]
fn call_argument_errors() {
    assert_eq!(collect("f()").unwrap_err(), Reason::EmptyExpression);
    assert_eq!(collect("f(1,)").unwrap_err(), Reason::EmptyExpression);
    assert_eq!(collect("f(1 2)").unwrap_err(), Reason::ExpectedOperatorOrClosedParen);
    // an unclosed call takes the rest of the expression
    let e = collect("f(1 + 2").unwrap();
    assert_eq!(e.len(), 1);
}

#[test]
fn plain_expressions_pass_through() {
    let e = collect("a * (b + 1)").unwrap();
    assert_eq!(e, tokens("a * (b + 1)"));
    assert_eq!(collect("").unwrap().len(), 0);
    assert_eq!(collect("a +").unwrap_err(), Reason::ExpectedOperand);
}

#[test]
fn deep_parentheses_inside_a_call_are_reported() {
    let c = compiler();
    let line = format!("f({}1{})", "(".repeat(128), ")".repeat(128));
    let mut notes = Vec::new();
    let d = c.calculate_depths(&tokens(&line), 5, &mut notes).unwrap();
    assert_eq!(d.len(), tokens(&line).len());
    assert_eq!(notes, vec![Reason::TooManyNestedParentheses]);
    let mut notes = Vec::new();
    match c.collect_expr(&tokens(&line), 5, &mut notes) {
        Err(Stop::Error(d)) => assert_eq!(d.reason, Reason::TooManyNestedParentheses),
        _ => panic!("expected an error"),
    }
    assert_eq!(notes, vec![Reason::TooManyNestedParentheses]);
    // outside of calls parentheses are not counted by the labelling
    let mut notes = Vec::new();
    c.calculate_depths(&tokens(&format!("{}1{}", "(".repeat(130), ")".repeat(130))), 5, &mut notes).unwrap();
    assert!(notes.is_empty());
}

#[test]
fn joined_expressions_stay_well_formed() {
    let parts = ["1", "a + 2", "(b * (c - 3))", "x", "\"s\""];
    for e1 in parts {
        for e2 in parts {
            for op in ["+", "-", "*", "/", "=="] {
                assert_eq!(check(&format!("{} {} {}", e1, op, e2)), Ok(()));
            }
        }
    }
}

#[test]
fn token_by_token_rule() {
    // every token fits the one before it, yet a prefix closes too much
    assert_eq!(check("a ) + ( b"), Err(Reason::UnmatchedClosedParen));
    // parentheses balance, yet `)` may not follow an operator
    assert_eq!(check("( a + )"), Err(Reason::ExpectedOperand));
    // the expression must end with a complete term
    assert_eq!(check("( a ) *"), Err(Reason::ExpectedOperand));
    assert_eq!(check("( ( a ) ) == ( b )"), Ok(()));
}

fn spell_out(ts: Vec<Token>, out: &mut Vec<Token>) {
    for t in ts {
        let line_pos = t.line_pos;
        match t.kind {
            TokenKind::InlineFunctionCall { name, args } => {
                out.push(Token { line_pos, kind: TokenKind::Identifier(name) });
                out.push(Token { line_pos, kind: TokenKind::OpenParen });
                let n = args.len();
                for (k, arg) in args.into_iter().enumerate() {
                    spell_out(arg, out);
                    if k + 1 < n {
                        out.push(Token { line_pos, kind: TokenKind::Comma });
                    }
                }
                out.push(Token { line_pos, kind: TokenKind::ClosedParen });
            }
            kind => out.push(Token { line_pos, kind }),
        }
    }
}

#[test]
fn gathered_calls_spell_out_as_read() {
    for line in ["f(1, g(2, 3) * 4) + h(x)", "a + b", "f(g(h(1)))", "(f(1)) == 2"] {
        let collected = collect(line).unwrap();
        let mut spelt = Vec::new();
        spell_out(collected, &mut spelt);
        assert_eq!(spelt, tokens(line));
    }
}
