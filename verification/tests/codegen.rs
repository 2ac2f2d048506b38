use vm_compiler::compiler::{compile_lines, Compiler};
use vm_compiler::error::{ErrorKind, PanicSite, Reason, Stop};
use vm_compiler::codegen::{find_free_register, Register};
use vm_compiler::syntax::{Command, VariableType};

fn compiler() -> Compiler {
    Compiler::new("gen.src".to_string())
}

fn commands(src: &[&str]) -> Vec<Command> {
    let c = compiler();
    let toks = c.parse_file(src.iter().map(|s| s.to_string()).collect()).ok().unwrap();
    c.parse_tokens(toks, &mut Vec::new()).ok().unwrap()
}

fn generate(src: &[&str]) -> Result<usize, Stop> {
    compiler().try_generate_instructions(commands(src)).map(|v| v.len())
}

fn reason(r: Result<usize, Stop>) -> Reason {
    match r {
        Err(Stop::Error(d)) => d.reason,
        _ => panic!("expected an error"),
    }
}

#[test]
fn programs_of_functions_and_declarations() {
    assert_eq!(generate(&[]).unwrap(), 0);
    let src = ["func f(a:number,) number", "print a", "end", "let x:number = 1", "func g() number", "end"];
    assert_eq!(generate(&src).unwrap(), 0);
    let v = compiler().generate_instructions(commands(&src)).ok().unwrap();
    assert!(v.is_empty());
}

#[test]
fn duplicate_function() {
    let r = generate(&["func f() number", "end", "func f() number", "end"]);
    match r {
        Err(Stop::Error(d)) => {
            assert_eq!(d.reason, Reason::DuplicateName);
            assert_eq!(d.subject, "f");
            assert_eq!(d.line_pos, 3);
            assert_eq!(d.kind(), ErrorKind::DuplicateName);
        }
        _ => panic!("expected a duplicate name"),
    }
}

#[test]
fn nested_and_unclosed_functions() {
    let r = generate(&["func f() number", "func g() number", "end", "end"]);
    match r {
        Err(Stop::Error(d)) => {
            assert_eq!(d.reason, Reason::NestedFunctionDefinition);
            assert_eq!(d.line_pos, 2);
        }
        _ => panic!("expected a nested function"),
    }
    let r = generate(&["func f() number", "print 1"]);
    match r {
        Err(Stop::Error(d)) => {
            assert_eq!(d.reason, Reason::UnclosedFunction);
            assert_eq!(d.subject, "f");
            assert_eq!(d.line_pos, 1);
        }
        _ => panic!("expected an unclosed function"),
    }
    assert_eq!(reason(generate(&["func f() number"])), Reason::UnclosedFunction);
}

#[test]
fn unsupported_top_level_commands_abort() {
    for src in [&["print 1"][..], &["end"][..], &["shadow x:number = 1"][..], &["set x = 1"][..]] {
        match generate(src) {
            Err(Stop::Panic(PanicSite::Unimplemented)) => {}
            _ => panic!("expected the compiler to give up"),
        }
    }
    // errors in the function layout come first
    assert_eq!(reason(generate(&["print 1", "func f() number"])), Reason::UnclosedFunction);
}

#[test]
fn compile_whole_program() {
    let src: Vec<String> = ["let a:number = 1", "func f() number", "end"].iter().map(|s| s.to_string()).collect();
    assert_eq!(compile_lines(src, "p.src".to_string(), &mut Vec::new()).ok().unwrap().len(), 0);
    let src: Vec<String> = ["let a:number = 1", "let b:number = $"].iter().map(|s| s.to_string()).collect();
    match compile_lines(src, "p.src".to_string(), &mut Vec::new()) {
        Err(Stop::Error(d)) => {
            assert_eq!(d.line_pos, 2);
            assert_eq!(d.reason, Reason::UnrecognizedCharacter('$'));
        }
        _ => panic!("expected a lexing error"),
    }
    let src: Vec<String> = ["print 1"].iter().map(|s| s.to_string()).collect();
    assert!(matches!(compile_lines(src, "p.src".to_string(), &mut Vec::new()), Err(Stop::Panic(PanicSite::Unimplemented))));
}

#[test]
fn first_free_register() {
    let regs = vec![
        Register::Variable { name: "a".to_string(), ty: VariableType::Number },
        Register::Free,
        Register::Free,
    ];
    assert_eq!(find_free_register(&regs), Some(1));
    let full = vec![Register::Variable { name: "a".to_string(), ty: VariableType::Number }];
    assert_eq!(find_free_register(&full), None);
    assert_eq!(find_free_register(&Vec::new()), None);
}

#[test]
fn reasons_map_to_error_kinds() {
    assert_eq!(Reason::ExpectedOperand.kind(), ErrorKind::ExpectedTokens);
    assert_eq!(Reason::InvalidOperator.kind(), ErrorKind::ExpectedTokens);
    assert_eq!(Reason::EmptyExpression.kind(), ErrorKind::EmptyExpression);
    assert_eq!(Reason::UnknownType.kind(), ErrorKind::UnknownType);
    assert_eq!(Reason::RedundantTokens.kind(), ErrorKind::RedundantTokens);
    assert_eq!(Reason::IntegerOverflow.kind(), ErrorKind::IntegerOverflow);
    assert_eq!(Reason::UnrecognizedCharacter('x').kind(), ErrorKind::UnrecognizedCharacter);
}
