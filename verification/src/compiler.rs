use vstd::prelude::*;

verus! {

/// The compiler of one source file.
pub struct Compiler {
    pub filename: String,
}

impl Compiler {
    /// A compiler for the source file named `filename`.
    pub fn new(filename: String) -> (c: Self)
        ensures
            c.filename == filename,
    {
        Self { filename }
    }
}

} // verus!

verus! {

/// Compilation of a source file given as its lines: tokenizing, parsing
/// and code generation, each stage stopping at the first error.
pub open spec fn spec_compile(lines: Seq<Seq<char>>) -> Result<Seq<u8>, crate::error::StopV> {
    match crate::lexer::parse_lines(lines, 0, Seq::empty()) {
        Err(d) => Err(crate::error::StopV::Error(d)),
        Ok(tokens) => match crate::parser::spec_parse_tokens(tokens) {
            Err(s) => Err(s),
            Ok(commands) => match crate::codegen::generate_outcome(commands) {
                Err(s) => Err(s),
                Ok(()) => Ok(Seq::empty()),
            },
        },
    }
}

pub open spec fn bytes_result_v(r: Result<Vec<u8>, crate::error::Stop>) -> Result<Seq<u8>, crate::error::StopV> {
    match r {
        Ok(v) => Ok(v@),
        Err(s) => Err(s@),
    }
}

/// What compiling the lines reports without stopping (see
/// [`crate::parser::parse_notes`]); the lines that cannot be read report nothing.
pub open spec fn compile_notes(lines: Seq<Seq<char>>) -> Seq<crate::error::DiagnosticV> {
    match crate::lexer::parse_lines(lines, 0, Seq::empty()) {
        Err(_) => Seq::empty(),
        Ok(tokens) => crate::parser::parse_notes(tokens, 0),
    }
}

/// Compiles the lines of the source file named `filename` into bytecode
/// (see [`spec_compile`]); the bytecode is empty for now. What compilation
/// reports without stopping is appended to `notes` (see [`compile_notes`]).
pub fn compile_lines(input_lines: Vec<String>, filename: String, notes: &mut Vec<crate::error::Diagnostic>) -> (r: Result<Vec<u8>, crate::error::Stop>)
    requires
        input_lines.len() < usize::MAX,
    ensures
        bytes_result_v(r) == spec_compile(crate::lexer::strings_v(input_lines@)),
        crate::parser::diags_v(final(notes)@) == crate::parser::diags_v(old(notes)@) + compile_notes(crate::lexer::strings_v(input_lines@)),
{
    let compiler = Compiler::new(filename);
    let tokens = match compiler.parse_file(input_lines) {
        Ok(t) => t,
        Err(d) => {
            assert(crate::parser::diags_v(notes@) + Seq::<crate::error::DiagnosticV>::empty() == crate::parser::diags_v(notes@));
            return Err(crate::error::Stop::Error(d));
        },
    };
    let commands = match compiler.try_parse_tokens(tokens, notes) {
        Ok(c) => c,
        Err(s) => {
            return Err(s);
        },
    };
    match compiler.try_generate_instructions(commands) {
        Ok(_bytecode) => {},
        Err(s) => {
            return Err(s);
        },
    }
    Ok(Vec::new())
}

} // verus!

verus! {

/// Compilation runs its stages in turn and stops at the first that fails,
/// with that stage's error: a line that cannot be read, then a command that
/// cannot be parsed, then code generation. It succeeds, with empty
/// bytecode, exactly when every stage succeeds.
pub proof fn law_compile_stages(lines: Seq<Seq<char>>)
    ensures
        crate::lexer::parse_lines(lines, 0, Seq::empty()) matches Err(d) ==> spec_compile(lines) == Err::<
            Seq<u8>,
            crate::error::StopV,
        >(crate::error::StopV::Error(d)),
        crate::lexer::parse_lines(lines, 0, Seq::empty()) matches Ok(tokens) ==> (
        crate::parser::spec_parse_tokens(tokens) matches Err(s) ==> spec_compile(lines) == Err::<
            Seq<u8>,
            crate::error::StopV,
        >(s)),
        crate::lexer::parse_lines(lines, 0, Seq::empty()) matches Ok(tokens) ==> (
        crate::parser::spec_parse_tokens(tokens) matches Ok(commands) ==> (crate::codegen::spec_generate(
            commands,
        ) matches Err(s) ==> spec_compile(lines) == Err::<Seq<u8>, crate::error::StopV>(s))),
        (spec_compile(lines) is Ok) <==> (crate::lexer::parse_lines(lines, 0, Seq::empty()) matches Ok(tokens)
            && crate::parser::spec_parse_tokens(tokens) matches Ok(commands)
            && crate::codegen::spec_generate(commands) is Ok),
        spec_compile(lines) matches Ok(b) ==> b.len() == 0,
{
}

} // verus!
