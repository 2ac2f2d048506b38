use vstd::prelude::*;

verus! {

/// The class of a compilation error.
#[derive(Debug, Clone, Copy, PartialEq, Eq, Structural)]
pub enum ErrorKind {
    UnrecognizedCharacter,
    IntegerOverflow,
    TooLongIdentifier,
    RedundantDot,
    UnclosedString,
    ExpectedTokens,
    RedundantTokens,
    EmptyExpression,
    DuplicateName,
    NestedFunctionDefinition,
    UnclosedFunction,
    UnknownType,
    FreeRegisterNotFound,
}

/// The precise cause of a compilation error; each cause has one message.
#[derive(Debug, Clone, Copy, PartialEq, Eq, Structural)]
pub enum Reason {
    /// "unrecognized character: '{c}'"
    UnrecognizedCharacter(char),
    /// "integer overflow"
    IntegerOverflow,
    /// "too long identifier (max length is 32 symbols)"
    TooLongIdentifier,
    /// "redundant dot near number"
    RedundantDot,
    /// "unclosed string"
    UnclosedString,
    /// "malformed expression: expected number, identifier, function call, literal string or open paren"
    ExpectedOperand,
    /// "malformed expression: expected operator or closed paren"
    ExpectedOperatorOrClosedParen,
    /// "too many nested parentheses"
    TooManyNestedParentheses,
    /// "unmatched closed paren ')'"
    UnmatchedClosedParen,
    /// "missing closed parentheses ')'"
    MissingClosedParen,
    /// "expected identifier"
    ExpectedIdentifier,
    /// "expected open paren '('"
    ExpectedOpenParen,
    /// "expected comma ',' after argument"
    ExpectedCommaAfterArgument,
    /// "expected typed identifier `name:type`"
    ExpectedTypedIdentifier,
    /// "expected closed paren ')' after arguments list"
    ExpectedClosedParenAfterArguments,
    /// "expected return type"
    ExpectedReturnType,
    /// "expected operator"
    ExpectedOperator,
    /// "expected expression"
    ExpectedExpression,
    /// "expected equality symbol '=' operator"
    ExpectedEqualitySymbol,
    /// "invalid operator"
    InvalidOperator,
    /// "redundant tokens"
    RedundantTokens,
    /// "empty expression"
    EmptyExpression,
    /// "unknown type `{subject}`"
    UnknownType,
    /// "duplicate function name `{subject}`"
    DuplicateName,
    /// "function can't be nested into another"
    NestedFunctionDefinition,
    /// "unclosed function `{subject}`"
    UnclosedFunction,
    /// "unable to find free VM register for variable `{subject}`"
    FreeRegisterNotFound,
}

pub open spec fn reason_kind(r: Reason) -> ErrorKind {
    match r {
        Reason::UnrecognizedCharacter(_) => ErrorKind::UnrecognizedCharacter,
        Reason::IntegerOverflow => ErrorKind::IntegerOverflow,
        Reason::TooLongIdentifier => ErrorKind::TooLongIdentifier,
        Reason::RedundantDot => ErrorKind::RedundantDot,
        Reason::UnclosedString => ErrorKind::UnclosedString,
        Reason::RedundantTokens => ErrorKind::RedundantTokens,
        Reason::EmptyExpression => ErrorKind::EmptyExpression,
        Reason::UnknownType => ErrorKind::UnknownType,
        Reason::DuplicateName => ErrorKind::DuplicateName,
        Reason::NestedFunctionDefinition => ErrorKind::NestedFunctionDefinition,
        Reason::UnclosedFunction => ErrorKind::UnclosedFunction,
        Reason::FreeRegisterNotFound => ErrorKind::FreeRegisterNotFound,
        _ => ErrorKind::ExpectedTokens,
    }
}

impl Reason {
    /// The error class that this cause belongs to.
    pub fn kind(&self) -> (k: ErrorKind)
        ensures
            k == reason_kind(*self),
    {
        match self {
            Reason::UnrecognizedCharacter(_) => ErrorKind::UnrecognizedCharacter,
            Reason::IntegerOverflow => ErrorKind::IntegerOverflow,
            Reason::TooLongIdentifier => ErrorKind::TooLongIdentifier,
            Reason::RedundantDot => ErrorKind::RedundantDot,
            Reason::UnclosedString => ErrorKind::UnclosedString,
            Reason::RedundantTokens => ErrorKind::RedundantTokens,
            Reason::EmptyExpression => ErrorKind::EmptyExpression,
            Reason::UnknownType => ErrorKind::UnknownType,
            Reason::DuplicateName => ErrorKind::DuplicateName,
            Reason::NestedFunctionDefinition => ErrorKind::NestedFunctionDefinition,
            Reason::UnclosedFunction => ErrorKind::UnclosedFunction,
            Reason::FreeRegisterNotFound => ErrorKind::FreeRegisterNotFound,
            _ => ErrorKind::ExpectedTokens,
        }
    }
}

/// A compilation error: the line it was found on, its cause, and the name
/// the message quotes (empty where the message quotes none).
#[derive(Debug)]
pub struct Diagnostic {
    pub line_pos: usize,
    pub reason: Reason,
    pub subject: String,
}

/// The mathematical value of a [`Diagnostic`].
pub struct DiagnosticV {
    pub line_pos: usize,
    pub reason: Reason,
    pub subject: Seq<char>,
}

impl View for Diagnostic {
    type V = DiagnosticV;

    open spec fn view(&self) -> DiagnosticV {
        DiagnosticV { line_pos: self.line_pos, reason: self.reason, subject: self.subject@ }
    }
}

pub open spec fn diag(line_pos: usize, reason: Reason) -> DiagnosticV {
    DiagnosticV { line_pos, reason, subject: Seq::empty() }
}

impl Diagnostic {
    /// A diagnostic whose message quotes no name.
    pub fn new(line_pos: usize, reason: Reason) -> (d: Diagnostic)
        ensures
            d@ == diag(line_pos, reason),
    {
        Diagnostic { line_pos, reason, subject: String::new() }
    }

    /// The error class of this diagnostic.
    pub fn kind(&self) -> (k: ErrorKind)
        ensures
            k == reason_kind(self.reason),
    {
        self.reason.kind()
    }
}

/// The places where compilation cannot go on: the compiler gives up on the
/// whole run instead of reporting a diagnostic.
#[derive(Debug, Clone, Copy, PartialEq, Eq, Structural)]
pub enum PanicSite {
    /// More than 255 inline function calls open at once in one expression.
    CallNestingOverflow,
    /// A `func` line that holds only the keyword and the function name.
    MissingArgumentList,
    /// A call depth label that does not mark an identifier. This never
    /// happens (see `law_collect_gives_up_only_on_deep_nesting`).
    DepthMarker,
    /// A command outside of functions that code generation does not handle yet.
    Unimplemented,
}

/// Why a compilation stage stopped.
#[derive(Debug)]
pub enum Stop {
    Error(Diagnostic),
    Panic(PanicSite),
}

pub enum StopV {
    Error(DiagnosticV),
    Panic(PanicSite),
}

impl View for Stop {
    type V = StopV;

    open spec fn view(&self) -> StopV {
        match self {
            Stop::Error(d) => StopV::Error(d@),
            Stop::Panic(p) => StopV::Panic(*p),
        }
    }
}

} // verus!
