use vstd::prelude::*;

use crate::text::str_eq;
use crate::token::{args_v, kind_v, tokens_v, Token, TokenKind, TokenKindV, TokenV};

verus! {

/// The type of a variable.
#[derive(Debug, Clone, Copy, PartialEq, Eq, Structural)]
pub enum VariableType {
    Number,
}

/// The name under which [`VariableType::Number`] is written.
pub open spec fn number_type_name() -> Seq<char> {
    seq!['n', 'u', 'm', 'b', 'e', 'r']
}

pub open spec fn spec_type_from_string(s: Seq<char>) -> Option<VariableType> {
    if s == number_type_name() {
        Some(VariableType::Number)
    } else {
        None
    }
}

impl VariableType {
    /// The type written `string`, if any.
    pub fn from_string(string: String) -> (r: Option<Self>)
        ensures
            r == spec_type_from_string(string@),
    {
        let b = str_eq(string.as_str(), "number");
        proof {
            reveal_strlit("number");
            assert("number"@ =~= number_type_name());
        }
        if b {
            Some(VariableType::Number)
        } else {
            None
        }
    }
}

/// A name with its declared type, written `name:type`.
#[derive(Debug)]
pub struct TypedIdentifier {
    pub ident: String,
    pub ty: VariableType,
}

pub struct TypedIdentifierV {
    pub ident: Seq<char>,
    pub ty: VariableType,
}

impl View for TypedIdentifier {
    type V = TypedIdentifierV;

    open spec fn view(&self) -> TypedIdentifierV {
        TypedIdentifierV { ident: self.ident@, ty: self.ty }
    }
}

/// What a command line says.
#[derive(Debug)]
#[allow(inconsistent_fields)]
pub enum CommandKind {
    FunctionHeader { name: String, args: Vec<TypedIdentifier>, return_type: String },
    FunctionCall { name: String, args: Vec<Vec<Token>> },
    Return { expr: Vec<Token> },
    End,
    VariableDecl { shadowing: bool, name: TypedIdentifier, op: TokenKind, expr: Vec<Token> },
    VariableUpdate { name: String, op: TokenKind, expr: Vec<Token> },
}

/// A command and the line it was read from.
#[derive(Debug)]
pub struct Command {
    pub kind: CommandKind,
    pub line_pos: usize,
}

#[allow(inconsistent_fields)]
pub enum CommandKindV {
    FunctionHeader { name: Seq<char>, args: Seq<TypedIdentifierV>, return_type: Seq<char> },
    FunctionCall { name: Seq<char>, args: Seq<Seq<TokenV>> },
    Return { expr: Seq<TokenV> },
    End,
    VariableDecl { shadowing: bool, name: TypedIdentifierV, op: TokenKindV, expr: Seq<TokenV> },
    VariableUpdate { name: Seq<char>, op: TokenKindV, expr: Seq<TokenV> },
}

pub struct CommandV {
    pub kind: CommandKindV,
    pub line_pos: usize,
}

pub open spec fn typed_idents_v(s: Seq<TypedIdentifier>) -> Seq<TypedIdentifierV> {
    s.map_values(|t: TypedIdentifier| t@)
}

pub open spec fn command_kind_v(k: CommandKind) -> CommandKindV {
    match k {
        CommandKind::FunctionHeader { name, args, return_type } => CommandKindV::FunctionHeader {
            name: name@,
            args: typed_idents_v(args@),
            return_type: return_type@,
        },
        CommandKind::FunctionCall { name, args } => CommandKindV::FunctionCall {
            name: name@,
            args: args_v(args@),
        },
        CommandKind::Return { expr } => CommandKindV::Return { expr: tokens_v(expr@) },
        CommandKind::End => CommandKindV::End,
        CommandKind::VariableDecl { shadowing, name, op, expr } => CommandKindV::VariableDecl {
            shadowing,
            name: name@,
            op: kind_v(op),
            expr: tokens_v(expr@),
        },
        CommandKind::VariableUpdate { name, op, expr } => CommandKindV::VariableUpdate {
            name: name@,
            op: kind_v(op),
            expr: tokens_v(expr@),
        },
    }
}

impl View for Command {
    type V = CommandV;

    open spec fn view(&self) -> CommandV {
        CommandV { kind: command_kind_v(self.kind), line_pos: self.line_pos }
    }
}

pub open spec fn commands_v(s: Seq<Command>) -> Seq<CommandV> {
    s.map_values(|c: Command| c@)
}

} // verus!
