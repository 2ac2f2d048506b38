use vstd::prelude::*;

use crate::collect::{collect_notes, push_last, spec_collect_expr};
use crate::compiler::Compiler;
use crate::error::{diag, Diagnostic, DiagnosticV, PanicSite, Reason, Stop, StopV};
use crate::expr::MAX_EXPRESSION_DEPTH;
use crate::syntax::{
    commands_v, spec_type_from_string, typed_idents_v, Command, CommandKind, CommandKindV, CommandV,
    TypedIdentifier, TypedIdentifierV, VariableType,
};
use crate::text::str_eq;
use crate::token::{
    args_v, duplicate_token, group_token_view, kind_v, push_token, token_v,
    tokens_v, Token, TokenKind, TokenKindV, TokenV,
};

verus! {

pub open spec fn keyword_func() -> Seq<char> {
    seq!['f', 'u', 'n', 'c']
}

pub open spec fn keyword_end() -> Seq<char> {
    seq!['e', 'n', 'd']
}

pub open spec fn keyword_let() -> Seq<char> {
    seq!['l', 'e', 't']
}

pub open spec fn keyword_set() -> Seq<char> {
    seq!['s', 'e', 't']
}

pub open spec fn keyword_shadow() -> Seq<char> {
    seq!['s', 'h', 'a', 'd', 'o', 'w']
}

pub open spec fn fail<T>(lp: usize, r: Reason) -> Result<T, StopV> {
    Err(StopV::Error(diag(lp, r)))
}

/// The operators that may follow the name in a `set` command.
pub open spec fn is_update_operator(k: TokenKindV) -> bool {
    k is Equality || k is Add || k is Sub || k is Mul || k is Div
}

/// Reads the parameters of a function header from `t[n..]`, after `args`
/// were read; gives the position after the closing `)`.
pub open spec fn header_args(t: Seq<TokenV>, n: int, args: Seq<TypedIdentifierV>, lp: usize) -> Result<
    (int, Seq<TypedIdentifierV>),
    StopV,
>
    decreases t.len() - n,
{
    if n >= t.len() || n < 0 {
        fail(lp, Reason::ExpectedClosedParenAfterArguments)
    } else if t[n].kind is ClosedParen {
        Ok((n + 1, args))
    } else if t[n].kind is DoubleIdentifier {
        let ident = t[n].kind->DoubleIdentifier_0;
        let ty = t[n].kind->DoubleIdentifier_1;
        match spec_type_from_string(ty) {
            None => Err(StopV::Error(DiagnosticV { line_pos: lp, reason: Reason::UnknownType, subject: ty })),
            Some(vt) => {
                let args2 = args.push(TypedIdentifierV { ident, ty: vt });
                if n + 1 < t.len() && !(t[n + 1].kind is Comma) {
                    fail(lp, Reason::ExpectedCommaAfterArgument)
                } else if n + 1 >= t.len() {
                    fail(lp, Reason::ExpectedClosedParenAfterArguments)
                } else {
                    header_args(t, n + 2, args2, lp)
                }
            },
        }
    } else {
        fail(lp, Reason::ExpectedTypedIdentifier)
    }
}

/// A `func name(a:type, ...) return_type` line.
pub open spec fn parse_header(t: Seq<TokenV>, lp: usize) -> Result<CommandV, StopV> {
    if !(t.len() > 1 && t[1].kind is Identifier) {
        fail(lp, Reason::ExpectedIdentifier)
    } else if t.len() > 2 && !(t[2].kind is OpenParen) {
        fail(lp, Reason::ExpectedOpenParen)
    } else if t.len() < 3 {
        Err(StopV::Panic(PanicSite::MissingArgumentList))
    } else {
        match header_args(t, 3, Seq::empty(), lp) {
            Err(s) => Err(s),
            Ok((p, args)) => if !(p < t.len() && t[p].kind is Identifier) {
                fail(lp, Reason::ExpectedReturnType)
            } else if t.len() > p + 1 {
                fail(lp, Reason::RedundantTokens)
            } else {
                Ok(
                    CommandV {
                        kind: CommandKindV::FunctionHeader {
                            name: t[1].kind->Identifier_0,
                            args,
                            return_type: t[p].kind->Identifier_0,
                        },
                        line_pos: lp,
                    },
                )
            },
        }
    }
}

/// A `let name:type = expr`, `shadow name:type = expr` or `set name op expr` line.
pub open spec fn parse_assignment(t: Seq<TokenV>, keyword: Seq<char>, lp: usize) -> Result<CommandV, StopV> {
    if t.len() < 3 {
        fail(lp, Reason::ExpectedOperator)
    } else {
        let op = t[2].kind;
        match spec_collect_expr(t.subrange(3, t.len() as int), lp) {
            Err(s) => Err(s),
            Ok(expr) => if keyword == keyword_set() {
                if !(t[1].kind is Identifier) {
                    fail(lp, Reason::ExpectedIdentifier)
                } else if !is_update_operator(op) {
                    fail(lp, Reason::InvalidOperator)
                } else {
                    Ok(
                        CommandV {
                            kind: CommandKindV::VariableUpdate { name: t[1].kind->Identifier_0, op, expr },
                            line_pos: lp,
                        },
                    )
                }
            } else if !(t[1].kind is DoubleIdentifier) {
                fail(lp, Reason::ExpectedTypedIdentifier)
            } else {
                let ty = t[1].kind->DoubleIdentifier_1;
                match spec_type_from_string(ty) {
                    None => Err(
                        StopV::Error(DiagnosticV { line_pos: lp, reason: Reason::UnknownType, subject: ty }),
                    ),
                    Some(vt) => if !(op is Equality) {
                        fail(lp, Reason::ExpectedEqualitySymbol)
                    } else {
                        Ok(
                            CommandV {
                                kind: CommandKindV::VariableDecl {
                                    shadowing: keyword == keyword_shadow(),
                                    name: TypedIdentifierV { ident: t[1].kind->DoubleIdentifier_0, ty: vt },
                                    op,
                                    expr,
                                },
                                line_pos: lp,
                            },
                        )
                    },
                }
            },
        }
    }
}

/// Splits `r[i..]` at the commas outside of parentheses, with `pc`
/// parentheses open and `parts` read so far.
pub open spec fn split_parts(r: Seq<TokenV>, i: int, pc: int, parts: Seq<Seq<TokenV>>) -> Result<
    Seq<Seq<TokenV>>,
    Reason,
>
    decreases r.len() - i,
{
    if i >= r.len() || i < 0 {
        Ok(parts)
    } else if r[i].kind is OpenParen {
        if pc + 1 < MAX_EXPRESSION_DEPTH {
            split_parts(r, i + 1, pc + 1, push_last(parts, r[i]))
        } else {
            Err(Reason::TooManyNestedParentheses)
        }
    } else if r[i].kind is ClosedParen {
        if pc >= 1 {
            split_parts(r, i + 1, pc - 1, push_last(parts, r[i]))
        } else {
            Err(Reason::UnmatchedClosedParen)
        }
    } else if r[i].kind is Comma && pc == 0 {
        split_parts(r, i + 1, pc, parts.push(Seq::empty()))
    } else {
        split_parts(r, i + 1, pc, push_last(parts, r[i]))
    }
}

/// Gathers each of `parts[k..]` into an expression, after `acc` was gathered.
pub open spec fn collect_parts(parts: Seq<Seq<TokenV>>, k: int, acc: Seq<Seq<TokenV>>, lp: usize) -> Result<
    Seq<Seq<TokenV>>,
    StopV,
>
    decreases parts.len() - k,
{
    if k >= parts.len() || k < 0 {
        Ok(acc)
    } else if parts[k].len() == 0 {
        fail(lp, Reason::ExpectedExpression)
    } else {
        match spec_collect_expr(parts[k], lp) {
            Err(s) => Err(s),
            Ok(e) => collect_parts(parts, k + 1, acc.push(e), lp),
        }
    }
}

/// A `name arg, arg, ...` line: a call of the function `name`.
pub open spec fn parse_call(t: Seq<TokenV>, name: Seq<char>, lp: usize) -> Result<CommandV, StopV> {
    match split_parts(t.subrange(1, t.len() as int), 0, 0, seq![Seq::empty()]) {
        Err(r) => fail(lp, r),
        Ok(parts) => {
            let args = if parts.len() == 1 && parts[0].len() == 0 {
                Ok(Seq::empty())
            } else {
                collect_parts(parts, 0, Seq::empty(), lp)
            };
            match args {
                Err(s) => Err(s),
                Ok(a) => Ok(CommandV { kind: CommandKindV::FunctionCall { name, args: a }, line_pos: lp }),
            }
        },
    }
}

/// The command of a non-empty token line, chosen by its first identifier.
pub open spec fn parse_command(t: Seq<TokenV>) -> Result<CommandV, StopV> {
    let lp = t[0].line_pos;
    if !(t[0].kind is Identifier) {
        fail(lp, Reason::ExpectedIdentifier)
    } else {
        let ident = t[0].kind->Identifier_0;
        if ident == keyword_func() {
            parse_header(t, lp)
        } else if ident == keyword_end() {
            if t.len() > 1 {
                fail(lp, Reason::RedundantTokens)
            } else {
                Ok(CommandV { kind: CommandKindV::End, line_pos: lp })
            }
        } else if ident == keyword_let() || ident == keyword_set() || ident == keyword_shadow() {
            parse_assignment(t, ident, lp)
        } else {
            parse_call(t, ident, lp)
        }
    }
}

/// The commands of the token lines `lines[k..]`, after `acc` was read; empty
/// lines give none. The first line in error stops it.
pub open spec fn parse_commands(lines: Seq<Seq<TokenV>>, k: int, acc: Seq<CommandV>) -> Result<
    Seq<CommandV>,
    StopV,
>
    decreases lines.len() - k,
{
    if k >= lines.len() || k < 0 {
        Ok(acc)
    } else if lines[k].len() == 0 {
        parse_commands(lines, k + 1, acc)
    } else {
        match parse_command(lines[k]) {
            Err(s) => Err(s),
            Ok(c) => parse_commands(lines, k + 1, acc.push(c)),
        }
    }
}

pub open spec fn spec_parse_tokens(lines: Seq<Seq<TokenV>>) -> Result<Seq<CommandV>, StopV> {
    parse_commands(lines, 0, Seq::empty())
}

/// What reading the arguments `parts[k..]` of a call line reports without
/// stopping.
pub open spec fn parts_notes(parts: Seq<Seq<TokenV>>, k: int, lp: usize) -> Seq<Reason>
    decreases parts.len() - k,
{
    if k >= parts.len() || k < 0 || parts[k].len() == 0 {
        Seq::empty()
    } else {
        collect_notes(parts[k], lp) + if spec_collect_expr(parts[k], lp) is Ok {
            parts_notes(parts, k + 1, lp)
        } else {
            Seq::empty()
        }
    }
}

/// What reading a non-empty token line reports without stopping: the
/// complaints of gathering the calls of its expressions.
pub open spec fn command_notes(t: Seq<TokenV>) -> Seq<Reason> {
    let lp = t[0].line_pos;
    if !(t[0].kind is Identifier) {
        Seq::empty()
    } else {
        let ident = t[0].kind->Identifier_0;
        if ident == keyword_func() || ident == keyword_end() {
            Seq::empty()
        } else if ident == keyword_let() || ident == keyword_set() || ident == keyword_shadow() {
            if t.len() < 3 {
                Seq::empty()
            } else {
                collect_notes(t.subrange(3, t.len() as int), lp)
            }
        } else {
            match split_parts(t.subrange(1, t.len() as int), 0, 0, seq![Seq::empty()]) {
                Err(_) => Seq::empty(),
                Ok(parts) => if parts.len() == 1 && parts[0].len() == 0 {
                    Seq::empty()
                } else {
                    parts_notes(parts, 0, lp)
                },
            }
        }
    }
}

pub open spec fn diags_at(lp: usize, rs: Seq<Reason>) -> Seq<DiagnosticV> {
    rs.map_values(|r: Reason| diag(lp, r))
}

pub open spec fn diags_v(ds: Seq<Diagnostic>) -> Seq<DiagnosticV> {
    ds.map_values(|d: Diagnostic| d@)
}

/// What reading the token lines `lines[k..]` reports without stopping, each
/// complaint with the number of its line, up to the first line in error.
pub open spec fn parse_notes(lines: Seq<Seq<TokenV>>, k: int) -> Seq<DiagnosticV>
    decreases lines.len() - k,
{
    if k >= lines.len() || k < 0 {
        Seq::empty()
    } else if lines[k].len() == 0 {
        parse_notes(lines, k + 1)
    } else {
        diags_at(lines[k][0].line_pos, command_notes(lines[k])) + if parse_command(lines[k]) is Ok {
            parse_notes(lines, k + 1)
        } else {
            Seq::empty()
        }
    }
}

pub open spec fn command_result_v(r: Result<Command, Stop>) -> Result<CommandV, StopV> {
    match r {
        Ok(c) => Ok(c@),
        Err(s) => Err(s@),
    }
}

pub open spec fn commands_result_v(r: Result<Vec<Command>, Stop>) -> Result<Seq<CommandV>, StopV> {
    match r {
        Ok(c) => Ok(commands_v(c@)),
        Err(s) => Err(s@),
    }
}

fn stop(line_pos: usize, reason: Reason) -> (s: Stop)
    ensures
        s@ == StopV::Error(diag(line_pos, reason)),
{
    Stop::Error(Diagnostic::new(line_pos, reason))
}

fn unknown_type(line_pos: usize, ty: &String) -> (s: Stop)
    ensures
        s@ == StopV::Error(DiagnosticV { line_pos, reason: Reason::UnknownType, subject: ty@ }),
{
    Stop::Error(Diagnostic { line_pos, reason: Reason::UnknownType, subject: ty.clone() })
}

} // verus!

verus! {

pub proof fn lemma_typed_idents_push(s: Seq<TypedIdentifier>, t: TypedIdentifier)
    ensures
        typed_idents_v(s.push(t)) == typed_idents_v(s).push(t@),
{
    assert(typed_idents_v(s.push(t)) =~= typed_idents_v(s).push(t@));
}

pub proof fn lemma_commands_push(s: Seq<Command>, c: Command)
    ensures
        commands_v(s.push(c)) == commands_v(s).push(c@),
{
    assert(commands_v(s.push(c)) =~= commands_v(s).push(c@));
}

/// Whether `k` is an identifier.
fn is_identifier(k: &TokenKind) -> (b: bool)
    ensures
        b == (kind_v(*k) is Identifier),
{
    match k {
        TokenKind::Identifier(_) => true,
        _ => false,
    }
}

fn identifier_of(k: &TokenKind) -> (s: String)
    requires
        kind_v(*k) is Identifier,
    ensures
        s@ == kind_v(*k)->Identifier_0,
{
    match k {
        TokenKind::Identifier(s) => s.clone(),
        _ => unreached(),
    }
}

impl Compiler {
    /// Reads the parameters of a function header from `t[3..]` (see [`header_args`]).
    fn parse_header_args(&self, t: &Vec<Token>, lp: usize) -> (r: Result<(usize, Vec<TypedIdentifier>), Stop>)
        requires
            t.len() >= 3,
        ensures
            match r {
                Ok((p, args)) => header_args(tokens_v(t@), 3, Seq::empty(), lp)
                    == Ok::<(int, Seq<TypedIdentifierV>), StopV>((p as int, typed_idents_v(args@)))
                    && p <= t.len(),
                Err(s) => header_args(tokens_v(t@), 3, Seq::empty(), lp) == Err::<(int, Seq<TypedIdentifierV>), StopV>(s@),
            },
    {
        broadcast use group_token_view;

        let ghost tv = tokens_v(t@);
        let mut args: Vec<TypedIdentifier> = Vec::new();
        let mut n: usize = 3;
        assert(typed_idents_v(args@) =~= Seq::<TypedIdentifierV>::empty());
        while n < t.len()
            invariant
                tv == tokens_v(t@),
                tv.len() == t.len(),
                3 <= n,
                header_args(tv, n as int, typed_idents_v(args@), lp) == header_args(tv, 3, Seq::empty(), lp),
            decreases t.len() - n,
        {
            proof {
                crate::token::lemma_tokens_v_index(t@, n as int);
                if n + 1 < t.len() {
                    crate::token::lemma_tokens_v_index(t@, n + 1);
                }
            }
            match &t[n].kind {
                TokenKind::ClosedParen => {
                    return Ok((n + 1, args));
                },
                TokenKind::DoubleIdentifier(ident, ty) => {
                    let vt = match VariableType::from_string(ty.clone()) {
                        Some(vt) => vt,
                        None => {
                            return Err(unknown_type(lp, ty));
                        },
                    };
                    let arg = TypedIdentifier { ident: ident.clone(), ty: vt };
                    proof {
                        lemma_typed_idents_push(args@, arg);
                    }
                    args.push(arg);
                    if n + 1 < t.len() {
                        match &t[n + 1].kind {
                            TokenKind::Comma => {},
                            _ => {
                                return Err(stop(lp, Reason::ExpectedCommaAfterArgument));
                            },
                        }
                    } else {
                        return Err(stop(lp, Reason::ExpectedClosedParenAfterArguments));
                    }
                    n += 2;
                },
                _ => {
                    return Err(stop(lp, Reason::ExpectedTypedIdentifier));
                },
            }
        }
        Err(stop(lp, Reason::ExpectedClosedParenAfterArguments))
    }

    /// Reads a `func` line (see [`parse_header`]).
    fn parse_header_line(&self, t: &Vec<Token>, lp: usize) -> (r: Result<Command, Stop>)
        requires
            t.len() >= 1,
        ensures
            command_result_v(r) == parse_header(tokens_v(t@), lp),
    {
        broadcast use group_token_view;

        proof {
            if t.len() > 1 {
                crate::token::lemma_tokens_v_index(t@, 1);
            }
            if t.len() > 2 {
                crate::token::lemma_tokens_v_index(t@, 2);
            }
        }
        if !(t.len() > 1 && is_identifier(&t[1].kind)) {
            return Err(stop(lp, Reason::ExpectedIdentifier));
        }
        let name = identifier_of(&t[1].kind);
        if t.len() > 2 {
            match &t[2].kind {
                TokenKind::OpenParen => {},
                _ => {
                    return Err(stop(lp, Reason::ExpectedOpenParen));
                },
            }
        }
        if t.len() < 3 {
            return Err(Stop::Panic(PanicSite::MissingArgumentList));
        }
        let (p, args) = match self.parse_header_args(t, lp) {
            Ok(res) => res,
            Err(s) => {
                return Err(s);
            },
        };
        proof {
            if p < t.len() {
                crate::token::lemma_tokens_v_index(t@, p as int);
            }
        }
        if !(p < t.len() && is_identifier(&t[p].kind)) {
            return Err(stop(lp, Reason::ExpectedReturnType));
        }
        let return_type = identifier_of(&t[p].kind);
        if t.len() > p + 1 {
            return Err(stop(lp, Reason::RedundantTokens));
        }
        Ok(Command { kind: CommandKind::FunctionHeader { name, args, return_type }, line_pos: lp })
    }

    /// Reads a `let`, `shadow` or `set` line (see [`parse_assignment`]).
    fn parse_assignment_line(&self, t: &Vec<Token>, keyword: &String, lp: usize, notes: &mut Vec<Reason>) -> (r: Result<Command, Stop>)
        requires
            t.len() >= 1,
            keyword@ == keyword_let() || keyword@ == keyword_set() || keyword@ == keyword_shadow(),
        ensures
            command_result_v(r) == parse_assignment(tokens_v(t@), keyword@, lp),
            final(notes)@ == old(notes)@ + if t.len() < 3 {
                Seq::<Reason>::empty()
            } else {
                collect_notes(tokens_v(t@).subrange(3, t.len() as int), lp)
            },
    {
        broadcast use group_token_view;

        if t.len() < 3 {
            return Err(stop(lp, Reason::ExpectedOperator));
        }
        proof {
            crate::token::lemma_tokens_v_index(t@, 1);
            crate::token::lemma_tokens_v_index(t@, 2);
        }
        let expr_tokens = vstd::slice::slice_subrange(t.as_slice(), 3, t.len());
        proof {
            crate::token::lemma_tokens_v_subrange(t@, 3, t@.len() as int);
        }
        let expr = match self.collect_expr(expr_tokens, lp, notes) {
            Ok(e) => e,
            Err(s) => {
                return Err(s);
            },
        };
        let is_set = str_eq(keyword.as_str(), "set");
        let is_shadow = str_eq(keyword.as_str(), "shadow");
        proof {
            reveal_strlit("set");
            reveal_strlit("shadow");
            assert("set"@ =~= keyword_set());
            assert("shadow"@ =~= keyword_shadow());
        }
        if is_set {
            if !is_identifier(&t[1].kind) {
                return Err(stop(lp, Reason::ExpectedIdentifier));
            }
            let name = identifier_of(&t[1].kind);
            let op = match &t[2].kind {
                TokenKind::Equality => TokenKind::Equality,
                TokenKind::Add => TokenKind::Add,
                TokenKind::Sub => TokenKind::Sub,
                TokenKind::Mul => TokenKind::Mul,
                TokenKind::Div => TokenKind::Div,
                _ => {
                    return Err(stop(lp, Reason::InvalidOperator));
                },
            };
            Ok(Command { kind: CommandKind::VariableUpdate { name, op, expr }, line_pos: lp })
        } else {
            let (ident, ty) = match &t[1].kind {
                TokenKind::DoubleIdentifier(ident, ty) => (ident, ty),
                _ => {
                    return Err(stop(lp, Reason::ExpectedTypedIdentifier));
                },
            };
            let vt = match VariableType::from_string(ty.clone()) {
                Some(vt) => vt,
                None => {
                    return Err(unknown_type(lp, ty));
                },
            };
            let name = TypedIdentifier { ident: ident.clone(), ty: vt };
            match &t[2].kind {
                TokenKind::Equality => {},
                _ => {
                    return Err(stop(lp, Reason::ExpectedEqualitySymbol));
                },
            }
            Ok(
                Command {
                    kind: CommandKind::VariableDecl { shadowing: is_shadow, name, op: TokenKind::Equality, expr },
                    line_pos: lp,
                },
            )
        }
    }
}

} // verus!

verus! {

pub open spec fn parts_view(parts: Seq<Vec<Token>>, cur: Seq<Token>) -> Seq<Seq<TokenV>> {
    args_v(parts).push(tokens_v(cur))
}

pub open spec fn may_panic(r: Result<Seq<CommandV>, StopV>) -> bool {
    r matches Err(StopV::Panic(_))
}

impl Compiler {
    /// Splits `t[1..]` at the commas outside of parentheses (see [`split_parts`]).
    fn split_call_parts(&self, t: &Vec<Token>) -> (r: Result<Vec<Vec<Token>>, Reason>)
        requires
            t.len() >= 1,
        ensures
            match r {
                Ok(parts) => split_parts(tokens_v(t@).subrange(1, t.len() as int), 0, 0, seq![Seq::empty()])
                    == Ok::<Seq<Seq<TokenV>>, Reason>(args_v(parts@)),
                Err(reason) => split_parts(tokens_v(t@).subrange(1, t.len() as int), 0, 0, seq![Seq::empty()])
                    == Err::<Seq<Seq<TokenV>>, Reason>(reason),
            },
    {
        broadcast use group_token_view;

        let ghost rv = tokens_v(t@).subrange(1, t.len() as int);
        let mut parts: Vec<Vec<Token>> = Vec::new();
        let mut cur: Vec<Token> = Vec::new();
        let mut paren_counter: u8 = 0;
        let mut i: usize = 1;
        assert(parts_view(parts@, cur@) =~= seq![Seq::<TokenV>::empty()]);
        while i < t.len()
            invariant
                rv == tokens_v(t@).subrange(1, t.len() as int),
                tokens_v(t@).len() == t.len(),
                1 <= i <= t.len(),
                paren_counter < MAX_EXPRESSION_DEPTH,
                split_parts(rv, i - 1, paren_counter as int, parts_view(parts@, cur@))
                    == split_parts(rv, 0, 0, seq![Seq::empty()]),
            decreases t.len() - i,
        {
            proof {
                crate::token::lemma_tokens_v_index(t@, i as int);
            }
            let ghost pv = parts_view(parts@, cur@);
            assert(rv[i - 1] == token_v(t@[i as int]));
            match &t[i].kind {
                TokenKind::OpenParen => {
                    if paren_counter + 1 < MAX_EXPRESSION_DEPTH {
                        paren_counter = paren_counter + 1;
                    } else {
                        return Err(Reason::TooManyNestedParentheses);
                    }
                },
                TokenKind::ClosedParen => {
                    if paren_counter >= 1 {
                        paren_counter = paren_counter - 1;
                    } else {
                        return Err(Reason::UnmatchedClosedParen);
                    }
                },
                TokenKind::Comma => {
                    if paren_counter == 0 {
                        proof {
                            crate::token::lemma_args_v_push(parts@, cur);
                        }
                        parts.push(cur);
                        cur = Vec::new();
                        assert(parts_view(parts@, cur@) =~= pv.push(Seq::empty()));
                        i += 1;
                        continue;
                    }
                },
                _ => {},
            }
            let tk = duplicate_token(&t[i]);
            push_token(&mut cur, tk);
            assert(parts_view(parts@, cur@) =~= push_last(pv, rv[i - 1]));
            i += 1;
        }
        proof {
            crate::token::lemma_args_v_push(parts@, cur);
        }
        parts.push(cur);
        Ok(parts)
    }

    /// Reads a function call line (see [`parse_call`]).
    fn parse_call_line(&self, t: &Vec<Token>, name: String, lp: usize, notes: &mut Vec<Reason>) -> (r: Result<Command, Stop>)
        requires
            t.len() >= 1,
        ensures
            command_result_v(r) == parse_call(tokens_v(t@), name@, lp),
            final(notes)@ == old(notes)@ + match split_parts(tokens_v(t@).subrange(1, t.len() as int), 0, 0, seq![Seq::empty()]) {
                Err(_) => Seq::<Reason>::empty(),
                Ok(parts) => if parts.len() == 1 && parts[0].len() == 0 {
                    Seq::<Reason>::empty()
                } else {
                    parts_notes(parts, 0, lp)
                },
            },
    {
        let ghost notes0 = notes@;
        broadcast use group_token_view;

        let parts = match self.split_call_parts(t) {
            Ok(p) => p,
            Err(reason) => {
                return Err(stop(lp, reason));
            },
        };
        let ghost pv = args_v(parts@);
        proof {
            crate::token::lemma_args_v_len(parts@);
            if parts.len() > 0 {
                crate::token::lemma_args_v_index(parts@, 0);
            }
        }
        let mut args: Vec<Vec<Token>> = Vec::new();
        let is_empty = parts.len() == 1 && parts[0].len() == 0;
        proof {
            if parts.len() > 0 {
                crate::token::lemma_tokens_v_len(parts@[0]@);
            }
        }
        if !is_empty {
            let mut k: usize = 0;
            while k < parts.len()
                invariant
                    t.len() >= 1,
                    tokens_v(t@).len() == t.len(),
                    pv == args_v(parts@),
                    pv.len() == parts.len(),
                    split_parts(tokens_v(t@).subrange(1, t.len() as int), 0, 0, seq![Seq::empty()])
                        == Ok::<Seq<Seq<TokenV>>, Reason>(pv),
                    !(pv.len() == 1 && pv[0].len() == 0),
                    k <= parts.len(),
                    collect_parts(pv, k as int, args_v(args@), lp) == collect_parts(pv, 0, Seq::empty(), lp),
                    notes@ + parts_notes(pv, k as int, lp) == notes0 + parts_notes(pv, 0, lp),
                    notes0 == old(notes)@,
                decreases parts.len() - k,
            {
                proof {
                    crate::token::lemma_args_v_index(parts@, k as int);
                    crate::token::lemma_tokens_v_len(parts@[k as int]@);
                }
                if parts[k].len() == 0 {
                    return Err(stop(lp, Reason::ExpectedExpression));
                }
                let ghost before = notes@;
                let e = match self.collect_expr(parts[k].as_slice(), lp, notes) {
                    Ok(e) => e,
                    Err(s) => {
                        assert(before + (collect_notes(pv[k as int], lp) + Seq::<Reason>::empty()) == notes@);
                        return Err(s);
                    },
                };
                assert(before + (collect_notes(pv[k as int], lp) + parts_notes(pv, k + 1, lp)) == notes@ + parts_notes(pv, k + 1, lp));
                proof {
                    crate::token::lemma_args_v_push(args@, e);
                }
                args.push(e);
                k += 1;
            }
        }
        Ok(Command { kind: CommandKind::FunctionCall { name, args }, line_pos: lp })
    }

    /// Reads the command of one non-empty token line (see [`parse_command`]).
    fn parse_command_line(&self, t: &Vec<Token>, notes: &mut Vec<Reason>) -> (r: Result<Command, Stop>)
        requires
            t.len() >= 1,
        ensures
            command_result_v(r) == parse_command(tokens_v(t@)),
            final(notes)@ == old(notes)@ + command_notes(tokens_v(t@)),
    {
        broadcast use group_token_view;

        proof {
            crate::token::lemma_tokens_v_index(t@, 0);
        }
        let lp = t[0].line_pos;
        let ident = match &t[0].kind {
            TokenKind::Identifier(ident) => ident,
            _ => {
                return Err(stop(lp, Reason::ExpectedIdentifier));
            },
        };
        proof {
            reveal_strlit("func");
            reveal_strlit("end");
            reveal_strlit("let");
            reveal_strlit("set");
            reveal_strlit("shadow");
            assert("func"@ =~= keyword_func());
            assert("end"@ =~= keyword_end());
            assert("let"@ =~= keyword_let());
            assert("set"@ =~= keyword_set());
            assert("shadow"@ =~= keyword_shadow());
        }
        if str_eq(ident.as_str(), "func") {
            self.parse_header_line(t, lp)
        } else if str_eq(ident.as_str(), "end") {
            if t.len() > 1 {
                Err(stop(lp, Reason::RedundantTokens))
            } else {
                Ok(Command { kind: CommandKind::End, line_pos: lp })
            }
        } else if str_eq(ident.as_str(), "let") || str_eq(ident.as_str(), "set") || str_eq(
            ident.as_str(),
            "shadow",
        ) {
            self.parse_assignment_line(t, ident, lp, notes)
        } else {
            self.parse_call_line(t, ident.clone(), lp, notes)
        }
    }

    /// Reads the commands of the token lines, skipping empty lines; stops at
    /// the first line in error, or where compilation cannot go on. What it
    /// reports without stopping is appended to `notes` (see [`parse_notes`]).
    pub fn try_parse_tokens(&self, tokens: Vec<Vec<Token>>, notes: &mut Vec<Diagnostic>) -> (r: Result<Vec<Command>, Stop>)
        ensures
            commands_result_v(r) == spec_parse_tokens(args_v(tokens@)),
            diags_v(final(notes)@) == diags_v(old(notes)@) + parse_notes(args_v(tokens@), 0),
    {
        let ghost notes0 = diags_v(notes@);
        broadcast use group_token_view;

        let ghost lv = args_v(tokens@);
        let mut commands: Vec<Command> = Vec::new();
        let mut k: usize = 0;
        assert(commands_v(commands@) =~= Seq::<CommandV>::empty());
        while k < tokens.len()
            invariant
                lv == args_v(tokens@),
                lv.len() == tokens.len(),
                k <= tokens.len(),
                parse_commands(lv, k as int, commands_v(commands@)) == parse_commands(lv, 0, Seq::empty()),
                diags_v(notes@) + parse_notes(lv, k as int) == notes0 + parse_notes(lv, 0),
                notes0 == diags_v(old(notes)@),
            decreases tokens.len() - k,
        {
            proof {
                crate::token::lemma_args_v_index(tokens@, k as int);
                crate::token::lemma_tokens_v_len(tokens@[k as int]@);
            }
            if tokens[k].len() > 0 {
                let mut found: Vec<Reason> = Vec::new();
                let res = self.parse_command_line(&tokens[k], &mut found);
                proof {
                    crate::token::lemma_tokens_v_index(tokens@[k as int]@, 0);
                }
                let lp = tokens[k][0].line_pos;
                let ghost before = diags_v(notes@);
                let mut j: usize = 0;
                while j < found.len()
                    invariant
                        j <= found.len(),
                        diags_v(notes@) == before + diags_at(lp, found@.take(j as int)),
                    decreases found.len() - j,
                {
                    let ghost prev = notes@;
                    notes.push(Diagnostic::new(lp, found[j]));
                    proof {
                        assert(diags_v(notes@) =~= diags_v(prev).push(diag(lp, found@[j as int])));
                        assert(diags_at(lp, found@.take(j + 1)) =~= diags_at(lp, found@.take(j as int)).push(diag(lp, found@[j as int])));
                    }
                    j += 1;
                }
                assert(found@.take(found.len() as int) == found@);
                assert(lv[k as int] == tokens_v(tokens@[k as int]@));
                assert(lv[k as int][0].line_pos == lp);
                let c = match res {
                    Ok(c) => c,
                    Err(s) => {
                        assert(parse_notes(lv, k as int) =~= diags_at(lp, found@) + Seq::<DiagnosticV>::empty());
                        assert(before + (diags_at(lp, found@) + Seq::<DiagnosticV>::empty()) =~= diags_v(notes@));
                        return Err(s);
                    },
                };
                assert(parse_notes(lv, k as int) =~= diags_at(lp, found@) + parse_notes(lv, k + 1));
                assert(before + (diags_at(lp, found@) + parse_notes(lv, k + 1)) =~= diags_v(notes@) + parse_notes(lv, k + 1));
                proof {
                    lemma_commands_push(commands@, c);
                }
                commands.push(c);
            }
            k += 1;
        }
        Ok(commands)
    }

    /// Reads the commands of the token lines, skipping empty lines; stops at
    /// the first line in error (see [`spec_parse_tokens`]).
    pub fn parse_tokens(&self, tokens: Vec<Vec<Token>>, notes: &mut Vec<Diagnostic>) -> (r: Result<Vec<Command>, Diagnostic>)
        requires
            !may_panic(spec_parse_tokens(args_v(tokens@))),
        ensures
            diags_v(final(notes)@) == diags_v(old(notes)@) + parse_notes(args_v(tokens@), 0),
            match r {
                Ok(c) => spec_parse_tokens(args_v(tokens@)) == Ok::<Seq<CommandV>, StopV>(commands_v(c@)),
                Err(d) => spec_parse_tokens(args_v(tokens@)) == Err::<Seq<CommandV>, StopV>(StopV::Error(d@)),
            },
    {
        match self.try_parse_tokens(tokens, notes) {
            Ok(c) => Ok(c),
            Err(Stop::Error(d)) => Err(d),
            Err(Stop::Panic(_)) => unreached(),
        }
    }
}

} // verus!

verus! {

/// The non-empty lines of `lines[k..]`, in order.
pub open spec fn nonempty_lines(lines: Seq<Seq<TokenV>>, k: int) -> Seq<Seq<TokenV>>
    decreases lines.len() - k,
{
    if k >= lines.len() || k < 0 {
        Seq::empty()
    } else if lines[k].len() > 0 {
        seq![lines[k]] + nonempty_lines(lines, k + 1)
    } else {
        nonempty_lines(lines, k + 1)
    }
}

proof fn lemma_command_line(t: Seq<TokenV>)
    requires
        t.len() > 0,
    ensures
        parse_command(t) matches Ok(c) ==> c.line_pos == t[0].line_pos,
{
}

proof fn lemma_parse_commands(lines: Seq<Seq<TokenV>>, k: int, acc: Seq<CommandV>)
    requires
        0 <= k <= lines.len(),
    ensures
        parse_commands(lines, k, acc) matches Ok(cmds) ==> {
            let nl = nonempty_lines(lines, k);
            &&& cmds.len() == acc.len() + nl.len()
            &&& forall|j: int| 0 <= j < acc.len() ==> cmds[j] == acc[j]
            &&& forall|j: int| 0 <= j < nl.len() ==> (#[trigger] cmds[acc.len() + j]).line_pos == nl[j][0].line_pos
        },
    decreases lines.len() - k,
{
    if k < lines.len() {
        if lines[k].len() == 0 {
            lemma_parse_commands(lines, k + 1, acc);
        } else {
            lemma_command_line(lines[k]);
            if let Ok(c) = parse_command(lines[k]) {
                lemma_parse_commands(lines, k + 1, acc.push(c));
                if let Ok(cmds) = parse_commands(lines, k, acc) {
                    let nl = nonempty_lines(lines, k);
                    let rest = nonempty_lines(lines, k + 1);
                    assert(nl == seq![lines[k]] + rest);
                    assert forall|j: int| 0 <= j < nl.len() implies (#[trigger] cmds[acc.len() + j]).line_pos
                        == nl[j][0].line_pos by {
                        if j == 0 {
                            assert(cmds[acc.len() as int] == acc.push(c)[acc.len() as int]);
                        } else {
                            assert(nl[j] == rest[j - 1]);
                            assert(cmds[acc.push(c).len() + (j - 1)] == cmds[acc.len() + j]);
                        }
                    }
                    assert forall|j: int| 0 <= j < acc.len() implies cmds[j] == acc[j] by {
                        assert(cmds[j] == acc.push(c)[j]);
                    }
                }
            }
        }
    }
}

/// Reading commands gives one command for each non-empty line, in order, each
/// carrying the line number of its line's first token.
pub proof fn law_one_command_per_line(lines: Seq<Seq<TokenV>>)
    ensures
        spec_parse_tokens(lines) matches Ok(cmds) ==> {
            let nl = nonempty_lines(lines, 0);
            &&& cmds.len() == nl.len()
            &&& forall|j: int| 0 <= j < nl.len() ==> (#[trigger] cmds[j]).line_pos == nl[j][0].line_pos
        },
{
    lemma_parse_commands(lines, 0, Seq::empty());
    if let Ok(cmds) = spec_parse_tokens(lines) {
        let nl = nonempty_lines(lines, 0);
        assert forall|j: int| 0 <= j < nl.len() implies (#[trigger] cmds[j]).line_pos == nl[j][0].line_pos by {
            assert(cmds[0 + j] == cmds[j]);
        }
    }
}

} // verus!

verus! {

/// Every expression of a command is a well-formed expression: the right-hand
/// side of a declaration or an update, and each argument of a call.
pub open spec fn expressions_well_formed(c: CommandV) -> bool {
    match c.kind {
        CommandKindV::VariableDecl { expr, .. } => crate::expr::spec_check_expression(expr) is Ok,
        CommandKindV::VariableUpdate { expr, .. } => crate::expr::spec_check_expression(expr) is Ok,
        CommandKindV::FunctionCall { args, .. } => forall|k: int|
            0 <= k < args.len() ==> crate::expr::spec_check_expression(#[trigger] args[k]) is Ok,
        _ => true,
    }
}

proof fn lemma_collect_parts(parts: Seq<Seq<TokenV>>, k: int, acc: Seq<Seq<TokenV>>, lp: usize)
    requires
        0 <= k,
        forall|j: int| 0 <= j < acc.len() ==> crate::expr::spec_check_expression(#[trigger] acc[j]) is Ok,
    ensures
        collect_parts(parts, k, acc, lp) matches Ok(a) ==> forall|j: int|
            0 <= j < a.len() ==> crate::expr::spec_check_expression(#[trigger] a[j]) is Ok,
    decreases parts.len() - k,
{
    if k < parts.len() && parts[k].len() > 0 {
        crate::collect::law_collected_is_well_formed(parts[k], lp);
        if let Ok(e) = spec_collect_expr(parts[k], lp) {
            let acc2 = acc.push(e);
            assert forall|j: int| 0 <= j < acc2.len() implies crate::expr::spec_check_expression(#[trigger] acc2[j]) is Ok by {
                if j < acc.len() {
                    assert(acc2[j] == acc[j]);
                }
            }
            lemma_collect_parts(parts, k + 1, acc2, lp);
        }
    }
}

proof fn lemma_command_expressions(t: Seq<TokenV>)
    requires
        t.len() > 0,
    ensures
        parse_command(t) matches Ok(c) ==> expressions_well_formed(c),
{
    let lp = t[0].line_pos;
    if t.len() >= 3 {
        crate::collect::law_collected_is_well_formed(t.subrange(3, t.len() as int), lp);
    }
    if let Ok(parts) = split_parts(t.subrange(1, t.len() as int), 0, 0, seq![Seq::empty()]) {
        lemma_collect_parts(parts, 0, Seq::empty(), lp);
    }
}

proof fn lemma_commands_expressions(lines: Seq<Seq<TokenV>>, k: int, acc: Seq<CommandV>)
    requires
        0 <= k,
        forall|j: int| 0 <= j < acc.len() ==> expressions_well_formed(#[trigger] acc[j]),
    ensures
        parse_commands(lines, k, acc) matches Ok(cmds) ==> forall|j: int|
            0 <= j < cmds.len() ==> expressions_well_formed(#[trigger] cmds[j]),
    decreases lines.len() - k,
{
    if k < lines.len() {
        if lines[k].len() == 0 {
            lemma_commands_expressions(lines, k + 1, acc);
        } else {
            lemma_command_expressions(lines[k]);
            if let Ok(c) = parse_command(lines[k]) {
                let acc2 = acc.push(c);
                assert forall|j: int| 0 <= j < acc2.len() implies expressions_well_formed(#[trigger] acc2[j]) by {
                    if j < acc.len() {
                        assert(acc2[j] == acc[j]);
                    }
                }
                lemma_commands_expressions(lines, k + 1, acc2);
            }
        }
    }
}

/// Every expression in the commands read from token lines is well formed.
pub proof fn law_command_expressions_well_formed(lines: Seq<Seq<TokenV>>)
    ensures
        spec_parse_tokens(lines) matches Ok(cmds) ==> forall|j: int|
            0 <= j < cmds.len() ==> expressions_well_formed(#[trigger] cmds[j]),
{
    lemma_commands_expressions(lines, 0, Seq::empty());
}

} // verus!

verus! {

proof fn lemma_parse_commands_acc(lines: Seq<Seq<TokenV>>, k: int, acc: Seq<CommandV>)
    requires
        0 <= k <= lines.len(),
    ensures
        parse_commands(lines, k, acc) == match parse_commands(lines, k, Seq::empty()) {
            Err(e) => Err(e),
            Ok(cs) => Ok(acc + cs),
        },
    decreases lines.len() - k,
{
    if k < lines.len() {
        if lines[k].len() == 0 {
            lemma_parse_commands_acc(lines, k + 1, acc);
        } else if let Ok(c) = parse_command(lines[k]) {
            lemma_parse_commands_acc(lines, k + 1, acc.push(c));
            lemma_parse_commands_acc(lines, k + 1, seq![c]);
            assert(Seq::<CommandV>::empty().push(c) == seq![c]);
            if let Ok(cs) = parse_commands(lines, k + 1, Seq::empty()) {
                assert(acc.push(c) + cs == acc + (seq![c] + cs));
            }
        }
    } else {
        assert(acc + Seq::<CommandV>::empty() == acc);
    }
}

proof fn lemma_parse_commands_suffix(a: Seq<Seq<TokenV>>, b: Seq<Seq<TokenV>>, j: int, acc: Seq<CommandV>)
    requires
        0 <= j <= b.len(),
    ensures
        parse_commands(a + b, a.len() + j, acc) == parse_commands(b, j, acc),
    decreases b.len() - j,
{
    if j < b.len() {
        assert((a + b)[a.len() + j] == b[j]);
        if b[j].len() == 0 {
            lemma_parse_commands_suffix(a, b, j + 1, acc);
        } else if let Ok(c) = parse_command(b[j]) {
            lemma_parse_commands_suffix(a, b, j + 1, acc.push(c));
        }
    }
}

proof fn lemma_parse_commands_concat(a: Seq<Seq<TokenV>>, b: Seq<Seq<TokenV>>, k: int, acc: Seq<CommandV>)
    requires
        0 <= k <= a.len(),
    ensures
        parse_commands(a + b, k, acc) == match parse_commands(a, k, acc) {
            Err(e) => Err(e),
            Ok(ca) => parse_commands(b, 0, ca),
        },
    decreases a.len() - k,
{
    if k < a.len() {
        assert((a + b)[k] == a[k]);
        if a[k].len() == 0 {
            lemma_parse_commands_concat(a, b, k + 1, acc);
        } else if let Ok(c) = parse_command(a[k]) {
            lemma_parse_commands_concat(a, b, k + 1, acc.push(c));
        }
    } else {
        lemma_parse_commands_suffix(a, b, 0, acc);
    }
}

/// Lines are read one by one: reading the lines of `a` followed by those of
/// `b` fails as `a` fails where `a` fails, and otherwise gives the commands of
/// `a` followed by the outcome of reading `b` alone.
pub proof fn law_parse_concatenation(a: Seq<Seq<TokenV>>, b: Seq<Seq<TokenV>>)
    ensures
        spec_parse_tokens(a + b) == match spec_parse_tokens(a) {
            Err(e) => Err(e),
            Ok(ca) => match spec_parse_tokens(b) {
                Err(e) => Err(e),
                Ok(cb) => Ok(ca + cb),
            },
        },
{
    lemma_parse_commands_concat(a, b, 0, Seq::empty());
    if let Ok(ca) = spec_parse_tokens(a) {
        lemma_parse_commands_acc(b, 0, ca);
    }
}

proof fn lemma_parse_notes_suffix(a: Seq<Seq<TokenV>>, b: Seq<Seq<TokenV>>, j: int)
    requires
        0 <= j <= b.len(),
    ensures
        parse_notes(a + b, a.len() + j) == parse_notes(b, j),
    decreases b.len() - j,
{
    if j < b.len() {
        assert((a + b)[a.len() + j] == b[j]);
        lemma_parse_notes_suffix(a, b, j + 1);
    }
}

proof fn lemma_parse_notes_concat(a: Seq<Seq<TokenV>>, b: Seq<Seq<TokenV>>, k: int)
    requires
        0 <= k <= a.len(),
    ensures
        parse_notes(a + b, k) == parse_notes(a, k) + if parse_commands(a, k, Seq::empty()) is Ok {
            parse_notes(b, 0)
        } else {
            Seq::empty()
        },
    decreases a.len() - k,
{
    if k < a.len() {
        assert((a + b)[k] == a[k]);
        lemma_parse_notes_concat(a, b, k + 1);
        if a[k].len() > 0 {
            let d = diags_at(a[k][0].line_pos, command_notes(a[k]));
            if let Ok(c) = parse_command(a[k]) {
                lemma_parse_commands_acc(a, k + 1, seq![c]);
                assert(Seq::<CommandV>::empty().push(c) == seq![c]);
                let x = if parse_commands(a, k + 1, Seq::empty()) is Ok {
                    parse_notes(b, 0)
                } else {
                    Seq::empty()
                };
                assert(d + (parse_notes(a, k + 1) + x) == (d + parse_notes(a, k + 1)) + x);
            } else {
                assert(d + Seq::<DiagnosticV>::empty() == d);
            }
        }
    } else {
        lemma_parse_notes_suffix(a, b, 0);
        assert(Seq::<DiagnosticV>::empty() + parse_notes(b, 0) == parse_notes(b, 0));
    }
}

/// Lines are reported one by one too: what reading `a` followed by `b`
/// reports without stopping is what reading `a` reports, then, when every
/// line of `a` reads, what reading `b` reports.
pub proof fn law_parse_notes_concatenation(a: Seq<Seq<TokenV>>, b: Seq<Seq<TokenV>>)
    ensures
        parse_notes(a + b, 0) == parse_notes(a, 0) + if spec_parse_tokens(a) is Ok {
            parse_notes(b, 0)
        } else {
            Seq::empty()
        },
{
    lemma_parse_notes_concat(a, b, 0);
}

} // verus!

verus! {

/// What an assignment line holds once its expression is gathered: the
/// command built from it, or the error of gathering it.
pub open spec fn with_expression(r: Seq<TokenV>, lp: usize, kind: spec_fn(Seq<TokenV>) -> CommandKindV) -> Result<
    Seq<CommandV>,
    StopV,
> {
    match spec_collect_expr(r, lp) {
        Err(s) => Err(s),
        Ok(e) => Ok(seq![CommandV { kind: kind(e), line_pos: lp }]),
    }
}

/// A `set name op expr` line, where `op` is `=`, `+`, `-`, `*` or `/`, reads
/// as the update of `name` by the operator written, with the expression
/// gathered from the rest of the line; a `let` or `shadow` line declaring
/// `name:number` with `=` reads as that declaration, shadowing exactly for
/// `shadow`.
pub proof fn law_assignment_lines(t: Seq<TokenV>)
    requires
        t.len() >= 3,
        t[0].kind is Identifier,
    ensures
        ({
            let word = t[0].kind->Identifier_0;
            let k = t[2].kind;
            word == seq!['s', 'e', 't'] && t[1].kind is Identifier
                && (k is Equality || k is Add || k is Sub || k is Mul || k is Div)
        }) ==> spec_parse_tokens(seq![t]) == with_expression(
            t.subrange(3, t.len() as int),
            t[0].line_pos,
            |e: Seq<TokenV>| CommandKindV::VariableUpdate { name: t[1].kind->Identifier_0, op: t[2].kind, expr: e },
        ),
        ({
            let word = t[0].kind->Identifier_0;
            (word == seq!['l', 'e', 't'] || word == seq!['s', 'h', 'a', 'd', 'o', 'w'])
                && t[1].kind is DoubleIdentifier
                && t[1].kind->DoubleIdentifier_1 == seq!['n', 'u', 'm', 'b', 'e', 'r']
                && t[2].kind is Equality
        }) ==> spec_parse_tokens(seq![t]) == with_expression(
            t.subrange(3, t.len() as int),
            t[0].line_pos,
            |e: Seq<TokenV>| CommandKindV::VariableDecl {
                shadowing: t[0].kind->Identifier_0 == seq!['s', 'h', 'a', 'd', 'o', 'w'],
                name: TypedIdentifierV { ident: t[1].kind->DoubleIdentifier_0, ty: VariableType::Number },
                op: TokenKindV::Equality,
                expr: e,
            },
        ),
{
    let word = t[0].kind->Identifier_0;
    let lines = seq![t];
    assert(lines[0] == t);
    assert(word == seq!['s', 'e', 't'] ==> word != keyword_func() && word != keyword_end() && word == keyword_set());
    assert(word == seq!['l', 'e', 't'] ==> word != keyword_func() && word != keyword_end() && word != keyword_set());
    assert(word == seq!['s', 'h', 'a', 'd', 'o', 'w'] ==> word != keyword_func() && word != keyword_end()
        && word != keyword_set());
    if let Ok(c) = parse_command(t) {
        assert(Seq::<CommandV>::empty().push(c) == seq![c]);
        assert(parse_commands(lines, 1, seq![c]) == Ok::<Seq<CommandV>, StopV>(seq![c]));
    }
}

} // verus!

verus! {

/// The parameter `id:number` on line `l`.
pub open spec fn param_token(id: Seq<char>, l: usize) -> TokenV {
    TokenV { line_pos: l, kind: TokenKindV::DoubleIdentifier(id, seq!['n', 'u', 'm', 'b', 'e', 'r']) }
}

/// A comma on line `l`.
pub open spec fn comma_token(l: usize) -> TokenV {
    TokenV { line_pos: l, kind: TokenKindV::Comma }
}

/// The parameters `ids[0]:number, ids[1]:number, ...` of a header, each
/// followed by a comma, on line `l`.
pub open spec fn param_tokens(ids: Seq<Seq<char>>, l: usize) -> Seq<TokenV>
    decreases ids.len(),
{
    if ids.len() == 0 {
        Seq::empty()
    } else {
        param_tokens(ids.drop_last(), l) + seq![param_token(ids.last(), l), comma_token(l)]
    }
}

proof fn lemma_param_tokens(ids: Seq<Seq<char>>, l: usize)
    ensures
        param_tokens(ids, l).len() == 2 * ids.len(),
        forall|k: int| 0 <= k < ids.len() ==> #[trigger] param_tokens(ids, l)[2 * k] == param_token(ids[k], l),
        forall|k: int| 0 <= k < ids.len() ==> #[trigger] param_tokens(ids, l)[2 * k + 1] == comma_token(l),
    decreases ids.len(),
{
    if ids.len() > 0 {
        let p = ids.drop_last();
        lemma_param_tokens(p, l);
        let s = param_tokens(ids, l);
        assert forall|k: int| 0 <= k < ids.len() implies #[trigger] s[2 * k] == param_token(ids[k], l) by {
            if k < p.len() {
                assert(p[k] == ids[k]);
                assert(s[2 * k] == param_tokens(p, l)[2 * k]);
            }
        }
        assert forall|k: int| 0 <= k < ids.len() implies #[trigger] s[2 * k + 1] == comma_token(l) by {
            if k < p.len() {
                assert(s[2 * k + 1] == param_tokens(p, l)[2 * k + 1]);
            }
        }
    }
}

/// The typed parameters named `ids`, each a number.
pub open spec fn number_params(ids: Seq<Seq<char>>) -> Seq<TypedIdentifierV> {
    ids.map_values(|i: Seq<char>| TypedIdentifierV { ident: i, ty: VariableType::Number })
}

proof fn lemma_header_params(t: Seq<TokenV>, ids: Seq<Seq<char>>, l: usize, lp: usize, k: int)
    requires
        0 <= k <= ids.len(),
        t.len() > 3 + 2 * ids.len(),
        forall|i: int| 0 <= i < 2 * ids.len() ==> t[3 + i] == #[trigger] param_tokens(ids, l)[i],
        param_tokens(ids, l).len() == 2 * ids.len(),
        forall|j: int| 0 <= j < ids.len() ==> #[trigger] param_tokens(ids, l)[2 * j] == param_token(ids[j], l),
        forall|j: int| 0 <= j < ids.len() ==> #[trigger] param_tokens(ids, l)[2 * j + 1] == comma_token(l),
    ensures
        header_args(t, 3 + 2 * k, number_params(ids.subrange(0, k)), lp) == header_args(
            t,
            3 + 2 * ids.len() as int,
            number_params(ids),
            lp,
        ),
    decreases ids.len() - k,
{
    if k < ids.len() {
        assert(t[3 + 2 * k] == param_tokens(ids, l)[2 * k]);
        assert(t[3 + 2 * k + 1] == param_tokens(ids, l)[2 * k + 1]);
        assert(spec_type_from_string(seq!['n', 'u', 'm', 'b', 'e', 'r']) == Some(VariableType::Number));
        assert(number_params(ids.subrange(0, k)).push(TypedIdentifierV { ident: ids[k], ty: VariableType::Number })
            =~= number_params(ids.subrange(0, k + 1)));
        lemma_header_params(t, ids, l, lp, k + 1);
    } else {
        assert(ids.subrange(0, k) == ids);
    }
}

/// A header `func name(p1:number, ..., pn:number,) ret`, every parameter
/// followed by a comma, reads as the header of `name` with those number
/// parameters in order and return type `ret`, on its line.
pub proof fn law_function_header(name: Seq<char>, ids: Seq<Seq<char>>, ret: Seq<char>, l: usize)
    ensures
        (spec_parse_tokens(
            seq![
                seq![
                    TokenV { line_pos: l, kind: TokenKindV::Identifier(seq!['f', 'u', 'n', 'c']) },
                    TokenV { line_pos: l, kind: TokenKindV::Identifier(name) },
                    TokenV { line_pos: l, kind: TokenKindV::OpenParen },
                ] + param_tokens(ids, l) + seq![
                    TokenV { line_pos: l, kind: TokenKindV::ClosedParen },
                    TokenV { line_pos: l, kind: TokenKindV::Identifier(ret) },
                ],
            ],
        ) == Ok::<Seq<CommandV>, StopV>(
            seq![
                CommandV {
                    kind: CommandKindV::FunctionHeader { name, args: number_params(ids), return_type: ret },
                    line_pos: l,
                },
            ],
        )),
{
    let pre = seq![
        TokenV { line_pos: l, kind: TokenKindV::Identifier(seq!['f', 'u', 'n', 'c']) },
        TokenV { line_pos: l, kind: TokenKindV::Identifier(name) },
        TokenV { line_pos: l, kind: TokenKindV::OpenParen },
    ];
    let pt = param_tokens(ids, l);
    let post = seq![
        TokenV { line_pos: l, kind: TokenKindV::ClosedParen },
        TokenV { line_pos: l, kind: TokenKindV::Identifier(ret) },
    ];
    let t = pre + pt + post;
    lemma_param_tokens(ids, l);
    let n: int = 2 * ids.len() as int;
    assert(t.len() == n + 5);
    assert forall|i: int| 0 <= i < n implies t[3 + i] == #[trigger] pt[i] by {}
    lemma_header_params(t, ids, l, l, 0);
    assert(ids.subrange(0, 0) =~= Seq::<Seq<char>>::empty());
    assert(number_params(Seq::<Seq<char>>::empty()) =~= Seq::<TypedIdentifierV>::empty());
    assert(t[3 + n] == post[0]);
    assert(t[4 + n] == post[1]);
    assert(t[0] == pre[0] && t[1] == pre[1] && t[2] == pre[2]);
    let c = CommandV {
        kind: CommandKindV::FunctionHeader { name, args: number_params(ids), return_type: ret },
        line_pos: l,
    };
    assert(parse_header(t, l) == Ok::<CommandV, StopV>(c));
    assert(parse_command(t) == Ok::<CommandV, StopV>(c));
    let lines = seq![t];
    assert(lines[0] == t);
    assert(Seq::<CommandV>::empty().push(c) == seq![c]);
    assert(parse_commands(lines, 1, seq![c]) == Ok::<Seq<CommandV>, StopV>(seq![c]));
}

/// `end` alone on its line reads as the end of a function; anything after it
/// is refused.
pub proof fn law_end_line(rest: Seq<TokenV>, l: usize)
    ensures
        (spec_parse_tokens(seq![seq![TokenV { line_pos: l, kind: TokenKindV::Identifier(seq!['e', 'n', 'd']) }] + rest])
            == if rest.len() == 0 {
            Ok::<Seq<CommandV>, StopV>(seq![CommandV { kind: CommandKindV::End, line_pos: l }])
        } else {
            Err::<Seq<CommandV>, StopV>(StopV::Error(diag(l, Reason::RedundantTokens)))
        }),
{
    let t = seq![TokenV { line_pos: l, kind: TokenKindV::Identifier(seq!['e', 'n', 'd']) }] + rest;
    assert(t[0] == TokenV { line_pos: l, kind: TokenKindV::Identifier(seq!['e', 'n', 'd']) });
    assert(seq!['e', 'n', 'd'] != keyword_func());
    assert(seq!['e', 'n', 'd'] == keyword_end());
    let lines = seq![t];
    assert(lines[0] == t);
    let c = CommandV { kind: CommandKindV::End, line_pos: l };
    assert(Seq::<CommandV>::empty().push(c) == seq![c]);
    assert(parse_commands(lines, 1, seq![c]) == Ok::<Seq<CommandV>, StopV>(seq![c]));
}

} // verus!
