use vstd::prelude::*;

use crate::compiler::Compiler;
use crate::error::{diag, Diagnostic, DiagnosticV, Reason};
use crate::token::{group_token_view, tokens_v, Token, TokenKind, TokenKindV, TokenV};

verus! {

/// The deepest parenthesis nesting an expression may hold, plus one.
pub const MAX_EXPRESSION_DEPTH: u8 = 128;

/// A token that stands for a value: a number, an identifier, a call or a string.
pub open spec fn is_operand(k: TokenKindV) -> bool {
    k is Number || k is Identifier || k is InlineFunctionCall || k is String
}

/// A binary operator of an expression.
pub open spec fn is_binary_operator(k: TokenKindV) -> bool {
    k is Add || k is Sub || k is Mul || k is Div || k is DoubleEquality
}

/// The complaint about a token out of place, by what was expected there.
pub open spec fn malformed(expecting_operand: bool) -> Reason {
    if expecting_operand {
        Reason::ExpectedOperand
    } else {
        Reason::ExpectedOperatorOrClosedParen
    }
}

/// Whether an operand is expected after token `k`, given whether one was expected before it.
pub open spec fn next_expecting(k: TokenKindV, expecting_operand: bool) -> Result<bool, Reason> {
    if is_operand(k) {
        if expecting_operand { Ok(false) } else { Err(malformed(expecting_operand)) }
    } else if k is OpenParen {
        if expecting_operand { Ok(true) } else { Err(malformed(expecting_operand)) }
    } else if k is ClosedParen {
        if expecting_operand { Err(malformed(expecting_operand)) } else { Ok(false) }
    } else if is_binary_operator(k) {
        if expecting_operand { Err(malformed(expecting_operand)) } else { Ok(true) }
    } else {
        Err(malformed(expecting_operand))
    }
}

/// The number of open parentheses after token `k`, given the number before it.
pub open spec fn next_parens(k: TokenKindV, parens: int) -> Result<int, Reason> {
    if k is OpenParen {
        if parens + 1 < MAX_EXPRESSION_DEPTH { Ok(parens + 1) } else { Err(Reason::TooManyNestedParentheses) }
    } else if k is ClosedParen {
        if parens >= 1 { Ok(parens - 1) } else { Err(Reason::UnmatchedClosedParen) }
    } else {
        Ok(parens)
    }
}

/// Checks `e[i..]`, given whether an operand is expected at `e[i]` and how
/// many parentheses are open before it.
pub open spec fn check_from(e: Seq<TokenV>, i: int, expecting_operand: bool, parens: int) -> Result<(), Reason>
    decreases e.len() - i,
{
    if i >= e.len() || i < 0 {
        if parens > 0 {
            Err(Reason::MissingClosedParen)
        } else if expecting_operand {
            Err(malformed(expecting_operand))
        } else {
            Ok(())
        }
    } else {
        match next_expecting(e[i].kind, expecting_operand) {
            Err(r) => Err(r),
            Ok(x) => match next_parens(e[i].kind, parens) {
                Err(r) => Err(r),
                Ok(p) => check_from(e, i + 1, x, p),
            },
        }
    }
}

/// An expression is well formed when it is empty, or when operands and binary
/// operators alternate, starting and ending with an operand, with balanced
/// parentheses nested less than [`MAX_EXPRESSION_DEPTH`] deep.
pub open spec fn spec_check_expression(e: Seq<TokenV>) -> Result<(), Reason> {
    if e.len() == 0 {
        Ok(())
    } else {
        check_from(e, 0, true, 0)
    }
}

pub open spec fn with_line<T>(r: Result<T, Reason>, line_pos: usize) -> Result<T, DiagnosticV> {
    match r {
        Ok(v) => Ok(v),
        Err(reason) => Err(diag(line_pos, reason)),
    }
}

pub open spec fn unit_result_v(r: Result<(), Diagnostic>) -> Result<(), DiagnosticV> {
    match r {
        Ok(v) => Ok(v),
        Err(d) => Err(d@),
    }
}

impl Compiler {
    /// Checks that an expression is well formed (see [`spec_check_expression`]).
    pub fn check_expression(&self, expr: &[Token], line_pos: usize) -> (r: Result<(), Diagnostic>)
        ensures
            unit_result_v(r) == with_line(spec_check_expression(tokens_v(expr@)), line_pos),
    {
        broadcast use group_token_view;

        let ghost e = tokens_v(expr@);
        if expr.len() == 0 {
            return Ok(());
        }
        let mut expecting_number = true;
        let mut paren_counter: u8 = 0;
        let mut i: usize = 0;
        while i < expr.len()
            invariant
                e == tokens_v(expr@),
                e.len() == expr@.len() > 0,
                i <= expr.len(),
                paren_counter < MAX_EXPRESSION_DEPTH,
                check_from(e, i as int, expecting_number, paren_counter as int) == check_from(e, 0, true, 0),
            decreases expr.len() - i,
        {
            let token = &expr[i];
            proof {
                crate::token::lemma_tokens_v_index(expr@, i as int);
            }
            let malformed_reason = if expecting_number {
                Reason::ExpectedOperand
            } else {
                Reason::ExpectedOperatorOrClosedParen
            };
            match &token.kind {
                TokenKind::Number { .. } | TokenKind::Identifier(_) | TokenKind::InlineFunctionCall { .. }
                | TokenKind::String(_) => {
                    if expecting_number {
                        expecting_number = false;
                    } else {
                        return Err(Diagnostic::new(line_pos, malformed_reason));
                    }
                },
                TokenKind::OpenParen => {
                    if !expecting_number {
                        return Err(Diagnostic::new(line_pos, malformed_reason));
                    }
                },
                TokenKind::ClosedParen => {
                    if expecting_number {
                        return Err(Diagnostic::new(line_pos, malformed_reason));
                    }
                },
                TokenKind::Add | TokenKind::Sub | TokenKind::Mul | TokenKind::Div
                | TokenKind::DoubleEquality => {
                    if !expecting_number {
                        expecting_number = true;
                    } else {
                        return Err(Diagnostic::new(line_pos, malformed_reason));
                    }
                },
                _ => {
                    return Err(Diagnostic::new(line_pos, malformed_reason));
                },
            }
            match &token.kind {
                TokenKind::OpenParen => {
                    if paren_counter + 1 < MAX_EXPRESSION_DEPTH {
                        paren_counter = paren_counter + 1;
                    } else {
                        return Err(Diagnostic::new(line_pos, Reason::TooManyNestedParentheses));
                    }
                },
                TokenKind::ClosedParen => {
                    if paren_counter >= 1 {
                        paren_counter = paren_counter - 1;
                    } else {
                        return Err(Diagnostic::new(line_pos, Reason::UnmatchedClosedParen));
                    }
                },
                _ => {},
            }
            i += 1;
        }
        if paren_counter > 0 {
            return Err(Diagnostic::new(line_pos, Reason::MissingClosedParen));
        }
        if expecting_number {
            return Err(Diagnostic::new(line_pos, Reason::ExpectedOperand));
        }
        Ok(())
    }
}

} // verus!

verus! {

/// Where checking `e[i..]` stands after its last token, without the checks
/// made at the end: whether an operand is expected, and how many
/// parentheses are open.
pub open spec fn check_state(e: Seq<TokenV>, i: int, expecting_operand: bool, parens: int) -> Result<
    (bool, int),
    Reason,
>
    decreases e.len() - i,
{
    if i >= e.len() || i < 0 {
        Ok((expecting_operand, parens))
    } else {
        match next_expecting(e[i].kind, expecting_operand) {
            Err(r) => Err(r),
            Ok(x) => match next_parens(e[i].kind, parens) {
                Err(r) => Err(r),
                Ok(p) => check_state(e, i + 1, x, p),
            },
        }
    }
}

/// The checks made once every token was read.
pub open spec fn check_end(expecting_operand: bool, parens: int) -> Result<(), Reason> {
    if parens > 0 {
        Err(Reason::MissingClosedParen)
    } else if expecting_operand {
        Err(malformed(expecting_operand))
    } else {
        Ok(())
    }
}

proof fn lemma_check_from_state(e: Seq<TokenV>, i: int, x: bool, p: int)
    requires
        0 <= i <= e.len(),
    ensures
        check_from(e, i, x, p) == match check_state(e, i, x, p) {
            Err(r) => Err(r),
            Ok((x2, p2)) => check_end(x2, p2),
        },
    decreases e.len() - i,
{
    if i < e.len() {
        if let Ok(x2) = next_expecting(e[i].kind, x) {
            if let Ok(p2) = next_parens(e[i].kind, p) {
                lemma_check_from_state(e, i + 1, x2, p2);
            }
        }
    }
}

proof fn lemma_check_state_concat(a: Seq<TokenV>, b: Seq<TokenV>, i: int, x: bool, p: int)
    requires
        0 <= i <= a.len(),
    ensures
        check_state(a + b, i, x, p) == match check_state(a, i, x, p) {
            Err(r) => Err(r),
            Ok((x2, p2)) => check_state(b, 0, x2, p2),
        },
    decreases a.len() + b.len() - i,
{
    if i < a.len() {
        assert((a + b)[i] == a[i]);
        if let Ok(x2) = next_expecting(a[i].kind, x) {
            if let Ok(p2) = next_parens(a[i].kind, p) {
                lemma_check_state_concat(a, b, i + 1, x2, p2);
            }
        }
    } else {
        lemma_check_state_suffix(a, b, 0, x, p);
    }
}

proof fn lemma_check_state_suffix(a: Seq<TokenV>, b: Seq<TokenV>, j: int, x: bool, p: int)
    requires
        0 <= j <= b.len(),
    ensures
        check_state(a + b, a.len() + j, x, p) == check_state(b, j, x, p),
    decreases b.len() - j,
{
    if j < b.len() {
        assert((a + b)[a.len() + j] == b[j]);
        if let Ok(x2) = next_expecting(b[j].kind, x) {
            if let Ok(p2) = next_parens(b[j].kind, p) {
                lemma_check_state_suffix(a, b, j + 1, x2, p2);
            }
        }
    }
}

proof fn lemma_check_state_nonneg(e: Seq<TokenV>, i: int, x: bool, p: int)
    requires
        0 <= i <= e.len(),
        p >= 0,
    ensures
        check_state(e, i, x, p) matches Ok((x2, p2)) ==> p2 >= 0,
    decreases e.len() - i,
{
    if i < e.len() {
        if let Ok(x2) = next_expecting(e[i].kind, x) {
            if let Ok(p2) = next_parens(e[i].kind, p) {
                lemma_check_state_nonneg(e, i + 1, x2, p2);
            }
        }
    }
}

/// Two well-formed expressions joined by a binary operator make a
/// well-formed expression.
pub proof fn law_join_expressions(e1: Seq<TokenV>, op: TokenV, e2: Seq<TokenV>)
    requires
        e1.len() > 0,
        e2.len() > 0,
        is_binary_operator(op.kind),
        spec_check_expression(e1) is Ok,
        spec_check_expression(e2) is Ok,
    ensures
        spec_check_expression(e1 + seq![op] + e2) is Ok,
{
    lemma_check_from_state(e1, 0, true, 0);
    lemma_check_from_state(e2, 0, true, 0);
    let e = e1 + seq![op] + e2;
    lemma_check_from_state(e, 0, true, 0);
    lemma_check_state_concat(e1 + seq![op], e2, 0, true, 0);
    lemma_check_state_concat(e1, seq![op], 0, true, 0);
    lemma_check_state_nonneg(e1, 0, true, 0);
    assert(check_state(e1, 0, true, 0) == Ok::<(bool, int), Reason>((false, 0)));
    assert(check_state(seq![op], 1, true, 0) == Ok::<(bool, int), Reason>((true, 0)));
    assert(check_state(seq![op], 0, false, 0) == Ok::<(bool, int), Reason>((true, 0)));
}

} // verus!

verus! {

/// The change a token makes to the count of open parentheses.
pub open spec fn paren_step(k: TokenKindV) -> int {
    if k is OpenParen {
        1
    } else if k is ClosedParen {
        -1
    } else {
        0
    }
}

/// The number of `(` less the number of `)` among `e[..k]`.
pub open spec fn paren_balance(e: Seq<TokenV>, k: int) -> int
    decreases k,
{
    if k <= 0 {
        0
    } else {
        paren_balance(e, k - 1) + paren_step(e[k - 1].kind)
    }
}

/// A token after which a term is complete: an operand or `)`.
pub open spec fn ends_term(k: TokenKindV) -> bool {
    is_operand(k) || k is ClosedParen
}

/// Whether an operand (or `(`) is expected at `e[k]`: at the start, and
/// after anything that does not complete a term.
pub open spec fn term_expected(e: Seq<TokenV>, k: int) -> bool {
    k == 0 || !ends_term(e[k - 1].kind)
}

/// Whether token `k` may stand where an operand is expected (an operand or
/// `(`), or else where an operator is expected (a binary operator or `)`).
pub open spec fn fits(k: TokenKindV, term_expected: bool) -> bool {
    if term_expected {
        is_operand(k) || k is OpenParen
    } else {
        is_binary_operator(k) || k is ClosedParen
    }
}

/// The well-formed expressions, stated token by token: each token fits the
/// one before it, the expression ends with a complete term, and the count of
/// open parentheses never drops below 0, stays under
/// [`MAX_EXPRESSION_DEPTH`] and ends at 0. The empty expression is accepted.
pub open spec fn well_formed_expression(e: Seq<TokenV>) -> bool {
    e.len() == 0 || {
        &&& forall|k: int| 0 <= k < e.len() ==> fits(#[trigger] e[k].kind, term_expected(e, k))
        &&& forall|k: int| 0 <= k <= e.len() ==> 0 <= #[trigger] paren_balance(e, k) < MAX_EXPRESSION_DEPTH
        &&& paren_balance(e, e.len() as int) == 0
        &&& ends_term(e.last().kind)
    }
}

proof fn lemma_check_from_direct(e: Seq<TokenV>, i: int)
    requires
        0 <= i <= e.len(),
        e.len() > 0,
        0 <= paren_balance(e, i) < MAX_EXPRESSION_DEPTH,
    ensures
        (check_from(e, i, term_expected(e, i), paren_balance(e, i)) is Ok) <==> {
            &&& forall|k: int| i <= k < e.len() ==> fits(#[trigger] e[k].kind, term_expected(e, k))
            &&& forall|k: int| i <= k <= e.len() ==> 0 <= #[trigger] paren_balance(e, k) < MAX_EXPRESSION_DEPTH
            &&& paren_balance(e, e.len() as int) == 0
            &&& !term_expected(e, e.len() as int)
        },
    decreases e.len() - i,
{
    let x = term_expected(e, i);
    let p = paren_balance(e, i);
    if i < e.len() {
        let t = e[i].kind;
        assert(paren_balance(e, i + 1) == p + paren_step(t));
        if fits(t, x) {
            assert(next_expecting(t, x) == Ok::<bool, Reason>(term_expected(e, i + 1)));
            if 0 <= paren_balance(e, i + 1) < MAX_EXPRESSION_DEPTH {
                assert(next_parens(t, p) == Ok::<int, Reason>(paren_balance(e, i + 1)));
                lemma_check_from_direct(e, i + 1);
                assert forall|k: int| i <= k < e.len() && (forall|j: int| i + 1 <= j < e.len() ==> fits(#[trigger] e[j].kind, term_expected(e, j)))
                    implies fits(#[trigger] e[k].kind, term_expected(e, k)) by {
                    if k > i {
                        assert(fits(e[k].kind, term_expected(e, k)));
                    }
                }
                assert forall|k: int| i <= k <= e.len() && (forall|j: int| i + 1 <= j <= e.len() ==> 0 <= #[trigger] paren_balance(e, j) < MAX_EXPRESSION_DEPTH)
                    implies 0 <= #[trigger] paren_balance(e, k) < MAX_EXPRESSION_DEPTH by {
                    if k > i {
                        assert(0 <= paren_balance(e, k) < MAX_EXPRESSION_DEPTH);
                    }
                }
            } else {
                assert(next_parens(t, p) is Err);
            }
        } else {
            assert(next_expecting(t, x) is Err);
        }
    }
}

/// An expression passes the check exactly when it is well formed in the
/// token-by-token sense of [`well_formed_expression`].
pub proof fn law_check_expression_direct(e: Seq<TokenV>)
    ensures
        (spec_check_expression(e) is Ok) <==> well_formed_expression(e),
{
    if e.len() > 0 {
        lemma_check_from_direct(e, 0);
        let n = e.len() as int;
        assert(!term_expected(e, n) <==> ends_term(e.last().kind));
    }
}

} // verus!

verus! {

/// What follows a well-formed expression decides the error: a binary
/// operator left without its right operand is a missing operand, a `)` that
/// closes nothing is unmatched, and an operand or `(` straight after it
/// lacks the operator between them.
pub proof fn law_check_expression_errors(e: Seq<TokenV>, t: TokenV)
    requires
        e.len() > 0,
        spec_check_expression(e) is Ok,
    ensures
        is_binary_operator(t.kind) ==> spec_check_expression(e + seq![t]) == Err::<(), Reason>(Reason::ExpectedOperand),
        t.kind is ClosedParen ==> spec_check_expression(e + seq![t]) == Err::<(), Reason>(Reason::UnmatchedClosedParen),
        is_operand(t.kind) || t.kind is OpenParen ==> spec_check_expression(e + seq![t]) == Err::<(), Reason>(
            Reason::ExpectedOperatorOrClosedParen,
        ),
{
    lemma_check_from_state(e, 0, true, 0);
    lemma_check_state_nonneg(e, 0, true, 0);
    assert(check_state(e, 0, true, 0) == Ok::<(bool, int), Reason>((false, 0)));
    let s = e + seq![t];
    lemma_check_from_state(s, 0, true, 0);
    lemma_check_state_concat(e, seq![t], 0, true, 0);
    assert(seq![t][0] == t);
    if is_binary_operator(t.kind) {
        assert(check_state(seq![t], 1, true, 0) == Ok::<(bool, int), Reason>((true, 0)));
        assert(check_state(seq![t], 0, false, 0) == Ok::<(bool, int), Reason>((true, 0)));
    }
}

} // verus!
