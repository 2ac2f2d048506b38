use vstd::prelude::*;

use crate::compiler::Compiler;
use crate::depths::{spec_depth_notes, spec_depths};
use crate::error::{diag, Diagnostic, PanicSite, Reason, Stop, StopV};
use crate::expr::{spec_check_expression, MAX_EXPRESSION_DEPTH};
use crate::token::{
    args_v, duplicate_token, group_token_view, push_token, tokens_v, Token, TokenKind,
    TokenKindV, TokenV,
};

verus! {

/// Appends `t` to the last list of `args`.
pub open spec fn push_last(args: Seq<Seq<TokenV>>, t: TokenV) -> Seq<Seq<TokenV>> {
    args.update(args.len() - 1, args.last().push(t))
}

/// Reads the arguments of a call from `e[q..]`, with `pc` parentheses open
/// inside the call and `args` read so far; a comma starts a new argument and
/// the first unmatched `)` ends the call. Gives the position after the call.
pub open spec fn scan_args(e: Seq<TokenV>, q: int, pc: int, args: Seq<Seq<TokenV>>) -> Result<
    (int, Seq<Seq<TokenV>>),
    Reason,
>
    decreases e.len() - q,
{
    if q >= e.len() || q < 0 {
        Ok((q, args))
    } else if e[q].kind is OpenParen {
        if pc + 1 < MAX_EXPRESSION_DEPTH {
            scan_args(e, q + 1, pc + 1, push_last(args, e[q]))
        } else {
            Err(Reason::TooManyNestedParentheses)
        }
    } else if e[q].kind is ClosedParen {
        if pc >= 1 {
            scan_args(e, q + 1, pc - 1, push_last(args, e[q]))
        } else {
            Ok((q + 1, args))
        }
    } else if e[q].kind is Comma {
        scan_args(e, q + 1, pc, args.push(Seq::empty()))
    } else {
        scan_args(e, q + 1, pc, push_last(args, e[q]))
    }
}

pub proof fn lemma_scan_args_bounds(e: Seq<TokenV>, q: int, pc: int, args: Seq<Seq<TokenV>>)
    requires
        0 <= q <= e.len(),
    ensures
        scan_args(e, q, pc, args) matches Ok((q2, _)) ==> q <= q2 <= e.len(),
    decreases e.len() - q,
{
    if q < e.len() {
        if e[q].kind is OpenParen {
            if pc + 1 < MAX_EXPRESSION_DEPTH {
                lemma_scan_args_bounds(e, q + 1, pc + 1, push_last(args, e[q]));
            }
        } else if e[q].kind is ClosedParen {
            if pc >= 1 {
                lemma_scan_args_bounds(e, q + 1, pc - 1, push_last(args, e[q]));
            }
        } else if e[q].kind is Comma {
            lemma_scan_args_bounds(e, q + 1, pc, args.push(Seq::empty()));
        } else {
            lemma_scan_args_bounds(e, q + 1, pc, push_last(args, e[q]));
        }
    }
}

/// Checks the arguments `args[k..]` of a call in order: each must be a
/// non-empty, well-formed expression.
pub open spec fn check_args(args: Seq<Seq<TokenV>>, k: int) -> Result<(), Reason>
    decreases args.len() - k,
{
    if k >= args.len() || k < 0 {
        Ok(())
    } else if args[k].len() == 0 {
        Err(Reason::EmptyExpression)
    } else {
        match spec_check_expression(args[k]) {
            Err(r) => Err(r),
            Ok(()) => check_args(args, k + 1),
        }
    }
}

/// One pass over `e[p..]` with depth labels `d`: every call whose identifier
/// is labelled `t` becomes one inline function call token, and the other
/// tokens are kept; `out` holds what `e[..p]` gave.
pub open spec fn round_from(
    e: Seq<TokenV>,
    d: Seq<u8>,
    t: u8,
    p: int,
    out: Seq<TokenV>,
    lp: usize,
) -> Result<Seq<TokenV>, StopV>
    decreases e.len() - p,
{
    if p >= e.len() || p < 0 {
        Ok(out)
    } else if d[p] == t {
        if !(e[p].kind is Identifier) {
            Err(StopV::Panic(PanicSite::DepthMarker))
        } else {
            let q0 = if p + 2 <= e.len() { p + 2 } else { e.len() as int };
            match scan_args(e, q0, 0, seq![Seq::empty()]) {
                Err(r) => Err(StopV::Error(diag(lp, r))),
                Ok((q, args)) => match check_args(args, 0) {
                    Err(r) => Err(StopV::Error(diag(lp, r))),
                    Ok(()) => {
                        proof {
                            lemma_scan_args_bounds(e, q0, 0, seq![Seq::empty()]);
                        }
                        round_from(
                            e,
                            d,
                            t,
                            q,
                            out.push(
                                TokenV {
                                    line_pos: e[p].line_pos,
                                    kind: TokenKindV::InlineFunctionCall {
                                        name: e[p].kind->Identifier_0,
                                        args,
                                    },
                                },
                            ),
                            lp,
                        )
                    },
                },
            }
        }
    } else {
        round_from(e, d, t, p + 1, out.push(e[p]), lp)
    }
}

/// The passes for depths `t` down to 1, starting from `e` labelled `d`; the
/// labels are computed again after each pass.
pub open spec fn rounds(e: Seq<TokenV>, d: Seq<u8>, t: int, lp: usize) -> Result<Seq<TokenV>, StopV>
    decreases t,
{
    if t < 1 {
        Ok(e)
    } else {
        match round_from(e, d, t as u8, 0, Seq::empty(), lp) {
            Err(s) => Err(s),
            Ok(e2) => match spec_depths(e2) {
                None => Err(StopV::Panic(PanicSite::CallNestingOverflow)),
                Some(d2) => rounds(e2, d2, t - 1, lp),
            },
        }
    }
}

pub open spec fn seq_max(d: Seq<u8>) -> u8
    decreases d.len(),
{
    if d.len() == 0 {
        0
    } else if d.last() > seq_max(d.drop_last()) {
        d.last()
    } else {
        seq_max(d.drop_last())
    }
}

/// An expression with each inline function call (an identifier, `(`, the
/// comma-separated arguments and `)`) gathered into one token, innermost calls
/// first; the result must be a well-formed expression.
pub open spec fn spec_collect_expr(tokens: Seq<TokenV>, lp: usize) -> Result<Seq<TokenV>, StopV> {
    match spec_depths(tokens) {
        None => Err(StopV::Panic(PanicSite::CallNestingOverflow)),
        Some(d) => {
            let collected = if seq_max(d) > 0 {
                rounds(tokens, d, seq_max(d) as int, lp)
            } else {
                Ok(tokens)
            };
            match collected {
                Err(s) => Err(s),
                Ok(e) => match spec_check_expression(e) {
                    Err(r) => Err(StopV::Error(diag(lp, r))),
                    Ok(()) => Ok(e),
                },
            }
        },
    }
}

/// What the passes for depths `t` down to 1 report without stopping: the
/// complaints of each labelling computed after a pass (see [`rounds`]).
pub open spec fn rounds_notes(e: Seq<TokenV>, d: Seq<u8>, t: int, lp: usize) -> Seq<Reason>
    decreases t,
{
    if t < 1 {
        Seq::empty()
    } else {
        match round_from(e, d, t as u8, 0, Seq::empty(), lp) {
            Err(_) => Seq::empty(),
            Ok(e2) => spec_depth_notes(e2) + match spec_depths(e2) {
                None => Seq::empty(),
                Some(d2) => rounds_notes(e2, d2, t - 1, lp),
            },
        }
    }
}

/// What gathering the calls of an expression reports without stopping, in
/// order: the complaints of each labelling it computes.
pub open spec fn collect_notes(tokens: Seq<TokenV>, lp: usize) -> Seq<Reason> {
    spec_depth_notes(tokens) + match spec_depths(tokens) {
        None => Seq::empty(),
        Some(d) => if seq_max(d) > 0 {
            rounds_notes(tokens, d, seq_max(d) as int, lp)
        } else {
            Seq::empty()
        },
    }
}

pub open spec fn expr_result_v(r: Result<Vec<Token>, Stop>) -> Result<Seq<TokenV>, StopV> {
    match r {
        Ok(v) => Ok(tokens_v(v@)),
        Err(s) => Err(s@),
    }
}

pub open spec fn args_view(args: Seq<Vec<Token>>, cur: Seq<Token>) -> Seq<Seq<TokenV>> {
    args_v(args).push(tokens_v(cur))
}

impl Compiler {
    /// Reads the arguments of a call from `e[start..]` (see [`scan_args`]).
    fn scan_call_args(&self, e: &Vec<Token>, start: usize) -> (r: Result<(usize, Vec<Vec<Token>>), Reason>)
        requires
            start <= e.len(),
        ensures
            match r {
                Ok((q, args)) => scan_args(tokens_v(e@), start as int, 0, seq![Seq::empty()])
                    == Ok::<(int, Seq<Seq<TokenV>>), Reason>((q as int, args_v(args@)))
                    && start <= q <= e.len(),
                Err(reason) => scan_args(tokens_v(e@), start as int, 0, seq![Seq::empty()])
                    == Err::<(int, Seq<Seq<TokenV>>), Reason>(reason),
            },
    {
        broadcast use group_token_view;

        let ghost ev = tokens_v(e@);
        let mut args: Vec<Vec<Token>> = Vec::new();
        let mut cur: Vec<Token> = Vec::new();
        let mut paren_counter: u8 = 0;
        let mut q: usize = start;
        assert(args_view(args@, cur@) =~= seq![Seq::<TokenV>::empty()]);
        while q < e.len()
            invariant_except_break
                scan_args(ev, q as int, paren_counter as int, args_view(args@, cur@))
                    == scan_args(ev, start as int, 0, seq![Seq::empty()]),
            invariant
                ev == tokens_v(e@),
                ev.len() == e.len(),
                start <= q <= e.len(),
                paren_counter < MAX_EXPRESSION_DEPTH,
            ensures
                start <= q <= e.len(),
                scan_args(ev, start as int, 0, seq![Seq::empty()])
                    == Ok::<(int, Seq<Seq<TokenV>>), Reason>((q as int, args_view(args@, cur@))),
            decreases e.len() - q,
        {
            proof {
                crate::token::lemma_tokens_v_index(e@, q as int);
            }
            let ghost av = args_view(args@, cur@);
            match &e[q].kind {
                TokenKind::OpenParen => {
                    if paren_counter + 1 < MAX_EXPRESSION_DEPTH {
                        paren_counter = paren_counter + 1;
                    } else {
                        return Err(Reason::TooManyNestedParentheses);
                    }
                },
                TokenKind::ClosedParen => {
                    if paren_counter >= 1 {
                        paren_counter = paren_counter - 1;
                    } else {
                        q += 1;
                        break;
                    }
                },
                TokenKind::Comma => {
                    proof {
                        crate::token::lemma_args_v_push(args@, cur);
                    }
                    args.push(cur);
                    cur = Vec::new();
                    assert(args_view(args@, cur@) =~= av.push(Seq::empty()));
                    q += 1;
                    continue;
                },
                _ => {},
            }
            let t = duplicate_token(&e[q]);
            push_token(&mut cur, t);
            assert(args_view(args@, cur@) =~= push_last(av, ev[q as int]));
            q += 1;
        }
        proof {
            crate::token::lemma_args_v_push(args@, cur);
        }
        args.push(cur);
        Ok((q, args))
    }

    /// Checks the arguments of a call (see [`check_args`]).
    fn check_call_args(&self, args: &Vec<Vec<Token>>, line_pos: usize) -> (r: Result<(), Reason>)
        ensures
            r == check_args(args_v(args@), 0),
    {
        broadcast use group_token_view;

        let mut k: usize = 0;
        while k < args.len()
            invariant
                k <= args.len(),
                check_args(args_v(args@), k as int) == check_args(args_v(args@), 0),
            decreases args.len() - k,
        {
            proof {
                crate::token::lemma_args_v_index(args@, k as int);
            }
            proof {
                crate::token::lemma_args_v_len(args@);
                crate::token::lemma_tokens_v_len(args@[k as int]@);
            }
            if args[k].len() == 0 {
                return Err(Reason::EmptyExpression);
            }
            match self.check_expression(args[k].as_slice(), line_pos) {
                Ok(()) => {},
                Err(d) => {
                    return Err(d.reason);
                },
            }
            k += 1;
        }
        Ok(())
    }

    /// One pass that gathers the calls labelled `target` (see [`round_from`]).
    fn collect_round(&self, expr: &Vec<Token>, depths: &Vec<u8>, target: u8, line_pos: usize) -> (r:
        Result<Vec<Token>, Stop>)
        requires
            depths.len() == expr.len(),
        ensures
            expr_result_v(r) == round_from(tokens_v(expr@), depths@, target, 0, Seq::empty(), line_pos),
    {
        broadcast use group_token_view;

        let ghost ev = tokens_v(expr@);
        let mut out: Vec<Token> = Vec::new();
        let mut p: usize = 0;
        while p < expr.len()
            invariant
                ev == tokens_v(expr@),
                ev.len() == expr.len() == depths.len(),
                p <= expr.len(),
                round_from(ev, depths@, target, p as int, tokens_v(out@), line_pos)
                    == round_from(ev, depths@, target, 0, Seq::empty(), line_pos),
            decreases expr.len() - p,
        {
            proof {
                crate::token::lemma_tokens_v_index(expr@, p as int);
            }
            if depths[p] == target {
                let name = match &expr[p].kind {
                    TokenKind::Identifier(ident) => ident.clone(),
                    _ => {
                        return Err(Stop::Panic(PanicSite::DepthMarker));
                    },
                };
                let q0 = if expr.len() - p >= 2 { p + 2 } else { expr.len() };
                let (q, args) = match self.scan_call_args(expr, q0) {
                    Ok(res) => res,
                    Err(reason) => {
                        return Err(Stop::Error(Diagnostic::new(line_pos, reason)));
                    },
                };
                match self.check_call_args(&args, line_pos) {
                    Ok(()) => {},
                    Err(reason) => {
                        return Err(Stop::Error(Diagnostic::new(line_pos, reason)));
                    },
                }
                let ifc = Token {
                    kind: TokenKind::InlineFunctionCall { name, args },
                    line_pos: expr[p].line_pos,
                };
                push_token(&mut out, ifc);
                p = q;
            } else {
                let t = duplicate_token(&expr[p]);
                push_token(&mut out, t);
                p += 1;
            }
        }
        Ok(out)
    }

    /// Gathers each inline function call of an expression into one token and
    /// checks the result (see [`spec_collect_expr`]).
    /// The complaints it reports without stopping are appended to `notes`
    /// (see [`collect_notes`]).
    pub fn collect_expr(&self, tokens: &[Token], line_pos: usize, notes: &mut Vec<Reason>) -> (r: Result<Vec<Token>, Stop>)
        ensures
            expr_result_v(r) == spec_collect_expr(tokens_v(tokens@), line_pos),
            r matches Err(Stop::Panic(site)) ==> site == PanicSite::CallNestingOverflow,
            final(notes)@ == old(notes)@ + collect_notes(tokens_v(tokens@), line_pos),
    {
        broadcast use group_token_view;

        proof {
            crate::rounds::law_collect_gives_up_only_on_deep_nesting(tokens_v(tokens@), line_pos);
        }
        let mut expr: Vec<Token> = Vec::new();
        let mut k: usize = 0;
        while k < tokens.len()
            invariant
                k <= tokens.len(),
                tokens_v(expr@) == tokens_v(tokens@.take(k as int)),
            decreases tokens.len() - k,
        {
            let t = duplicate_token(&tokens[k]);
            assert(tokens@.take(k + 1) == tokens@.take(k as int).push(tokens@[k as int]));
            proof {
                crate::token::lemma_tokens_v_push(tokens@.take(k as int), tokens@[k as int]);
            }
            push_token(&mut expr, t);
            k += 1;
        }
        assert(tokens@.take(tokens.len() as int) == tokens@);
        let ghost e0 = tokens_v(tokens@);

        let ghost notes0 = notes@;
        let mut depth_stack = match self.calculate_depths(expr.as_slice(), line_pos, notes) {
            Some(d) => d,
            None => {
                assert(notes0 + collect_notes(e0, line_pos) =~= notes@);
                return Err(Stop::Panic(PanicSite::CallNestingOverflow));
            },
        };
        let ghost d0 = depth_stack@;
        let ghost notes1 = notes@;

        let mut max_depth: u8 = 0;
        let mut j: usize = 0;
        while j < depth_stack.len()
            invariant
                j <= depth_stack.len(),
                max_depth == seq_max(depth_stack@.take(j as int)),
            decreases depth_stack.len() - j,
        {
            assert(depth_stack@.take(j + 1).drop_last() == depth_stack@.take(j as int));
            if depth_stack[j] > max_depth {
                max_depth = depth_stack[j];
            }
            j += 1;
        }
        assert(depth_stack@.take(depth_stack.len() as int) == depth_stack@);

        if max_depth > 0 {
            assert(notes0 + collect_notes(e0, line_pos) =~= notes1 + rounds_notes(e0, d0, max_depth as int, line_pos));
            let mut target: u8 = max_depth;
            while target >= 1
                invariant
                    depth_stack.len() == expr.len(),
                    e0 == tokens_v(tokens@),
                    spec_depths(e0) == Some(d0),
                    seq_max(d0) == max_depth,
                    max_depth > 0,
                    spec_collect_expr(e0, line_pos) matches Err(StopV::Panic(site)) ==> site
                        == PanicSite::CallNestingOverflow,
                    notes@ + rounds_notes(tokens_v(expr@), depth_stack@, target as int, line_pos)
                        == notes0 + collect_notes(e0, line_pos),
                    notes0 == old(notes)@,
                    rounds(tokens_v(expr@), depth_stack@, target as int, line_pos)
                        == rounds(e0, d0, max_depth as int, line_pos),
                decreases target,
            {
                let ghost ev = tokens_v(expr@);
                let ghost dv = depth_stack@;
                let expr_b = match self.collect_round(&expr, &depth_stack, target, line_pos) {
                    Ok(v) => v,
                    Err(s) => {
                        assert(rounds_notes(ev, dv, target as int, line_pos) =~= Seq::<Reason>::empty());
                        assert(notes@ + Seq::<Reason>::empty() =~= notes@);
                        return Err(s);
                    },
                };
                expr = expr_b;
                let ghost e2 = tokens_v(expr@);
                let ghost notes_before = notes@;
                depth_stack = match self.calculate_depths(expr.as_slice(), line_pos, notes) {
                    Some(d) => d,
                    None => {
                        assert(rounds_notes(ev, dv, target as int, line_pos) =~= spec_depth_notes(e2) + Seq::<Reason>::empty());
                        assert(notes_before + (spec_depth_notes(e2) + Seq::<Reason>::empty()) =~= notes@);
                        return Err(Stop::Panic(PanicSite::CallNestingOverflow));
                    },
                };
                assert(rounds_notes(ev, dv, target as int, line_pos) =~= spec_depth_notes(e2) + rounds_notes(e2, depth_stack@, target - 1, line_pos));
                assert(notes_before + (spec_depth_notes(e2) + rounds_notes(e2, depth_stack@, target - 1, line_pos)) =~= notes@ + rounds_notes(e2, depth_stack@, target - 1, line_pos));
                target = target - 1;
            }
        }
        assert(notes@ == notes0 + collect_notes(e0, line_pos)) by {
            if max_depth == 0 {
                assert(notes0 + collect_notes(e0, line_pos) =~= notes1);
            }
        }
        match self.check_expression(expr.as_slice(), line_pos) {
            Ok(()) => {},
            Err(d) => {
                return Err(Stop::Error(d));
            },
        }
        Ok(expr)
    }
}

} // verus!

verus! {

/// What gathering the calls of an expression gives is a well-formed expression.
pub proof fn law_collected_is_well_formed(tokens: Seq<TokenV>, lp: usize)
    ensures
        spec_collect_expr(tokens, lp) matches Ok(e) ==> spec_check_expression(e) is Ok,
{
}

} // verus!
