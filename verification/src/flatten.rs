use vstd::prelude::*;

use crate::collect::{push_last, round_from, rounds, scan_args, seq_max, spec_collect_expr};
use crate::depths::{law_labels_mark_calls, opens_call, spec_depths};
use crate::expr::{paren_balance, paren_step};
use crate::token::{TokenKindV, TokenV};

verus! {

/// The token `kind` read from line `line_pos`.
pub open spec fn token_at(line_pos: usize, kind: TokenKindV) -> TokenV {
    TokenV { line_pos, kind }
}

/// The tokens an inline function call was gathered from: its name, `(`, its
/// arguments separated by commas, and `)`, all on the call's line, with the
/// calls inside them spelt out the same way. Every other token stands for
/// itself.
pub open spec fn flat_token(t: TokenV) -> Seq<TokenV>
    decreases t, 1nat,
{
    match t.kind {
        TokenKindV::InlineFunctionCall { name, args } => seq![
            token_at(t.line_pos, TokenKindV::Identifier(name)),
            token_at(t.line_pos, TokenKindV::OpenParen),
        ] + flat_args(args, t.line_pos) + seq![token_at(t.line_pos, TokenKindV::ClosedParen)],
        _ => seq![t],
    }
}

/// The arguments of a call spelt out and separated by commas of line `lp`.
pub open spec fn flat_args(args: Seq<Seq<TokenV>>, lp: usize) -> Seq<TokenV>
    decreases args, 0nat,
{
    if args.len() == 0 {
        Seq::empty()
    } else if args.len() == 1 {
        flat_tokens(args[0])
    } else {
        flat_args(args.drop_last(), lp) + seq![token_at(lp, TokenKindV::Comma)] + flat_tokens(args.last())
    }
}

/// A token sequence with every inline function call spelt out (see [`flat_token`]).
pub open spec fn flat_tokens(s: Seq<TokenV>) -> Seq<TokenV>
    decreases s, 0nat,
{
    if s.len() == 0 {
        Seq::empty()
    } else {
        flat_tokens(s.drop_last()) + flat_token(s.last())
    }
}

/// The arguments of a call as they were read: separated by commas of line
/// `lp`, nothing spelt out.
pub open spec fn joined(args: Seq<Seq<TokenV>>, lp: usize) -> Seq<TokenV>
    decreases args.len(),
{
    if args.len() == 0 {
        Seq::empty()
    } else if args.len() == 1 {
        args[0]
    } else {
        joined(args.drop_last(), lp) + seq![token_at(lp, TokenKindV::Comma)] + args.last()
    }
}

/// Every token of `s` was read from line `lp`.
pub open spec fn on_line(s: Seq<TokenV>, lp: usize) -> bool {
    forall|k: int| 0 <= k < s.len() ==> (#[trigger] s[k]).line_pos == lp
}

/// The parentheses of `s` are balanced: no prefix closes more than it opens,
/// and the whole opens as many as it closes.
pub open spec fn balanced(s: Seq<TokenV>) -> bool {
    &&& forall|k: int| 0 <= k <= s.len() ==> #[trigger] paren_balance(s, k) >= 0
    &&& paren_balance(s, s.len() as int) == 0
}

proof fn lemma_flat_concat(a: Seq<TokenV>, b: Seq<TokenV>)
    ensures
        flat_tokens(a + b) == flat_tokens(a) + flat_tokens(b),
    decreases b.len(),
{
    if b.len() == 0 {
        assert(a + b == a);
    } else {
        assert((a + b).drop_last() == a + b.drop_last());
        assert((a + b).last() == b.last());
        lemma_flat_concat(a, b.drop_last());
    }
}

proof fn lemma_flat_single(t: TokenV)
    ensures
        flat_tokens(seq![t]) == flat_token(t),
{
    let s = seq![t];
    assert(s.len() == 1 && s.last() == t);
    assert(s.drop_last() =~= Seq::<TokenV>::empty());
    assert(flat_tokens(Seq::<TokenV>::empty()) == Seq::<TokenV>::empty());
    assert(flat_tokens(s) == flat_tokens(s.drop_last()) + flat_token(t));
    assert(Seq::<TokenV>::empty() + flat_token(t) =~= flat_token(t));
}

proof fn lemma_flat_plain(s: Seq<TokenV>)
    requires
        forall|k: int| 0 <= k < s.len() ==> !((#[trigger] s[k]).kind is InlineFunctionCall),
    ensures
        flat_tokens(s) == s,
    decreases s.len(),
{
    if s.len() > 0 {
        lemma_flat_plain(s.drop_last());
        assert(!(s[s.len() - 1].kind is InlineFunctionCall));
        assert(flat_token(s.last()) == seq![s.last()]);
        assert(s.drop_last() + seq![s.last()] =~= s);
    }
}

proof fn lemma_flat_joined(args: Seq<Seq<TokenV>>, lp: usize)
    ensures
        flat_tokens(joined(args, lp)) == flat_args(args, lp),
    decreases args.len(),
{
    if args.len() > 1 {
        lemma_flat_joined(args.drop_last(), lp);
        let c = token_at(lp, TokenKindV::Comma);
        lemma_flat_concat(joined(args.drop_last(), lp) + seq![c], args.last());
        lemma_flat_concat(joined(args.drop_last(), lp), seq![c]);
        lemma_flat_single(c);
    }
}

proof fn lemma_joined_push_last(args: Seq<Seq<TokenV>>, t: TokenV, lp: usize)
    requires
        args.len() >= 1,
    ensures
        joined(push_last(args, t), lp) == joined(args, lp).push(t),
{
    let a2 = push_last(args, t);
    if args.len() > 1 {
        assert(a2.drop_last() == args.drop_last());
    }
}

proof fn lemma_joined_push_empty(args: Seq<Seq<TokenV>>, lp: usize)
    requires
        args.len() >= 1,
    ensures
        joined(args.push(Seq::empty()), lp) == joined(args, lp) + seq![token_at(lp, TokenKindV::Comma)],
{
    assert(args.push(Seq::empty()).drop_last() == args);
}

proof fn lemma_balance_prefix(s: Seq<TokenV>, x: TokenV, k: int)
    requires
        0 <= k <= s.len(),
    ensures
        paren_balance(s.push(x), k) == paren_balance(s, k),
    decreases k,
{
    if k > 0 {
        assert(s.push(x)[k - 1] == s[k - 1]);
        lemma_balance_prefix(s, x, k - 1);
    }
}

/// Reading the arguments of a call whose `(` leaves `base` parentheses open
/// ends at the `)` that brings the count back to `base - 1`, when the whole
/// expression ends below `base`; what was read lies between, commas included.
proof fn lemma_scan_args_segment(
    e: Seq<TokenV>,
    q0: int,
    q: int,
    pc: int,
    args: Seq<Seq<TokenV>>,
    lp: usize,
    base: int,
)
    requires
        0 <= q0 <= q <= e.len(),
        args.len() >= 1,
        joined(args, lp) == e.subrange(q0, q),
        pc >= 0,
        paren_balance(e, q) == base + pc,
        paren_balance(e, e.len() as int) < base,
        on_line(e, lp),
    ensures
        scan_args(e, q, pc, args) matches Ok((q2, args2)) ==> {
            &&& q < q2 <= e.len()
            &&& e[q2 - 1].kind is ClosedParen
            &&& joined(args2, lp) == e.subrange(q0, q2 - 1)
            &&& paren_balance(e, q2) == base - 1
        },
    decreases e.len() - q,
{
    if q < e.len() {
        let t = e[q];
        assert(paren_balance(e, q + 1) == paren_balance(e, q) + paren_step(t.kind));
        assert(e.subrange(q0, q + 1) == e.subrange(q0, q).push(t));
        if t.kind is OpenParen {
            lemma_joined_push_last(args, t, lp);
            lemma_scan_args_segment(e, q0, q + 1, pc + 1, push_last(args, t), lp, base);
        } else if t.kind is ClosedParen {
            if pc >= 1 {
                lemma_joined_push_last(args, t, lp);
                lemma_scan_args_segment(e, q0, q + 1, pc - 1, push_last(args, t), lp, base);
            }
        } else if t.kind is Comma {
            lemma_joined_push_empty(args, lp);
            assert(t == token_at(lp, TokenKindV::Comma));
            assert(e.subrange(q0, q) + seq![t] == e.subrange(q0, q + 1));
            lemma_scan_args_segment(e, q0, q + 1, pc, args.push(Seq::empty()), lp, base);
        } else {
            lemma_joined_push_last(args, t, lp);
            lemma_scan_args_segment(e, q0, q + 1, pc, push_last(args, t), lp, base);
        }
    }
}

proof fn lemma_round_flat(e: Seq<TokenV>, d: Seq<u8>, t: u8, p: int, out: Seq<TokenV>, lp: usize, l: usize)
    requires
        t >= 1,
        d.len() == e.len(),
        forall|k: int| 0 <= k < e.len() ==> (d[k] > 0 ==> opens_call(e, k)),
        0 <= p <= e.len(),
        on_line(e, l),
        on_line(out, l),
        balanced(e),
        forall|k: int| 0 <= k <= out.len() ==> #[trigger] paren_balance(out, k) >= 0,
        paren_balance(out, out.len() as int) == paren_balance(e, p),
        flat_tokens(out) == flat_tokens(e.subrange(0, p)),
    ensures
        round_from(e, d, t, p, out, lp) matches Ok(v) ==> {
            &&& on_line(v, l)
            &&& balanced(v)
            &&& flat_tokens(v) == flat_tokens(e)
        },
    decreases e.len() - p,
{
    if p == e.len() {
        assert(e.subrange(0, p) == e);
    } else if d[p] == t {
        assert(opens_call(e, p));
        let q0 = p + 2;
        let b = paren_balance(e, p);
        assert(paren_balance(e, p + 1) == b);
        assert(paren_balance(e, p + 2) == b + 1);
        assert(joined(seq![Seq::<TokenV>::empty()], l) == e.subrange(q0, q0));
        lemma_scan_args_segment(e, q0, q0, 0, seq![Seq::empty()], l, b + 1);
        if let Ok((q, args)) = scan_args(e, q0, 0, seq![Seq::empty()]) {
            if round_from(e, d, t, p, out, lp) is Ok {
                let name = e[p].kind->Identifier_0;
                let call = TokenV {
                    line_pos: e[p].line_pos,
                    kind: TokenKindV::InlineFunctionCall { name, args },
                };
                let out2 = out.push(call);
                // the call spells out as the tokens it was gathered from
                let seg = e.subrange(p, q);
                let inner = e.subrange(q0, q - 1);
                assert(seg == seq![e[p], e[p + 1]] + inner + seq![e[q - 1]]);
                assert(e[p] == token_at(l, TokenKindV::Identifier(name)));
                assert(e[p + 1] == token_at(l, TokenKindV::OpenParen));
                assert(e[q - 1] == token_at(l, TokenKindV::ClosedParen));
                lemma_flat_concat(seq![e[p], e[p + 1]] + inner, seq![e[q - 1]]);
                lemma_flat_concat(seq![e[p], e[p + 1]], inner);
                lemma_flat_plain(seq![e[p], e[p + 1]]);
                lemma_flat_plain(seq![e[q - 1]]);
                lemma_flat_joined(args, l);
                assert(flat_tokens(seg) == flat_token(call));
                // and takes the place of those tokens
                assert(e.subrange(0, q) == e.subrange(0, p) + seg);
                lemma_flat_concat(e.subrange(0, p), seg);
                lemma_flat_concat(out, seq![call]);
                lemma_flat_single(call);
                assert(out2 == out + seq![call]);
                assert forall|k: int| 0 <= k <= out2.len() implies #[trigger] paren_balance(out2, k) >= 0 by {
                    if k <= out.len() {
                        lemma_balance_prefix(out, call, k);
                    } else {
                        lemma_balance_prefix(out, call, out.len() as int);
                    }
                }
                lemma_balance_prefix(out, call, out.len() as int);
                lemma_round_flat(e, d, t, q, out2, lp, l);
            }
        }
    } else {
        let out2 = out.push(e[p]);
        assert(paren_balance(e, p + 1) == paren_balance(e, p) + paren_step(e[p].kind));
        assert forall|k: int| 0 <= k <= out2.len() implies #[trigger] paren_balance(out2, k) >= 0 by {
            if k <= out.len() {
                lemma_balance_prefix(out, e[p], k);
            } else {
                lemma_balance_prefix(out, e[p], out.len() as int);
            }
        }
        lemma_balance_prefix(out, e[p], out.len() as int);
        assert(e.subrange(0, p + 1) == e.subrange(0, p) + seq![e[p]]);
        lemma_flat_concat(e.subrange(0, p), seq![e[p]]);
        lemma_flat_concat(out, seq![e[p]]);
        assert(out2 == out + seq![e[p]]);
        lemma_round_flat(e, d, t, p + 1, out2, lp, l);
    }
}

proof fn lemma_rounds_flat(e: Seq<TokenV>, d: Seq<u8>, t: int, lp: usize, l: usize)
    requires
        spec_depths(e) == Some(d),
        t <= 255,
        on_line(e, l),
        balanced(e),
    ensures
        rounds(e, d, t, lp) matches Ok(v) ==> flat_tokens(v) == flat_tokens(e),
    decreases t,
{
    if t >= 1 {
        law_labels_mark_calls(e);
        assert(paren_balance(Seq::<TokenV>::empty(), 0) == paren_balance(e, 0));
        assert(e.subrange(0, 0) == Seq::<TokenV>::empty());
        lemma_round_flat(e, d, t as u8, 0, Seq::empty(), lp, l);
        if let Ok(e2) = round_from(e, d, t as u8, 0, Seq::empty(), lp) {
            if let Some(d2) = spec_depths(e2) {
                lemma_rounds_flat(e2, d2, t - 1, lp, l);
            }
        }
    }
}

/// Gathering the inline calls of an expression read from one line, with
/// balanced parentheses and no call gathered yet, loses nothing: spelling
/// out each gathered call (its name, `(`, its arguments separated by commas,
/// and `)`) gives back the tokens it was gathered from.
pub proof fn law_collect_flattens_back(tokens: Seq<TokenV>, line: usize, lp: usize)
    requires
        on_line(tokens, line),
        forall|k: int| 0 <= k < tokens.len() ==> !((#[trigger] tokens[k]).kind is InlineFunctionCall),
        balanced(tokens),
    ensures
        spec_collect_expr(tokens, lp) matches Ok(v) ==> flat_tokens(v) == tokens,
{
    lemma_flat_plain(tokens);
    if let Some(d) = spec_depths(tokens) {
        if seq_max(d) > 0 {
            lemma_rounds_flat(tokens, d, seq_max(d) as int, lp, line);
        }
    }
}

} // verus!
