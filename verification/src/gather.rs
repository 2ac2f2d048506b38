use vstd::prelude::*;

use crate::collect::{check_args, push_last, round_from, rounds, scan_args, seq_max, spec_collect_expr};
use crate::depths::{depths_from, law_labels_mark_calls, opens_call, spec_depths};
use crate::expr::{
    fits, law_check_expression_direct, paren_balance, paren_step, spec_check_expression,
    well_formed_expression, MAX_EXPRESSION_DEPTH,
};
use crate::flatten::{joined, token_at};
use crate::rounds::{has_call, lemma_depths_prefix, lemma_seq_max_bounded};
use crate::token::{TokenKindV, TokenV};

verus! {

/// The tokens of the call `name(args[0], ..., args[n - 1])` on line `l`.
pub open spec fn call_tokens(name: Seq<char>, args: Seq<Seq<TokenV>>, l: usize) -> Seq<TokenV> {
    seq![token_at(l, TokenKindV::Identifier(name)), token_at(l, TokenKindV::OpenParen)]
        + joined(args, l) + seq![token_at(l, TokenKindV::ClosedParen)]
}

/// An argument that can be gathered as it stands: non-empty, well formed,
/// with no call of its own.
#[verifier::opaque]
pub open spec fn plain_argument(a: Seq<TokenV>) -> bool {
    a.len() > 0 && well_formed_expression(a) && !has_call(a)
}

proof fn lemma_joined_no_call(args: Seq<Seq<TokenV>>, l: usize)
    requires
        forall|k: int| 0 <= k < args.len() ==> !has_call(#[trigger] args[k]),
    ensures
        !has_call(joined(args, l)),
    decreases args.len(),
{
    if args.len() > 1 {
        let a0 = args.drop_last();
        assert forall|k: int| 0 <= k < a0.len() implies !has_call(#[trigger] a0[k]) by {
            assert(a0[k] == args[k]);
        }
        lemma_joined_no_call(a0, l);
        let x = joined(a0, l);
        let c = token_at(l, TokenKindV::Comma);
        let y = args.last();
        assert(!has_call(y)) by {
            assert(y == args[args.len() - 1]);
        }
        let m = x + seq![c] + y;
        assert forall|i: int| !opens_call(m, i) by {
            if opens_call(m, i) {
                if i + 1 < x.len() {
                    assert(m[i] == x[i] && m[i + 1] == x[i + 1]);
                    assert(opens_call(x, i));
                } else if i + 1 == x.len() {
                    assert(m[i + 1] == c);
                } else if i == x.len() {
                    assert(m[i] == c);
                } else {
                    assert(m[i] == y[i - x.len() - 1] && m[i + 1] == y[i + 1 - x.len() - 1]);
                    assert(opens_call(y, i - x.len() - 1));
                }
            }
        }
    } else if args.len() == 1 {
        assert(args[0] == joined(args, l));
    }
}

proof fn lemma_call_depths(e: Seq<TokenV>, i: int, stack: Seq<u8>, out: Seq<u8>)
    requires
        0 <= i <= e.len(),
        forall|k: int| i <= k ==> !opens_call(e, k),
    ensures
        depths_from(e, i, stack, out) is Some,
    decreases e.len() - i,
{
    if i < e.len() {
        let top = stack.last();
        assert(!opens_call(e, i));
        if e[i].kind is OpenParen && stack.len() > 0 {
            let stack2 = if top + 1 < MAX_EXPRESSION_DEPTH {
                stack.update(stack.len() - 1, (top + 1) as u8)
            } else {
                stack
            };
            lemma_call_depths(e, i + 1, stack2, out.push(0));
        } else if e[i].kind is ClosedParen && stack.len() > 0 {
            if top >= 1 {
                lemma_call_depths(e, i + 1, stack.update(stack.len() - 1, (top - 1) as u8), out.push(0));
            } else {
                lemma_call_depths(e, i + 1, stack.drop_last(), out.push(0));
            }
        } else {
            lemma_call_depths(e, i + 1, stack, out.push(0));
        }
    }
}

/// The labels of a single call with plain arguments: 1 on its name, 0 elsewhere.
proof fn lemma_call_labels(name: Seq<char>, args: Seq<Seq<TokenV>>, l: usize)
    requires
        forall|k: int| 0 <= k < args.len() ==> !has_call(#[trigger] args[k]),
    ensures
        spec_depths(call_tokens(name, args, l)) matches Some(d) && d.len() == call_tokens(name, args, l).len()
            && d[0] == 1 && seq_max(d) == 1,
{
    let e = call_tokens(name, args, l);
    let m = joined(args, l);
    lemma_joined_no_call(args, l);
    assert(e.len() == m.len() + 3);
    assert forall|k: int| 1 <= k implies !opens_call(e, k) by {
        if opens_call(e, k) {
            if k == 1 {
                assert(e[1] == token_at(l, TokenKindV::OpenParen));
            } else if k + 1 == e.len() - 1 {
                assert(e[k + 1] == token_at(l, TokenKindV::ClosedParen));
            } else {
                assert(e[k] == m[k - 2] && e[k + 1] == m[k - 1]);
                assert(opens_call(m, k - 2));
            }
        }
    }
    assert(opens_call(e, 0));
    lemma_call_depths(e, 2, seq![0u8], seq![1u8, 0u8]);
    assert(Seq::<u8>::empty().push((0 + 1) as u8).push(0) == seq![1u8, 0u8]);
    assert(Seq::<u8>::empty().push(0u8) == seq![0u8]);
    lemma_depths_prefix(e, 2, seq![0u8], seq![1u8, 0u8]);
    let d = spec_depths(e)->Some_0;
    assert(d.subrange(0, 2) == seq![1u8, 0u8]);
    assert(d[0] == d.subrange(0, 2)[0]);
    law_labels_mark_calls(e);
    lemma_seq_max_bounded(d);
    let k = choose|k: int| 0 <= k < d.len() && d[k] == seq_max(d);
    if k != 0 {
        assert(!opens_call(e, k));
    }
}

proof fn lemma_scan_segment(e: Seq<TokenV>, q: int, seg: Seq<TokenV>, k: int, a: Seq<Seq<TokenV>>)
    requires
        0 <= q,
        q + seg.len() <= e.len(),
        0 <= k <= seg.len(),
        forall|i: int| 0 <= i < seg.len() ==> e[q + i] == #[trigger] seg[i],
        a.len() >= 1,
        forall|i: int| 0 <= i < seg.len() ==> !((#[trigger] seg[i]).kind is Comma),
        forall|i: int| 0 <= i <= seg.len() ==> 0 <= #[trigger] paren_balance(seg, i) < MAX_EXPRESSION_DEPTH,
        paren_balance(seg, seg.len() as int) == 0,
    ensures
        scan_args(e, q + k, paren_balance(seg, k), a.update(a.len() - 1, a.last() + seg.subrange(0, k)))
            == scan_args(e, q + seg.len(), 0, a.update(a.len() - 1, a.last() + seg)),
    decreases seg.len() - k,
{
    if k < seg.len() {
        let t = seg[k];
        assert(e[q + k] == t);
        let ak = a.update(a.len() - 1, a.last() + seg.subrange(0, k));
        let ak1 = a.update(a.len() - 1, a.last() + seg.subrange(0, k + 1));
        assert(push_last(ak, t) =~= ak1) by {
            assert(ak.last() == a.last() + seg.subrange(0, k));
            assert((a.last() + seg.subrange(0, k)).push(t) =~= a.last() + seg.subrange(0, k + 1));
        }
        assert(paren_balance(seg, k + 1) == paren_balance(seg, k) + paren_step(t.kind));
        assert(0 <= paren_balance(seg, k + 1) < MAX_EXPRESSION_DEPTH);
        lemma_scan_segment(e, q, seg, k + 1, a);
    } else {
        assert(seg.subrange(0, k) == seg);
    }
}

proof fn lemma_joined_prefix(args: Seq<Seq<TokenV>>, l: usize, j: int)
    requires
        1 <= j <= args.len(),
    ensures
        joined(args.subrange(0, j), l).len() <= joined(args, l).len(),
        forall|i: int| 0 <= i < joined(args.subrange(0, j), l).len()
            ==> #[trigger] joined(args.subrange(0, j), l)[i] == joined(args, l)[i],
    decreases args.len() - j,
{
    if j == args.len() {
        assert(args.subrange(0, j) == args);
    } else {
        lemma_joined_prefix(args, l, j + 1);
        let a1 = args.subrange(0, j + 1);
        assert(a1.drop_last() == args.subrange(0, j));
        assert(a1.last() == args[j]);
        let x = joined(args.subrange(0, j), l);
        assert forall|i: int| 0 <= i < x.len() implies #[trigger] x[i] == joined(args, l)[i] by {
            assert(joined(a1, l)[i] == x[i]);
        }
    }
}

/// The facts about one argument that the scan of a call's arguments needs.
proof fn lemma_plain_argument(a: Seq<TokenV>)
    requires
        plain_argument(a),
    ensures
        forall|i: int| 0 <= i < a.len() ==> !((#[trigger] a[i]).kind is Comma),
        forall|i: int| 0 <= i <= a.len() ==> 0 <= #[trigger] paren_balance(a, i) < MAX_EXPRESSION_DEPTH,
        paren_balance(a, a.len() as int) == 0,
        a.len() > 0,
        !has_call(a),
{
    reveal(plain_argument);
    assert forall|i: int| 0 <= i < a.len() implies !((#[trigger] a[i]).kind is Comma) by {
        assert(fits(a[i].kind, crate::expr::term_expected(a, i)));
    }
}

proof fn lemma_scan_joined(e: Seq<TokenV>, args: Seq<Seq<TokenV>>, l: usize, j: int)
    requires
        1 <= j <= args.len(),
        forall|k: int| 0 <= k < args.len() ==> plain_argument(#[trigger] args[k]),
        2 + joined(args, l).len() <= e.len(),
        forall|i: int| 0 <= i < joined(args, l).len() ==> e[2 + i] == #[trigger] joined(args, l)[i],
    ensures
        scan_args(e, 2, 0, seq![Seq::empty()]) == scan_args(
            e,
            2 + joined(args.subrange(0, j), l).len() as int,
            0,
            args.subrange(0, j),
        ),
    decreases j,
{
    lemma_joined_prefix(args, l, j);
    let m = joined(args, l);
    let aj = args.subrange(0, j);
    let x = joined(aj, l);
    if j == 1 {
        let seg = args[0];
        assert(x == seg) by {
            assert(aj.len() == 1 && aj[0] == seg);
        }
        lemma_plain_argument(seg);
        assert forall|i: int| 0 <= i < seg.len() implies e[2 + i] == #[trigger] seg[i] by {
            assert(x[i] == m[i]);
        }
        let a = seq![Seq::<TokenV>::empty()];
        lemma_scan_segment(e, 2, seg, 0, a);
        assert(a.update(0, a.last() + seg.subrange(0, 0)) =~= a);
        assert(a.update(0, a.last() + seg) =~= aj);
    } else {
        lemma_scan_joined(e, args, l, j - 1);
        let ap = args.subrange(0, j - 1);
        let xp = joined(ap, l);
        let seg = args[j - 1];
        let c = token_at(l, TokenKindV::Comma);
        assert(aj.drop_last() == ap);
        assert(aj.last() == seg);
        assert(x == xp + seq![c] + seg);
        let p: int = 2 + xp.len() as int;
        assert(e[p] == c) by {
            assert(x[xp.len() as int] == c);
            assert(m[xp.len() as int] == x[xp.len() as int]);
        }
        lemma_plain_argument(seg);
        assert forall|i: int| 0 <= i < seg.len() implies e[p + 1 + i] == #[trigger] seg[i] by {
            assert(x[xp.len() + 1 + i] == seg[i]);
            assert(m[xp.len() + 1 + i] == x[xp.len() + 1 + i]);
        }
        let a = ap.push(Seq::<TokenV>::empty());
        lemma_scan_segment(e, p + 1, seg, 0, a);
        assert(a.update(a.len() - 1, a.last() + seg.subrange(0, 0)) =~= a);
        assert(a.update(a.len() - 1, a.last() + seg) =~= aj);
    }
}

proof fn lemma_check_plain_args(args: Seq<Seq<TokenV>>, k: int)
    requires
        0 <= k <= args.len(),
        forall|j: int| 0 <= j < args.len() ==> plain_argument(#[trigger] args[j]),
    ensures
        check_args(args, k) == Ok::<(), crate::error::Reason>(()),
    decreases args.len() - k,
{
    if k < args.len() {
        assert(plain_argument(args[k]));
        reveal(plain_argument);
        law_check_expression_direct(args[k]);
        lemma_check_plain_args(args, k + 1);
    }
}

/// A call whose arguments are each non-empty, well-formed expressions with no
/// call of their own is gathered into one call token, on the call's line,
/// holding the arguments in order, whatever their number.
pub proof fn law_call_is_gathered(name: Seq<char>, args: Seq<Seq<TokenV>>, l: usize, lp: usize)
    requires
        args.len() >= 1,
        forall|k: int| 0 <= k < args.len() ==> plain_argument(#[trigger] args[k]),
    ensures
        spec_collect_expr(call_tokens(name, args, l), lp) == Ok::<Seq<TokenV>, crate::error::StopV>(
            seq![token_at(l, TokenKindV::InlineFunctionCall { name, args })],
        ),
{
    let e = call_tokens(name, args, l);
    let m = joined(args, l);
    assert forall|k: int| 0 <= k < args.len() implies !has_call(#[trigger] args[k]) by {
        lemma_plain_argument(args[k]);
    }
    lemma_call_labels(name, args, l);
    let d = spec_depths(e)->Some_0;
    assert(e.len() == m.len() + 3);
    assert forall|i: int| 0 <= i < m.len() implies e[2 + i] == #[trigger] m[i] by {}
    lemma_scan_joined(e, args, l, args.len() as int);
    assert(args.subrange(0, args.len() as int) == args);
    let last: int = 2 + m.len() as int;
    assert(e[last] == token_at(l, TokenKindV::ClosedParen));
    assert(scan_args(e, last, 0, args) == Ok::<(int, Seq<Seq<TokenV>>), crate::error::Reason>((last + 1, args)));
    lemma_check_plain_args(args, 0);
    let call = token_at(l, TokenKindV::InlineFunctionCall { name, args });
    assert(e[0] == token_at(l, TokenKindV::Identifier(name)));
    assert(round_from(e, d, 1u8, last + 1, seq![call], lp) == Ok::<Seq<TokenV>, crate::error::StopV>(seq![call]));
    assert(Seq::<TokenV>::empty().push(call) == seq![call]);
    assert(round_from(e, d, 1u8, 0, Seq::empty(), lp) == Ok::<Seq<TokenV>, crate::error::StopV>(seq![call]));
    let one = seq![call];
    assert(!opens_call(one, 0));
    assert(depths_from(one, 1, Seq::empty(), seq![0u8]) == Some(seq![0u8]));
    assert(Seq::<u8>::empty().push(0u8) == seq![0u8]);
    assert(spec_depths(one) == Some(seq![0u8]));
    assert(rounds(one, seq![0u8], 0, lp) == Ok::<Seq<TokenV>, crate::error::StopV>(one));
    assert(rounds(e, d, 1, lp) == Ok::<Seq<TokenV>, crate::error::StopV>(one));
    assert(crate::expr::check_from(one, 1, false, 0) == Ok::<(), crate::error::Reason>(()));
    assert(spec_check_expression(one) == Ok::<(), crate::error::Reason>(()));
}

} // verus!

verus! {

/// An argument of a call line as written: non-empty, without a comma, and
/// with balanced parentheses nested less than [`MAX_EXPRESSION_DEPTH`] deep.
pub open spec fn plain_part(p: Seq<TokenV>) -> bool {
    &&& p.len() > 0
    &&& forall|i: int| 0 <= i < p.len() ==> !((#[trigger] p[i]).kind is Comma)
    &&& forall|i: int| 0 <= i <= p.len() ==> 0 <= #[trigger] paren_balance(p, i) < MAX_EXPRESSION_DEPTH
    &&& paren_balance(p, p.len() as int) == 0
}

proof fn lemma_split_segment(r: Seq<TokenV>, q: int, seg: Seq<TokenV>, k: int, a: Seq<Seq<TokenV>>)
    requires
        0 <= q,
        q + seg.len() <= r.len(),
        0 <= k <= seg.len(),
        forall|i: int| 0 <= i < seg.len() ==> r[q + i] == #[trigger] seg[i],
        a.len() >= 1,
        plain_part(seg),
    ensures
        crate::parser::split_parts(r, q + k, paren_balance(seg, k), a.update(a.len() - 1, a.last() + seg.subrange(0, k)))
            == crate::parser::split_parts(r, q + seg.len(), 0, a.update(a.len() - 1, a.last() + seg)),
    decreases seg.len() - k,
{
    if k < seg.len() {
        let t = seg[k];
        assert(r[q + k] == t);
        let ak = a.update(a.len() - 1, a.last() + seg.subrange(0, k));
        let ak1 = a.update(a.len() - 1, a.last() + seg.subrange(0, k + 1));
        assert(push_last(ak, t) =~= ak1) by {
            assert(ak.last() == a.last() + seg.subrange(0, k));
            assert((a.last() + seg.subrange(0, k)).push(t) =~= a.last() + seg.subrange(0, k + 1));
        }
        assert(paren_balance(seg, k + 1) == paren_balance(seg, k) + paren_step(t.kind));
        assert(0 <= paren_balance(seg, k + 1) < MAX_EXPRESSION_DEPTH);
        lemma_split_segment(r, q, seg, k + 1, a);
    } else {
        assert(seg.subrange(0, k) == seg);
    }
}

proof fn lemma_split_joined(parts: Seq<Seq<TokenV>>, l: usize, j: int)
    requires
        1 <= j <= parts.len(),
        forall|k: int| 0 <= k < parts.len() ==> plain_part(#[trigger] parts[k]),
    ensures
        crate::parser::split_parts(joined(parts, l), 0, 0, seq![Seq::empty()]) == crate::parser::split_parts(
            joined(parts, l),
            joined(parts.subrange(0, j), l).len() as int,
            0,
            parts.subrange(0, j),
        ),
    decreases j,
{
    lemma_joined_prefix(parts, l, j);
    let r = joined(parts, l);
    let aj = parts.subrange(0, j);
    let x = joined(aj, l);
    if j == 1 {
        let seg = parts[0];
        assert(x == seg) by {
            assert(aj.len() == 1 && aj[0] == seg);
        }
        assert forall|i: int| 0 <= i < seg.len() implies r[0 + i] == #[trigger] seg[i] by {
            assert(x[i] == r[i]);
        }
        let a = seq![Seq::<TokenV>::empty()];
        lemma_split_segment(r, 0, seg, 0, a);
        assert(a.update(0, a.last() + seg.subrange(0, 0)) =~= a);
        assert(a.update(0, a.last() + seg) =~= aj);
    } else {
        lemma_split_joined(parts, l, j - 1);
        let ap = parts.subrange(0, j - 1);
        let xp = joined(ap, l);
        let seg = parts[j - 1];
        let c = token_at(l, TokenKindV::Comma);
        assert(aj.drop_last() == ap);
        assert(aj.last() == seg);
        assert(x == xp + seq![c] + seg);
        let p: int = xp.len() as int;
        assert(r[p] == c) by {
            assert(x[p] == c);
            assert(r[p] == x[p]);
        }
        assert forall|i: int| 0 <= i < seg.len() implies r[p + 1 + i] == #[trigger] seg[i] by {
            assert(x[p + 1 + i] == seg[i]);
            assert(r[p + 1 + i] == x[p + 1 + i]);
        }
        let a = ap.push(Seq::<TokenV>::empty());
        lemma_split_segment(r, p + 1, seg, 0, a);
        assert(a.update(a.len() - 1, a.last() + seg.subrange(0, 0)) =~= a);
        assert(a.update(a.len() - 1, a.last() + seg) =~= aj);
    }
}

/// The expressions gathered from each part, in order.
pub open spec fn gathered_parts(parts: Seq<Seq<TokenV>>, lp: usize) -> Seq<Seq<TokenV>> {
    parts.map_values(|p: Seq<TokenV>| spec_collect_expr(p, lp)->Ok_0)
}

proof fn lemma_collect_parts_all(parts: Seq<Seq<TokenV>>, k: int, acc: Seq<Seq<TokenV>>, lp: usize)
    requires
        0 <= k <= parts.len(),
        forall|i: int| 0 <= i < parts.len() ==> (#[trigger] parts[i]).len() > 0,
        forall|i: int| 0 <= i < parts.len() ==> spec_collect_expr(#[trigger] parts[i], lp) is Ok,
    ensures
        crate::parser::collect_parts(parts, k, acc, lp) == Ok::<Seq<Seq<TokenV>>, crate::error::StopV>(
            acc + gathered_parts(parts, lp).subrange(k, parts.len() as int),
        ),
    decreases parts.len() - k,
{
    let g = gathered_parts(parts, lp);
    if k < parts.len() {
        assert(parts[k].len() > 0);
        assert(spec_collect_expr(parts[k], lp) is Ok);
        lemma_collect_parts_all(parts, k + 1, acc.push(g[k]), lp);
        assert(acc.push(g[k]) + g.subrange(k + 1, parts.len() as int) =~= acc + g.subrange(k, parts.len() as int));
    } else {
        assert(acc + g.subrange(k, parts.len() as int) =~= acc);
    }
}

/// The words that start a line other than a call.
pub open spec fn keyword(w: Seq<char>) -> bool {
    w == seq!['f', 'u', 'n', 'c'] || w == seq!['e', 'n', 'd'] || w == seq!['l', 'e', 't'] || w == seq!['s', 'e', 't']
        || w == seq!['s', 'h', 'a', 'd', 'o', 'w']
}

/// A line `name` alone, or `name part, part, ...`, where `name` is no
/// keyword, reads as a call of `name`: with no arguments, or with the
/// expression gathered from each part, in order, when every part gathers.
pub proof fn law_call_line(name: Seq<char>, parts: Seq<Seq<TokenV>>, l: usize)
    requires
        !keyword(name),
        forall|k: int| 0 <= k < parts.len() ==> plain_part(#[trigger] parts[k]),
        forall|k: int| 0 <= k < parts.len() ==> spec_collect_expr(#[trigger] parts[k], l) is Ok,
    ensures
        crate::parser::spec_parse_tokens(seq![seq![token_at(l, TokenKindV::Identifier(name))] + joined(parts, l)])
            == Ok::<Seq<crate::syntax::CommandV>, crate::error::StopV>(
            seq![
                crate::syntax::CommandV {
                    kind: crate::syntax::CommandKindV::FunctionCall { name, args: gathered_parts(parts, l) },
                    line_pos: l,
                },
            ],
        ),
{
    let r = joined(parts, l);
    let t = seq![token_at(l, TokenKindV::Identifier(name))] + r;
    assert(t.subrange(1, t.len() as int) =~= r);
    assert(t[0] == token_at(l, TokenKindV::Identifier(name)));
    assert(name != crate::parser::keyword_func() && name != crate::parser::keyword_end() && name
        != crate::parser::keyword_let() && name != crate::parser::keyword_set() && name
        != crate::parser::keyword_shadow());
    let g = gathered_parts(parts, l);
    if parts.len() == 0 {
        assert(r.len() == 0);
        assert(g =~= Seq::<Seq<TokenV>>::empty());
    } else {
        lemma_split_joined(parts, l, parts.len() as int);
        assert(parts.subrange(0, parts.len() as int) == parts);
        assert(crate::parser::split_parts(r, r.len() as int, 0, parts) == Ok::<Seq<Seq<TokenV>>, crate::error::Reason>(
            parts,
        ));
        assert(parts[0].len() > 0);
        lemma_collect_parts_all(parts, 0, Seq::empty(), l);
        assert(Seq::<Seq<TokenV>>::empty() + g.subrange(0, parts.len() as int) =~= g);
    }
    let c = crate::syntax::CommandV {
        kind: crate::syntax::CommandKindV::FunctionCall { name, args: g },
        line_pos: l,
    };
    assert(crate::parser::parse_command(t) == Ok::<crate::syntax::CommandV, crate::error::StopV>(c));
    let lines = seq![t];
    assert(lines[0] == t);
    assert(Seq::<crate::syntax::CommandV>::empty().push(c) == seq![c]);
    assert(crate::parser::parse_commands(lines, 1, seq![c]) == Ok::<Seq<crate::syntax::CommandV>, crate::error::StopV>(
        seq![c],
    ));
}

} // verus!
