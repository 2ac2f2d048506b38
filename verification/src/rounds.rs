use vstd::prelude::*;

use crate::collect::{round_from, rounds, scan_args, push_last, spec_collect_expr, seq_max};
use crate::depths::{depths_from, opens_call, spec_depths};
use crate::error::{PanicSite, StopV};
use crate::expr::MAX_EXPRESSION_DEPTH;
use crate::token::{TokenKindV, TokenV};

verus! {

/// Every label of `d` is at most `t`.
pub open spec fn bounded(d: Seq<u8>, t: int) -> bool {
    forall|k: int| 0 <= k < d.len() ==> #[trigger] d[k] <= t
}

/// A labelling run that continues from position `i` with the labels `out`
/// of `e[..i]` ends with `d`, and `out` is a prefix of `d`.
pub proof fn lemma_depths_prefix(e: Seq<TokenV>, i: int, stack: Seq<u8>, out: Seq<u8>)
    requires
        0 <= i <= e.len(),
        out.len() == i,
    ensures
        depths_from(e, i, stack, out) matches Some(d) ==> d.len() == e.len() && d.subrange(0, i) == out,
    decreases e.len() - i,
{
    if i < e.len() {
        let top = stack.last();
        if e[i].kind is OpenParen && stack.len() > 0 {
            let stack2 = if top + 1 < MAX_EXPRESSION_DEPTH {
                stack.update(stack.len() - 1, (top + 1) as u8)
            } else {
                stack
            };
            lemma_depths_prefix(e, i + 1, stack2, out.push(0));
            if let Some(d) = depths_from(e, i, stack, out) {
                assert(d.subrange(0, i) == d.subrange(0, i + 1).subrange(0, i));
            }
        } else if e[i].kind is ClosedParen && stack.len() > 0 {
            if top >= 1 {
                let s2 = stack.update(stack.len() - 1, (top - 1) as u8);
                lemma_depths_prefix(e, i + 1, s2, out.push(0));
                if let Some(d) = depths_from(e, i, stack, out) {
                    assert(d.subrange(0, i) == d.subrange(0, i + 1).subrange(0, i));
                }
            } else {
                lemma_depths_prefix(e, i + 1, stack.drop_last(), out.push(0));
                if let Some(d) = depths_from(e, i, stack, out) {
                    assert(d.subrange(0, i) == d.subrange(0, i + 1).subrange(0, i));
                }
            }
        } else if opens_call(e, i) {
            if stack.len() < 255 {
                let o2 = out.push((stack.len() + 1) as u8).push(0);
                lemma_depths_prefix(e, i + 2, stack.push(0), o2);
                if let Some(d) = depths_from(e, i, stack, out) {
                    assert(d.subrange(0, i) == d.subrange(0, i + 2).subrange(0, i));
                    assert(o2.subrange(0, i) == out);
                }
            }
        } else {
            lemma_depths_prefix(e, i + 1, stack, out.push(0));
            if let Some(d) = depths_from(e, i, stack, out) {
                assert(d.subrange(0, i) == d.subrange(0, i + 1).subrange(0, i));
            }
        }
    }
}

pub proof fn lemma_seq_max_bounded(d: Seq<u8>)
    ensures
        bounded(d, seq_max(d) as int),
        d.len() > 0 ==> exists|k: int| 0 <= k < d.len() && d[k] == seq_max(d),
    decreases d.len(),
{
    if d.len() > 0 {
        lemma_seq_max_bounded(d.drop_last());
        assert forall|k: int| 0 <= k < d.len() implies #[trigger] d[k] <= seq_max(d) by {
            if k < d.len() - 1 {
                assert(d[k] == d.drop_last()[k]);
            }
        }
        if d.last() > seq_max(d.drop_last()) {
            assert(d[d.len() - 1] == seq_max(d));
        } else if d.drop_last().len() > 0 {
            let k = choose|k: int| 0 <= k < d.drop_last().len() && d.drop_last()[k] == seq_max(d.drop_last());
            assert(d[k] == d.drop_last()[k]);
        } else {
            assert(d[0] >= 0);
        }
    }
}

} // verus!

verus! {

/// Inside a call labelled `t` that the arguments scan reads to its end, the
/// labelling run meets no call of its own (that would be labelled `t + 1`)
/// and comes back to the stack it had before the call, at the scan's end.
pub proof fn lemma_segment(
    e: Seq<TokenV>,
    d: Seq<u8>,
    t: int,
    j: int,
    stack: Seq<u8>,
    pc: u8,
    lab: Seq<u8>,
    args: Seq<Seq<TokenV>>,
) -> (lab2: Seq<u8>)
    requires
        0 <= j <= e.len(),
        lab.len() == j,
        stack.len() + 1 == t,
        bounded(d, t),
        depths_from(e, j, stack.push(pc), lab) == Some(d),
        scan_args(e, j, pc as int, args) is Ok,
    ensures
        scan_args(e, j, pc as int, args) matches Ok((q, _)) ==> j <= q <= e.len() && (q == e.len() || (
        depths_from(e, q, stack, lab2) == Some(d) && lab2.len() == q)),
    decreases e.len() - j,
{
    if j >= e.len() {
        return lab;
    }
    let s1 = stack.push(pc);
    assert(s1.last() == pc);
    assert(s1.len() > 0);
    if e[j].kind is OpenParen {
        assert(pc + 1 < MAX_EXPRESSION_DEPTH);
        let s2 = s1.update(s1.len() - 1, (pc + 1) as u8);
        assert(s2 == stack.push((pc + 1) as u8));
        lemma_segment(e, d, t, j + 1, stack, (pc + 1) as u8, lab.push(0), push_last(args, e[j]))
    } else if e[j].kind is ClosedParen {
        if pc >= 1 {
            let s2 = s1.update(s1.len() - 1, (pc - 1) as u8);
            assert(s2 == stack.push((pc - 1) as u8));
            lemma_segment(e, d, t, j + 1, stack, (pc - 1) as u8, lab.push(0), push_last(args, e[j]))
        } else {
            assert(s1.drop_last() == stack);
            lab.push(0)
        }
    } else {
        if opens_call(e, j) {
            if s1.len() < 255 {
                let o2 = lab.push((s1.len() + 1) as u8).push(0);
                lemma_depths_prefix(e, j + 2, s1.push(0), o2);
                assert(d.subrange(0, j + 2) == o2);
                assert(d[j] == o2[j]);
                assert(false);
            }
            lab
        } else if e[j].kind is Comma {
            lemma_segment(e, d, t, j + 1, stack, pc, lab.push(0), args.push(Seq::empty()))
        } else {
            lemma_segment(e, d, t, j + 1, stack, pc, lab.push(0), push_last(args, e[j]))
        }
    }
}

} // verus!

verus! {

/// A pass only appends to what it was given.
pub proof fn lemma_round_prefix(e: Seq<TokenV>, d: Seq<u8>, t: u8, p: int, out: Seq<TokenV>, lp: usize)
    ensures
        round_from(e, d, t, p, out, lp) matches Ok(r) ==> out.len() <= r.len() && r.subrange(0, out.len() as int) == out,
    decreases e.len() - p,
{
    if 0 <= p < e.len() {
        if d[p] == t {
            if e[p].kind is Identifier {
                let q0 = if p + 2 <= e.len() { p + 2 } else { e.len() as int };
                if let Ok((q, args)) = scan_args(e, q0, 0, seq![Seq::empty()]) {
                    if crate::collect::check_args(args, 0) is Ok {
                        crate::collect::lemma_scan_args_bounds(e, q0, 0, seq![Seq::empty()]);
                        let t2 = TokenV {
                            line_pos: e[p].line_pos,
                            kind: TokenKindV::InlineFunctionCall { name: e[p].kind->Identifier_0, args },
                        };
                        lemma_round_prefix(e, d, t, q, out.push(t2), lp);
                        if let Ok(r) = round_from(e, d, t, p, out, lp) {
                            assert(r.subrange(0, out.len() as int) == r.subrange(0, (out.len() + 1) as int).subrange(0, out.len() as int));
                        }
                    }
                }
            }
        } else {
            lemma_round_prefix(e, d, t, p + 1, out.push(e[p]), lp);
            if let Ok(r) = round_from(e, d, t, p, out, lp) {
                assert(r.subrange(0, out.len() as int) == r.subrange(0, (out.len() + 1) as int).subrange(0, out.len() as int));
            }
        }
    }
}

} // verus!

verus! {

/// The pass for depth `t` over `e`, whose labels `d` are all at most `t`:
/// read alongside the labelling run of `e` (at `p`, with `stack`), it never
/// meets a label `t` off an identifier, and the labelling run of what it
/// builds follows the run of `e` with the same stacks, with labels at most
/// `t - 1`.
proof fn lemma_round(
    e: Seq<TokenV>,
    d: Seq<u8>,
    t: int,
    p: int,
    out: Seq<TokenV>,
    lp: usize,
    stack: Seq<u8>,
    lab: Seq<u8>,
    lab2: Seq<u8>,
)
    requires
        1 <= t <= 255,
        0 <= p <= e.len(),
        lab.len() == p,
        depths_from(e, p, stack, lab) == Some(d),
        bounded(d, t),
        stack.len() + 1 <= t,
        bounded(lab2, t - 1),
        lab2.len() == out.len(),
    ensures
        !(round_from(e, d, t as u8, p, out, lp) matches Err(StopV::Panic(_))),
        round_from(e, d, t as u8, p, out, lp) matches Ok(r) ==> (depths_from(r, out.len() as int, stack, lab2) matches Some(
            d2,
        ) && bounded(d2, t - 1)),
    decreases e.len() - p,
{
    let tt = t as u8;
    if p >= e.len() {
        return;
    }
    let top = stack.last();
    if e[p].kind is OpenParen && stack.len() > 0 {
        let s2 = if top + 1 < MAX_EXPRESSION_DEPTH {
            stack.update(stack.len() - 1, (top + 1) as u8)
        } else {
            stack
        };
        lemma_depths_prefix(e, p + 1, s2, lab.push(0));
        assert(d[p] == lab.push(0)[p]);
        let o2 = out.push(e[p]);
        lemma_round(e, d, t, p + 1, o2, lp, s2, lab.push(0), lab2.push(0));
        lemma_round_prefix(e, d, tt, p + 1, o2, lp);
        if let Ok(r) = round_from(e, d, tt, p, out, lp) {
            assert(r[out.len() as int] == r.subrange(0, o2.len() as int)[out.len() as int]);
        }
    } else if e[p].kind is ClosedParen && stack.len() > 0 {
        let o2 = out.push(e[p]);
        if top >= 1 {
            let s2 = stack.update(stack.len() - 1, (top - 1) as u8);
            lemma_depths_prefix(e, p + 1, s2, lab.push(0));
            assert(d[p] == lab.push(0)[p]);
            lemma_round(e, d, t, p + 1, o2, lp, s2, lab.push(0), lab2.push(0));
        } else {
            let l = 0u8;
            lemma_depths_prefix(e, p + 1, stack.drop_last(), lab.push(l));
            assert(d[p] == lab.push(l)[p]);
            lemma_round(e, d, t, p + 1, o2, lp, stack.drop_last(), lab.push(l), lab2.push(l));
        }
        lemma_round_prefix(e, d, tt, p + 1, o2, lp);
        if let Ok(r) = round_from(e, d, tt, p, out, lp) {
            assert(r[out.len() as int] == r.subrange(0, o2.len() as int)[out.len() as int]);
        }
    } else if opens_call(e, p) {
        let l = (stack.len() + 1) as u8;
        let lab3 = lab.push(l).push(0);
        lemma_depths_prefix(e, p + 2, stack.push(0), lab3);
        assert(d[p] == lab3[p]);
        assert(d[p + 1] == lab3[p + 1]);
        if d[p] == tt {
            // the call is gathered: its arguments run to the end of the call
            let q0 = p + 2;
            match scan_args(e, q0, 0, seq![Seq::empty()]) {
                Err(_) => {},
                Ok((q, args)) => {
                    if crate::collect::check_args(args, 0) is Ok {
                        let lab4 = lemma_segment(e, d, t, q0, stack, 0, lab3, seq![Seq::empty()]);
                        let t2 = TokenV {
                            line_pos: e[p].line_pos,
                            kind: TokenKindV::InlineFunctionCall { name: e[p].kind->Identifier_0, args },
                        };
                        let o2 = out.push(t2);
                        lemma_round_prefix(e, d, tt, q, o2, lp);
                        if q == e.len() {
                            assert(round_from(e, d, tt, q, o2, lp) == Ok::<Seq<TokenV>, StopV>(o2));
                            assert(depths_from(o2, o2.len() as int, stack, lab2.push(0)) == Some(lab2.push(0)));
                        } else {
                            lemma_round(e, d, t, q, o2, lp, stack, lab4, lab2.push(0));
                        }
                        if let Ok(r) = round_from(e, d, tt, p, out, lp) {
                            assert(r[out.len() as int] == r.subrange(0, o2.len() as int)[out.len() as int]);
                        }
                    }
                },
            }
        } else {
            // an outer call: its identifier and `(` are kept
            let o2 = out.push(e[p]);
            let o3 = o2.push(e[p + 1]);
            assert(d[p + 1] != tt);
            lemma_round(e, d, t, p + 2, o3, lp, stack.push(0), lab3, lab2.push(l).push(0));
            lemma_round_prefix(e, d, tt, p + 2, o3, lp);
            if let Ok(r) = round_from(e, d, tt, p, out, lp) {
                assert(r[out.len() as int] == r.subrange(0, o3.len() as int)[out.len() as int]);
                assert(r[out.len() + 1int] == r.subrange(0, o3.len() as int)[out.len() + 1int]);
                assert(opens_call(r, out.len() as int));
            }
        }
    } else {
        lemma_depths_prefix(e, p + 1, stack, lab.push(0));
        assert(d[p] == lab.push(0)[p]);
        let o2 = out.push(e[p]);
        lemma_round(e, d, t, p + 1, o2, lp, stack, lab.push(0), lab2.push(0));
        lemma_round_prefix(e, d, tt, p + 1, o2, lp);
        if let Ok(r) = round_from(e, d, tt, p, out, lp) {
            assert(r[out.len() as int] == r.subrange(0, o2.len() as int)[out.len() as int]);
            if e[p].kind is Identifier && p + 1 < e.len() {
                // what follows the identifier is not `(` in the result either
                if d[p + 1] == tt {
                    if e[p + 1].kind is Identifier {
                        let q0 = if p + 3 <= e.len() { p + 3 } else { e.len() as int };
                        if let Ok((q, args)) = scan_args(e, q0, 0, seq![Seq::empty()]) {
                            crate::collect::lemma_scan_args_bounds(e, q0, 0, seq![Seq::empty()]);
                            let t2 = TokenV {
                                line_pos: e[p + 1].line_pos,
                                kind: TokenKindV::InlineFunctionCall { name: e[p + 1].kind->Identifier_0, args },
                            };
                            lemma_round_prefix(e, d, tt, q, o2.push(t2), lp);
                            assert(r[out.len() + 1int] == r.subrange(0, o2.len() + 1int)[out.len() + 1int]);
                        }
                    }
                } else {
                    lemma_round_prefix(e, d, tt, p + 2, o2.push(e[p + 1]), lp);
                    assert(r[out.len() + 1int] == r.subrange(0, o2.len() + 1int)[out.len() + 1int]);
                }
                assert(!opens_call(r, out.len() as int));
            }
        }
    }
}

} // verus!

verus! {

proof fn lemma_rounds(e: Seq<TokenV>, d: Seq<u8>, t: int, lp: usize)
    requires
        spec_depths(e) == Some(d),
        bounded(d, t),
        0 <= t <= 255,
    ensures
        !(rounds(e, d, t, lp) matches Err(StopV::Panic(_))),
    decreases t,
{
    if t >= 1 {
        lemma_round(e, d, t, 0, Seq::empty(), lp, Seq::empty(), Seq::empty(), Seq::empty());
        if let Ok(e2) = round_from(e, d, t as u8, 0, Seq::empty(), lp) {
            let d2 = spec_depths(e2)->0;
            lemma_rounds(e2, d2, t - 1, lp);
        }
    }
}

/// Gathering the calls of an expression gives up only where the labelling of
/// the expression as given does, with more than 255 calls open at once: the
/// label of a gathered call always marks an identifier, and the labels are
/// computed again without fail after each pass.
pub proof fn law_collect_gives_up_only_on_deep_nesting(tokens: Seq<TokenV>, lp: usize)
    ensures
        spec_collect_expr(tokens, lp) matches Err(StopV::Panic(site)) ==> site == PanicSite::CallNestingOverflow
            && spec_depths(tokens) is None,
{
    if let Some(d) = spec_depths(tokens) {
        let m = seq_max(d);
        lemma_seq_max_bounded(d);
        if m > 0 {
            lemma_rounds(tokens, d, m as int, lp);
        }
    }
}

} // verus!

verus! {

/// Whether some identifier of `e` is followed by `(`.
pub open spec fn has_call(e: Seq<TokenV>) -> bool {
    exists|i: int| opens_call(e, i)
}

proof fn lemma_no_call_depths(e: Seq<TokenV>, i: int, out: Seq<u8>)
    requires
        0 <= i <= e.len(),
        !has_call(e),
        bounded(out, 0),
    ensures
        depths_from(e, i, Seq::empty(), out) matches Some(d) && bounded(d, 0),
    decreases e.len() - i,
{
    if i < e.len() {
        assert(!opens_call(e, i));
        assert(bounded(out.push(0), 0)) by {
            assert forall|k: int| 0 <= k < out.push(0).len() implies #[trigger] out.push(0)[k] <= 0 by {
                if k < out.len() {
                    assert(out.push(0)[k] == out[k]);
                }
            }
        }
        lemma_no_call_depths(e, i + 1, out.push(0));
    }
}

/// An expression without inline function calls comes back unchanged when it
/// is well formed, and otherwise gives the error that its check gives.
pub proof fn law_collect_without_calls(tokens: Seq<TokenV>, lp: usize)
    requires
        !has_call(tokens),
    ensures
        spec_collect_expr(tokens, lp) == match crate::expr::spec_check_expression(tokens) {
            Ok(()) => Ok(tokens),
            Err(r) => Err(StopV::Error(crate::error::diag(lp, r))),
        },
{
    lemma_no_call_depths(tokens, 0, Seq::empty());
    let d = spec_depths(tokens)->0;
    lemma_seq_max_bounded(d);
    if d.len() > 0 {
        let k = choose|k: int| 0 <= k < d.len() && d[k] == seq_max(d);
        assert(d[k] <= 0);
    }
    assert(seq_max(d) == 0);
}

} // verus!
