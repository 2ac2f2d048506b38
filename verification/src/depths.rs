use vstd::prelude::*;

use crate::compiler::Compiler;
use crate::error::Reason;
use crate::expr::MAX_EXPRESSION_DEPTH;
use crate::token::{group_token_view, tokens_v, Token, TokenKind, TokenV};

verus! {

/// Whether `e[i]` opens an inline function call: an identifier followed by `(`.
pub open spec fn opens_call(e: Seq<TokenV>, i: int) -> bool {
    0 <= i && i + 1 < e.len() && e[i].kind is Identifier && e[i + 1].kind is OpenParen
}

/// Labels `e[i..]` with call depths, given the labels `out` of `e[..i]` and
/// the stack of open calls, each with its count of open parentheses.
///
/// The identifier that opens a call gets the number of calls open once it is
/// open, so 0 marks a token where no call starts, and a larger label a deeper
/// call; every other token gets 0. There is no result when more than 255 calls
/// would be open at once.
pub open spec fn depths_from(e: Seq<TokenV>, i: int, stack: Seq<u8>, out: Seq<u8>) -> Option<Seq<u8>>
    decreases e.len() - i,
{
    if i >= e.len() || i < 0 {
        Some(out)
    } else if e[i].kind is OpenParen && stack.len() > 0 {
        let top = stack.last();
        let stack2 = if top + 1 < MAX_EXPRESSION_DEPTH {
            stack.update(stack.len() - 1, (top + 1) as u8)
        } else {
            stack
        };
        depths_from(e, i + 1, stack2, out.push(0))
    } else if e[i].kind is ClosedParen && stack.len() > 0 {
        let top = stack.last();
        if top >= 1 {
            depths_from(e, i + 1, stack.update(stack.len() - 1, (top - 1) as u8), out.push(0))
        } else {
            depths_from(e, i + 1, stack.drop_last(), out.push(0))
        }
    } else if opens_call(e, i) {
        if stack.len() >= 255 {
            None
        } else {
            depths_from(e, i + 2, stack.push(0), out.push((stack.len() + 1) as u8).push(0))
        }
    } else {
        depths_from(e, i + 1, stack, out.push(0))
    }
}

/// The call depth labels of an expression (see [`depths_from`]).
pub open spec fn spec_depths(e: Seq<TokenV>) -> Option<Seq<u8>> {
    depths_from(e, 0, Seq::empty(), Seq::empty())
}

/// The complaints that labelling `e[i..]` reports without stopping, after
/// `notes`: a `(` inside a call that would nest its parentheses
/// [`MAX_EXPRESSION_DEPTH`] deep is not counted, and reported. They end where
/// the labelling gives up.
pub open spec fn notes_from(e: Seq<TokenV>, i: int, stack: Seq<u8>, notes: Seq<Reason>) -> Seq<Reason>
    decreases e.len() - i,
{
    if i >= e.len() || i < 0 {
        notes
    } else if e[i].kind is OpenParen && stack.len() > 0 {
        let top = stack.last();
        if top + 1 < MAX_EXPRESSION_DEPTH {
            notes_from(e, i + 1, stack.update(stack.len() - 1, (top + 1) as u8), notes)
        } else {
            notes_from(e, i + 1, stack, notes.push(Reason::TooManyNestedParentheses))
        }
    } else if e[i].kind is ClosedParen && stack.len() > 0 {
        let top = stack.last();
        if top >= 1 {
            notes_from(e, i + 1, stack.update(stack.len() - 1, (top - 1) as u8), notes)
        } else {
            notes_from(e, i + 1, stack.drop_last(), notes)
        }
    } else if opens_call(e, i) {
        if stack.len() >= 255 {
            notes
        } else {
            notes_from(e, i + 2, stack.push(0), notes)
        }
    } else {
        notes_from(e, i + 1, stack, notes)
    }
}

/// What labelling an expression reports without stopping: that it is empty,
/// or each `(` nested too deep inside a call (see [`notes_from`]).
pub open spec fn spec_depth_notes(e: Seq<TokenV>) -> Seq<Reason> {
    if e.len() == 0 {
        seq![Reason::EmptyExpression]
    } else {
        notes_from(e, 0, Seq::empty(), Seq::empty())
    }
}

pub proof fn lemma_depths_from_len(e: Seq<TokenV>, i: int, stack: Seq<u8>, out: Seq<u8>)
    requires
        0 <= i <= e.len(),
        out.len() == i,
    ensures
        depths_from(e, i, stack, out) matches Some(d) ==> d.len() == e.len(),
    decreases e.len() - i,
{
    if i < e.len() {
        let top = stack.last();
        if e[i].kind is OpenParen && stack.len() > 0 {
            let stack2 = if top + 1 < MAX_EXPRESSION_DEPTH {
                stack.update(stack.len() - 1, (top + 1) as u8)
            } else {
                stack
            };
            lemma_depths_from_len(e, i + 1, stack2, out.push(0));
        } else if e[i].kind is ClosedParen && stack.len() > 0 {
            if top >= 1 {
                lemma_depths_from_len(e, i + 1, stack.update(stack.len() - 1, (top - 1) as u8), out.push(0));
            } else {
                lemma_depths_from_len(e, i + 1, stack.drop_last(), out.push(0));
            }
        } else if opens_call(e, i) {
            if stack.len() < 255 {
                lemma_depths_from_len(e, i + 2, stack.push(0), out.push((stack.len() + 1) as u8).push(0));
            }
        } else {
            lemma_depths_from_len(e, i + 1, stack, out.push(0));
        }
    }
}

proof fn lemma_labels_mark_calls(e: Seq<TokenV>, i: int, stack: Seq<u8>, out: Seq<u8>)
    requires
        0 <= i <= e.len(),
        out.len() == i,
        forall|j: int| 0 <= j < i ==> (out[j] > 0 <==> opens_call(e, j)),
    ensures
        depths_from(e, i, stack, out) matches Some(d) ==> forall|j: int|
            0 <= j < e.len() ==> (d[j] > 0 <==> opens_call(e, j)),
    decreases e.len() - i,
{
    if i < e.len() {
        let top = stack.last();
        if e[i].kind is OpenParen && stack.len() > 0 {
            let stack2 = if top + 1 < MAX_EXPRESSION_DEPTH {
                stack.update(stack.len() - 1, (top + 1) as u8)
            } else {
                stack
            };
            lemma_labels_mark_calls(e, i + 1, stack2, out.push(0));
        } else if e[i].kind is ClosedParen && stack.len() > 0 {
            if top >= 1 {
                lemma_labels_mark_calls(e, i + 1, stack.update(stack.len() - 1, (top - 1) as u8), out.push(0));
            } else {
                lemma_labels_mark_calls(e, i + 1, stack.drop_last(), out.push(0));
            }
        } else if opens_call(e, i) {
            if stack.len() < 255 {
                let out2 = out.push((stack.len() + 1) as u8).push(0);
                assert(out2[i] > 0);
                assert(!opens_call(e, i + 1));
                lemma_labels_mark_calls(e, i + 2, stack.push(0), out2);
            }
        } else {
            lemma_labels_mark_calls(e, i + 1, stack, out.push(0));
        }
    }
}

/// Where an expression can be labelled, a token carries a nonzero label
/// exactly when it is the name of an inline call, an identifier directly
/// followed by `(`; every parenthesis and every other token is labelled 0.
pub proof fn law_labels_mark_calls(e: Seq<TokenV>)
    ensures
        spec_depths(e) matches Some(d) ==> d.len() == e.len() && forall|j: int|
            0 <= j < e.len() ==> (d[j] > 0 <==> opens_call(e, j)),
{
    lemma_depths_from_len(e, 0, Seq::empty(), Seq::empty());
    lemma_labels_mark_calls(e, 0, Seq::empty(), Seq::empty());
}

impl Compiler {
    /// Labels each token of `expr` with its call depth (see [`depths_from`]);
    /// `None` when more than 255 calls would be open at once.
    /// The complaints it reports without stopping are appended to `notes`
    /// (see [`spec_depth_notes`]).
    pub fn calculate_depths(&self, expr: &[Token], line_pos: usize, notes: &mut Vec<Reason>) -> (r: Option<Vec<u8>>)
        ensures
            match r {
                Some(d) => spec_depths(tokens_v(expr@)) == Some(d@) && d.len() == expr.len(),
                None => spec_depths(tokens_v(expr@)) is None,
            },
            final(notes)@ == old(notes)@ + spec_depth_notes(tokens_v(expr@)),
    {
        broadcast use group_token_view;

        let ghost e = tokens_v(expr@);
        if expr.len() == 0 {
            notes.push(Reason::EmptyExpression);
        }
        let ghost notes1 = notes@;
        let mut found: Vec<Reason> = Vec::new();
        let mut depth_stack: Vec<u8> = Vec::new();
        let mut paren_stack: Vec<u8> = Vec::new();
        let mut last_depth: u8 = 0;
        let mut i: usize = 0;
        while i < expr.len()
            invariant
                e == tokens_v(expr@),
                e.len() == expr.len(),
                i <= expr.len(),
                depth_stack.len() == i,
                last_depth == paren_stack.len(),
                forall|k: int| 0 <= k < paren_stack.len() ==> paren_stack@[k] < MAX_EXPRESSION_DEPTH,
                depths_from(e, i as int, paren_stack@, depth_stack@) == spec_depths(e),
                notes_from(e, i as int, paren_stack@, found@) == notes_from(e, 0, Seq::empty(), Seq::empty()),
                notes@ == notes1,
                notes1 == old(notes)@ + (if e.len() == 0 { seq![Reason::EmptyExpression] } else { Seq::<Reason>::empty() }),
            decreases expr.len() - i,
        {
            proof {
                crate::token::lemma_tokens_v_index(expr@, i as int);
            }
            let parsing_ifc = paren_stack.len() > 0;
            match &expr[i].kind {
                TokenKind::OpenParen if parsing_ifc => {
                    let top = paren_stack[paren_stack.len() - 1];
                    if top + 1 < MAX_EXPRESSION_DEPTH {
                        let last = paren_stack.len() - 1;
                        paren_stack.set(last, top + 1);
                    } else {
                        found.push(Reason::TooManyNestedParentheses);
                    }
                    depth_stack.push(0);
                    i += 1;
                },
                TokenKind::ClosedParen if parsing_ifc => {
                    let top = paren_stack[paren_stack.len() - 1];
                    if top >= 1 {
                        let last = paren_stack.len() - 1;
                        paren_stack.set(last, top - 1);
                        depth_stack.push(0);
                    } else {
                        last_depth = last_depth - 1;
                        depth_stack.push(0);
                        paren_stack.pop();
                    }
                    i += 1;
                },
                _ => {
                    let opens = i + 1 < expr.len() && match &expr[i].kind {
                        TokenKind::Identifier(_) => true,
                        _ => false,
                    } && match &expr[i + 1].kind {
                        TokenKind::OpenParen => true,
                        _ => false,
                    };
                    proof {
                        if i + 1 < expr.len() {
                            crate::token::lemma_tokens_v_index(expr@, i + 1);
                        }
                    }
                    if opens {
                        if last_depth == 255 {
                            assert(notes_from(e, i as int, paren_stack@, found@) == found@);
                            notes.append(&mut found);
                            assert(notes@ =~= old(notes)@ + spec_depth_notes(e));
                            return None;
                        }
                        last_depth = last_depth + 1;
                        depth_stack.push(last_depth);
                        paren_stack.push(0);
                        depth_stack.push(0);
                        i += 2;
                    } else {
                        depth_stack.push(0);
                        i += 1;
                    }
                },
            }
        }
        proof {
            lemma_depths_from_len(e, 0, Seq::empty(), Seq::empty());
        }
        assert(notes_from(e, i as int, paren_stack@, found@) == found@);
        notes.append(&mut found);
        assert(notes@ =~= old(notes)@ + spec_depth_notes(e));
        Some(depth_stack)
    }
}

} // verus!
