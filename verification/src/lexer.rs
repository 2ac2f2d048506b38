use vstd::prelude::*;

use crate::compiler::Compiler;
use crate::error::{diag, Diagnostic, DiagnosticV, Reason};
use crate::text::{
    chars_of, digit, digit_value, ident_char, ident_start, is_digit, is_ident_char,
    is_ident_start, is_quote, is_whitespace, quote, string_of, to_digit, whitespace,
};
use crate::token::{group_token_view, push_token, token_v, tokens_v, Token, TokenKind, TokenKindV, TokenV};

verus! {

/// The longest identifier, in characters, that may be followed by more text.
pub const MAX_IDENTIFIER_LENGTH: usize = 32;

/// The end of an identifier whose first `n` characters lie before `cs[j]`.
pub open spec fn scan_ident(cs: Seq<char>, j: int, n: int) -> Result<int, Reason>
    decreases cs.len() - j,
{
    if j >= cs.len() {
        Ok(j)
    } else if n >= MAX_IDENTIFIER_LENGTH {
        Err(Reason::TooLongIdentifier)
    } else if !is_ident_char(cs[j]) {
        Ok(j)
    } else {
        scan_ident(cs, j + 1, n + 1)
    }
}

/// Reads the rest of a number literal from `cs[j]` on, with `a` read before the
/// dot and `b` after it so far; gives the end and the two digit groups.
pub open spec fn scan_number(cs: Seq<char>, j: int, a: int, b: int, before_dot: bool) -> Result<
    (int, int, int),
    Reason,
>
    decreases cs.len() - j,
{
    if j >= cs.len() {
        Ok((j, a, b))
    } else if !is_digit(cs[j]) {
        if cs[j] == '.' {
            if before_dot {
                scan_number(cs, j + 1, a, b, false)
            } else {
                Err(Reason::RedundantDot)
            }
        } else {
            Ok((j, a, b))
        }
    } else if before_dot {
        if a * 10 + digit_value(cs[j]) > u32::MAX {
            Err(Reason::IntegerOverflow)
        } else {
            scan_number(cs, j + 1, a * 10 + digit_value(cs[j]), b, true)
        }
    } else {
        if b * 10 + digit_value(cs[j]) > u32::MAX {
            Err(Reason::IntegerOverflow)
        } else {
            scan_number(cs, j + 1, a, b * 10 + digit_value(cs[j]), false)
        }
    }
}

/// The position of the first quote at or after `cs[j]`.
pub open spec fn scan_string(cs: Seq<char>, j: int) -> Option<int>
    decreases cs.len() - j,
{
    if j >= cs.len() {
        None
    } else if is_quote(cs[j]) {
        Some(j)
    } else {
        scan_string(cs, j + 1)
    }
}

pub open spec fn tok(line_pos: usize, kind: TokenKindV) -> TokenV {
    TokenV { line_pos, kind }
}

/// The token of a character that stands alone.
pub open spec fn single_char_kind(c: char) -> Option<TokenKindV> {
    if c == '+' {
        Some(TokenKindV::Add)
    } else if c == '-' {
        Some(TokenKindV::Sub)
    } else if c == '*' {
        Some(TokenKindV::Mul)
    } else if c == '/' {
        Some(TokenKindV::Div)
    } else if c == ',' {
        Some(TokenKindV::Comma)
    } else if c == '(' {
        Some(TokenKindV::OpenParen)
    } else if c == ')' {
        Some(TokenKindV::ClosedParen)
    } else {
        None
    }
}

/// Tokenizes `cs[i..]` after the tokens `acc` were read from `cs[..i]`.
pub open spec fn lex(cs: Seq<char>, lp: usize, i: int, acc: Seq<TokenV>) -> Result<Seq<TokenV>, Reason>
    decreases cs.len() - i,
{
    if i >= cs.len() || i < 0 {
        Ok(acc)
    } else {
        let c = cs[i];
        if is_whitespace(c) {
            lex(cs, lp, i + 1, acc)
        } else if is_ident_start(c) {
            match scan_ident(cs, i + 1, 1) {
                Err(e) => Err(e),
                Ok(e) => {
                    proof {
                        lemma_scan_ident_bounds(cs, i + 1, 1);
                    }
                    lex(cs, lp, e, acc.push(tok(lp, TokenKindV::Identifier(cs.subrange(i, e)))))
                },
            }
        } else if is_digit(c) {
            match scan_number(cs, i + 1, digit_value(c), 0, true) {
                Err(e) => Err(e),
                Ok((e, a, b)) => {
                    proof {
                        lemma_scan_number_bounds(cs, i + 1, digit_value(c), 0, true);
                    }
                    lex(
                        cs,
                        lp,
                        e,
                        acc.push(tok(lp, TokenKindV::Number { integral: a as u32, fractional: b as u32 })),
                    )
                },
            }
        } else if is_quote(c) {
            match scan_string(cs, i + 1) {
                None => Err(Reason::UnclosedString),
                Some(q) => {
                    proof {
                        lemma_scan_string_bounds(cs, i + 1);
                    }
                    lex(cs, lp, q + 1, acc.push(tok(lp, TokenKindV::String(cs.subrange(i + 1, q)))))
                },
            }
        } else if c == '#' {
            Ok(acc)
        } else if c == '=' {
            if i + 1 < cs.len() && cs[i + 1] == '=' {
                lex(cs, lp, i + 2, acc.push(tok(lp, TokenKindV::DoubleEquality)))
            } else {
                lex(cs, lp, i + 1, acc.push(tok(lp, TokenKindV::Equality)))
            }
        } else if c == ':' {
            if i + 1 < cs.len() && is_ident_start(cs[i + 1]) && acc.len() > 0
                && acc.last().kind is Identifier {
                match scan_ident(cs, i + 2, 1) {
                    Err(e) => Err(e),
                    Ok(e) => {
                        proof {
                            lemma_scan_ident_bounds(cs, i + 2, 1);
                        }
                        lex(
                            cs,
                            lp,
                            e,
                            acc.drop_last().push(
                                tok(
                                    lp,
                                    TokenKindV::DoubleIdentifier(
                                        acc.last().kind->Identifier_0,
                                        cs.subrange(i + 1, e),
                                    ),
                                ),
                            ),
                        )
                    },
                }
            } else {
                lex(cs, lp, i + 1, acc.push(tok(lp, TokenKindV::Colon)))
            }
        } else {
            match single_char_kind(c) {
                Some(k) => lex(cs, lp, i + 1, acc.push(tok(lp, k))),
                None => Err(Reason::UnrecognizedCharacter(c)),
            }
        }
    }
}

/// The tokens of one source line, or the error that stops its reading.
pub open spec fn spec_parse_line(line: Seq<char>, lp: usize) -> Result<Seq<TokenV>, DiagnosticV> {
    match lex(line, lp, 0, Seq::empty()) {
        Ok(t) => Ok(t),
        Err(r) => Err(diag(lp, r)),
    }
}

pub open spec fn tokens_result_v(r: Result<Vec<Token>, Diagnostic>) -> Result<Seq<TokenV>, DiagnosticV> {
    match r {
        Ok(v) => Ok(tokens_v(v@)),
        Err(d) => Err(d@),
    }
}

pub proof fn lemma_scan_number_bounds(cs: Seq<char>, j: int, a: int, b: int, before_dot: bool)
    requires
        0 <= j <= cs.len(),
        0 <= a <= u32::MAX,
        0 <= b <= u32::MAX,
    ensures
        scan_number(cs, j, a, b, before_dot) matches Ok((e, a2, b2)) ==> (j <= e <= cs.len()
            && 0 <= a2 <= u32::MAX && 0 <= b2 <= u32::MAX),
    decreases cs.len() - j,
{
    if j < cs.len() {
        let c = cs[j];
        if !is_digit(c) {
            if c == '.' && before_dot {
                lemma_scan_number_bounds(cs, j + 1, a, b, false);
            }
        } else if before_dot {
            if a * 10 + digit_value(c) <= u32::MAX {
                lemma_scan_number_bounds(cs, j + 1, a * 10 + digit_value(c), b, true);
            }
        } else {
            if b * 10 + digit_value(c) <= u32::MAX {
                lemma_scan_number_bounds(cs, j + 1, a, b * 10 + digit_value(c), false);
            }
        }
    }
}

pub proof fn lemma_scan_string_bounds(cs: Seq<char>, j: int)
    requires
        0 <= j,
    ensures
        scan_string(cs, j) matches Some(q) ==> (j <= q < cs.len() && is_quote(cs[q])
            && forall|k: int| j <= k < q ==> !is_quote(#[trigger] cs[k])),
    decreases cs.len() - j,
{
    if j < cs.len() && !is_quote(cs[j]) {
        lemma_scan_string_bounds(cs, j + 1);
    }
}

pub proof fn lemma_scan_ident_bounds(cs: Seq<char>, j: int, n: int)
    requires
        0 <= j,
    ensures
        scan_ident(cs, j, n) matches Ok(e) ==> (j <= e && (j <= cs.len() ==> e <= cs.len())
            && forall|k: int| j <= k < e ==> is_ident_char(#[trigger] cs[k])),
        scan_ident(cs, j, n) matches Ok(e) ==> (n <= MAX_IDENTIFIER_LENGTH ==> n + (e - j) <= MAX_IDENTIFIER_LENGTH),
    decreases cs.len() - j,
{
    if j < cs.len() && n < MAX_IDENTIFIER_LENGTH && is_ident_char(cs[j]) {
        lemma_scan_ident_bounds(cs, j + 1, n + 1);
    }
}

/// Reads an identifier that starts with `first` and goes on at `cs[start]`.
fn collect_identifier(cs: &Vec<char>, start: usize, first: char) -> (r: Result<(String, usize), Reason>)
    requires
        start <= cs.len(),
    ensures
        match r {
            Ok((s, e)) => scan_ident(cs@, start as int, 1) == Ok::<int, Reason>(e as int)
                && start <= e <= cs.len()
                && s@ == seq![first] + cs@.subrange(start as int, e as int),
            Err(reason) => scan_ident(cs@, start as int, 1) == Err::<int, Reason>(reason),
        },
{
    let mut ident = String::new();
    crate::text::push_char(&mut ident, first);
    let mut j: usize = start;
    let mut n: usize = 1;
    while j < cs.len()
        invariant
            start <= j <= cs.len(),
            n == 1 + (j - start),
            ident@ == seq![first] + cs@.subrange(start as int, j as int),
            scan_ident(cs@, j as int, n as int) == scan_ident(cs@, start as int, 1),
        ensures
            start <= j <= cs.len(),
            ident@ == seq![first] + cs@.subrange(start as int, j as int),
            scan_ident(cs@, start as int, 1) == Ok::<int, Reason>(j as int),
        decreases cs.len() - j,
    {
        if n >= MAX_IDENTIFIER_LENGTH {
            return Err(Reason::TooLongIdentifier);
        }
        let ch = cs[j];
        if !ident_char(ch) {
            break;
        }
        crate::text::push_char(&mut ident, ch);
        assert(cs@.subrange(start as int, j + 1) == cs@.subrange(start as int, j as int).push(ch));
        j += 1;
        n += 1;
    }
    Ok((ident, j))
}

/// Reads the rest of a number literal whose first digit is `first`, from `cs[start]` on.
fn collect_number(cs: &Vec<char>, start: usize, first: char) -> (r: Result<(u32, u32, usize), Reason>)
    requires
        start <= cs.len(),
        is_digit(first),
    ensures
        match r {
            Ok((a, b, e)) => scan_number(cs@, start as int, digit_value(first), 0, true)
                == Ok::<(int, int, int), Reason>((e as int, a as int, b as int))
                && start <= e <= cs.len(),
            Err(reason) => scan_number(cs@, start as int, digit_value(first), 0, true)
                == Err::<(int, int, int), Reason>(reason),
        },
{
    let mut num_a: u32 = to_digit(first);
    let mut num_b: u32 = 0;
    let mut collecting_a = true;
    let mut j: usize = start;
    while j < cs.len()
        invariant
            start <= j <= cs.len(),
            scan_number(cs@, j as int, num_a as int, num_b as int, collecting_a)
                == scan_number(cs@, start as int, digit_value(first), 0, true),
        ensures
            start <= j <= cs.len(),
            scan_number(cs@, start as int, digit_value(first), 0, true)
                == Ok::<(int, int, int), Reason>((j as int, num_a as int, num_b as int)),
        decreases cs.len() - j,
    {
        let ch = cs[j];
        if !digit(ch) {
            if ch == '.' {
                if collecting_a {
                    collecting_a = false;
                    j += 1;
                    continue;
                } else {
                    return Err(Reason::RedundantDot);
                }
            } else {
                break;
            }
        }
        let d = to_digit(ch);
        if collecting_a {
            match num_a.checked_mul(10) {
                Some(m) => match m.checked_add(d) {
                    Some(s) => {
                        num_a = s;
                    },
                    None => {
                        return Err(Reason::IntegerOverflow);
                    },
                },
                None => {
                    return Err(Reason::IntegerOverflow);
                },
            }
        } else {
            match num_b.checked_mul(10) {
                Some(m) => match m.checked_add(d) {
                    Some(s) => {
                        num_b = s;
                    },
                    None => {
                        return Err(Reason::IntegerOverflow);
                    },
                },
                None => {
                    return Err(Reason::IntegerOverflow);
                },
            }
        }
        j += 1;
    }
    Ok((num_a, num_b, j))
}

/// The position of the first quote at or after `cs[start]`.
fn find_quote(cs: &Vec<char>, start: usize) -> (r: Option<usize>)
    requires
        start <= cs.len(),
    ensures
        match r {
            Some(q) => scan_string(cs@, start as int) == Some(q as int) && start <= q < cs.len(),
            None => scan_string(cs@, start as int) is None,
        },
{
    let mut j: usize = start;
    while j < cs.len()
        invariant
            start <= j <= cs.len(),
            scan_string(cs@, j as int) == scan_string(cs@, start as int),
        decreases cs.len() - j,
    {
        if quote(cs[j]) {
            return Some(j);
        }
        j += 1;
    }
    None
}

fn single_char_token(c: char) -> (r: Option<TokenKind>)
    ensures
        match r {
            Some(k) => single_char_kind(c) == Some(crate::token::kind_v(k)),
            None => single_char_kind(c) is None,
        },
{
    if c == '+' {
        Some(TokenKind::Add)
    } else if c == '-' {
        Some(TokenKind::Sub)
    } else if c == '*' {
        Some(TokenKind::Mul)
    } else if c == '/' {
        Some(TokenKind::Div)
    } else if c == ',' {
        Some(TokenKind::Comma)
    } else if c == '(' {
        Some(TokenKind::OpenParen)
    } else if c == ')' {
        Some(TokenKind::ClosedParen)
    } else {
        None
    }
}

impl Compiler {
    /// Splits one source line into tokens, each tagged with `line_pos`.
    pub fn parse_line(&self, line_str: String, line_pos: usize) -> (r: Result<Vec<Token>, Diagnostic>)
        ensures
            tokens_result_v(r) == spec_parse_line(line_str@, line_pos),
    {
        broadcast use group_token_view;

        let cs = chars_of(&line_str);
        let mut line: Vec<Token> = Vec::new();
        let mut i: usize = 0;
        while i < cs.len()
            invariant
                i <= cs.len(),
                cs@ == line_str@,
                lex(cs@, line_pos, i as int, tokens_v(line@)) == lex(cs@, line_pos, 0, Seq::empty()),
            ensures
                lex(cs@, line_pos, 0, Seq::empty()) == Ok::<Seq<TokenV>, Reason>(tokens_v(line@)),
            decreases cs.len() - i,
        {
            let ch = cs[i];
            if whitespace(ch) {
                i += 1;
                continue;
            }
            let ghost acc = tokens_v(line@);
            if ident_start(ch) {
                match collect_identifier(&cs, i + 1, ch) {
                    Ok((ident, e)) => {
                        assert(ident@ == cs@.subrange(i as int, e as int));
                        let t = Token { line_pos, kind: TokenKind::Identifier(ident) };
                        push_token(&mut line, t);
                        i = e;
                    },
                    Err(reason) => {
                        return Err(Diagnostic::new(line_pos, reason));
                    },
                }
            } else if digit(ch) {
                match collect_number(&cs, i + 1, ch) {
                    Ok((a, b, e)) => {
                        push_token(&mut line, Token { line_pos, kind: TokenKind::Number { integral: a, fractional: b } });
                        i = e;
                    },
                    Err(reason) => {
                        return Err(Diagnostic::new(line_pos, reason));
                    },
                }
            } else if quote(ch) {
                match find_quote(&cs, i + 1) {
                    Some(q) => {
                        let s = string_of(&cs, i + 1, q);
                        push_token(&mut line, Token { line_pos, kind: TokenKind::String(s) });
                        i = q + 1;
                    },
                    None => {
                        return Err(Diagnostic::new(line_pos, Reason::UnclosedString));
                    },
                }
            } else if ch == '#' {
                break;
            } else if ch == '=' {
                if i + 1 < cs.len() && cs[i + 1] == '=' {
                    push_token(&mut line, Token { line_pos, kind: TokenKind::DoubleEquality });
                    i += 2;
                } else {
                    push_token(&mut line, Token { line_pos, kind: TokenKind::Equality });
                    i += 1;
                }
            } else if ch == ':' {
                proof {
                    if line.len() > 0 {
                        assert(acc.last() == token_v(line@.last()));
                    }
                }
                let joins = i + 1 < cs.len() && ident_start(cs[i + 1]) && line.len() > 0
                    && match &line[line.len() - 1].kind {
                    TokenKind::Identifier(_) => true,
                    _ => false,
                };
                if joins {
                    let last = line.pop().unwrap();
                    assert(token_v(last) == acc.last());
                    let left = match last.kind {
                        TokenKind::Identifier(left) => left,
                        _ => unreached(),
                    };
                    match collect_identifier(&cs, i + 2, cs[i + 1]) {
                        Ok((right, e)) => {
                            assert(right@ == cs@.subrange(i + 1, e as int));
                            assert(tokens_v(line@) == acc.drop_last());
                            push_token(&mut line, Token { line_pos, kind: TokenKind::DoubleIdentifier(left, right) });
                            i = e;
                        },
                        Err(reason) => {
                            return Err(Diagnostic::new(line_pos, reason));
                        },
                    }
                } else {
                    push_token(&mut line, Token { line_pos, kind: TokenKind::Colon });
                    i += 1;
                }
            } else {
                match single_char_token(ch) {
                    Some(kind) => {
                        push_token(&mut line, Token { line_pos, kind });
                        i += 1;
                    },
                    None => {
                        return Err(Diagnostic::new(line_pos, Reason::UnrecognizedCharacter(ch)));
                    },
                }
            }
        }
        Ok(line)
    }
}

} // verus!

verus! {

/// The tokens of each line of `lines[k..]`, after `acc` was read from `lines[..k]`;
/// line `k` is numbered `k + 1`. The first line that cannot be read stops it.
pub open spec fn parse_lines(lines: Seq<Seq<char>>, k: int, acc: Seq<Seq<TokenV>>) -> Result<
    Seq<Seq<TokenV>>,
    DiagnosticV,
>
    decreases lines.len() - k,
{
    if k >= lines.len() || k < 0 {
        Ok(acc)
    } else {
        match spec_parse_line(lines[k], (k + 1) as usize) {
            Err(d) => Err(d),
            Ok(t) => parse_lines(lines, k + 1, acc.push(t)),
        }
    }
}

pub open spec fn strings_v(lines: Seq<String>) -> Seq<Seq<char>> {
    lines.map_values(|s: String| s@)
}

pub open spec fn lines_result_v(r: Result<Vec<Vec<Token>>, Diagnostic>) -> Result<
    Seq<Seq<TokenV>>,
    DiagnosticV,
> {
    match r {
        Ok(v) => Ok(crate::token::args_v(v@)),
        Err(d) => Err(d@),
    }
}

impl Compiler {
    /// Splits each of the source lines into tokens; the first line is line 1.
    /// Stops at the first line that holds an error.
    pub fn parse_file(&self, input_lines: Vec<String>) -> (r: Result<Vec<Vec<Token>>, Diagnostic>)
        requires
            input_lines.len() < usize::MAX,
        ensures
            lines_result_v(r) == parse_lines(strings_v(input_lines@), 0, Seq::empty()),
    {
        broadcast use group_token_view;

        let ghost src = strings_v(input_lines@);
        let mut lines: Vec<Vec<Token>> = Vec::new();
        let mut k: usize = 0;
        while k < input_lines.len()
            invariant
                k <= input_lines.len() < usize::MAX,
                src == strings_v(input_lines@),
                parse_lines(src, k as int, crate::token::args_v(lines@)) == parse_lines(src, 0, Seq::empty()),
            decreases input_lines.len() - k,
        {
            let line_str = input_lines[k].clone();
            match self.parse_line(line_str, k + 1) {
                Ok(line) => {
                    proof {
                        crate::token::lemma_args_v_push(lines@, line);
                    }
                    lines.push(line);
                },
                Err(err) => {
                    return Err(err);
                },
            }
            k += 1;
        }
        Ok(lines)
    }
}

} // verus!

verus! {

/// An identifier as the lexer reads it: a letter or `_`, then letters, digits
/// and `_`, at most [`MAX_IDENTIFIER_LENGTH`] characters in all.
pub open spec fn valid_identifier(s: Seq<char>) -> bool {
    &&& 1 <= s.len() <= MAX_IDENTIFIER_LENGTH
    &&& is_ident_start(s[0])
    &&& forall|k: int| 0 <= k < s.len() ==> is_ident_char(#[trigger] s[k])
}

/// What holds of every token read from line `lp`: it carries the line's
/// number, its names are identifiers and its string holds no quote.
pub open spec fn lexed_token(t: TokenV, lp: usize) -> bool {
    &&& t.line_pos == lp
    &&& t.kind is Identifier ==> valid_identifier(t.kind->Identifier_0)
    &&& t.kind is DoubleIdentifier ==> valid_identifier(t.kind->DoubleIdentifier_0) && valid_identifier(
        t.kind->DoubleIdentifier_1,
    )
    &&& t.kind is String ==> forall|k: int|
        0 <= k < t.kind->String_0.len() ==> !is_quote(#[trigger] t.kind->String_0[k])
    &&& !(t.kind is InlineFunctionCall)
}

pub open spec fn all_lexed(ts: Seq<TokenV>, lp: usize) -> bool {
    forall|k: int| 0 <= k < ts.len() ==> lexed_token(#[trigger] ts[k], lp)
}

proof fn lemma_lex_tokens(cs: Seq<char>, lp: usize, i: int, acc: Seq<TokenV>)
    requires
        0 <= i,
        all_lexed(acc, lp),
    ensures
        lex(cs, lp, i, acc) matches Ok(ts) ==> all_lexed(ts, lp),
    decreases cs.len() - i,
{
    if i < cs.len() {
        let c = cs[i];
        if is_whitespace(c) {
            lemma_lex_tokens(cs, lp, i + 1, acc);
        } else if is_ident_start(c) {
            if let Ok(e) = scan_ident(cs, i + 1, 1) {
                lemma_scan_ident_bounds(cs, i + 1, 1);
                let s = cs.subrange(i, e);
                assert forall|k: int| 0 <= k < s.len() implies is_ident_char(#[trigger] s[k]) by {
                    if k > 0 {
                        assert(s[k] == cs[i + k]);
                    }
                }
                let t = tok(lp, TokenKindV::Identifier(s));
                assert(lexed_token(t, lp));
                assert(all_lexed(acc.push(t), lp)) by {
                    assert forall|k: int| 0 <= k < acc.push(t).len() implies lexed_token(#[trigger] acc.push(t)[k], lp) by {
                        if k < acc.len() {
                            assert(acc.push(t)[k] == acc[k]);
                        }
                    }
                }
                lemma_lex_tokens(cs, lp, e, acc.push(t));
            }
        } else if is_digit(c) {
            if let Ok((e, a, b)) = scan_number(cs, i + 1, digit_value(c), 0, true) {
                lemma_scan_number_bounds(cs, i + 1, digit_value(c), 0, true);
                let t = tok(lp, TokenKindV::Number { integral: a as u32, fractional: b as u32 });
                assert(all_lexed(acc.push(t), lp)) by {
                    assert forall|k: int| 0 <= k < acc.push(t).len() implies lexed_token(#[trigger] acc.push(t)[k], lp) by {
                        if k < acc.len() {
                            assert(acc.push(t)[k] == acc[k]);
                        }
                    }
                }
                lemma_lex_tokens(cs, lp, e, acc.push(t));
            }
        } else if is_quote(c) {
            if let Some(q) = scan_string(cs, i + 1) {
                lemma_scan_string_bounds(cs, i + 1);
                let s = cs.subrange(i + 1, q);
                assert forall|k: int| 0 <= k < s.len() implies !is_quote(#[trigger] s[k]) by {
                    assert(s[k] == cs[i + 1 + k]);
                }
                let t = tok(lp, TokenKindV::String(s));
                assert(all_lexed(acc.push(t), lp)) by {
                    assert forall|k: int| 0 <= k < acc.push(t).len() implies lexed_token(#[trigger] acc.push(t)[k], lp) by {
                        if k < acc.len() {
                            assert(acc.push(t)[k] == acc[k]);
                        }
                    }
                }
                lemma_lex_tokens(cs, lp, q + 1, acc.push(t));
            }
        } else if c == '#' {
        } else if c == '=' {
            let t = if i + 1 < cs.len() && cs[i + 1] == '=' {
                tok(lp, TokenKindV::DoubleEquality)
            } else {
                tok(lp, TokenKindV::Equality)
            };
            assert(all_lexed(acc.push(t), lp)) by {
                assert forall|k: int| 0 <= k < acc.push(t).len() implies lexed_token(#[trigger] acc.push(t)[k], lp) by {
                    if k < acc.len() {
                        assert(acc.push(t)[k] == acc[k]);
                    }
                }
            }
            if i + 1 < cs.len() && cs[i + 1] == '=' {
                lemma_lex_tokens(cs, lp, i + 2, acc.push(t));
            } else {
                lemma_lex_tokens(cs, lp, i + 1, acc.push(t));
            }
        } else if c == ':' {
            if i + 1 < cs.len() && is_ident_start(cs[i + 1]) && acc.len() > 0
                && acc.last().kind is Identifier {
                if let Ok(e) = scan_ident(cs, i + 2, 1) {
                    lemma_scan_ident_bounds(cs, i + 2, 1);
                    let s = cs.subrange(i + 1, e);
                    assert forall|k: int| 0 <= k < s.len() implies is_ident_char(#[trigger] s[k]) by {
                        if k > 0 {
                            assert(s[k] == cs[i + 1 + k]);
                        }
                    }
                    assert(lexed_token(acc[acc.len() - 1], lp));
                    let t = tok(
                        lp,
                        TokenKindV::DoubleIdentifier(acc.last().kind->Identifier_0, s),
                    );
                    let acc2 = acc.drop_last().push(t);
                    assert(all_lexed(acc2, lp)) by {
                        assert forall|k: int| 0 <= k < acc2.len() implies lexed_token(#[trigger] acc2[k], lp) by {
                            if k < acc.len() - 1 {
                                assert(acc2[k] == acc[k]);
                            }
                        }
                    }
                    lemma_lex_tokens(cs, lp, e, acc2);
                }
            } else {
                let t = tok(lp, TokenKindV::Colon);
                assert(all_lexed(acc.push(t), lp)) by {
                    assert forall|k: int| 0 <= k < acc.push(t).len() implies lexed_token(#[trigger] acc.push(t)[k], lp) by {
                        if k < acc.len() {
                            assert(acc.push(t)[k] == acc[k]);
                        }
                    }
                }
                lemma_lex_tokens(cs, lp, i + 1, acc.push(t));
            }
        } else {
            if let Some(k) = single_char_kind(c) {
                let t = tok(lp, k);
                assert(all_lexed(acc.push(t), lp)) by {
                    assert forall|j: int| 0 <= j < acc.push(t).len() implies lexed_token(#[trigger] acc.push(t)[j], lp) by {
                        if j < acc.len() {
                            assert(acc.push(t)[j] == acc[j]);
                        }
                    }
                }
                lemma_lex_tokens(cs, lp, i + 1, acc.push(t));
            }
        }
    }
}

/// Every token read from a line carries that line's number; its names are
/// identifiers of at most 32 characters, its strings hold no quote, and no
/// inline call is made by the lexer.
pub proof fn law_line_tokens(line: Seq<char>, lp: usize)
    ensures
        spec_parse_line(line, lp) matches Ok(ts) ==> all_lexed(ts, lp),
{
    lemma_lex_tokens(line, lp, 0, Seq::empty());
}

/// The tokens of line `k` (counted from 0) carry the number `k + 1`, and the
/// file gives one token list per line.
pub proof fn law_file_tokens(lines: Seq<Seq<char>>)
    requires
        lines.len() < usize::MAX,
    ensures
        parse_lines(lines, 0, Seq::empty()) matches Ok(ts) ==> ts.len() == lines.len()
            && forall|k: int| 0 <= k < ts.len() ==> all_lexed(#[trigger] ts[k], (k + 1) as usize),
{
    lemma_parse_lines(lines, 0, Seq::empty());
}

proof fn lemma_parse_lines(lines: Seq<Seq<char>>, k: int, acc: Seq<Seq<TokenV>>)
    requires
        0 <= k <= lines.len() < usize::MAX,
        acc.len() == k,
        forall|j: int| 0 <= j < acc.len() ==> all_lexed(#[trigger] acc[j], (j + 1) as usize),
    ensures
        parse_lines(lines, k, acc) matches Ok(ts) ==> ts.len() == lines.len()
            && forall|j: int| 0 <= j < ts.len() ==> all_lexed(#[trigger] ts[j], (j + 1) as usize),
    decreases lines.len() - k,
{
    if k < lines.len() {
        if let Ok(t) = spec_parse_line(lines[k], (k + 1) as usize) {
            law_line_tokens(lines[k], (k + 1) as usize);
            let acc2 = acc.push(t);
            assert forall|j: int| 0 <= j < acc2.len() implies all_lexed(#[trigger] acc2[j], (j + 1) as usize) by {
                if j < acc.len() {
                    assert(acc2[j] == acc[j]);
                }
            }
            lemma_parse_lines(lines, k + 1, acc2);
        }
    }
}

} // verus!

verus! {

/// `t` reads as `s` up to the end of `s`, where `t` has a `#`, and `s` is
/// empty or ends in whitespace.
pub open spec fn comment_after(s: Seq<char>, t: Seq<char>) -> bool {
    &&& s.len() < t.len()
    &&& forall|k: int| 0 <= k < s.len() ==> t[k] == s[k]
    &&& t[s.len() as int] == '#'
    &&& s.len() > 0 ==> is_whitespace(s.last())
}

proof fn lemma_scan_ident_agrees(s: Seq<char>, t: Seq<char>, j: int, n: int)
    requires
        comment_after(s, t),
        0 <= j < s.len(),
    ensures
        scan_ident(t, j, n) == scan_ident(s, j, n),
    decreases s.len() - j,
{
    if n < MAX_IDENTIFIER_LENGTH && is_ident_char(s[j]) {
        assert(j + 1 < s.len());
        lemma_scan_ident_agrees(s, t, j + 1, n + 1);
    }
}

proof fn lemma_scan_number_agrees(s: Seq<char>, t: Seq<char>, j: int, a: int, b: int, before_dot: bool)
    requires
        comment_after(s, t),
        0 <= j < s.len(),
    ensures
        scan_number(t, j, a, b, before_dot) == scan_number(s, j, a, b, before_dot),
    decreases s.len() - j,
{
    let c = s[j];
    if !is_digit(c) {
        if c == '.' && before_dot {
            assert(j + 1 < s.len());
            lemma_scan_number_agrees(s, t, j + 1, a, b, false);
        }
    } else {
        assert(j + 1 < s.len());
        if before_dot {
            lemma_scan_number_agrees(s, t, j + 1, a * 10 + digit_value(c), b, true);
        } else {
            lemma_scan_number_agrees(s, t, j + 1, a, b * 10 + digit_value(c), false);
        }
    }
}

proof fn lemma_scan_string_agrees(s: Seq<char>, t: Seq<char>, j: int)
    requires
        comment_after(s, t),
        0 <= j,
    ensures
        scan_string(s, j) matches Some(q) ==> scan_string(t, j) == Some(q),
    decreases s.len() - j,
{
    if j < s.len() && !is_quote(s[j]) {
        lemma_scan_string_agrees(s, t, j + 1);
    }
}

proof fn lemma_lex_agrees(s: Seq<char>, t: Seq<char>, lp: usize, i: int, acc: Seq<TokenV>)
    requires
        comment_after(s, t),
        0 <= i <= s.len(),
    ensures
        lex(s, lp, i, acc) matches Ok(v) ==> lex(t, lp, i, acc) == Ok::<Seq<TokenV>, Reason>(v),
    decreases s.len() - i,
{
    if i == s.len() {
        assert(t[i] == '#');
    } else {
        let c = s[i];
        assert(t[i] == c);
        if is_whitespace(c) {
            lemma_lex_agrees(s, t, lp, i + 1, acc);
        } else if is_ident_start(c) {
            assert(i + 1 < s.len());
            lemma_scan_ident_agrees(s, t, i + 1, 1);
            if let Ok(e) = scan_ident(s, i + 1, 1) {
                lemma_scan_ident_bounds(s, i + 1, 1);
                assert(t.subrange(i, e) =~= s.subrange(i, e));
                lemma_lex_agrees(s, t, lp, e, acc.push(tok(lp, TokenKindV::Identifier(s.subrange(i, e)))));
            }
        } else if is_digit(c) {
            assert(i + 1 < s.len());
            lemma_scan_number_agrees(s, t, i + 1, digit_value(c), 0, true);
            if let Ok((e, a, b)) = scan_number(s, i + 1, digit_value(c), 0, true) {
                lemma_scan_number_bounds(s, i + 1, digit_value(c), 0, true);
                lemma_lex_agrees(
                    s,
                    t,
                    lp,
                    e,
                    acc.push(tok(lp, TokenKindV::Number { integral: a as u32, fractional: b as u32 })),
                );
            }
        } else if is_quote(c) {
            lemma_scan_string_agrees(s, t, i + 1);
            if let Some(q) = scan_string(s, i + 1) {
                lemma_scan_string_bounds(s, i + 1);
                assert(t.subrange(i + 1, q) =~= s.subrange(i + 1, q));
                lemma_lex_agrees(s, t, lp, q + 1, acc.push(tok(lp, TokenKindV::String(s.subrange(i + 1, q)))));
            }
        } else if c == '#' {
        } else if c == '=' {
            assert(i + 1 < s.len());
            assert(t[i + 1] == s[i + 1]);
            if s[i + 1] == '=' {
                lemma_lex_agrees(s, t, lp, i + 2, acc.push(tok(lp, TokenKindV::DoubleEquality)));
            } else {
                lemma_lex_agrees(s, t, lp, i + 1, acc.push(tok(lp, TokenKindV::Equality)));
            }
        } else if c == ':' {
            assert(i + 1 < s.len());
            assert(t[i + 1] == s[i + 1]);
            if is_ident_start(s[i + 1]) && acc.len() > 0 && acc.last().kind is Identifier {
                assert(i + 2 < s.len());
                lemma_scan_ident_agrees(s, t, i + 2, 1);
                if let Ok(e) = scan_ident(s, i + 2, 1) {
                    lemma_scan_ident_bounds(s, i + 2, 1);
                    assert(t.subrange(i + 1, e) =~= s.subrange(i + 1, e));
                    lemma_lex_agrees(
                        s,
                        t,
                        lp,
                        e,
                        acc.drop_last().push(
                            tok(
                                lp,
                                TokenKindV::DoubleIdentifier(acc.last().kind->Identifier_0, s.subrange(i + 1, e)),
                            ),
                        ),
                    );
                }
            } else {
                lemma_lex_agrees(s, t, lp, i + 1, acc.push(tok(lp, TokenKindV::Colon)));
            }
        } else if let Some(k) = single_char_kind(c) {
            lemma_lex_agrees(s, t, lp, i + 1, acc.push(tok(lp, k)));
        }
    }
}

/// A `#` outside a string ends the line: a line that reads without error and
/// is empty or ends in whitespace reads to the same tokens when `#` and any
/// text follow it.
pub proof fn law_comment_ends_line(s: Seq<char>, rest: Seq<char>, lp: usize)
    requires
        s.len() == 0 || is_whitespace(s.last()),
    ensures
        spec_parse_line(s, lp) is Ok ==> spec_parse_line(s + seq!['#'] + rest, lp) == spec_parse_line(s, lp),
{
    let t = s + seq!['#'] + rest;
    assert(t[s.len() as int] == '#');
    assert forall|k: int| 0 <= k < s.len() implies t[k] == s[k] by {
        assert((s + seq!['#'])[k] == s[k]);
    }
    lemma_lex_agrees(s, t, lp, 0, Seq::empty());
}

} // verus!

verus! {

proof fn lemma_scan_word(s: Seq<char>, j: int)
    requires
        1 <= j <= s.len(),
        j <= MAX_IDENTIFIER_LENGTH,
        forall|k: int|
            0 <= k < s.len() ==> ('a' <= #[trigger] s[k] <= 'z') || ('A' <= s[k] <= 'Z') || ('0' <= s[k] <= '9')
                || s[k] == '_',
    ensures
        scan_ident(s, j, j) == if s.len() <= MAX_IDENTIFIER_LENGTH {
            Ok::<int, Reason>(s.len() as int)
        } else {
            Err::<int, Reason>(Reason::TooLongIdentifier)
        },
    decreases s.len() - j,
{
    if j < s.len() && j < MAX_IDENTIFIER_LENGTH {
        assert(is_ident_char(s[j]));
        lemma_scan_word(s, j + 1);
    }
}

/// A line that is one word (a letter or `_`, then ASCII letters, digits and
/// `_`) reads as one identifier holding the whole word, when the word has at
/// most 32 characters; a longer word is refused as too long.
pub proof fn law_word_is_one_identifier(s: Seq<char>, lp: usize)
    requires
        s.len() >= 1,
        ('a' <= s[0] <= 'z') || ('A' <= s[0] <= 'Z') || s[0] == '_',
        forall|k: int|
            0 <= k < s.len() ==> ('a' <= #[trigger] s[k] <= 'z') || ('A' <= s[k] <= 'Z') || ('0' <= s[k] <= '9')
                || s[k] == '_',
    ensures
        s.len() <= 32 ==> spec_parse_line(s, lp) == Ok::<Seq<TokenV>, DiagnosticV>(
            seq![TokenV { line_pos: lp, kind: TokenKindV::Identifier(s) }],
        ),
        s.len() > 32 ==> spec_parse_line(s, lp) == Err::<Seq<TokenV>, DiagnosticV>(diag(lp, Reason::TooLongIdentifier)),
{
    lemma_scan_word(s, 1);
    assert(!is_whitespace(s[0]) && is_ident_start(s[0]));
    assert(s.subrange(0, s.len() as int) == s);
    let acc = Seq::<TokenV>::empty().push(tok(lp, TokenKindV::Identifier(s)));
    assert(acc == seq![TokenV { line_pos: lp, kind: TokenKindV::Identifier(s) }]);
    if s.len() <= 32 {
        assert(lex(s, lp, s.len() as int, acc) == Ok::<Seq<TokenV>, Reason>(acc));
        assert(lex(s, lp, 0, Seq::empty()) == lex(s, lp, s.len() as int, acc));
    }
}

} // verus!

verus! {

/// An ASCII letter, digit or `_`.
pub open spec fn word_char(c: char) -> bool {
    ('a' <= c <= 'z') || ('A' <= c <= 'Z') || ('0' <= c <= '9') || c == '_'
}

/// A name as written: a letter or `_` first, then letters, digits and `_`.
pub open spec fn word(w: Seq<char>) -> bool {
    &&& w.len() >= 1
    &&& ('a' <= w[0] <= 'z') || ('A' <= w[0] <= 'Z') || w[0] == '_'
    &&& forall|k: int| 0 <= k < w.len() ==> word_char(#[trigger] w[k])
}

/// The value of a string of decimal digits.
pub open spec fn decimal_value(ds: Seq<char>) -> int
    decreases ds.len(),
{
    if ds.len() == 0 {
        0
    } else {
        decimal_value(ds.drop_last()) * 10 + ((ds.last() as int) - ('0' as int))
    }
}

/// A string of decimal digits.
pub open spec fn digits(ds: Seq<char>) -> bool {
    forall|k: int| 0 <= k < ds.len() ==> '0' <= #[trigger] ds[k] <= '9'
}

proof fn lemma_scan_word_region(s: Seq<char>, j: int, n: int, e: int)
    requires
        0 <= j <= e <= s.len(),
        0 <= n,
        forall|k: int| j <= k < e ==> word_char(#[trigger] s[k]),
        (e == s.len() && n + e - j <= MAX_IDENTIFIER_LENGTH) || (e < s.len() && !word_char(s[e]) && n + e - j
            < MAX_IDENTIFIER_LENGTH),
    ensures
        scan_ident(s, j, n) == Ok::<int, Reason>(e),
    decreases e - j,
{
    if j < e {
        assert(word_char(s[j]));
        assert(is_ident_char(s[j]));
        lemma_scan_word_region(s, j + 1, n + 1, e);
    } else if e < s.len() {
        assert(!is_ident_char(s[e]));
    }
}

proof fn lemma_decimal_value_nonneg(ds: Seq<char>)
    requires
        digits(ds),
    ensures
        decimal_value(ds) >= 0,
    decreases ds.len(),
{
    if ds.len() > 0 {
        lemma_decimal_value_nonneg(ds.drop_last());
        assert(ds.last() == ds[ds.len() - 1]);
    }
}

proof fn lemma_decimal_prefix(ds: Seq<char>, k: int)
    requires
        digits(ds),
        0 <= k <= ds.len(),
    ensures
        0 <= decimal_value(ds.subrange(0, k)) <= decimal_value(ds),
    decreases ds.len() - k,
{
    if k == ds.len() {
        assert(ds.subrange(0, k) == ds);
        lemma_decimal_value_nonneg(ds);
    } else {
        lemma_decimal_prefix(ds, k + 1);
        let p = ds.subrange(0, k + 1);
        assert(p.drop_last() == ds.subrange(0, k));
        assert(p.last() == ds[k]);
        lemma_decimal_value_nonneg(ds.subrange(0, k));
    }
}

/// Reading the digits `ds`, placed at `s[q..]`, from the `k`-th on.
proof fn lemma_scan_digits(s: Seq<char>, q: int, ds: Seq<char>, k: int, a: int, before_dot: bool)
    requires
        digits(ds),
        0 <= q,
        q + ds.len() <= s.len(),
        forall|i: int| 0 <= i < ds.len() ==> s[q + i] == #[trigger] ds[i],
        0 <= k <= ds.len(),
        decimal_value(ds) <= u32::MAX,
    ensures
        before_dot ==> scan_number(s, q + k, decimal_value(ds.subrange(0, k)), 0, true) == scan_number(
            s,
            q + ds.len(),
            decimal_value(ds),
            0,
            true,
        ),
        !before_dot ==> scan_number(s, q + k, a, decimal_value(ds.subrange(0, k)), false) == scan_number(
            s,
            q + ds.len(),
            a,
            decimal_value(ds),
            false,
        ),
    decreases ds.len() - k,
{
    if k < ds.len() {
        let p = ds.subrange(0, k + 1);
        assert(p.drop_last() == ds.subrange(0, k));
        assert(p.last() == ds[k]);
        assert(s[q + k] == ds[k]);
        lemma_decimal_prefix(ds, k + 1);
        assert(digit_value(s[q + k]) == (ds[k] as int) - ('0' as int));
        lemma_scan_digits(s, q, ds, k + 1, a, before_dot);
    } else {
        assert(ds.subrange(0, k) == ds);
    }
}

/// A number literal is read as its two digit groups: the line `A` of
/// decimal digits gives the number with integral part the value of `A` and
/// fractional part 0, and `A.B` the one with integral part the value of `A`
/// and fractional part the value of `B`, each at most `u32::MAX`; a line
/// `A` whose value exceeds `u32::MAX` is refused as an overflow.
pub proof fn law_number_literal(a: Seq<char>, b: Seq<char>, lp: usize)
    requires
        a.len() >= 1,
        digits(a),
        digits(b),
    ensures
        decimal_value(a) <= u32::MAX ==> spec_parse_line(a, lp) == Ok::<Seq<TokenV>, DiagnosticV>(
            seq![
                TokenV {
                    line_pos: lp,
                    kind: TokenKindV::Number { integral: decimal_value(a) as u32, fractional: 0 },
                },
            ],
        ),
        decimal_value(a) <= u32::MAX && decimal_value(b) <= u32::MAX ==> spec_parse_line(
            a + seq!['.'] + b,
            lp,
        ) == Ok::<Seq<TokenV>, DiagnosticV>(
            seq![
                TokenV {
                    line_pos: lp,
                    kind: TokenKindV::Number {
                        integral: decimal_value(a) as u32,
                        fractional: decimal_value(b) as u32,
                    },
                },
            ],
        ),
        decimal_value(a) > u32::MAX ==> spec_parse_line(a, lp) == Err::<Seq<TokenV>, DiagnosticV>(
            diag(lp, Reason::IntegerOverflow),
        ),
{
    let first = a.subrange(0, 1);
    assert(first.drop_last() == Seq::<char>::empty());
    assert(first.last() == a[0]);
    assert(decimal_value(Seq::<char>::empty()) == 0);
    assert(decimal_value(first) == digit_value(a[0]));
    assert(is_digit(a[0]) && !is_whitespace(a[0]) && !is_ident_start(a[0]));
    if decimal_value(a) <= u32::MAX {
        lemma_scan_digits(a, 0, a, 1, 0, true);
        let n = TokenV {
            line_pos: lp,
            kind: TokenKindV::Number { integral: decimal_value(a) as u32, fractional: 0 },
        };
        assert(Seq::<TokenV>::empty().push(n) == seq![n]);
        assert(lex(a, lp, a.len() as int, seq![n]) == Ok::<Seq<TokenV>, Reason>(seq![n]));
        let s = a + seq!['.'] + b;
        assert forall|i: int| 0 <= i < a.len() implies s[0 + i] == #[trigger] a[i] by {}
        lemma_scan_digits(s, 0, a, 1, 0, true);
        assert(s[a.len() as int] == '.');
        assert(!is_digit(s[a.len() as int]));
        if decimal_value(b) <= u32::MAX {
            assert forall|i: int| 0 <= i < b.len() implies s[a.len() + 1 + i] == #[trigger] b[i] by {}
            lemma_scan_digits(s, a.len() + 1 as int, b, 0, decimal_value(a), false);
            assert(b.subrange(0, 0) == Seq::<char>::empty());
            let m = TokenV {
                line_pos: lp,
                kind: TokenKindV::Number { integral: decimal_value(a) as u32, fractional: decimal_value(b) as u32 },
            };
            assert(Seq::<TokenV>::empty().push(m) == seq![m]);
            assert(lex(s, lp, s.len() as int, seq![m]) == Ok::<Seq<TokenV>, Reason>(seq![m]));
        }
    } else {
        lemma_number_overflow(a, 1);
    }
}

/// The digits of `a` from the `k`-th on overflow when their value exceeds `u32::MAX`.
proof fn lemma_number_overflow(a: Seq<char>, k: int)
    requires
        digits(a),
        1 <= k <= a.len(),
        decimal_value(a) > u32::MAX,
        decimal_value(a.subrange(0, k)) <= u32::MAX,
    ensures
        scan_number(a, k, decimal_value(a.subrange(0, k)), 0, true) == Err::<(int, int, int), Reason>(
            Reason::IntegerOverflow,
        ),
    decreases a.len() - k,
{
    if k == a.len() {
        assert(a.subrange(0, k) == a);
    } else {
        let p = a.subrange(0, k + 1);
        assert(p.drop_last() == a.subrange(0, k));
        assert(p.last() == a[k]);
        assert(digit_value(a[k]) == (a[k] as int) - ('0' as int));
        if decimal_value(p) <= u32::MAX {
            lemma_number_overflow(a, k + 1);
        }
    }
}

} // verus!

verus! {

/// Each operator and punctuation mark, alone on a line, reads as its token.
pub proof fn law_punctuation(lp: usize)
    ensures
        spec_parse_line(seq!['+'], lp) == Ok::<Seq<TokenV>, DiagnosticV>(seq![TokenV { line_pos: lp, kind: TokenKindV::Add }]),
        spec_parse_line(seq!['-'], lp) == Ok::<Seq<TokenV>, DiagnosticV>(seq![TokenV { line_pos: lp, kind: TokenKindV::Sub }]),
        spec_parse_line(seq!['*'], lp) == Ok::<Seq<TokenV>, DiagnosticV>(seq![TokenV { line_pos: lp, kind: TokenKindV::Mul }]),
        spec_parse_line(seq!['/'], lp) == Ok::<Seq<TokenV>, DiagnosticV>(seq![TokenV { line_pos: lp, kind: TokenKindV::Div }]),
        spec_parse_line(seq![','], lp) == Ok::<Seq<TokenV>, DiagnosticV>(seq![TokenV { line_pos: lp, kind: TokenKindV::Comma }]),
        spec_parse_line(seq!['('], lp) == Ok::<Seq<TokenV>, DiagnosticV>(
            seq![TokenV { line_pos: lp, kind: TokenKindV::OpenParen }],
        ),
        spec_parse_line(seq![')'], lp) == Ok::<Seq<TokenV>, DiagnosticV>(
            seq![TokenV { line_pos: lp, kind: TokenKindV::ClosedParen }],
        ),
        spec_parse_line(seq!['='], lp) == Ok::<Seq<TokenV>, DiagnosticV>(
            seq![TokenV { line_pos: lp, kind: TokenKindV::Equality }],
        ),
        spec_parse_line(seq!['=', '='], lp) == Ok::<Seq<TokenV>, DiagnosticV>(
            seq![TokenV { line_pos: lp, kind: TokenKindV::DoubleEquality }],
        ),
        spec_parse_line(seq![':'], lp) == Ok::<Seq<TokenV>, DiagnosticV>(seq![TokenV { line_pos: lp, kind: TokenKindV::Colon }]),
{
    lemma_single_char('+', TokenKindV::Add, lp);
    lemma_single_char('-', TokenKindV::Sub, lp);
    lemma_single_char('*', TokenKindV::Mul, lp);
    lemma_single_char('/', TokenKindV::Div, lp);
    lemma_single_char(',', TokenKindV::Comma, lp);
    lemma_single_char('(', TokenKindV::OpenParen, lp);
    lemma_single_char(')', TokenKindV::ClosedParen, lp);
    let e = Seq::<TokenV>::empty();
    let eq = TokenV { line_pos: lp, kind: TokenKindV::Equality };
    assert(e.push(eq) == seq![eq]);
    assert(lex(seq!['='], lp, 1, seq![eq]) == Ok::<Seq<TokenV>, Reason>(seq![eq]));
    let deq = TokenV { line_pos: lp, kind: TokenKindV::DoubleEquality };
    assert(e.push(deq) == seq![deq]);
    assert(lex(seq!['=', '='], lp, 2, seq![deq]) == Ok::<Seq<TokenV>, Reason>(seq![deq]));
    let col = TokenV { line_pos: lp, kind: TokenKindV::Colon };
    assert(e.push(col) == seq![col]);
    assert(lex(seq![':'], lp, 1, seq![col]) == Ok::<Seq<TokenV>, Reason>(seq![col]));
}

proof fn lemma_single_char(c: char, k: TokenKindV, lp: usize)
    requires
        single_char_kind(c) == Some(k),
    ensures
        spec_parse_line(seq![c], lp) == Ok::<Seq<TokenV>, DiagnosticV>(seq![TokenV { line_pos: lp, kind: k }]),
{
    let t = TokenV { line_pos: lp, kind: k };
    assert(!is_whitespace(c) && !is_ident_start(c) && !is_digit(c) && !is_quote(c) && c != '#' && c != '='
        && c != ':');
    assert(Seq::<TokenV>::empty().push(t) == seq![t]);
    assert(lex(seq![c], lp, 1, seq![t]) == Ok::<Seq<TokenV>, Reason>(seq![t]));
    assert(lex(seq![c], lp, 0, Seq::empty()) == lex(seq![c], lp, 1, seq![t]));
}

/// A string literal, opened and closed by `"` or `'`, reads as the text
/// between them; without its closing quote it is refused as unclosed.
pub proof fn law_string_literal(open: char, body: Seq<char>, close: char, lp: usize)
    requires
        open == '"' || open == '\'',
        close == '"' || close == '\'',
        forall|k: int| 0 <= k < body.len() ==> #[trigger] body[k] != '"' && body[k] != '\'',
    ensures
        spec_parse_line(seq![open] + body + seq![close], lp) == Ok::<Seq<TokenV>, DiagnosticV>(
            seq![TokenV { line_pos: lp, kind: TokenKindV::String(body) }],
        ),
        spec_parse_line(seq![open] + body, lp) == Err::<Seq<TokenV>, DiagnosticV>(
            diag(lp, Reason::UnclosedString),
        ),
{
    let s = seq![open] + body + seq![close];
    let u = seq![open] + body;
    assert(is_quote(open) && !is_whitespace(open) && !is_ident_start(open) && !is_digit(open));
    lemma_scan_body(s, body, 1);
    lemma_scan_body(u, body, 1);
    assert(s.subrange(1, 1 + body.len() as int) =~= body);
    let t = TokenV { line_pos: lp, kind: TokenKindV::String(body) };
    assert(Seq::<TokenV>::empty().push(t) == seq![t]);
    assert(lex(s, lp, s.len() as int, seq![t]) == Ok::<Seq<TokenV>, Reason>(seq![t]));
}

proof fn lemma_scan_body(s: Seq<char>, body: Seq<char>, j: int)
    requires
        1 <= j <= body.len() + 1,
        s.len() >= body.len() + 1,
        forall|k: int| 0 <= k < body.len() ==> s[1 + k] == #[trigger] body[k],
        forall|k: int| 0 <= k < body.len() ==> #[trigger] body[k] != '"' && body[k] != '\'',
        s.len() > body.len() + 1 ==> (s[body.len() + 1int] == '"' || s[body.len() + 1int] == '\''),
    ensures
        scan_string(s, j) == if s.len() > body.len() + 1 {
            Some(body.len() + 1int)
        } else {
            None::<int>
        },
    decreases body.len() + 1 - j,
{
    if j <= body.len() {
        assert(s[j] == body[j - 1]);
        lemma_scan_body(s, body, j + 1);
    }
}

/// A typed name `name:type` reads as one typed-identifier token, when the
/// name has fewer than 32 characters and the type at most 32.
pub proof fn law_typed_identifier(a: Seq<char>, b: Seq<char>, lp: usize)
    requires
        word(a),
        word(b),
        a.len() < 32,
        b.len() <= 32,
    ensures
        spec_parse_line(a + seq![':'] + b, lp) == Ok::<Seq<TokenV>, DiagnosticV>(
            seq![TokenV { line_pos: lp, kind: TokenKindV::DoubleIdentifier(a, b) }],
        ),
{
    let s = a + seq![':'] + b;
    let n = a.len() as int;
    assert(s[n] == ':');
    assert forall|k: int| 1 <= k < n implies word_char(#[trigger] s[k]) by {
        assert(s[k] == a[k]);
    }
    lemma_scan_word_region(s, 1, 1, n);
    assert(s[0] == a[0]);
    assert(!is_whitespace(s[0]) && is_ident_start(s[0]));
    assert(s.subrange(0, n) =~= a);
    assert forall|k: int| n + 2 <= k < s.len() implies word_char(#[trigger] s[k]) by {
        assert(s[k] == b[k - n - 1]);
    }
    lemma_scan_word_region(s, n + 2, 1, s.len() as int);
    assert(s[n + 1] == b[0]);
    assert(is_ident_start(s[n + 1]));
    assert(s.subrange(n + 1, s.len() as int) =~= b);
    assert(!is_whitespace(':') && !is_ident_start(':') && !is_digit(':') && !is_quote(':'));
    let t = TokenV { line_pos: lp, kind: TokenKindV::Identifier(a) };
    let acc = Seq::<TokenV>::empty().push(t);
    assert(acc.last() == t && acc.drop_last() == Seq::<TokenV>::empty());
    let d = TokenV { line_pos: lp, kind: TokenKindV::DoubleIdentifier(a, b) };
    assert(Seq::<TokenV>::empty().push(d) == seq![d]);
    assert(acc.drop_last().push(d) == seq![d]);
    assert(lex(s, lp, s.len() as int, seq![d]) == Ok::<Seq<TokenV>, Reason>(seq![d]));
    assert(t == tok(lp, TokenKindV::Identifier(s.subrange(0, n))));
    assert(d == tok(lp, TokenKindV::DoubleIdentifier(acc.last().kind->Identifier_0, s.subrange(n + 1, s.len() as int))));
    assert(lex(s, lp, n, acc) == lex(s, lp, s.len() as int, seq![d]));
    assert(lex(s, lp, 0, Seq::empty()) == lex(s, lp, n, acc));
}

} // verus!

verus! {

proof fn lemma_scan_ident_shift(x: Seq<char>, s: Seq<char>, j: int, n: int)
    requires
        0 <= j,
    ensures
        scan_ident(x + s, x.len() + j, n) == match scan_ident(s, j, n) {
            Ok(e) => Ok::<int, Reason>(e + x.len()),
            Err(r) => Err(r),
        },
    decreases s.len() - j,
{
    if j < s.len() {
        assert((x + s)[x.len() + j] == s[j]);
        lemma_scan_ident_shift(x, s, j + 1, n + 1);
    }
}

proof fn lemma_scan_number_shift(x: Seq<char>, s: Seq<char>, j: int, a: int, b: int, before_dot: bool)
    requires
        0 <= j,
    ensures
        scan_number(x + s, x.len() + j, a, b, before_dot) == match scan_number(s, j, a, b, before_dot) {
            Ok((e, a2, b2)) => Ok::<(int, int, int), Reason>((e + x.len(), a2, b2)),
            Err(r) => Err(r),
        },
    decreases s.len() - j,
{
    if j < s.len() {
        let c = s[j];
        assert((x + s)[x.len() + j] == c);
        if !is_digit(c) {
            if c == '.' && before_dot {
                lemma_scan_number_shift(x, s, j + 1, a, b, false);
            }
        } else if before_dot {
            lemma_scan_number_shift(x, s, j + 1, a * 10 + digit_value(c), b, true);
        } else {
            lemma_scan_number_shift(x, s, j + 1, a, b * 10 + digit_value(c), false);
        }
    }
}

proof fn lemma_scan_string_shift(x: Seq<char>, s: Seq<char>, j: int)
    requires
        0 <= j,
    ensures
        scan_string(x + s, x.len() + j) == match scan_string(s, j) {
            Some(q) => Some(q + x.len()),
            None => None::<int>,
        },
    decreases s.len() - j,
{
    if j < s.len() {
        assert((x + s)[x.len() + j] == s[j]);
        lemma_scan_string_shift(x, s, j + 1);
    }
}

proof fn lemma_lex_shift(x: Seq<char>, s: Seq<char>, lp: usize, i: int, acc: Seq<TokenV>)
    requires
        0 <= i,
    ensures
        lex(x + s, lp, x.len() + i, acc) == lex(s, lp, i, acc),
    decreases s.len() - i,
{
    let t = x + s;
    let o = x.len() as int;
    if i < s.len() {
        let c = s[i];
        assert(t[o + i] == c);
        if is_whitespace(c) {
            lemma_lex_shift(x, s, lp, i + 1, acc);
        } else if is_ident_start(c) {
            lemma_scan_ident_shift(x, s, i + 1, 1);
            if let Ok(e) = scan_ident(s, i + 1, 1) {
                lemma_scan_ident_bounds(s, i + 1, 1);
                assert(t.subrange(o + i, o + e) =~= s.subrange(i, e));
                lemma_lex_shift(x, s, lp, e, acc.push(tok(lp, TokenKindV::Identifier(s.subrange(i, e)))));
            }
        } else if is_digit(c) {
            lemma_scan_number_shift(x, s, i + 1, digit_value(c), 0, true);
            if let Ok((e, a, b)) = scan_number(s, i + 1, digit_value(c), 0, true) {
                lemma_scan_number_bounds(s, i + 1, digit_value(c), 0, true);
                lemma_lex_shift(
                    x,
                    s,
                    lp,
                    e,
                    acc.push(tok(lp, TokenKindV::Number { integral: a as u32, fractional: b as u32 })),
                );
            }
        } else if is_quote(c) {
            lemma_scan_string_shift(x, s, i + 1);
            if let Some(q) = scan_string(s, i + 1) {
                lemma_scan_string_bounds(s, i + 1);
                assert(t.subrange(o + i + 1, o + q) =~= s.subrange(i + 1, q));
                lemma_lex_shift(x, s, lp, q + 1, acc.push(tok(lp, TokenKindV::String(s.subrange(i + 1, q)))));
            }
        } else if c == '#' {
        } else if c == '=' {
            if i + 1 < s.len() {
                assert(t[o + i + 1] == s[i + 1]);
            }
            if i + 1 < s.len() && s[i + 1] == '=' {
                lemma_lex_shift(x, s, lp, i + 2, acc.push(tok(lp, TokenKindV::DoubleEquality)));
            } else {
                lemma_lex_shift(x, s, lp, i + 1, acc.push(tok(lp, TokenKindV::Equality)));
            }
        } else if c == ':' {
            if i + 1 < s.len() {
                assert(t[o + i + 1] == s[i + 1]);
            }
            if i + 1 < s.len() && is_ident_start(s[i + 1]) && acc.len() > 0 && acc.last().kind is Identifier {
                lemma_scan_ident_shift(x, s, i + 2, 1);
                if let Ok(e) = scan_ident(s, i + 2, 1) {
                    lemma_scan_ident_bounds(s, i + 2, 1);
                    assert(t.subrange(o + i + 1, o + e) =~= s.subrange(i + 1, e));
                    lemma_lex_shift(
                        x,
                        s,
                        lp,
                        e,
                        acc.drop_last().push(
                            tok(
                                lp,
                                TokenKindV::DoubleIdentifier(acc.last().kind->Identifier_0, s.subrange(i + 1, e)),
                            ),
                        ),
                    );
                }
            } else {
                lemma_lex_shift(x, s, lp, i + 1, acc.push(tok(lp, TokenKindV::Colon)));
            }
        } else if let Some(k) = single_char_kind(c) {
            lemma_lex_shift(x, s, lp, i + 1, acc.push(tok(lp, k)));
        }
    }
}

/// Space, tab, line feed, form feed and carriage return.
pub open spec fn blank(c: char) -> bool {
    c == ' ' || c == '\t' || c == '\n' || c == '\x0C' || c == '\r'
}

proof fn lemma_skip_blanks(x: Seq<char>, s: Seq<char>, lp: usize, k: int)
    requires
        0 <= k <= x.len(),
        forall|i: int| 0 <= i < x.len() ==> blank(#[trigger] x[i]),
    ensures
        lex(x + s, lp, k, Seq::empty()) == lex(x + s, lp, x.len() as int, Seq::empty()),
    decreases x.len() - k,
{
    if k < x.len() {
        assert((x + s)[k] == x[k]);
        assert(blank(x[k]));
        lemma_skip_blanks(x, s, lp, k + 1);
    }
}

/// Blanks before a line change nothing: they separate tokens and are not
/// tokens themselves.
pub proof fn law_leading_blanks(x: Seq<char>, s: Seq<char>, lp: usize)
    requires
        forall|i: int| 0 <= i < x.len() ==> blank(#[trigger] x[i]),
    ensures
        spec_parse_line(x + s, lp) == spec_parse_line(s, lp),
{
    lemma_skip_blanks(x, s, lp, 0);
    lemma_lex_shift(x, s, lp, 0, Seq::empty());
}

} // verus!

verus! {

proof fn lemma_parse_lines_each(lines: Seq<Seq<char>>, k: int, acc: Seq<Seq<TokenV>>)
    requires
        0 <= k <= lines.len(),
        acc.len() == k,
    ensures
        parse_lines(lines, k, acc) matches Ok(ts) ==> ts.len() == lines.len() && (forall|j: int|
            0 <= j < k ==> ts[j] == acc[j]) && forall|j: int|
            k <= j < lines.len() ==> spec_parse_line(lines[j], (j + 1) as usize) == Ok::<Seq<TokenV>, DiagnosticV>(
                #[trigger] ts[j],
            ),
        parse_lines(lines, k, acc) matches Err(d) ==> exists|j: int|
            k <= j < lines.len() && spec_parse_line(lines[j], (j + 1) as usize) == Err::<Seq<TokenV>, DiagnosticV>(d)
                && #[trigger] lines_read_before(lines, k, j),
    decreases lines.len() - k,
{
    if k < lines.len() {
        match spec_parse_line(lines[k], (k + 1) as usize) {
            Err(d) => {
                assert(lines_read_before(lines, k, k));
            },
            Ok(t) => {
                lemma_parse_lines_each(lines, k + 1, acc.push(t));
                if let Ok(ts) = parse_lines(lines, k, acc) {
                    assert forall|j: int| 0 <= j < k implies ts[j] == acc[j] by {
                        assert(acc.push(t)[j] == acc[j]);
                    }
                    assert(ts[k] == acc.push(t)[k]);
                }
                if let Err(d) = parse_lines(lines, k, acc) {
                    let j = choose|j: int|
                        k + 1 <= j < lines.len() && spec_parse_line(lines[j], (j + 1) as usize) == Err::<
                            Seq<TokenV>,
                            DiagnosticV,
                        >(d) && #[trigger] lines_read_before(lines, k + 1, j);
                    assert(lines_read_before(lines, k, j));
                }
            },
        }
    }
}

/// Every line of `lines[k..j]` reads without error.
pub open spec fn lines_read_before(lines: Seq<Seq<char>>, k: int, j: int) -> bool {
    forall|i: int| k <= i < j ==> spec_parse_line(lines[i], (i + 1) as usize) is Ok
}

/// Reading a file reads each line on its own, numbered from 1: when every
/// line reads, line `k` gives exactly the tokens of reading it alone as line
/// `k + 1`; otherwise the error is that of the first line that cannot be
/// read.
pub proof fn law_file_lines(lines: Seq<Seq<char>>)
    requires
        lines.len() < usize::MAX,
    ensures
        parse_lines(lines, 0, Seq::empty()) matches Ok(ts) ==> ts.len() == lines.len() && forall|k: int|
            0 <= k < lines.len() ==> spec_parse_line(lines[k], (k + 1) as usize) == Ok::<Seq<TokenV>, DiagnosticV>(
                #[trigger] ts[k],
            ),
        parse_lines(lines, 0, Seq::empty()) matches Err(d) ==> exists|j: int|
            0 <= j < lines.len() && spec_parse_line(lines[j], (j + 1) as usize) == Err::<Seq<TokenV>, DiagnosticV>(d)
                && #[trigger] lines_read_before(lines, 0, j),
        (forall|k: int| 0 <= k < lines.len() ==> (#[trigger] spec_parse_line(lines[k], (k + 1) as usize)) is Ok)
            ==> parse_lines(lines, 0, Seq::empty()) is Ok,
{
    lemma_parse_lines_each(lines, 0, Seq::empty());
    if forall|k: int| 0 <= k < lines.len() ==> (#[trigger] spec_parse_line(lines[k], (k + 1) as usize)) is Ok {
        if let Err(d) = parse_lines(lines, 0, Seq::empty()) {
            let j = choose|j: int|
                0 <= j < lines.len() && spec_parse_line(lines[j], (j + 1) as usize) == Err::<Seq<TokenV>, DiagnosticV>(d)
                    && #[trigger] lines_read_before(lines, 0, j);
            assert(spec_parse_line(lines[j], (j + 1) as usize) is Ok);
        }
    }
}

} // verus!
