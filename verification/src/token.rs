use vstd::prelude::*;

verus! {

/// What a token is.
///
/// A number literal `A.B` is kept as its two digit groups: `integral` is the
/// value of the digits before the dot and `fractional` the value of the digits
/// after it (so `1.05` gives `1` and `5`); the number it stands for is the
/// decimal that is written `{integral}.{fractional}`.
#[derive(PartialEq, Debug)]
pub enum TokenKind {
    Identifier(String),
    DoubleIdentifier(String, String),
    String(String),
    Number { integral: u32, fractional: u32 },
    InlineFunctionCall { name: String, args: Vec<Vec<Token>> },
    Add,
    Sub,
    Mul,
    Div,
    Equality,
    DoubleEquality,
    Comma,
    Colon,
    OpenParen,
    ClosedParen,
}

/// A token and the line it was read from.
#[derive(PartialEq, Debug)]
pub struct Token {
    pub line_pos: usize,
    pub kind: TokenKind,
}

/// The mathematical value of a [`TokenKind`].
pub enum TokenKindV {
    Identifier(Seq<char>),
    DoubleIdentifier(Seq<char>, Seq<char>),
    String(Seq<char>),
    Number { integral: u32, fractional: u32 },
    InlineFunctionCall { name: Seq<char>, args: Seq<Seq<TokenV>> },
    Add,
    Sub,
    Mul,
    Div,
    Equality,
    DoubleEquality,
    Comma,
    Colon,
    OpenParen,
    ClosedParen,
}

/// The mathematical value of a [`Token`].
pub struct TokenV {
    pub line_pos: usize,
    pub kind: TokenKindV,
}

pub open spec fn token_v(t: Token) -> TokenV
    decreases t, 0nat,
{
    TokenV { line_pos: t.line_pos, kind: kind_v(t.kind) }
}

pub open spec fn kind_v(k: TokenKind) -> TokenKindV
    decreases k, 0nat,
{
    match k {
        TokenKind::Identifier(s) => TokenKindV::Identifier(s@),
        TokenKind::DoubleIdentifier(a, b) => TokenKindV::DoubleIdentifier(a@, b@),
        TokenKind::String(s) => TokenKindV::String(s@),
        TokenKind::Number { integral, fractional } => TokenKindV::Number { integral, fractional },
        TokenKind::InlineFunctionCall { name, args } => TokenKindV::InlineFunctionCall {
            name: name@,
            args: args_v(args@),
        },
        TokenKind::Add => TokenKindV::Add,
        TokenKind::Sub => TokenKindV::Sub,
        TokenKind::Mul => TokenKindV::Mul,
        TokenKind::Div => TokenKindV::Div,
        TokenKind::Equality => TokenKindV::Equality,
        TokenKind::DoubleEquality => TokenKindV::DoubleEquality,
        TokenKind::Comma => TokenKindV::Comma,
        TokenKind::Colon => TokenKindV::Colon,
        TokenKind::OpenParen => TokenKindV::OpenParen,
        TokenKind::ClosedParen => TokenKindV::ClosedParen,
    }
}

pub open spec fn args_v(a: Seq<Vec<Token>>) -> Seq<Seq<TokenV>>
    decreases a, 0nat,
{
    if a.len() == 0 {
        Seq::empty()
    } else {
        args_v(a.drop_last()).push(tokens_v(a.last()@))
    }
}

pub open spec fn tokens_v(s: Seq<Token>) -> Seq<TokenV>
    decreases s, 0nat,
{
    if s.len() == 0 {
        Seq::empty()
    } else {
        tokens_v(s.drop_last()).push(token_v(s.last()))
    }
}

impl View for Token {
    type V = TokenV;

    open spec fn view(&self) -> TokenV {
        token_v(*self)
    }
}

pub broadcast proof fn lemma_tokens_v_push(s: Seq<Token>, t: Token)
    ensures
        #[trigger] tokens_v(s.push(t)) == tokens_v(s).push(token_v(t)),
{
    assert(s.push(t).drop_last() == s);
}

pub broadcast proof fn lemma_args_v_push(s: Seq<Vec<Token>>, t: Vec<Token>)
    ensures
        #[trigger] args_v(s.push(t)) == args_v(s).push(tokens_v(t@)),
{
    assert(s.push(t).drop_last() == s);
}

pub broadcast proof fn lemma_tokens_v_index(s: Seq<Token>, i: int)
    requires
        0 <= i < s.len(),
    ensures
        #[trigger] tokens_v(s)[i] == token_v(s[i]),
    decreases s.len(),
{
    lemma_tokens_v_len(s);
    if i < s.len() - 1 {
        lemma_tokens_v_index(s.drop_last(), i);
    }
}

pub broadcast proof fn lemma_tokens_v_len(s: Seq<Token>)
    ensures
        #[trigger] tokens_v(s).len() == s.len(),
    decreases s.len(),
{
    if s.len() > 0 {
        lemma_tokens_v_len(s.drop_last());
    }
}

pub broadcast proof fn lemma_args_v_len(s: Seq<Vec<Token>>)
    ensures
        #[trigger] args_v(s).len() == s.len(),
    decreases s.len(),
{
    if s.len() > 0 {
        lemma_args_v_len(s.drop_last());
    }
}

pub broadcast proof fn lemma_args_v_index(s: Seq<Vec<Token>>, i: int)
    requires
        0 <= i < s.len(),
    ensures
        #[trigger] args_v(s)[i] == tokens_v(s[i]@),
    decreases s.len(),
{
    lemma_args_v_len(s);
    if i < s.len() - 1 {
        lemma_args_v_index(s.drop_last(), i);
    }
}

pub proof fn lemma_tokens_v_subrange(s: Seq<Token>, i: int, j: int)
    requires
        0 <= i <= j <= s.len(),
    ensures
        tokens_v(s.subrange(i, j)) == tokens_v(s).subrange(i, j),
{
    broadcast use lemma_tokens_v_len, lemma_tokens_v_index;
    assert(tokens_v(s.subrange(i, j)) =~= tokens_v(s).subrange(i, j));
}

pub broadcast group group_token_view {
    lemma_tokens_v_push,
    lemma_args_v_push,
    lemma_tokens_v_index,
    lemma_tokens_v_len,
    lemma_args_v_len,
    lemma_args_v_index,
}

/// Appends a token to a token list.
pub fn push_token(line: &mut Vec<Token>, t: Token)
    ensures
        final(line)@ == old(line)@.push(t),
        tokens_v(final(line)@) == tokens_v(old(line)@).push(token_v(t)),
{
    proof {
        lemma_tokens_v_push(line@, t);
    }
    line.push(t);
}

/// A copy of a token, with the same value.
pub fn duplicate_token(t: &Token) -> (r: Token)
    ensures
        r@ == t@,
    decreases t, 3nat,
{
    Token { line_pos: t.line_pos, kind: duplicate_kind(&t.kind) }
}

pub fn duplicate_kind(k: &TokenKind) -> (r: TokenKind)
    ensures
        kind_v(r) == kind_v(*k),
    decreases k, 2nat,
{
    match k {
        TokenKind::Identifier(s) => TokenKind::Identifier(s.clone()),
        TokenKind::DoubleIdentifier(a, b) => TokenKind::DoubleIdentifier(a.clone(), b.clone()),
        TokenKind::String(s) => TokenKind::String(s.clone()),
        TokenKind::Number { integral, fractional } => TokenKind::Number {
            integral: *integral,
            fractional: *fractional,
        },
        TokenKind::InlineFunctionCall { name, args } => TokenKind::InlineFunctionCall {
            name: name.clone(),
            args: duplicate_args(args),
        },
        TokenKind::Add => TokenKind::Add,
        TokenKind::Sub => TokenKind::Sub,
        TokenKind::Mul => TokenKind::Mul,
        TokenKind::Div => TokenKind::Div,
        TokenKind::Equality => TokenKind::Equality,
        TokenKind::DoubleEquality => TokenKind::DoubleEquality,
        TokenKind::Comma => TokenKind::Comma,
        TokenKind::Colon => TokenKind::Colon,
        TokenKind::OpenParen => TokenKind::OpenParen,
        TokenKind::ClosedParen => TokenKind::ClosedParen,
    }
}

/// A copy of a list of token lists, with the same value.
pub fn duplicate_args(a: &Vec<Vec<Token>>) -> (r: Vec<Vec<Token>>)
    ensures
        args_v(r@) == args_v(a@),
    decreases a, 1nat,
{
    broadcast use group_token_view;

    let mut r: Vec<Vec<Token>> = Vec::new();
    let mut i: usize = 0;
    while i < a.len()
        invariant
            i <= a.len(),
            args_v(r@) == args_v(a@.take(i as int)),
        decreases a.len() - i,
    {
        let d = duplicate_tokens(&a[i]);
        assert(a@.take(i + 1) == a@.take(i as int).push(a@[i as int]));
        proof { lemma_args_v_push(r@, d); lemma_args_v_push(a@.take(i as int), a@[i as int]); }
        r.push(d);
        i += 1;
    }
    assert(a@.take(a.len() as int) == a@);
    r
}

/// A copy of a token list, with the same value.
pub fn duplicate_tokens(v: &Vec<Token>) -> (r: Vec<Token>)
    ensures
        tokens_v(r@) == tokens_v(v@),
    decreases v, 1nat,
{
    broadcast use group_token_view;

    let mut r: Vec<Token> = Vec::new();
    let mut i: usize = 0;
    while i < v.len()
        invariant
            i <= v.len(),
            tokens_v(r@) == tokens_v(v@.take(i as int)),
        decreases v.len() - i,
    {
        let d = duplicate_token(&v[i]);
        assert(v@.take(i + 1) == v@.take(i as int).push(v@[i as int]));
        proof { lemma_tokens_v_push(r@, d); lemma_tokens_v_push(v@.take(i as int), v@[i as int]); }
        r.push(d);
        i += 1;
    }
    assert(v@.take(v.len() as int) == v@);
    r
}

} // verus!
