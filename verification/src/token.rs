use vstd::prelude::*;

verus! {

/// The kind of a parsed regular-expression token.
#[derive(Debug, Clone, Copy, PartialEq, Eq, Structural)]
pub enum TokenType {
    Group,
    Bracket,
    Or,
    Repeat,
    Literal,
    GroupUncaptured,
}

/// The payload that a token carries; which variant goes with which
/// [`TokenType`] is fixed by `wf_token`.
#[derive(Debug)]
pub enum TokenValue {
    /// A single literal byte.
    Char(u8),
    /// Membership table of a bracket expression, indexed by byte.
    Members(Vec<bool>),
    /// The sub-tokens of a group, or the two alternatives of an `Or`.
    Tokens(Vec<Token>),
    /// A quantified token.
    Repeat(Box<RepeatPayload>),
}

#[derive(Debug)]
pub struct Token {
    pub token_type: TokenType,
    pub value: TokenValue,
}

/// A quantifier: `max == -1` stands for "no upper bound".
#[derive(Debug)]
pub struct RepeatPayload {
    pub min: i8,
    pub max: i8,
    pub token: Token,
}

/// Mathematical model of a token's payload.
pub enum ValueView {
    Char(u8),
    Members(Seq<bool>),
    Tokens(Seq<TokenView>),
    Repeat(i8, i8, Box<TokenView>),
}

/// Mathematical model of a token.
pub struct TokenView {
    pub kind: TokenType,
    pub value: ValueView,
}

/// The mathematical view of a token.
pub open spec fn token_view(t: Token) -> TokenView
    decreases t,
{
    TokenView {
        kind: t.token_type,
        value: match t.value {
            TokenValue::Char(c) => ValueView::Char(c),
            TokenValue::Members(v) => ValueView::Members(v@),
            TokenValue::Tokens(v) => ValueView::Tokens(tokens_view(v@)),
            TokenValue::Repeat(p) => ValueView::Repeat(p.min, p.max, Box::new(token_view(p.token))),
        },
    }
}

/// The views of a sequence of tokens.
pub open spec fn tokens_view(s: Seq<Token>) -> Seq<TokenView>
    decreases s,
{
    if s.len() == 0 {
        Seq::empty()
    } else {
        tokens_view(s.drop_last()).push(token_view(s.last()))
    }
}

impl View for Token {
    type V = TokenView;

    open spec fn view(&self) -> TokenView {
        token_view(*self)
    }
}

/// The views of a sequence of tokens, one by one.
pub proof fn lemma_tokens_view(s: Seq<Token>)
    ensures
        tokens_view(s).len() == s.len(),
        forall|i: int| 0 <= i < s.len() ==> #[trigger] tokens_view(s)[i] == token_view(s[i]),
    decreases s.len(),
{
    if s.len() > 0 {
        lemma_tokens_view(s.drop_last());
    }
}

/// The views of a sequence with one more token.
pub proof fn lemma_tokens_view_push(s: Seq<Token>, t: Token)
    ensures
        tokens_view(s.push(t)) == tokens_view(s).push(token_view(t)),
{
    assert(s.push(t).drop_last() =~= s);
}

/// The views of a sequence without its last token.
pub proof fn lemma_tokens_view_drop_last(s: Seq<Token>)
    requires
        s.len() > 0,
    ensures
        tokens_view(s.drop_last()) == tokens_view(s).drop_last(),
        tokens_view(s).last() == token_view(s.last()),
{
}

/// A token whose payload is the literal byte `c`.
pub open spec fn literal_view(c: u8) -> TokenView {
    TokenView { kind: TokenType::Literal, value: ValueView::Char(c) }
}

/// A token of kind `kind` whose payload is the token sequence `s`.
pub open spec fn tokens_token_view(kind: TokenType, s: Seq<TokenView>) -> TokenView {
    TokenView { kind, value: ValueView::Tokens(s) }
}

/// A token that repeats `t` between `min` and `max` times.
pub open spec fn repeat_view(min: i8, max: i8, t: TokenView) -> TokenView {
    TokenView { kind: TokenType::Repeat, value: ValueView::Repeat(min, max, Box::new(t)) }
}

} // verus!
