use vstd::prelude::*;

verus! {

/// The closed set of token kinds produced by the lexer.
#[derive(Debug, Clone, Copy, PartialEq, Eq, Structural)]
pub enum TokenType {
    // literals
    Number,
    String,
    True,
    False,
    Identifier,
    // keywords
    Let,
    Const,
    Fn,
    Return,
    If,
    Else,
    // punctuation
    OpenParen,
    CloseParen,
    OpenBrace,
    CloseBrace,
    Colon,
    Equals,
    // arithmetic operators
    Plus,
    Minus,
    Star,
    Slash,
    Percent,
    // compound assignment operators
    PlusEquals,
    MinusEquals,
    StarEquals,
    SlashEquals,
    PercentEquals,
    // comparison operators
    EqualsEquals,
    NotEqual,
    LessThan,
    GreaterThan,
    LessThanEqual,
    GreaterThanEqual,
    // logical operators
    And,
    Or,
    Not,
    /// Synthetic sentinel that closes every token sequence.
    EndOfInput,
}

/// A token: its kind and the source text it was read from.
#[derive(Debug, Clone)]
pub struct Token {
    pub value: String,
    pub kind: TokenType,
}

/// The mathematical view of a token.
pub struct SpecToken {
    pub kind: TokenType,
    pub text: Seq<char>,
}

impl View for Token {
    type V = SpecToken;

    open spec fn view(&self) -> SpecToken {
        SpecToken { kind: self.kind, text: self.value@ }
    }
}

/// The views of a sequence of tokens.
pub open spec fn view_tokens(ts: Seq<Token>) -> Seq<SpecToken> {
    ts.map_values(|t: Token| t@)
}

} // verus!
