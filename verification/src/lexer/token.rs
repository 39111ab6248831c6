//! Tokens of the surface syntax.

use vstd::prelude::*;

verus! {

/// A token of the four-token grammar: `λ` (or `\`), `.`, `,`, parentheses,
/// and identifiers.
#[derive(Debug, PartialEq)]
pub enum Token {
    Lambda,
    Dot,
    Comma,
    Identifier(String),
    LeftParen,
    RightParen,
    Whitespace,
}

/// The model of a token: an identifier carries its characters.
pub enum TokenS {
    Lambda,
    Dot,
    Comma,
    Identifier(Seq<char>),
    LeftParen,
    RightParen,
    Whitespace,
}

impl View for Token {
    type V = TokenS;

    open spec fn view(&self) -> TokenS {
        match self {
            Token::Lambda => TokenS::Lambda,
            Token::Dot => TokenS::Dot,
            Token::Comma => TokenS::Comma,
            Token::Identifier(name) => TokenS::Identifier(name@),
            Token::LeftParen => TokenS::LeftParen,
            Token::RightParen => TokenS::RightParen,
            Token::Whitespace => TokenS::Whitespace,
        }
    }
}

impl Clone for Token {
    fn clone(&self) -> (r: Self)
        ensures
            r@ == self@,
    {
        match self {
            Token::Lambda => Token::Lambda,
            Token::Dot => Token::Dot,
            Token::Comma => Token::Comma,
            Token::Identifier(name) => Token::Identifier(name.clone()),
            Token::LeftParen => Token::LeftParen,
            Token::RightParen => Token::RightParen,
            Token::Whitespace => Token::Whitespace,
        }
    }
}

/// The tokens held by a vector, as model values.
pub open spec fn tokens_of(v: Seq<Token>) -> Seq<TokenS> {
    v.map_values(|t: Token| t@)
}

} // verus!
