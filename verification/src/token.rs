//! Lexical tokens.

use vstd::prelude::*;
use crate::num::Num;

verus! {

/// One lexical token.  Tokens are immutable once produced.
#[derive(Debug, Clone, PartialEq)]
pub enum Token {
    /// An opening or closing parenthesis glyph.
    Paren(char),
    /// A function glyph, valence-agnostic until resolved.
    Function(char),
    /// A monadic-operator glyph.
    MonadicOperator(char),
    /// The assignment glyph `←`.
    Assign,
    /// A signed decimal number literal.
    Number(Num),
    /// An identifier.
    Id(String),
    /// The statement separator `⋄`.
    Diamond,
    /// The end-of-input marker.
    Eof,
}

/// The mathematical image of a token: a number literal is its scaled value,
/// an identifier its character sequence.
pub enum TokenV {
    Paren(char),
    Function(char),
    MonadicOperator(char),
    Assign,
    Number(int),
    Id(Seq<char>),
    Diamond,
    Eof,
}

impl View for Token {
    type V = TokenV;

    open spec fn view(&self) -> TokenV {
        match self {
            Token::Paren(c) => TokenV::Paren(*c),
            Token::Function(c) => TokenV::Function(*c),
            Token::MonadicOperator(c) => TokenV::MonadicOperator(*c),
            Token::Assign => TokenV::Assign,
            Token::Number(n) => TokenV::Number(n@),
            Token::Id(s) => TokenV::Id(s@),
            Token::Diamond => TokenV::Diamond,
            Token::Eof => TokenV::Eof,
        }
    }
}

/// The views of a sequence of tokens.
pub open spec fn tokens_view(ts: Seq<Token>) -> Seq<TokenV> {
    ts.map_values(|t: Token| t@)
}

/// Copies a token, preserving its view.
pub(crate) fn clone_token(t: &Token) -> (r: Token)
    ensures
        r@ == t@,
{
    match t {
        Token::Paren(c) => Token::Paren(*c),
        Token::Function(c) => Token::Function(*c),
        Token::MonadicOperator(c) => Token::MonadicOperator(*c),
        Token::Assign => Token::Assign,
        Token::Number(n) => Token::Number(*n),
        Token::Id(s) => Token::Id(s.clone()),
        Token::Diamond => Token::Diamond,
        Token::Eof => Token::Eof,
    }
}

} // verus!
