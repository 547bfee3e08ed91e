//! Lexical tokens of the expression language.

use vstd::prelude::*;
use crate::value::{val_fits, SpecVal, Value};

verus! {

/// The kinds of token the lexer produces.
#[derive(Clone, Copy, Debug, PartialEq, Eq, Structural)]
pub enum TokenKind {
    Number,
    Plus,
    Minus,
    Star,
    LeftParen,
    RightParen,
    Eof,
}

/// Mathematical model of a token.
pub struct SpecToken {
    pub kind: TokenKind,
    pub lexeme: Seq<char>,
    pub literal: Option<SpecVal>,
    pub start: int,
}

/// One lexical token: its kind, the source slice it covers, the literal
/// value for numbers, and the source offset of its first character.
#[derive(Debug, PartialEq)]
pub struct Token {
    pub kind: TokenKind,
    pub lexeme: String,
    pub literal: Option<Value>,
    pub start: usize,
}

impl View for Token {
    type V = SpecToken;

    open spec fn view(&self) -> SpecToken {
        SpecToken {
            kind: self.kind,
            lexeme: self.lexeme@,
            literal: match self.literal {
                Some(v) => Some(v@),
                None => None,
            },
            start: self.start as int,
        }
    }
}

/// The models of a token sequence.
pub open spec fn token_views(ts: Seq<Token>) -> Seq<SpecToken> {
    Seq::new(ts.len(), |i: int| ts[i]@)
}

pub proof fn lemma_token_views_push(ts: Seq<Token>, t: Token)
    ensures
        token_views(ts.push(t)) =~= token_views(ts).push(t@),
{
}

pub proof fn lemma_token_views_add(a: Seq<Token>, b: Seq<Token>)
    ensures
        token_views(a + b) =~= token_views(a) + token_views(b),
{
}

/// What the lexer guarantees of every token sequence it hands out: one
/// terminal end-of-input token closes it, every other token is not that
/// token, every number carries a literal the machine holds, and source
/// offsets strictly increase.
pub open spec fn wf_tokens(ts: Seq<SpecToken>) -> bool {
    &&& ts.len() >= 1
    &&& ts[ts.len() - 1].kind == TokenKind::Eof
    &&& forall|n: int| 0 <= n < ts.len() - 1 ==> ts[n].kind != TokenKind::Eof
    &&& forall|n: int|
        0 <= n < ts.len() ==> (ts[n].kind == TokenKind::Number ==> (ts[n].literal matches Some(v)
            && val_fits(v)))
    &&& forall|m: int, n: int| 0 <= m < n < ts.len() ==> #[trigger] ts[m].start < #[trigger] ts[n].start
}

impl Token {
    /// The terminal token, standing at the end of the input.
    pub fn eof(start: usize) -> (t: Token)
        ensures
            t@ == (SpecToken {
                kind: TokenKind::Eof,
                lexeme: Seq::<char>::empty(),
                literal: None,
                start: start as int,
            }),
    {
        Token { kind: TokenKind::Eof, lexeme: String::new(), literal: None, start }
    }

    /// A single-symbol token.
    pub fn symbol(kind: TokenKind, lexeme: String, start: usize) -> (t: Token)
        ensures
            t@ == (SpecToken { kind, lexeme: lexeme@, literal: None, start: start as int }),
    {
        Token { kind, lexeme, literal: None, start }
    }
}

} // verus!
