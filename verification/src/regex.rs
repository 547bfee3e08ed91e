//! A small tokenizer and parser skeleton for regular expressions.
//!
//! Each token is one character, or two for an escape; a backslash takes
//! the next character literally, so no position or lexeme beyond an
//! offset is kept. The token's position is the scan position after it,
//! as the tokenizer advances.

use vstd::prelude::*;
use vstd::string::StringExecFns;
use crate::lexer::string_to_chars;

verus! {

/// The kinds of token a regular expression is made of. Forms that
/// preprocessing can supply (ranges, `+`, `?`) have no kind of their own.
#[derive(Clone, Copy, Debug, PartialEq, Eq, Structural)]
pub enum TokenType {
    Character(char),
    LeftParen,
    RightParen,
    Pipe,
    Dot,
    Star,
    Eof,
}

/// One token: the scan position after it, and its kind.
#[derive(Clone, Copy, Debug, PartialEq, Eq, Structural)]
pub struct Token {
    pub position: usize,
    pub tt: TokenType,
}

/// A lexical failure: a backslash with nothing after it.
#[derive(Clone, Copy, Debug, PartialEq, Eq, Structural)]
pub enum RegexLexError {
    DanglingEscape { offset: usize },
}

impl RegexLexError {
    /// A short account of the failure, for rendering.
    pub fn description(&self) -> (r: String)
        ensures
            r@ == "unexpected end of input after escape"@,
    {
        String::from_str("unexpected end of input after escape")
    }
}

/// The kind of an unescaped character.
pub open spec fn plain_token_type(c: char) -> TokenType {
    if c == '.' {
        TokenType::Dot
    } else if c == '*' {
        TokenType::Star
    } else if c == '|' {
        TokenType::Pipe
    } else if c == '(' {
        TokenType::LeftParen
    } else if c == ')' {
        TokenType::RightParen
    } else {
        TokenType::Character(c)
    }
}

/// Prepends already-produced tokens to the outcome for the rest.
pub open spec fn rlex_prepend(ts: Seq<Token>, r: Result<Seq<Token>, RegexLexError>) -> Result<
    Seq<Token>,
    RegexLexError,
> {
    match r {
        Ok(rest) => Ok(ts + rest),
        Err(e) => Err(e),
    }
}

/// The tokens of `s` from position `i` on: one per character, two
/// characters per escape, one terminal token at the close.
pub open spec fn sp_rlex_from(s: Seq<char>, i: int) -> Result<Seq<Token>, RegexLexError>
    decreases s.len() - i,
{
    if i < 0 || i >= s.len() {
        Ok(seq![Token { position: s.len() as usize, tt: TokenType::Eof }])
    } else if s[i] == '\\' {
        if i + 1 < s.len() {
            rlex_prepend(
                seq![
                    Token { position: (i + 2) as usize, tt: TokenType::Character(s[i + 1]) },
                ],
                sp_rlex_from(s, i + 2),
            )
        } else {
            Err(RegexLexError::DanglingEscape { offset: i as usize })
        }
    } else {
        rlex_prepend(
            seq![Token { position: (i + 1) as usize, tt: plain_token_type(s[i]) }],
            sp_rlex_from(s, i + 1),
        )
    }
}

/// The tokens of a whole pattern.
pub open spec fn sp_rlex(s: Seq<char>) -> Result<Seq<Token>, RegexLexError> {
    sp_rlex_from(s, 0)
}

proof fn lemma_push_is_add_one(ts: Seq<Token>, t: Token)
    ensures
        ts.push(t) == ts + seq![t],
{
    assert(ts.push(t) =~= ts + seq![t]);
}

proof fn lemma_add_assoc(a: Seq<Token>, b: Seq<Token>, c: Seq<Token>)
    ensures
        (a + b) + c == a + (b + c),
{
    assert((a + b) + c =~= a + (b + c));
}

/// One token step folds into the running prepend equation.
proof fn lemma_rlex_step(
    s: Seq<char>,
    cur0: int,
    cur1: int,
    tks0: Seq<Token>,
    tks1: Seq<Token>,
    tok: Token,
    r0: Result<Seq<Token>, RegexLexError>,
)
    requires
        sp_rlex_from(s, cur0) == rlex_prepend(seq![tok], sp_rlex_from(s, cur1)),
        tks1 == tks0.push(tok),
        r0 == rlex_prepend(tks0, sp_rlex_from(s, cur0)),
    ensures
        r0 == rlex_prepend(tks1, sp_rlex_from(s, cur1)),
{
    lemma_push_is_add_one(tks0, tok);
    match sp_rlex_from(s, cur1) {
        Ok(rest) => {
            lemma_add_assoc(tks0, seq![tok], rest);
        },
        Err(_) => {},
    }
}

/// The tokenizer: the pattern's characters, the scan position, and the
/// tokens produced so far.
pub struct Lexer {
    pub chars: Vec<char>,
    pub current: usize,
    pub tokens: Vec<Token>,
}

impl Lexer {
    pub open spec fn wf(&self) -> bool {
        self.current <= self.chars@.len()
    }

    pub fn new(code: String) -> (lx: Lexer)
        ensures
            lx.chars@ == code@,
            lx.current == 0,
            lx.tokens@ == Seq::<Token>::empty(),
            lx.wf(),
    {
        Lexer { chars: string_to_chars(code.as_str()), current: 0, tokens: Vec::new() }
    }

    fn reached_end(&self) -> (r: bool)
        ensures
            r == (self.current >= self.chars@.len()),
    {
        self.current >= self.chars.len()
    }

    fn peek(&self) -> (r: Option<char>)
        ensures
            r == (if self.current < self.chars@.len() {
                Some(self.chars@[self.current as int])
            } else {
                None::<char>
            }),
    {
        if self.current < self.chars.len() {
            Some(self.chars[self.current])
        } else {
            None
        }
    }

    fn consume(&mut self)
        requires
            old(self).current < old(self).chars@.len(),
        ensures
            final(self).chars == old(self).chars,
            final(self).tokens == old(self).tokens,
            final(self).current == old(self).current + 1,
    {
        proof {
            vstd::std_specs::vec::axiom_spec_len(&self.chars);
        }
        self.current = self.current + 1;
    }

    fn advance(&mut self) -> (c: char)
        requires
            old(self).current < old(self).chars@.len(),
        ensures
            final(self).chars == old(self).chars,
            final(self).tokens == old(self).tokens,
            final(self).current == old(self).current + 1,
            c == old(self).chars@[old(self).current as int],
    {
        let c = self.chars[self.current];
        self.consume();
        c
    }

    fn add_token(&mut self, tt: TokenType)
        ensures
            final(self).chars == old(self).chars,
            final(self).current == old(self).current,
            final(self).tokens@ == old(self).tokens@.push(
                Token { position: old(self).current, tt: tt },
            ),
    {
        self.tokens.push(Token { position: self.current, tt });
    }

    /// Tokenizes the whole pattern, closing with the terminal token; a
    /// trailing backslash is the one failure.
    #[verifier::loop_isolation(false)]
    pub fn lex(&mut self) -> (r: Result<(), RegexLexError>)
        requires
            old(self).wf(),
            old(self).current == 0,
            old(self).tokens@.len() == 0,
        ensures
            final(self).chars@ == old(self).chars@,
            match r {
                Ok(()) => sp_rlex(final(self).chars@) == Ok::<Seq<Token>, RegexLexError>(
                    final(self).tokens@,
                ),
                Err(e) => sp_rlex(final(self).chars@) == Err::<Seq<Token>, RegexLexError>(e),
            },
    {
        let ghost s = self.chars@;
        proof {
            let r0 = sp_rlex_from(s, 0);
            if r0 is Ok {
                assert(Seq::<Token>::empty() + r0->Ok_0 =~= r0->Ok_0);
            }
        }
        while !self.reached_end()
            invariant
                self.wf(),
                self.chars@ == s,
                sp_rlex_from(s, 0) == rlex_prepend(
                    self.tokens@,
                    sp_rlex_from(s, self.current as int),
                ),
            decreases s.len() - self.current,
        {
            let ghost tks0 = self.tokens@;
            let ghost cur0 = self.current;
            let c = self.advance();
            let tt = if c == '\\' {
                match self.peek() {
                    Some(c1) => {
                        self.consume();
                        TokenType::Character(c1)
                    },
                    None => {
                        return Err(
                            RegexLexError::DanglingEscape { offset: self.current - 1 },
                        );
                    },
                }
            } else if c == '.' {
                TokenType::Dot
            } else if c == '*' {
                TokenType::Star
            } else if c == '|' {
                TokenType::Pipe
            } else if c == '(' {
                TokenType::LeftParen
            } else if c == ')' {
                TokenType::RightParen
            } else {
                TokenType::Character(c)
            };
            let ghost cur_pre = self.current;
            self.add_token(tt);
            proof {
                let tok = Token { position: cur_pre, tt: tt };
                assert(self.tokens@ == tks0.push(tok));
                assert(sp_rlex_from(s, cur0 as int) == rlex_prepend(
                    seq![tok],
                    sp_rlex_from(s, self.current as int),
                ));
                lemma_rlex_step(
                    s,
                    cur0 as int,
                    self.current as int,
                    tks0,
                    self.tokens@,
                    tok,
                    sp_rlex_from(s, 0),
                );
            }
        }
        let ghost tmid = self.tokens@;
        self.add_token(TokenType::Eof);
        proof {
            lemma_push_is_add_one(tmid, Token { position: s.len() as usize, tt: TokenType::Eof });
        }
        Ok(())
    }
}

/// Tokenizes one pattern.
pub fn lex(code: String) -> (r: Result<Vec<Token>, RegexLexError>)
    ensures
        match r {
            Ok(ts) => sp_rlex(code@) == Ok::<Seq<Token>, RegexLexError>(ts@),
            Err(e) => sp_rlex(code@) == Err::<Seq<Token>, RegexLexError>(e),
        },
{
    let mut lexer = Lexer::new(code);
    match lexer.lex() {
        Ok(()) => Ok(lexer.tokens),
        Err(e) => Err(e),
    }
}

/// A regular expression: characters and the dot, closed under starring,
/// sequencing and alternation.
pub enum Regex {
    Character(char),
    Dot,
    Starred(Box<Regex>),
    Sequence(Vec<Regex>),
    Or(Vec<Regex>),
}

/// The parser skeleton over the tokens.
pub struct Parser {
    pub tokens: Vec<Token>,
    pub current: usize,
}

impl Parser {
    pub fn new(tokens: Vec<Token>) -> (p: Parser)
        ensures
            p.tokens@ == tokens@,
            p.current == 0,
    {
        Parser { tokens, current: 0 }
    }

    pub fn peek(&self) -> (r: Option<Token>)
        ensures
            r == (if self.current < self.tokens@.len() {
                Some(self.tokens@[self.current as int])
            } else {
                None::<Token>
            }),
    {
        if self.current < self.tokens.len() {
            Some(self.tokens[self.current])
        } else {
            None
        }
    }

    pub fn consume(&mut self)
        requires
            old(self).current < old(self).tokens@.len(),
        ensures
            final(self).tokens == old(self).tokens,
            final(self).current == old(self).current + 1,
    {
        proof {
            vstd::std_specs::vec::axiom_spec_len(&self.tokens);
        }
        self.current = self.current + 1;
    }

    pub fn advance(&mut self) -> (t: Token)
        requires
            old(self).current < old(self).tokens@.len(),
        ensures
            final(self).tokens == old(self).tokens,
            final(self).current == old(self).current + 1,
            t == old(self).tokens@[old(self).current as int],
    {
        let t = self.tokens[self.current];
        self.consume();
        t
    }
}

} // verus!
