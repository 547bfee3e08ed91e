//! The recursive-descent parser: token sequence in, one expression out.
//!
//! Grammar, with `*` binding tighter than `+` and `-`, and every operator
//! left-associative:
//!
//! ```text
//! term          := product (('+' | '-') product)*
//! product       := parenthesized ('*' parenthesized)*
//! parenthesized := '(' term ')' | number
//! ```
//!
//! At each level the left operand is parsed in full before any operator is
//! taken, and each new node keeps the expression built so far as its left
//! child: `a-b-c` parses as `(a-b)-c`. `parse_code` demands that the whole
//! input is one expression: a token left over after it is an error.

use vstd::prelude::*;
use vstd::string::StringExecFns;
use crate::ast::{Expression, SpecExpr};
use crate::token::{token_views, wf_tokens, SpecToken, Token, TokenKind};
use crate::value::Value;

verus! {

/// A parse failure: the input ended where a token was required, or a
/// token of the wrong kind stood at the given offset.
#[derive(Clone, Copy, Debug, PartialEq, Eq, Structural)]
pub enum SyntaxError {
    UnexpectedEndOfInput,
    UnexpectedToken { kind: TokenKind, offset: usize },
}

impl SyntaxError {
    /// A short account of the failure, for rendering.
    pub fn description(&self) -> (r: String)
        ensures
            self is UnexpectedEndOfInput ==> r@ == "unexpected end of input"@,
            self is UnexpectedToken ==> r@ == "unexpected token"@,
    {
        match self {
            SyntaxError::UnexpectedEndOfInput => String::from_str("unexpected end of input"),
            SyntaxError::UnexpectedToken { .. } => String::from_str("unexpected token"),
        }
    }
}

/// What one grammar production yields: an expression and the position of
/// the first token it did not take, or a failure.
pub enum ParseStep {
    Done(SpecExpr, int),
    Fail(SyntaxError),
}

/// The kind at position `i`; past the end it reads as the terminal kind.
pub open spec fn sp_peek_kind(t: Seq<SpecToken>, i: int) -> TokenKind {
    if 0 <= i < t.len() {
        t[i].kind
    } else {
        TokenKind::Eof
    }
}

/// One number token becomes a leaf.
pub open spec fn sp_number(t: Seq<SpecToken>, i: int) -> ParseStep {
    match sp_peek_kind(t, i) {
        TokenKind::Eof => ParseStep::Fail(SyntaxError::UnexpectedEndOfInput),
        TokenKind::Number => match t[i].literal {
            Some(v) => ParseStep::Done(SpecExpr::Number(v), i + 1),
            None => ParseStep::Fail(
                SyntaxError::UnexpectedToken {
                    kind: TokenKind::Number,
                    offset: t[i].start as usize,
                },
            ),
        },
        k => ParseStep::Fail(SyntaxError::UnexpectedToken { kind: k, offset: t[i].start as usize }),
    }
}

/// A parenthesized expression or a number. Every production consumes at
/// least one token on success, so the impossible standstill arms below
/// (where a production would have stood still) fall to a plain failure.
pub open spec fn sp_parenthesized(t: Seq<SpecToken>, i: int) -> ParseStep
    decreases t.len() - i, 1int,
{
    if sp_peek_kind(t, i) == TokenKind::LeftParen {
        match sp_term(t, i + 1) {
            ParseStep::Done(inner, j) => match sp_peek_kind(t, j) {
                TokenKind::RightParen => ParseStep::Done(inner, j + 1),
                TokenKind::Eof => ParseStep::Fail(SyntaxError::UnexpectedEndOfInput),
                k => ParseStep::Fail(
                    SyntaxError::UnexpectedToken { kind: k, offset: t[j].start as usize },
                ),
            },
            ParseStep::Fail(f) => ParseStep::Fail(f),
        }
    } else {
        sp_number(t, i)
    }
}

/// Folds `* parenthesized` onto `acc`, left to right.
pub open spec fn sp_product_rest(t: Seq<SpecToken>, i: int, acc: SpecExpr) -> ParseStep
    decreases t.len() - i, 2int,
{
    if sp_peek_kind(t, i) == TokenKind::Star {
        match sp_parenthesized(t, i + 1) {
            ParseStep::Done(e, j) => {
                if i < j && j <= t.len() {
                    sp_product_rest(t, j, SpecExpr::Product(Box::new(acc), Box::new(e)))
                } else {
                    ParseStep::Fail(SyntaxError::UnexpectedEndOfInput)
                }
            },
            ParseStep::Fail(f) => ParseStep::Fail(f),
        }
    } else {
        ParseStep::Done(acc, i)
    }
}

/// A product: a parenthesized operand and any `*` chain after it.
pub open spec fn sp_product(t: Seq<SpecToken>, i: int) -> ParseStep
    decreases t.len() - i, 3int,
{
    match sp_parenthesized(t, i) {
        ParseStep::Done(e, j) => {
            if i < j && j <= t.len() {
                sp_product_rest(t, j, e)
            } else {
                ParseStep::Fail(SyntaxError::UnexpectedEndOfInput)
            }
        },
        ParseStep::Fail(f) => ParseStep::Fail(f),
    }
}

/// Folds `('+' | '-') product` onto `acc`, left to right: this is what
/// makes the two operators left-associative.
pub open spec fn sp_term_rest(t: Seq<SpecToken>, i: int, acc: SpecExpr) -> ParseStep
    decreases t.len() - i, 4int,
{
    if sp_peek_kind(t, i) == TokenKind::Plus {
        match sp_product(t, i + 1) {
            ParseStep::Done(e, j) => {
                if i < j && j <= t.len() {
                    sp_term_rest(t, j, SpecExpr::Sum(Box::new(acc), Box::new(e)))
                } else {
                    ParseStep::Fail(SyntaxError::UnexpectedEndOfInput)
                }
            },
            ParseStep::Fail(f) => ParseStep::Fail(f),
        }
    } else if sp_peek_kind(t, i) == TokenKind::Minus {
        match sp_product(t, i + 1) {
            ParseStep::Done(e, j) => {
                if i < j && j <= t.len() {
                    sp_term_rest(t, j, SpecExpr::Difference(Box::new(acc), Box::new(e)))
                } else {
                    ParseStep::Fail(SyntaxError::UnexpectedEndOfInput)
                }
            },
            ParseStep::Fail(f) => ParseStep::Fail(f),
        }
    } else {
        ParseStep::Done(acc, i)
    }
}

/// A term: a product and any `+`/`-` chain after it.
pub open spec fn sp_term(t: Seq<SpecToken>, i: int) -> ParseStep
    decreases t.len() - i, 5int,
{
    match sp_product(t, i) {
        ParseStep::Done(e, j) => {
            if i < j && j <= t.len() {
                sp_term_rest(t, j, e)
            } else {
                ParseStep::Fail(SyntaxError::UnexpectedEndOfInput)
            }
        },
        ParseStep::Fail(f) => ParseStep::Fail(f),
    }
}

/// One whole input: a term that must reach the terminal token; a token
/// left over after the expression is an error.
pub open spec fn sp_parse(t: Seq<SpecToken>) -> Result<SpecExpr, SyntaxError> {
    match sp_term(t, 0) {
        ParseStep::Done(e, j) => {
            if sp_peek_kind(t, j) == TokenKind::Eof {
                Ok(e)
            } else {
                Err(SyntaxError::UnexpectedToken { kind: t[j].kind, offset: t[j].start as usize })
            }
        },
        ParseStep::Fail(f) => Err(f),
    }
}

/// Whether two token sequences agree in kinds and literals; their
/// lexemes and offsets may differ.
pub open spec fn same_kinds_and_literals(t1: Seq<SpecToken>, t2: Seq<SpecToken>) -> bool {
    &&& t1.len() == t2.len()
    &&& forall|n: int|
        #![trigger t1[n], t2[n]]
        0 <= n < t1.len() ==> t1[n].kind == t2[n].kind && t1[n].literal == t2[n].literal
}

/// Whether two production outcomes agree: the same expression and the
/// same position on success, and failure together (only the offset a
/// failure reports may differ).
pub open spec fn steps_agree(a: ParseStep, b: ParseStep) -> bool {
    match (a, b) {
        (ParseStep::Done(e1, j1), ParseStep::Done(e2, j2)) => e1 == e2 && j1 == j2,
        (ParseStep::Fail(_), ParseStep::Fail(_)) => true,
        _ => false,
    }
}

/// The tree a token sequence parses to depends on the kinds and literals
/// of its tokens alone — not on their lexemes or source offsets, which
/// are all that surrounding spaces move.
pub proof fn lemma_parse_depends_on_kinds_and_literals(t1: Seq<SpecToken>, t2: Seq<SpecToken>)
    requires
        same_kinds_and_literals(t1, t2),
    ensures
        match (sp_parse(t1), sp_parse(t2)) {
            (Ok(e1), Ok(e2)) => e1 == e2,
            (Err(_), Err(_)) => true,
            _ => false,
        },
{
    lemma_term_core(t1, t2, 0);
}

proof fn lemma_number_core(t1: Seq<SpecToken>, t2: Seq<SpecToken>, i: int)
    requires
        same_kinds_and_literals(t1, t2),
    ensures
        steps_agree(sp_number(t1, i), sp_number(t2, i)),
{
}

proof fn lemma_parenthesized_core(t1: Seq<SpecToken>, t2: Seq<SpecToken>, i: int)
    requires
        same_kinds_and_literals(t1, t2),
    ensures
        steps_agree(sp_parenthesized(t1, i), sp_parenthesized(t2, i)),
    decreases t1.len() - i, 1int,
{
    if sp_peek_kind(t1, i) == TokenKind::LeftParen {
        lemma_term_core(t1, t2, i + 1);
    } else {
        lemma_number_core(t1, t2, i);
    }
}

proof fn lemma_product_rest_core(
    t1: Seq<SpecToken>,
    t2: Seq<SpecToken>,
    i: int,
    acc: SpecExpr,
)
    requires
        same_kinds_and_literals(t1, t2),
    ensures
        steps_agree(sp_product_rest(t1, i, acc), sp_product_rest(t2, i, acc)),
    decreases t1.len() - i, 2int,
{
    if sp_peek_kind(t1, i) == TokenKind::Star {
        lemma_parenthesized_core(t1, t2, i + 1);
        match sp_parenthesized(t1, i + 1) {
            ParseStep::Done(e, j) => {
                if i < j && j <= t1.len() {
                    lemma_product_rest_core(
                        t1,
                        t2,
                        j,
                        SpecExpr::Product(Box::new(acc), Box::new(e)),
                    );
                }
            },
            ParseStep::Fail(_) => {},
        }
    }
}

proof fn lemma_product_core(t1: Seq<SpecToken>, t2: Seq<SpecToken>, i: int)
    requires
        same_kinds_and_literals(t1, t2),
    ensures
        steps_agree(sp_product(t1, i), sp_product(t2, i)),
    decreases t1.len() - i, 3int,
{
    lemma_parenthesized_core(t1, t2, i);
    match sp_parenthesized(t1, i) {
        ParseStep::Done(e, j) => {
            if i < j && j <= t1.len() {
                lemma_product_rest_core(t1, t2, j, e);
            }
        },
        ParseStep::Fail(_) => {},
    }
}

proof fn lemma_term_rest_core(t1: Seq<SpecToken>, t2: Seq<SpecToken>, i: int, acc: SpecExpr)
    requires
        same_kinds_and_literals(t1, t2),
    ensures
        steps_agree(sp_term_rest(t1, i, acc), sp_term_rest(t2, i, acc)),
    decreases t1.len() - i, 4int,
{
    if sp_peek_kind(t1, i) == TokenKind::Plus {
        lemma_product_core(t1, t2, i + 1);
        match sp_product(t1, i + 1) {
            ParseStep::Done(e, j) => {
                if i < j && j <= t1.len() {
                    lemma_term_rest_core(t1, t2, j, SpecExpr::Sum(Box::new(acc), Box::new(e)));
                }
            },
            ParseStep::Fail(_) => {},
        }
    } else if sp_peek_kind(t1, i) == TokenKind::Minus {
        lemma_product_core(t1, t2, i + 1);
        match sp_product(t1, i + 1) {
            ParseStep::Done(e, j) => {
                if i < j && j <= t1.len() {
                    lemma_term_rest_core(
                        t1,
                        t2,
                        j,
                        SpecExpr::Difference(Box::new(acc), Box::new(e)),
                    );
                }
            },
            ParseStep::Fail(_) => {},
        }
    }
}

proof fn lemma_term_core(t1: Seq<SpecToken>, t2: Seq<SpecToken>, i: int)
    requires
        same_kinds_and_literals(t1, t2),
    ensures
        steps_agree(sp_term(t1, i), sp_term(t2, i)),
    decreases t1.len() - i, 5int,
{
    lemma_product_core(t1, t2, i);
    match sp_product(t1, i) {
        ParseStep::Done(e, j) => {
            if i < j && j <= t1.len() {
                lemma_term_rest_core(t1, t2, j, e);
            }
        },
        ParseStep::Fail(_) => {},
    }
}

/// How an executable production relates to its model: the tokens stand
/// untouched, the position only moves forward, and the result is exactly
/// the model's — with the position after the expression on success.
pub open spec fn parse_result_matches(
    pre: Parser,
    post: Parser,
    r: Result<Box<Expression>, SyntaxError>,
    step: ParseStep,
) -> bool {
    &&& post.wf()
    &&& post.tokens@ == pre.tokens@
    &&& post.current >= pre.current
    &&& match r {
        Ok(e) => step == ParseStep::Done(e@, post.current as int) && post.current > pre.current,
        Err(f) => step == ParseStep::Fail(f),
    }
}

/// The parser: the token sequence and the position of the next token.
pub struct Parser {
    pub tokens: Vec<Token>,
    pub current: usize,
}

impl Parser {
    /// The models of the tokens.
    pub open spec fn tv(&self) -> Seq<SpecToken> {
        token_views(self.tokens@)
    }

    /// The tokens are well formed and the position stands on one of them;
    /// the terminal token is never passed.
    pub open spec fn wf(&self) -> bool {
        &&& wf_tokens(self.tv())
        &&& self.current < self.tokens@.len()
    }

    pub fn new(tokens: Vec<Token>) -> (p: Parser)
        ensures
            p.tokens@ == tokens@,
            p.current == 0,
    {
        Parser { tokens, current: 0 }
    }

    fn peek_kind(&self) -> (k: TokenKind)
        requires
            self.current < self.tokens@.len(),
        ensures
            k == sp_peek_kind(self.tv(), self.current as int),
    {
        self.tokens[self.current].kind
    }

    fn peek_start(&self) -> (r: usize)
        requires
            self.current < self.tokens@.len(),
        ensures
            r as int == self.tv()[self.current as int].start,
    {
        self.tokens[self.current].start
    }

    fn peek_literal(&self) -> (r: Option<Value>)
        requires
            self.current < self.tokens@.len(),
        ensures
            match r {
                Some(v) => self.tv()[self.current as int].literal == Some(v@),
                None => self.tv()[self.current as int].literal is None,
            },
    {
        self.tokens[self.current].literal
    }

    /// Steps past the current token; never past the terminal one.
    fn consume(&mut self)
        requires
            old(self).wf(),
            sp_peek_kind(old(self).tv(), old(self).current as int) != TokenKind::Eof,
        ensures
            final(self).tokens == old(self).tokens,
            final(self).current == old(self).current + 1,
            final(self).wf(),
    {
        proof {
            vstd::std_specs::vec::axiom_spec_len(&self.tokens);
            assert(self.tv()[self.current as int].kind != TokenKind::Eof);
            assert(self.current as int != self.tokens@.len() - 1);
        }
        self.current = self.current + 1;
    }

    /// Parses one expression from the current position.
    pub fn parse(&mut self) -> (r: Result<Box<Expression>, SyntaxError>)
        requires
            old(self).wf(),
        ensures
            parse_result_matches(
                *old(self),
                *final(self),
                r,
                sp_term(old(self).tv(), old(self).current as int),
            ),
        decreases self.tokens@.len() - self.current, 6int,
    {
        self.term()
    }

    #[verifier::loop_isolation(false)]
    #[verifier::rlimit(100)]
    #[verifier::spinoff_prover]
    fn term(&mut self) -> (r: Result<Box<Expression>, SyntaxError>)
        requires
            old(self).wf(),
        ensures
            parse_result_matches(
                *old(self),
                *final(self),
                r,
                sp_term(old(self).tv(), old(self).current as int),
            ),
        decreases self.tokens@.len() - self.current, 5int,
    {
        let ghost t = self.tv();
        let ghost tks = self.tokens@;
        let ghost i0 = self.current as int;
        let mut expression = match self.product() {
            Ok(e) => e,
            Err(f) => {
                return Err(f);
            },
        };
        let mut finished = false;
        while !finished
            invariant
                self.wf(),
                self.tokens@ == tks,
                self.tv() == t,
                self.current > i0,
                !finished ==> sp_term(t, i0) == sp_term_rest(
                    t,
                    self.current as int,
                    expression@,
                ),
                finished ==> sp_term(t, i0) == ParseStep::Done(
                    expression@,
                    self.current as int,
                ),
            decreases t.len() - self.current, (if finished {
                0int
            } else {
                1int
            }),
        {
            let ghost c1 = self.current as int;
            let ghost accv = expression@;
            let k = self.peek_kind();
            if k == TokenKind::Plus {
                self.consume();
                match self.product() {
                    Ok(right) => {
                        proof {
                            assert(sp_term_rest(t, c1, accv) == sp_term_rest(
                                t,
                                self.current as int,
                                SpecExpr::Sum(Box::new(accv), Box::new(right@)),
                            ));
                        }
                        expression = Box::new(Expression::Sum(expression, right));
                    },
                    Err(f) => {
                        return Err(f);
                    },
                }
            } else if k == TokenKind::Minus {
                self.consume();
                match self.product() {
                    Ok(right) => {
                        proof {
                            assert(sp_term_rest(t, c1, accv) == sp_term_rest(
                                t,
                                self.current as int,
                                SpecExpr::Difference(Box::new(accv), Box::new(right@)),
                            ));
                        }
                        expression = Box::new(Expression::Difference(expression, right));
                    },
                    Err(f) => {
                        return Err(f);
                    },
                }
            } else {
                finished = true;
            }
        }
        Ok(expression)
    }

    #[verifier::loop_isolation(false)]
    #[verifier::rlimit(100)]
    #[verifier::spinoff_prover]
    fn product(&mut self) -> (r: Result<Box<Expression>, SyntaxError>)
        requires
            old(self).wf(),
        ensures
            parse_result_matches(
                *old(self),
                *final(self),
                r,
                sp_product(old(self).tv(), old(self).current as int),
            ),
        decreases self.tokens@.len() - self.current, 3int,
    {
        let ghost t = self.tv();
        let ghost tks = self.tokens@;
        let ghost i0 = self.current as int;
        let mut expression = match self.parenthesized() {
            Ok(e) => e,
            Err(f) => {
                return Err(f);
            },
        };
        let mut finished = false;
        while !finished
            invariant
                self.wf(),
                self.tokens@ == tks,
                self.tv() == t,
                self.current > i0,
                !finished ==> sp_product(t, i0) == sp_product_rest(
                    t,
                    self.current as int,
                    expression@,
                ),
                finished ==> sp_product(t, i0) == ParseStep::Done(
                    expression@,
                    self.current as int,
                ),
            decreases t.len() - self.current, (if finished {
                0int
            } else {
                1int
            }),
        {
            let ghost c1 = self.current as int;
            let ghost accv = expression@;
            let k = self.peek_kind();
            if k == TokenKind::Star {
                self.consume();
                match self.parenthesized() {
                    Ok(right) => {
                        proof {
                            assert(sp_product_rest(t, c1, accv) == sp_product_rest(
                                t,
                                self.current as int,
                                SpecExpr::Product(Box::new(accv), Box::new(right@)),
                            ));
                        }
                        expression = Box::new(Expression::Product(expression, right));
                    },
                    Err(f) => {
                        return Err(f);
                    },
                }
            } else {
                finished = true;
            }
        }
        Ok(expression)
    }

    #[verifier::rlimit(60)]
    fn parenthesized(&mut self) -> (r: Result<Box<Expression>, SyntaxError>)
        requires
            old(self).wf(),
        ensures
            parse_result_matches(
                *old(self),
                *final(self),
                r,
                sp_parenthesized(old(self).tv(), old(self).current as int),
            ),
        decreases self.tokens@.len() - self.current, 1int,
    {
        let k = self.peek_kind();
        if k == TokenKind::LeftParen {
            self.consume();
            let inner = match self.parse() {
                Ok(e) => e,
                Err(f) => {
                    return Err(f);
                },
            };
            let k2 = self.peek_kind();
            if k2 == TokenKind::RightParen {
                self.consume();
                Ok(inner)
            } else if k2 == TokenKind::Eof {
                Err(SyntaxError::UnexpectedEndOfInput)
            } else {
                Err(SyntaxError::UnexpectedToken { kind: k2, offset: self.peek_start() })
            }
        } else {
            self.number()
        }
    }

    #[verifier::rlimit(60)]
    fn number(&mut self) -> (r: Result<Box<Expression>, SyntaxError>)
        requires
            old(self).wf(),
        ensures
            parse_result_matches(
                *old(self),
                *final(self),
                r,
                sp_number(old(self).tv(), old(self).current as int),
            ),
    {
        let k = self.peek_kind();
        match k {
            TokenKind::Eof => Err(SyntaxError::UnexpectedEndOfInput),
            TokenKind::Number => {
                let lit = self.peek_literal();
                match lit {
                    Some(v) => {
                        self.consume();
                        Ok(Box::new(Expression::Number(v)))
                    },
                    None => {
                        // A well-formed number token always carries its
                        // literal, so this arm is unreachable.
                        proof {
                            assert(self.tv()[self.current as int].kind == TokenKind::Number);
                            assert(false);
                        }
                        Err(SyntaxError::UnexpectedEndOfInput)
                    },
                }
            },
            _ => Err(SyntaxError::UnexpectedToken { kind: k, offset: self.peek_start() }),
        }
    }
}

/// Parses a well-formed token sequence into one expression; the terminal
/// token must follow it directly.
#[verifier::rlimit(60)]
pub fn parse_code(tokens: Vec<Token>) -> (r: Result<Box<Expression>, SyntaxError>)
    requires
        wf_tokens(token_views(tokens@)),
    ensures
        match r {
            Ok(e) => sp_parse(token_views(tokens@)) == Ok::<SpecExpr, SyntaxError>(e@),
            Err(f) => sp_parse(token_views(tokens@)) == Err::<SpecExpr, SyntaxError>(f),
        },
{
    let mut parser = Parser::new(tokens);
    match parser.parse() {
        Ok(e) => {
            let k = parser.peek_kind();
            if k == TokenKind::Eof {
                Ok(e)
            } else {
                Err(SyntaxError::UnexpectedToken { kind: k, offset: parser.peek_start() })
            }
        },
        Err(f) => Err(f),
    }
}

} // verus!
