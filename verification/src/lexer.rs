//! The lexer: character sequence in, token sequence out.
//!
//! Single-character symbols are taken directly; a numeric literal is one or
//! more digits, optionally followed by `.` and any number of digits (none
//! is fine: the fraction is then zero). Single spaces are skipped. Any
//! other character stops lexing with an error naming it and its offset.
//! One terminal end-of-input token closes the sequence, at the input's
//! length. A literal whose digits do not fit the machine representation is
//! reported as an overflow at the literal's offset.

use vstd::prelude::*;
use vstd::string::{StrSliceExecFns, StringExecFns};
use crate::token::{
    lemma_token_views_add, lemma_token_views_push, token_views, wf_tokens, SpecToken, Token,
    TokenKind,
};
use crate::value::{digit_val, digits_val, is_digit_char, SpecVal, Value};

verus! {

/// A lexical failure: the character that no token can begin with and its
/// zero-based offset, or a numeric literal too large for the machine.
#[derive(Clone, Copy, Debug, PartialEq, Eq, Structural)]
pub enum LexError {
    UnexpectedCharacter { ch: char, offset: usize },
    LiteralOverflow { offset: usize },
}

impl LexError {
    /// A short account of the failure, for rendering.
    pub fn description(&self) -> (r: String)
        ensures
            self is UnexpectedCharacter ==> r@ == "unexpected character"@,
            self is LiteralOverflow ==> r@ == "numeric literal out of range"@,
    {
        match self {
            LexError::UnexpectedCharacter { .. } => String::from_str("unexpected character"),
            LexError::LiteralOverflow { .. } => String::from_str("numeric literal out of range"),
        }
    }
}

pub open spec fn is_symbol_char(c: char) -> bool {
    c == '(' || c == ')' || c == '+' || c == '-' || c == '*'
}

pub open spec fn symbol_kind(c: char) -> TokenKind {
    if c == '(' {
        TokenKind::LeftParen
    } else if c == ')' {
        TokenKind::RightParen
    } else if c == '+' {
        TokenKind::Plus
    } else if c == '-' {
        TokenKind::Minus
    } else {
        TokenKind::Star
    }
}

/// The first position at or after `i` that does not hold a digit.
pub open spec fn digits_end(s: Seq<char>, i: int) -> int
    decreases s.len() - i,
{
    if 0 <= i < s.len() && is_digit_char(s[i]) {
        digits_end(s, i + 1)
    } else {
        i
    }
}

pub proof fn lemma_digits_end_bounds(s: Seq<char>, i: int)
    requires
        0 <= i <= s.len(),
    ensures
        i <= digits_end(s, i) <= s.len(),
        forall|n: int| i <= n < digits_end(s, i) ==> is_digit_char(s[n]),
        digits_end(s, i) == s.len() || !is_digit_char(s[digits_end(s, i)]),
    decreases s.len() - i,
{
    if i < s.len() && is_digit_char(s[i]) {
        lemma_digits_end_bounds(s, i + 1);
    }
}

/// The literal a digit run denotes, as a decimal: `whole` digits, then
/// `frac` digits after the point.
pub open spec fn literal_of_digits(whole: Seq<char>, frac: Seq<char>) -> SpecVal {
    SpecVal { mantissa: digits_val(whole + frac), scale: frac.len() }
}

/// Prepends already-produced tokens to the outcome for the rest of the
/// input; an error anywhere is the error of the whole.
pub open spec fn lex_prepend(ts: Seq<SpecToken>, r: Result<Seq<SpecToken>, LexError>) -> Result<
    Seq<SpecToken>,
    LexError,
> {
    match r {
        Ok(rest) => Ok(ts + rest),
        Err(e) => Err(e),
    }
}

/// The tokens of `s` from position `i` on: symbols and literals as given,
/// spaces skipped, one end-of-input token at the close.
pub open spec fn sp_lex_from(s: Seq<char>, i: int) -> Result<Seq<SpecToken>, LexError>
    decreases s.len() - i,
{
    if i < 0 || i >= s.len() {
        Ok(
            seq![
                SpecToken {
                    kind: TokenKind::Eof,
                    lexeme: Seq::<char>::empty(),
                    literal: None,
                    start: s.len() as int,
                },
            ],
        )
    } else {
        let c = s[i];
        if c == ' ' {
            sp_lex_from(s, i + 1)
        } else if is_symbol_char(c) {
            lex_prepend(
                seq![
                    SpecToken { kind: symbol_kind(c), lexeme: seq![c], literal: None, start: i },
                ],
                sp_lex_from(s, i + 1),
            )
        } else if is_digit_char(c) {
            let j = digits_end(s, i);
            let has_frac = j < s.len() && s[j] == '.';
            let k = if has_frac {
                digits_end(s, j + 1)
            } else {
                j
            };
            let whole = s.subrange(i, j);
            let frac = if has_frac {
                s.subrange(j + 1, k)
            } else {
                Seq::<char>::empty()
            };
            let lit = literal_of_digits(whole, frac);
            if lit.mantissa > i64::MAX || lit.scale > u32::MAX {
                Err(LexError::LiteralOverflow { offset: i as usize })
            } else {
                proof {
                    lemma_digits_end_bounds(s, i + 1);
                    if j < s.len() {
                        lemma_digits_end_bounds(s, j + 1);
                    }
                }
                lex_prepend(
                    seq![
                        SpecToken {
                            kind: TokenKind::Number,
                            lexeme: s.subrange(i, k),
                            literal: Some(lit),
                            start: i,
                        },
                    ],
                    sp_lex_from(s, k),
                )
            }
        } else {
            Err(LexError::UnexpectedCharacter { ch: c, offset: i as usize })
        }
    }
}

/// The tokens of a whole input.
pub open spec fn sp_lex(s: Seq<char>) -> Result<Seq<SpecToken>, LexError> {
    sp_lex_from(s, 0)
}

/// Tokens handed out by the lexer are well formed, their offsets start at
/// the scan position, and the terminal token stands at the input's length.
#[verifier::rlimit(60)]
pub proof fn lemma_sp_lex_wf(s: Seq<char>, i: int)
    requires
        0 <= i <= s.len(),
    ensures
        sp_lex_from(s, i) matches Ok(ts) ==> {
            &&& wf_tokens(ts)
            &&& ts[ts.len() - 1].start == s.len()
            &&& forall|n: int| 0 <= n < ts.len() ==> ts[n].start >= i
        },
    decreases s.len() - i,
{
    if i >= s.len() {
    } else {
        let c = s[i];
        if c == ' ' {
            lemma_sp_lex_wf(s, i + 1);
        } else if is_symbol_char(c) {
            lemma_sp_lex_wf(s, i + 1);
        } else if is_digit_char(c) {
            lemma_digits_end_bounds(s, i + 1);
            let j = digits_end(s, i);
            let has_frac = j < s.len() && s[j] == '.';
            let k = if has_frac {
                digits_end(s, j + 1)
            } else {
                j
            };
            if has_frac {
                lemma_digits_end_bounds(s, j + 1);
            }
            let whole = s.subrange(i, j);
            let frac = if has_frac {
                s.subrange(j + 1, k)
            } else {
                Seq::<char>::empty()
            };
            let lit = literal_of_digits(whole, frac);
            if !(lit.mantissa > i64::MAX || lit.scale > u32::MAX) {
                assert forall|n: int| 0 <= n < (whole + frac).len() implies is_digit_char(
                    (whole + frac)[n],
                ) by {
                    if n < whole.len() {
                        assert((whole + frac)[n] == s[i + n]);
                    } else {
                        assert((whole + frac)[n] == s[j + 1 + (n - whole.len())]);
                    }
                }
                crate::value::lemma_digits_val_nonneg(whole + frac);
                lemma_sp_lex_wf(s, k);
            }
        }
    }
}

/// Relies on `String::push`: appends exactly the one character.
#[verifier::external_body]
fn push_char(s: &mut String, c: char)
    ensures
        final(s)@ == old(s)@.push(c),
{
    s.push(c);
}

/// The characters of a string, in order.
pub(crate) fn string_to_chars(s: &str) -> (r: Vec<char>)
    ensures
        r@ == s@,
{
    let n = s.unicode_len();
    let mut v: Vec<char> = Vec::new();
    let mut i: usize = 0;
    proof {
        assert(v@ =~= s@.subrange(0, 0));
    }
    while i < n
        invariant
            i <= n,
            n == s@.len(),
            v@ == s@.subrange(0, i as int),
        decreases n - i,
    {
        let c = s.get_char(i);
        v.push(c);
        proof {
            assert(v@ =~= s@.subrange(0, i + 1));
        }
        i = i + 1;
    }
    proof {
        assert(v@ =~= s@);
    }
    v
}

/// One token step succeeded: the scan moved forward, earlier tokens stand
/// untouched, and the tokens of the input from `anchor` are the tokens the
/// step appended followed by the tokens of the rest.
pub open spec fn lex_step_ok(pre: Lexer, post: Lexer, anchor: int) -> bool {
    &&& post.wf()
    &&& post.chars@ == pre.chars@
    &&& anchor < post.current
    &&& pre.tokens@.is_prefix_of(post.tokens@)
    &&& sp_lex_from(post.chars@, anchor) == lex_prepend(
        token_views(post.tokens@.skip(pre.tokens@.len() as int)),
        sp_lex_from(post.chars@, post.current as int),
    )
}

/// The lexer: the input's characters, the start of the token being
/// scanned, the scan position, and the tokens produced so far.
pub struct Lexer {
    pub chars: Vec<char>,
    pub start: usize,
    pub current: usize,
    pub tokens: Vec<Token>,
}

impl Lexer {
    pub open spec fn wf(&self) -> bool {
        self.start <= self.current <= self.chars@.len()
    }

    pub fn new(code: String) -> (lx: Lexer)
        ensures
            lx.chars@ == code@,
            lx.start == 0,
            lx.current == 0,
            lx.tokens@ == Seq::<Token>::empty(),
            lx.wf(),
    {
        Lexer { chars: string_to_chars(code.as_str()), start: 0, current: 0, tokens: Vec::new() }
    }

    pub fn reached_end(&self) -> (r: bool)
        ensures
            r == (self.current == self.chars@.len()),
    {
        self.chars.len() == self.current
    }

    fn advance(&mut self) -> (c: char)
        requires
            old(self).current < old(self).chars@.len(),
        ensures
            final(self).chars == old(self).chars,
            final(self).start == old(self).start,
            final(self).tokens == old(self).tokens,
            final(self).current == old(self).current + 1,
            c == old(self).chars@[old(self).current as int],
    {
        proof {
            vstd::std_specs::vec::axiom_spec_len(&self.chars);
        }
        let c = self.chars[self.current];
        self.current = self.current + 1;
        c
    }

    fn peek(&self) -> (r: Option<char>)
        ensures
            r == (if self.current < self.chars@.len() {
                Some(self.chars@[self.current as int])
            } else {
                None::<char>
            }),
    {
        if self.current < self.chars.len() {
            Some(self.chars[self.current])
        } else {
            None
        }
    }

    fn consume(&mut self)
        requires
            old(self).current < old(self).chars@.len(),
        ensures
            final(self).chars == old(self).chars,
            final(self).start == old(self).start,
            final(self).tokens == old(self).tokens,
            final(self).current == old(self).current + 1,
    {
        proof {
            vstd::std_specs::vec::axiom_spec_len(&self.chars);
        }
        self.current = self.current + 1;
    }

    fn is_digit(c: char) -> (r: bool)
        ensures
            r == is_digit_char(c),
    {
        let u = c as u32;
        48 <= u && u <= 57
    }

    fn get_lexeme(&self) -> (r: String)
        requires
            self.wf(),
        ensures
            r@ == self.chars@.subrange(self.start as int, self.current as int),
    {
        let mut out = String::new();
        let mut i: usize = self.start;
        proof {
            assert(out@ =~= self.chars@.subrange(self.start as int, self.start as int));
        }
        while i < self.current
            invariant
                self.start <= i <= self.current <= self.chars@.len(),
                out@ == self.chars@.subrange(self.start as int, i as int),
            decreases self.current - i,
        {
            push_char(&mut out, self.chars[i]);
            proof {
                assert(out@ =~= self.chars@.subrange(self.start as int, i + 1));
            }
            i = i + 1;
        }
        out
    }

    /// Appends a finished token and marks the next token's start.
    pub fn add_token(&mut self, token: Token)
        ensures
            final(self).chars == old(self).chars,
            final(self).current == old(self).current,
            final(self).start == old(self).current,
            final(self).tokens@ == old(self).tokens@.push(token),
    {
        self.tokens.push(token);
        self.start = self.current;
    }

    /// Appends the token of the single-character symbol `c`.
    pub fn add_symbol(&mut self, kind: TokenKind, c: char) -> (r: Result<(), LexError>)
        ensures
            r is Ok,
            final(self).chars == old(self).chars,
            final(self).current == old(self).current,
            final(self).start == old(self).current,
            final(self).tokens@.drop_last() == old(self).tokens@,
            final(self).tokens@.len() == old(self).tokens@.len() + 1,
            final(self).tokens@.last()@ == (SpecToken {
                kind,
                lexeme: seq![c],
                literal: None,
                start: old(self).start as int,
            }),
    {
        let mut lexeme = String::new();
        push_char(&mut lexeme, c);
        proof {
            assert(lexeme@ =~= seq![c]);
        }
        let token = Token { kind, lexeme, start: self.start, literal: None };
        let ghost t0 = self.tokens@;
        self.add_token(token);
        proof {
            assert(self.tokens@.drop_last() =~= t0);
        }
        Ok(())
    }

    /// Appends the token of a numeric literal.
    pub fn add_number(&mut self, number: Value, lexeme: String) -> (r: Result<(), LexError>)
        ensures
            r is Ok,
            final(self).chars == old(self).chars,
            final(self).current == old(self).current,
            final(self).start == old(self).current,
            final(self).tokens@.drop_last() == old(self).tokens@,
            final(self).tokens@.len() == old(self).tokens@.len() + 1,
            final(self).tokens@.last()@ == (SpecToken {
                kind: TokenKind::Number,
                lexeme: lexeme@,
                literal: Some(number@),
                start: old(self).start as int,
            }),
    {
        let token = Token { kind: TokenKind::Number, lexeme, start: self.start, literal: Some(
            number,
        ) };
        let ghost t0 = self.tokens@;
        self.add_token(token);
        proof {
            assert(self.tokens@.drop_last() =~= t0);
        }
        Ok(())
    }

    /// Scans the remainder of a numeric literal whose first digit `c` was
    /// just taken, and appends its token: digits, then optionally a point
    /// and more digits; the token covers all of them.
    #[verifier::loop_isolation(false)]
    pub fn scan_number(&mut self, c: char) -> (r: Result<(), LexError>)
        requires
            old(self).wf(),
            old(self).start + 1 == old(self).current,
            old(self).start < old(self).chars@.len(),
            old(self).chars@[old(self).start as int] == c,
            is_digit_char(c),
        ensures
            match r {
                Ok(()) => lex_step_ok(*old(self), *final(self), old(self).start as int),
                Err(e) => {
                    &&& final(self).wf()
                    &&& final(self).chars@ == old(self).chars@
                    &&& final(self).tokens@ == old(self).tokens@
                    &&& sp_lex_from(old(self).chars@, old(self).start as int) == Err::<
                        Seq<SpecToken>,
                        LexError,
                    >(e)
                },
            },
    {
        let ghost s = self.chars@;
        let ghost i0 = self.start as int;
        let ghost t0 = self.tokens@;
        let mut acc: i64 = (c as u32 - 48) as i64;
        proof {
            assert(s.subrange(i0, i0 + 1).drop_last() =~= Seq::<char>::empty());
            assert(s.subrange(i0, i0 + 1).last() == c);
            assert(digits_val(Seq::<char>::empty()) == 0);
            assert(digits_val(s.subrange(i0, i0 + 1)) == digit_val(c));
        }
        let mut stop = false;
        while !stop
            invariant
                self.wf(),
                self.chars@ == s,
                self.start as int == i0,
                self.tokens@ == t0,
                i0 + 1 <= self.current as int <= s.len(),
                forall|n: int| i0 <= n < self.current as int ==> is_digit_char(s[n]),
                digits_end(s, i0) == digits_end(s, self.current as int),
                0 <= acc <= i64::MAX,
                acc as int == digits_val(s.subrange(i0, self.current as int)),
                stop ==> (self.current as int == s.len() || !is_digit_char(
                    s[self.current as int],
                )),
            decreases s.len() - self.current, (if stop {
                0int
            } else {
                1int
            }),
        {
            match self.peek() {
                Some(d) => {
                    if Self::is_digit(d) {
                        let ghost cur = self.current as int;
                        let dv = (d as u32 - 48) as i64;
                        proof {
                            assert(s.subrange(i0, cur + 1).drop_last() =~= s.subrange(i0, cur));
                            assert(s.subrange(i0, cur + 1).last() == d);
                            assert(digits_val(s.subrange(i0, cur + 1)) == 10 * acc + dv);
                        }
                        if acc > 922337203685477580 || (acc == 922337203685477580 && dv > 7) {
                            proof {
                                lemma_number_overflow(s, i0, cur + 1);
                            }
                            return Err(LexError::LiteralOverflow { offset: self.start });
                        }
                        acc = acc * 10 + dv;
                        proof {
                            assert(digits_end(s, cur) == digits_end(s, cur + 1));
                        }
                        self.consume();
                    } else {
                        stop = true;
                    }
                },
                None => {
                    stop = true;
                },
            }
        }
        let ghost j = self.current as int;
        proof {
            assert(digits_end(s, j) == j);
            assert(digits_end(s, i0) == j);
        }
        let dot = match self.peek() {
            Some(c2) => c2 == '.',
            None => false,
        };
        let mut frac_count: u32 = 0;
        if dot {
            self.consume();
            proof {
                assert(s.subrange(i0, j) + s.subrange(j + 1, j + 1) =~= s.subrange(i0, j));
            }
            let mut stop2 = false;
            while !stop2
                invariant
                    self.wf(),
                    self.chars@ == s,
                    self.start as int == i0,
                    self.tokens@ == t0,
                    0 <= i0 < j,
                    j + 1 <= self.current as int <= s.len(),
                    forall|n: int| j + 1 <= n < self.current as int ==> is_digit_char(s[n]),
                    forall|n: int| i0 <= n < j ==> is_digit_char(s[n]),
                    digits_end(s, i0) == j,
                    j < s.len() && s[j] == '.',
                    digits_end(s, j + 1) == digits_end(s, self.current as int),
                    0 <= acc <= i64::MAX,
                    acc as int == digits_val(s.subrange(i0, j) + s.subrange(j + 1, self.current as int)),
                    frac_count as int == self.current - (j + 1),
                    stop2 ==> (self.current as int == s.len() || !is_digit_char(
                        s[self.current as int],
                    )),
                decreases s.len() - self.current, (if stop2 {
                    0int
                } else {
                    1int
                }),
            {
                match self.peek() {
                    Some(d) => {
                        if Self::is_digit(d) {
                            let ghost cur = self.current as int;
                            let ghost p = s.subrange(i0, j) + s.subrange(j + 1, cur);
                            let dv = (d as u32 - 48) as i64;
                            proof {
                                assert(s.subrange(j + 1, cur + 1).drop_last() =~= s.subrange(
                                    j + 1,
                                    cur,
                                ));
                                assert((s.subrange(i0, j) + s.subrange(j + 1, cur + 1)).drop_last()
                                    =~= p);
                                assert((s.subrange(i0, j) + s.subrange(j + 1, cur + 1)).last()
                                    == d);
                                assert(digits_val(s.subrange(i0, j) + s.subrange(j + 1, cur + 1))
                                    == 10 * acc + dv);
                            }
                            if acc > 922337203685477580 || (acc == 922337203685477580 && dv > 7) {
                                proof {
                                    lemma_fraction_overflow(s, i0, j, cur + 1);
                                }
                                return Err(LexError::LiteralOverflow { offset: self.start });
                            }
                            if frac_count == u32::MAX {
                                proof {
                                    lemma_scale_overflow(s, i0, j, cur);
                                }
                                return Err(LexError::LiteralOverflow { offset: self.start });
                            }
                            acc = acc * 10 + dv;
                            frac_count = frac_count + 1;
                            proof {
                                assert(digits_end(s, cur) == digits_end(s, cur + 1));
                            }
                            self.consume();
                        } else {
                            stop2 = true;
                        }
                    },
                    None => {
                        stop2 = true;
                    },
                }
            }
        }
        let ghost k = self.current as int;
        let ghost whole = s.subrange(i0, j);
        let ghost frac = if dot {
            s.subrange(j + 1, k)
        } else {
            Seq::<char>::empty()
        };
        let ghost lit = literal_of_digits(whole, frac);
        proof {
            if dot {
                assert(digits_end(s, k) == k);
                assert(digits_end(s, j + 1) == k);
            } else {
                assert(whole + frac =~= whole);
                assert(k == j);
            }
            assert(lit.mantissa == acc as int);
            assert(lit.scale == frac_count as nat);
        }
        let value = Value::new(acc, frac_count);
        let lexeme = self.get_lexeme();
        let ghost pre_add = *self;
        let r = self.add_number(value, lexeme);
        proof {
            let tok = self.tokens@.last();
            assert(self.tokens@.skip(t0.len() as int) =~= seq![tok]);
            assert(token_views(seq![tok]) =~= seq![tok@]);
            assert(tok@ == (SpecToken {
                kind: TokenKind::Number,
                lexeme: s.subrange(i0, k),
                literal: Some(lit),
                start: i0,
            }));
            assert(t0.is_prefix_of(self.tokens@)) by {
                assert(t0 =~= self.tokens@.subrange(0, t0.len() as int));
            }
            assert(sp_lex_from(s, i0) == lex_prepend(
                seq![tok@],
                sp_lex_from(s, k),
            ));
        }
        r
    }

    /// Scans one step: a symbol or a numeric literal is appended as a
    /// token, a space is skipped, and any other character is the lexical
    /// error, reported with its zero-based offset.
    pub fn scan_token(&mut self) -> (r: Result<(), LexError>)
        requires
            old(self).wf(),
            old(self).current < old(self).chars@.len(),
        ensures
            match r {
                Ok(()) => lex_step_ok(*old(self), *final(self), old(self).current as int),
                Err(e) => {
                    &&& final(self).wf()
                    &&& final(self).chars@ == old(self).chars@
                    &&& final(self).tokens@ == old(self).tokens@
                    &&& sp_lex_from(old(self).chars@, old(self).current as int) == Err::<
                        Seq<SpecToken>,
                        LexError,
                    >(e)
                },
            },
    {
        let ghost s = self.chars@;
        let ghost i0 = self.current as int;
        let ghost t0 = self.tokens@;
        self.start = self.current;
        let c = self.advance();
        if c == ' ' {
            proof {
                assert(self.tokens@.skip(t0.len() as int) =~= Seq::<Token>::empty());
                assert(token_views(Seq::<Token>::empty()) =~= Seq::<SpecToken>::empty());
                let r2 = sp_lex_from(s, i0 + 1);
                if r2 is Ok {
                    assert(Seq::<SpecToken>::empty() + r2->Ok_0 =~= r2->Ok_0);
                }
                assert(t0.is_prefix_of(self.tokens@)) by {
                    assert(t0 =~= self.tokens@.subrange(0, t0.len() as int));
                }
            }
            return Ok(());
        }
        if c == '(' || c == ')' || c == '+' || c == '-' || c == '*' {
            let kind = if c == '(' {
                TokenKind::LeftParen
            } else if c == ')' {
                TokenKind::RightParen
            } else if c == '+' {
                TokenKind::Plus
            } else if c == '-' {
                TokenKind::Minus
            } else {
                TokenKind::Star
            };
            let r = self.add_symbol(kind, c);
            proof {
                let tok = self.tokens@.last();
                assert(self.tokens@.skip(t0.len() as int) =~= seq![tok]);
                assert(token_views(seq![tok]) =~= seq![tok@]);
                assert(kind == symbol_kind(c));
                assert(tok@ == (SpecToken {
                    kind: symbol_kind(c),
                    lexeme: seq![c],
                    literal: None,
                    start: i0,
                }));
                assert(t0.is_prefix_of(self.tokens@)) by {
                    assert(t0 =~= self.tokens@.subrange(0, t0.len() as int));
                }
            }
            return r;
        }
        if Self::is_digit(c) {
            return self.scan_number(c);
        }
        Err(LexError::UnexpectedCharacter { ch: c, offset: self.start })
    }

    /// Scans the whole input and closes the token sequence with the
    /// terminal token, whose offset is the input's length. A fresh lexer
    /// scans from the start; lexing stops at the first failure.
    #[verifier::loop_isolation(false)]
    pub fn lex(&mut self) -> (r: Result<(), LexError>)
        requires
            old(self).wf(),
            old(self).current == 0,
            old(self).tokens@.len() == 0,
        ensures
            final(self).chars@ == old(self).chars@,
            match r {
                Ok(()) => sp_lex(final(self).chars@) == Ok::<Seq<SpecToken>, LexError>(
                    token_views(final(self).tokens@),
                ),
                Err(e) => sp_lex(final(self).chars@) == Err::<Seq<SpecToken>, LexError>(e),
            },
    {
        let ghost s = self.chars@;
        proof {
            assert(token_views(self.tokens@) =~= Seq::<SpecToken>::empty());
            let r0 = sp_lex_from(s, 0);
            if r0 is Ok {
                assert(Seq::<SpecToken>::empty() + r0->Ok_0 =~= r0->Ok_0);
            }
        }
        while !self.reached_end()
            invariant
                self.wf(),
                self.chars@ == s,
                sp_lex_from(s, 0) == lex_prepend(
                    token_views(self.tokens@),
                    sp_lex_from(s, self.current as int),
                ),
            decreases s.len() - self.current,
        {
            let ghost pre = *self;
            match self.scan_token() {
                Ok(()) => {
                    proof {
                        let delta = self.tokens@.skip(pre.tokens@.len() as int);
                        assert(self.tokens@ =~= pre.tokens@ + delta);
                        lemma_token_views_add(pre.tokens@, delta);
                        assert(token_views(self.tokens@) =~= token_views(pre.tokens@)
                            + token_views(delta));
                        let r2 = sp_lex_from(s, self.current as int);
                        if r2 is Ok {
                            assert((token_views(pre.tokens@) + token_views(delta)) + r2->Ok_0
                                =~= token_views(pre.tokens@) + (token_views(delta) + r2->Ok_0));
                        }
                    }
                },
                Err(e) => {
                    return Err(e);
                },
            }
        }
        let ghost tmid = self.tokens@;
        let eof_token = Token::eof(self.current);
        self.add_token(eof_token);
        proof {
            lemma_token_views_push(tmid, eof_token);
            assert(self.current as int == s.len());
            assert(token_views(tmid) + seq![eof_token@] =~= token_views(tmid).push(eof_token@));
        }
        Ok(())
    }
}

/// Lexes one line of source text into its token sequence, which is well
/// formed: one terminal token at the input's length, strictly increasing
/// offsets, and a machine-held literal on every number.
pub fn lex_code(code: String) -> (r: Result<Vec<Token>, LexError>)
    ensures
        match r {
            Ok(ts) => sp_lex(code@) == Ok::<Seq<SpecToken>, LexError>(token_views(ts@))
                && wf_tokens(token_views(ts@)),
            Err(e) => sp_lex(code@) == Err::<Seq<SpecToken>, LexError>(e),
        },
{
    let mut lexer = Lexer::new(code);
    match lexer.lex() {
        Ok(()) => {
            proof {
                lemma_sp_lex_wf(lexer.chars@, 0);
            }
            Ok(lexer.tokens)
        },
        Err(e) => Err(e),
    }
}

/// A digit run whose first `upto - i0` digits already exceed the machine
/// range denotes a literal out of range: the scan fails there.
proof fn lemma_number_overflow(s: Seq<char>, i0: int, upto: int)
    requires
        0 <= i0 < upto <= s.len(),
        forall|n: int| i0 <= n < upto ==> is_digit_char(s[n]),
        digits_val(s.subrange(i0, upto)) > i64::MAX,
    ensures
        sp_lex_from(s, i0) == Err::<Seq<SpecToken>, LexError>(
            LexError::LiteralOverflow { offset: i0 as usize },
        ),
{
    lemma_digits_end_bounds(s, i0);
    let j = digits_end(s, i0);
    assert(upto <= j);
    let has_frac = j < s.len() && s[j] == '.';
    let k = if has_frac {
        digits_end(s, j + 1)
    } else {
        j
    };
    if has_frac {
        lemma_digits_end_bounds(s, j + 1);
    }
    let whole = s.subrange(i0, j);
    let frac = if has_frac {
        s.subrange(j + 1, k)
    } else {
        Seq::<char>::empty()
    };
    let p = s.subrange(i0, upto);
    assert forall|n: int| 0 <= n < (whole + frac).len() implies is_digit_char(
        (whole + frac)[n],
    ) by {
        if n < whole.len() {
            assert((whole + frac)[n] == s[i0 + n]);
        } else {
            assert((whole + frac)[n] == s[j + 1 + (n - whole.len())]);
        }
    }
    assert(p.is_prefix_of(whole + frac)) by {
        assert(p =~= (whole + frac).subrange(0, upto - i0));
    }
    crate::value::lemma_digits_val_extend(p, whole + frac);
}

/// As `lemma_number_overflow`, for an excess met among the fraction
/// digits: `upto` lies past the point.
proof fn lemma_fraction_overflow(s: Seq<char>, i0: int, j: int, upto: int)
    requires
        0 <= i0 < j,
        j + 1 < upto <= s.len(),
        forall|n: int| i0 <= n < j ==> is_digit_char(s[n]),
        forall|n: int| j + 1 <= n < upto ==> is_digit_char(s[n]),
        digits_end(s, i0) == j,
        j < s.len() && s[j] == '.',
        digits_val(s.subrange(i0, j) + s.subrange(j + 1, upto)) > i64::MAX,
    ensures
        sp_lex_from(s, i0) == Err::<Seq<SpecToken>, LexError>(
            LexError::LiteralOverflow { offset: i0 as usize },
        ),
{
    assert(is_digit_char(s[i0]));
    let k = digits_end(s, j + 1);
    lemma_digits_end_bounds(s, j + 1);
    assert(upto <= k);
    let whole = s.subrange(i0, j);
    let frac = s.subrange(j + 1, k);
    let p = whole + s.subrange(j + 1, upto);
    assert forall|n: int| 0 <= n < (whole + frac).len() implies is_digit_char(
        (whole + frac)[n],
    ) by {
        if n < whole.len() {
            assert((whole + frac)[n] == s[i0 + n]);
        } else {
            assert((whole + frac)[n] == s[j + 1 + (n - whole.len())]);
        }
    }
    assert(p.is_prefix_of(whole + frac)) by {
        assert(p =~= (whole + frac).subrange(0, p.len() as int));
    }
    crate::value::lemma_digits_val_extend(p, whole + frac);
}

/// A fraction of more digits than the scale field can count is a literal
/// out of range.
proof fn lemma_scale_overflow(s: Seq<char>, i0: int, j: int, cur: int)
    requires
        0 <= i0 < j,
        j + 1 <= cur < s.len(),
        forall|n: int| i0 <= n < j ==> is_digit_char(s[n]),
        forall|n: int| j + 1 <= n < cur ==> is_digit_char(s[n]),
        is_digit_char(s[cur]),
        digits_end(s, i0) == j,
        s[j] == '.',
        digits_end(s, j + 1) == digits_end(s, cur),
        cur - (j + 1) >= u32::MAX,
    ensures
        sp_lex_from(s, i0) == Err::<Seq<SpecToken>, LexError>(
            LexError::LiteralOverflow { offset: i0 as usize },
        ),
{
    assert(is_digit_char(s[i0]));
    let k = digits_end(s, j + 1);
    lemma_digits_end_bounds(s, cur);
    assert(k == digits_end(s, cur));
    assert(digits_end(s, cur) == digits_end(s, cur + 1));
    lemma_digits_end_bounds(s, cur + 1);
    assert(k >= cur + 1);
    assert(k - (j + 1) > u32::MAX);
}

} // verus!
