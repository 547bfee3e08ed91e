//! One input line, end to end: lexer, then parser.

use vstd::prelude::*;
use crate::ast::{Expression, SpecExpr};
use crate::lexer::{lex_code, sp_lex, LexError};
use crate::parser::{parse_code, sp_parse, SyntaxError};

verus! {

/// The failure of one input line: lexical or syntactic. Either one ends
/// the line; the caller may simply submit a new line.
#[derive(Clone, Copy, Debug, PartialEq, Eq, Structural)]
pub enum CalcError {
    Lex(LexError),
    Syntax(SyntaxError),
}

/// What one line denotes: its expression, or the first failure met.
pub open spec fn sp_get_expression(s: Seq<char>) -> Result<SpecExpr, CalcError> {
    match sp_lex(s) {
        Ok(ts) => match sp_parse(ts) {
            Ok(e) => Ok(e),
            Err(f) => Err(CalcError::Syntax(f)),
        },
        Err(e) => Err(CalcError::Lex(e)),
    }
}

/// Lexes and parses one line of source text into its expression tree.
pub fn get_expression(code: String) -> (r: Result<Box<Expression>, CalcError>)
    ensures
        match r {
            Ok(e) => sp_get_expression(code@) == Ok::<SpecExpr, CalcError>(e@),
            Err(er) => sp_get_expression(code@) == Err::<SpecExpr, CalcError>(er),
        },
{
    let tokens = match lex_code(code) {
        Ok(ts) => ts,
        Err(e) => {
            return Err(CalcError::Lex(e));
        },
    };
    match parse_code(tokens) {
        Ok(e) => Ok(e),
        Err(f) => Err(CalcError::Syntax(f)),
    }
}

} // verus!
