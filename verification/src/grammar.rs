//! The grammar of teeny, as mathematical functions from the characters of a
//! program and a position in them to what is parsed there and how many
//! characters it takes; the parser is proved to compute them.
use vstd::prelude::*;

use crate::ast::{SpecExpr, SpecIfBranch, SpecIfStmt, SpecPrintValue, SpecStmt, SpecWhileStmt};
use crate::error::ErrorView;
use crate::lex::{lemma_lex_token_bounds, lex_error_view, lex_token, LexError};
use crate::token::{token_binary_op, token_is_comparator, BinaryOp, SpecToken, UnaryOp};

verus! {

/// Why the parser refused a program, when the lexer did not.
#[derive(Debug, PartialEq, Eq, Structural, Copy, Clone)]
pub enum ParseError {
    ExpectedNewline,
    ExpectedPrimary,
    MissingCloseParen,
    ExpectedThen,
    UnexpectedEof,
    ExpectedEndif,
    ExpectedRepeat,
    ExpectedIdent,
    ExpectedEq,
    ExpectedStatement,
}

/// Why a program was refused: by the lexer or by the parser.
#[derive(Debug, PartialEq, Eq, Structural, Copy, Clone)]
pub enum SyntaxError {
    Lex(LexError),
    Parse(ParseError),
}

/// The message of a parser error.
pub open spec fn parse_error_message(k: ParseError) -> Seq<char> {
    match k {
        ParseError::ExpectedNewline => "Expected newline"@,
        ParseError::ExpectedPrimary => "Expected number or identifier"@,
        ParseError::MissingCloseParen => "Missing close paren after expression"@,
        ParseError::ExpectedThen => "Expected THEN"@,
        ParseError::UnexpectedEof => "Expected start of statement but reached end of file"@,
        ParseError::ExpectedEndif => "Expected next token to be ENDIF"@,
        ParseError::ExpectedRepeat => "Expected REPEAT"@,
        ParseError::ExpectedIdent => "Expected identifier"@,
        ParseError::ExpectedEq => "Expected `=`"@,
        ParseError::ExpectedStatement => "Expected start of statement"@,
    }
}

impl ParseError {
    /// The message of this error.
    pub fn message(&self) -> (r: String)
        ensures
            r@ == parse_error_message(*self),
    {
        let m = match self {
            ParseError::ExpectedNewline => "Expected newline",
            ParseError::ExpectedPrimary => "Expected number or identifier",
            ParseError::MissingCloseParen => "Missing close paren after expression",
            ParseError::ExpectedThen => "Expected THEN",
            ParseError::UnexpectedEof => "Expected start of statement but reached end of file",
            ParseError::ExpectedEndif => "Expected next token to be ENDIF",
            ParseError::ExpectedRepeat => "Expected REPEAT",
            ParseError::ExpectedIdent => "Expected identifier",
            ParseError::ExpectedEq => "Expected `=`",
            ParseError::ExpectedStatement => "Expected start of statement",
        };
        String::from_str(m)
    }
}

/// The error value of a refusal of the program `s`.
pub open spec fn syntax_error_view(s: Seq<char>, e: SyntaxError) -> ErrorView {
    match e {
        SyntaxError::Lex(k) => lex_error_view(s, k),
        SyntaxError::Parse(k) => ErrorView::Parse(parse_error_message(k)),
    }
}

/// How much of the input is left after position `p`; every step of the
/// parser that reads a token other than the end of input makes it smaller.
pub open spec fn remaining(s: Seq<char>, p: nat) -> nat {
    if p < s.len() {
        (s.len() - p) as nat
    } else {
        0
    }
}

/// The token at `p` and the position after it.
pub open spec fn token_at(s: Seq<char>, p: nat) -> Result<(SpecToken, nat), SyntaxError> {
    match lex_token(s, p) {
        Ok((t, e)) => Ok((t, e)),
        Err(k) => Err(SyntaxError::Lex(k)),
    }
}

/// The position after any newline tokens at `p`.
pub open spec fn skip_newlines(s: Seq<char>, p: nat) -> Result<nat, SyntaxError>
    decreases remaining(s, p),
{
    match token_at(s, p) {
        Err(k) => Err(k),
        Ok((t, e)) => if t is NEWLINE {
            proof {
                lemma_lex_token_bounds(s, p);
            }
            skip_newlines(s, e)
        } else {
            Ok(p)
        },
    }
}

/// The position after a newline token at `p` and any newline tokens after it.
pub open spec fn newline_after(s: Seq<char>, p: nat) -> Result<nat, SyntaxError> {
    match token_at(s, p) {
        Err(k) => Err(k),
        Ok((t, e)) => if t is NEWLINE {
            skip_newlines(s, e)
        } else {
            Err(SyntaxError::Parse(ParseError::ExpectedNewline))
        },
    }
}

/// The first token of the statement at `p`, after any newlines, and the
/// position after it.
pub open spec fn stmt_head(s: Seq<char>, p: nat) -> Result<(SpecToken, nat), SyntaxError> {
    match skip_newlines(s, p) {
        Err(k) => Err(k),
        Ok(q) => match token_at(s, q) {
            Err(k) => Err(k),
            Ok((t, e)) => if t is EOF {
                Err(SyntaxError::Parse(ParseError::UnexpectedEof))
            } else {
                Ok((t, e))
            },
        },
    }
}

/// Going forward never leaves more input, and from inside the input it leaves less.
pub proof fn lemma_remaining(s: Seq<char>, a: nat, b: nat)
    requires
        a <= b,
    ensures
        remaining(s, b) <= remaining(s, a),
        a < s.len() && a < b ==> remaining(s, b) < remaining(s, a),
{
}

/// Skipping newlines never goes back.
pub proof fn lemma_skip_newlines(s: Seq<char>, p: nat)
    ensures
        skip_newlines(s, p) matches Ok(q) ==> p <= q,
    decreases remaining(s, p),
{
    lemma_lex_token_bounds(s, p);
    if let Ok((t, e)) = token_at(s, p) {
        if t is NEWLINE {
            lemma_skip_newlines(s, e);
        }
    }
}

/// A newline takes at least one character of the input.
pub proof fn lemma_newline_after(s: Seq<char>, p: nat)
    ensures
        newline_after(s, p) matches Ok(q) ==> p < s.len() && p < q,
{
    lemma_lex_token_bounds(s, p);
    if let Ok((t, e)) = token_at(s, p) {
        lemma_skip_newlines(s, e);
    }
}

/// The first token of a statement takes at least one character of the input.
pub proof fn lemma_stmt_head(s: Seq<char>, p: nat)
    ensures
        stmt_head(s, p) matches Ok((t, e)) ==> p < s.len() && p < e && !(t is EOF),
{
    lemma_skip_newlines(s, p);
    if let Ok(q) = skip_newlines(s, p) {
        lemma_lex_token_bounds(s, q);
    }
}

/// A number, an identifier or a parenthesized expression.
pub open spec fn spec_primary(s: Seq<char>, p: nat) -> Result<(SpecExpr, nat), SyntaxError>
    decreases remaining(s, p), 1nat,
{
    match token_at(s, p) {
        Err(k) => Err(k),
        Ok((t, e)) => match t {
            SpecToken::NUMBER(n) => Ok((SpecExpr::Number(n), (e - p) as nat)),
            SpecToken::IDENT(i) => Ok((SpecExpr::Identifier(i), (e - p) as nat)),
            SpecToken::OPENPAREN => {
                proof {
                    lemma_lex_token_bounds(s, p);
                }
                match spec_expression(s, e) {
                    Err(k) => Err(k),
                    Ok((x, n)) => match token_at(s, e + n) {
                        Err(k) => Err(k),
                        Ok((c, e2)) => if c is CLOSEPAREN {
                            Ok((x, (e2 - p) as nat))
                        } else {
                            Err(SyntaxError::Parse(ParseError::MissingCloseParen))
                        },
                    },
                }
            },
            _ => Err(SyntaxError::Parse(ParseError::ExpectedPrimary)),
        },
    }
}

/// A primary expression, with an optional sign in front.
pub open spec fn spec_unary(s: Seq<char>, p: nat) -> Result<(SpecExpr, nat), SyntaxError>
    decreases remaining(s, p), 2nat,
{
    match token_at(s, p) {
        Err(k) => Err(k),
        Ok((t, e)) => if t is PLUS || t is MINUS {
            let op = if t is PLUS {
                UnaryOp::Plus
            } else {
                UnaryOp::Minus
            };
            proof {
                lemma_lex_token_bounds(s, p);
            }
            match spec_primary(s, e) {
                Err(k) => Err(k),
                Ok((x, n)) => Ok((SpecExpr::Unary(op, Box::new(x)), (e - p + n) as nat)),
            }
        } else {
            spec_primary(s, p)
        },
    }
}

/// The rest of a product or quotient whose left operand `lhs` has been read.
pub open spec fn spec_term_rest(s: Seq<char>, p: nat, lhs: SpecExpr) -> Result<
    (SpecExpr, nat),
    SyntaxError,
>
    decreases remaining(s, p), 3nat,
{
    match token_at(s, p) {
        Err(k) => Err(k),
        Ok((t, e)) => if t is SLASH || t is ASTERISK {
            let op = if t is SLASH {
                BinaryOp::Slash
            } else {
                BinaryOp::Asterisk
            };
            proof {
                lemma_lex_token_bounds(s, p);
            }
            match spec_unary(s, e) {
                Err(k) => Err(k),
                Ok((rhs, n)) => {
                    proof {
                        lemma_remaining(s, p, e + n);
                    }
                    match spec_term_rest(
                        s,
                        e + n,
                        SpecExpr::Binary(op, Box::new(lhs), Box::new(rhs)),
                    ) {
                        Err(k) => Err(k),
                        Ok((x, m)) => Ok((x, (e - p + n + m) as nat)),
                    }
                },
            }
        } else {
            Ok((lhs, 0))
        },
    }
}

/// Products and quotients, grouped from the left.
pub open spec fn spec_term(s: Seq<char>, p: nat) -> Result<(SpecExpr, nat), SyntaxError>
    decreases remaining(s, p), 4nat,
{
    match spec_unary(s, p) {
        Err(k) => Err(k),
        Ok((lhs, n)) => {
            proof {
                lemma_remaining(s, p, p + n);
            }
            match spec_term_rest(s, p + n, lhs) {
                Err(k) => Err(k),
                Ok((x, m)) => Ok((x, n + m)),
            }
        },
    }
}

/// The rest of a sum or difference whose left operand `lhs` has been read.
pub open spec fn spec_math_rest(s: Seq<char>, p: nat, lhs: SpecExpr) -> Result<
    (SpecExpr, nat),
    SyntaxError,
>
    decreases remaining(s, p), 5nat,
{
    match token_at(s, p) {
        Err(k) => Err(k),
        Ok((t, e)) => if t is PLUS || t is MINUS {
            let op = if t is PLUS {
                BinaryOp::Plus
            } else {
                BinaryOp::Minus
            };
            proof {
                lemma_lex_token_bounds(s, p);
            }
            match spec_term(s, e) {
                Err(k) => Err(k),
                Ok((rhs, n)) => {
                    proof {
                        lemma_remaining(s, p, e + n);
                    }
                    match spec_math_rest(
                        s,
                        e + n,
                        SpecExpr::Binary(op, Box::new(lhs), Box::new(rhs)),
                    ) {
                        Err(k) => Err(k),
                        Ok((x, m)) => Ok((x, (e - p + n + m) as nat)),
                    }
                },
            }
        } else {
            Ok((lhs, 0))
        },
    }
}

/// Sums and differences, grouped from the left.
pub open spec fn spec_math(s: Seq<char>, p: nat) -> Result<(SpecExpr, nat), SyntaxError>
    decreases remaining(s, p), 6nat,
{
    match spec_term(s, p) {
        Err(k) => Err(k),
        Ok((lhs, n)) => {
            proof {
                lemma_remaining(s, p, p + n);
            }
            match spec_math_rest(s, p + n, lhs) {
                Err(k) => Err(k),
                Ok((x, m)) => Ok((x, n + m)),
            }
        },
    }
}

/// The rest of a comparison whose left operand `lhs` has been read.
pub open spec fn spec_comparison_rest(s: Seq<char>, p: nat, lhs: SpecExpr) -> Result<
    (SpecExpr, nat),
    SyntaxError,
>
    decreases remaining(s, p), 7nat,
{
    match token_at(s, p) {
        Err(k) => Err(k),
        Ok((t, e)) => if token_is_comparator(t) {
            let op = token_binary_op(t).unwrap();
            proof {
                lemma_lex_token_bounds(s, p);
            }
            match spec_math(s, e) {
                Err(k) => Err(k),
                Ok((rhs, n)) => {
                    proof {
                        lemma_remaining(s, p, e + n);
                    }
                    match spec_comparison_rest(
                        s,
                        e + n,
                        SpecExpr::Binary(op, Box::new(lhs), Box::new(rhs)),
                    ) {
                        Err(k) => Err(k),
                        Ok((x, m)) => Ok((x, (e - p + n + m) as nat)),
                    }
                },
            }
        } else {
            Ok((lhs, 0))
        },
    }
}

/// Comparisons, grouped from the left.
pub open spec fn spec_comparison(s: Seq<char>, p: nat) -> Result<(SpecExpr, nat), SyntaxError>
    decreases remaining(s, p), 8nat,
{
    match spec_math(s, p) {
        Err(k) => Err(k),
        Ok((lhs, n)) => {
            proof {
                lemma_remaining(s, p, p + n);
            }
            match spec_comparison_rest(s, p + n, lhs) {
                Err(k) => Err(k),
                Ok((x, m)) => Ok((x, n + m)),
            }
        },
    }
}

/// A comparison, with an optional `!` in front that applies to all of it.
pub open spec fn spec_not(s: Seq<char>, p: nat) -> Result<(SpecExpr, nat), SyntaxError>
    decreases remaining(s, p), 9nat,
{
    match token_at(s, p) {
        Err(k) => Err(k),
        Ok((t, e)) => if t is NOT {
            proof {
                lemma_lex_token_bounds(s, p);
            }
            match spec_comparison(s, e) {
                Err(k) => Err(k),
                Ok((x, n)) => Ok((SpecExpr::Unary(UnaryOp::Not, Box::new(x)), (e - p + n) as nat)),
            }
        } else {
            spec_comparison(s, p)
        },
    }
}

/// The rest of a conjunction whose left operand `lhs` has been read.
pub open spec fn spec_and_rest(s: Seq<char>, p: nat, lhs: SpecExpr) -> Result<
    (SpecExpr, nat),
    SyntaxError,
>
    decreases remaining(s, p), 10nat,
{
    match token_at(s, p) {
        Err(k) => Err(k),
        Ok((t, e)) => if t is AND {
            proof {
                lemma_lex_token_bounds(s, p);
            }
            match spec_not(s, e) {
                Err(k) => Err(k),
                Ok((rhs, n)) => {
                    proof {
                        lemma_remaining(s, p, e + n);
                    }
                    match spec_and_rest(
                        s,
                        e + n,
                        SpecExpr::Binary(BinaryOp::And, Box::new(lhs), Box::new(rhs)),
                    ) {
                        Err(k) => Err(k),
                        Ok((x, m)) => Ok((x, (e - p + n + m) as nat)),
                    }
                },
            }
        } else {
            Ok((lhs, 0))
        },
    }
}

/// Conjunctions, grouped from the left.
pub open spec fn spec_and(s: Seq<char>, p: nat) -> Result<(SpecExpr, nat), SyntaxError>
    decreases remaining(s, p), 11nat,
{
    match spec_not(s, p) {
        Err(k) => Err(k),
        Ok((lhs, n)) => {
            proof {
                lemma_remaining(s, p, p + n);
            }
            match spec_and_rest(s, p + n, lhs) {
                Err(k) => Err(k),
                Ok((x, m)) => Ok((x, n + m)),
            }
        },
    }
}

/// The rest of a disjunction whose left operand `lhs` has been read.
pub open spec fn spec_or_rest(s: Seq<char>, p: nat, lhs: SpecExpr) -> Result<
    (SpecExpr, nat),
    SyntaxError,
>
    decreases remaining(s, p), 12nat,
{
    match token_at(s, p) {
        Err(k) => Err(k),
        Ok((t, e)) => if t is OR {
            proof {
                lemma_lex_token_bounds(s, p);
            }
            match spec_and(s, e) {
                Err(k) => Err(k),
                Ok((rhs, n)) => {
                    proof {
                        lemma_remaining(s, p, e + n);
                    }
                    match spec_or_rest(
                        s,
                        e + n,
                        SpecExpr::Binary(BinaryOp::Or, Box::new(lhs), Box::new(rhs)),
                    ) {
                        Err(k) => Err(k),
                        Ok((x, m)) => Ok((x, (e - p + n + m) as nat)),
                    }
                },
            }
        } else {
            Ok((lhs, 0))
        },
    }
}

/// An expression: disjunctions, grouped from the left.
pub open spec fn spec_expression(s: Seq<char>, p: nat) -> Result<(SpecExpr, nat), SyntaxError>
    decreases remaining(s, p), 13nat,
{
    match spec_and(s, p) {
        Err(k) => Err(k),
        Ok((lhs, n)) => {
            proof {
                lemma_remaining(s, p, p + n);
            }
            match spec_or_rest(s, p + n, lhs) {
                Err(k) => Err(k),
                Ok((x, m)) => Ok((x, n + m)),
            }
        },
    }
}

/// The token at `q`, if it can be read, passes the test `ok`.
pub open spec fn next_token_is(s: Seq<char>, q: nat, ok: spec_fn(SpecToken) -> bool) -> bool {
    token_at(s, q) matches Ok((t, _e)) ==> ok(t)
}

/// No product or quotient operator.
spec fn after_term(t: SpecToken) -> bool {
    !(t is ASTERISK || t is SLASH)
}

/// No arithmetic operator.
spec fn after_math(t: SpecToken) -> bool {
    after_term(t) && !(t is PLUS || t is MINUS)
}

/// No arithmetic or comparison operator.
spec fn after_comparison(t: SpecToken) -> bool {
    after_math(t) && !token_is_comparator(t)
}

/// No arithmetic or comparison operator, and no `&&`.
spec fn after_and(t: SpecToken) -> bool {
    after_comparison(t) && !(t is AND)
}

proof fn lemma_term_rest_stops(s: Seq<char>, p: nat, lhs: SpecExpr)
    ensures
        spec_term_rest(s, p, lhs) matches Ok((_x, m)) ==> next_token_is(s, p + m, |t| after_term(t)),
    decreases remaining(s, p),
{
    lemma_lex_token_bounds(s, p);
    if let Ok((t, e)) = token_at(s, p) {
        if t is SLASH || t is ASTERISK {
            let op = if t is SLASH { BinaryOp::Slash } else { BinaryOp::Asterisk };
            if let Ok((rhs, n)) = spec_unary(s, e) {
                lemma_remaining(s, p, e + n);
                lemma_term_rest_stops(s, e + n, SpecExpr::Binary(op, Box::new(lhs), Box::new(rhs)));
            }
        }
    }
}

proof fn lemma_term_stops(s: Seq<char>, p: nat)
    ensures
        spec_term(s, p) matches Ok((_x, m)) ==> next_token_is(s, p + m, |t| after_term(t)),
{
    if let Ok((lhs, n)) = spec_unary(s, p) {
        lemma_term_rest_stops(s, p + n, lhs);
    }
}

proof fn lemma_math_rest_stops(s: Seq<char>, p: nat, lhs: SpecExpr)
    requires
        next_token_is(s, p, |t| after_term(t)),
    ensures
        spec_math_rest(s, p, lhs) matches Ok((_x, m)) ==> next_token_is(s, p + m, |t| after_math(t)),
    decreases remaining(s, p),
{
    lemma_lex_token_bounds(s, p);
    if let Ok((t, e)) = token_at(s, p) {
        if t is PLUS || t is MINUS {
            let op = if t is PLUS { BinaryOp::Plus } else { BinaryOp::Minus };
            lemma_term_stops(s, e);
            if let Ok((rhs, n)) = spec_term(s, e) {
                lemma_remaining(s, p, e + n);
                lemma_math_rest_stops(s, e + n, SpecExpr::Binary(op, Box::new(lhs), Box::new(rhs)));
            }
        }
    }
}

proof fn lemma_math_stops(s: Seq<char>, p: nat)
    ensures
        spec_math(s, p) matches Ok((_x, m)) ==> next_token_is(s, p + m, |t| after_math(t)),
{
    lemma_term_stops(s, p);
    if let Ok((lhs, n)) = spec_term(s, p) {
        lemma_math_rest_stops(s, p + n, lhs);
    }
}

proof fn lemma_comparison_rest_stops(s: Seq<char>, p: nat, lhs: SpecExpr)
    requires
        next_token_is(s, p, |t| after_math(t)),
    ensures
        spec_comparison_rest(s, p, lhs) matches Ok((_x, m)) ==> next_token_is(
            s,
            p + m,
            |t| after_comparison(t),
        ),
    decreases remaining(s, p),
{
    lemma_lex_token_bounds(s, p);
    if let Ok((t, e)) = token_at(s, p) {
        if token_is_comparator(t) {
            let op = token_binary_op(t).unwrap();
            lemma_math_stops(s, e);
            if let Ok((rhs, n)) = spec_math(s, e) {
                lemma_remaining(s, p, e + n);
                lemma_comparison_rest_stops(
                    s,
                    e + n,
                    SpecExpr::Binary(op, Box::new(lhs), Box::new(rhs)),
                );
            }
        }
    }
}

proof fn lemma_comparison_stops(s: Seq<char>, p: nat)
    ensures
        spec_comparison(s, p) matches Ok((_x, m)) ==> next_token_is(
            s,
            p + m,
            |t| after_comparison(t),
        ),
{
    lemma_math_stops(s, p);
    if let Ok((lhs, n)) = spec_math(s, p) {
        lemma_comparison_rest_stops(s, p + n, lhs);
    }
}

proof fn lemma_not_stops(s: Seq<char>, p: nat)
    ensures
        spec_not(s, p) matches Ok((_x, m)) ==> next_token_is(s, p + m, |t| after_comparison(t)),
{
    lemma_lex_token_bounds(s, p);
    lemma_comparison_stops(s, p);
    if let Ok((t, e)) = token_at(s, p) {
        lemma_comparison_stops(s, e);
    }
}

proof fn lemma_and_rest_stops(s: Seq<char>, p: nat, lhs: SpecExpr)
    requires
        next_token_is(s, p, |t| after_comparison(t)),
    ensures
        spec_and_rest(s, p, lhs) matches Ok((_x, m)) ==> next_token_is(s, p + m, |t| after_and(t)),
    decreases remaining(s, p),
{
    lemma_lex_token_bounds(s, p);
    if let Ok((t, e)) = token_at(s, p) {
        if t is AND {
            lemma_not_stops(s, e);
            if let Ok((rhs, n)) = spec_not(s, e) {
                lemma_remaining(s, p, e + n);
                lemma_and_rest_stops(
                    s,
                    e + n,
                    SpecExpr::Binary(BinaryOp::And, Box::new(lhs), Box::new(rhs)),
                );
            }
        }
    }
}

proof fn lemma_and_stops(s: Seq<char>, p: nat)
    ensures
        spec_and(s, p) matches Ok((_x, m)) ==> next_token_is(s, p + m, |t| after_and(t)),
{
    lemma_not_stops(s, p);
    if let Ok((lhs, n)) = spec_not(s, p) {
        lemma_and_rest_stops(s, p + n, lhs);
    }
}

proof fn lemma_or_rest_stops(s: Seq<char>, p: nat, lhs: SpecExpr)
    requires
        next_token_is(s, p, |t| after_and(t)),
    ensures
        spec_or_rest(s, p, lhs) matches Ok((_x, m)) ==> next_token_is(
            s,
            p + m,
            |t| token_binary_op(t) is None,
        ),
    decreases remaining(s, p),
{
    lemma_lex_token_bounds(s, p);
    if let Ok((t, e)) = token_at(s, p) {
        if t is OR {
            lemma_and_stops(s, e);
            if let Ok((rhs, n)) = spec_and(s, e) {
                lemma_remaining(s, p, e + n);
                lemma_or_rest_stops(
                    s,
                    e + n,
                    SpecExpr::Binary(BinaryOp::Or, Box::new(lhs), Box::new(rhs)),
                );
            }
        }
    }
}

/// An expression is read as far as it goes: it ends only before a token that
/// is no binary operator. So every operand takes in all the operators of
/// higher precedence after it; the right operand of a comparison, for one,
/// is a whole sum or difference, not just its first term.
pub proof fn lemma_expression_is_maximal(s: Seq<char>, p: nat)
    ensures
        spec_expression(s, p) matches Ok((_x, n)) ==> (token_at(s, p + n) matches Ok((t, _e))
            ==> token_binary_op(t) is None),
{
    lemma_and_stops(s, p);
    if let Ok((lhs, n)) = spec_and(s, p) {
        lemma_or_rest_stops(s, p + n, lhs);
    }
}

/// Which block a run of statements belongs to, and so which tokens end it.
#[derive(Debug, PartialEq, Eq, Structural, Copy, Clone)]
pub enum BodyEnd {
    /// The body of an `IF` or `ELSEIF` branch: ended by `ENDIF`, `ELSEIF` or `ELSE`.
    Branch,
    /// The body after `ELSE`: ended by `ENDIF`.
    Else,
    /// The body of a `WHILE` loop: ended by `ENDWHILE`.
    Loop,
}

/// Whether `t` ends a body of the kind `end`.
pub open spec fn ends_body(t: SpecToken, end: BodyEnd) -> bool {
    match end {
        BodyEnd::Branch => t is ENDIF || t is ELSEIF || t is ELSE,
        BodyEnd::Else => t is ENDIF,
        BodyEnd::Loop => t is ENDWHILE,
    }
}

/// The statements of a body, up to the token that ends it (not read).
#[verifier::opaque]
pub open spec fn spec_body(s: Seq<char>, p: nat, end: BodyEnd) -> Result<
    (Seq<SpecStmt>, nat),
    SyntaxError,
>
    decreases remaining(s, p), 22nat,
{
    match token_at(s, p) {
        Err(k) => Err(k),
        Ok((t, _e)) => if ends_body(t, end) {
            Ok((Seq::empty(), 0))
        } else {
            match stmt_head(s, p) {
                Err(k) => Err(k),
                Ok((h, e)) => {
                    proof {
                        lemma_stmt_head(s, p);
                    }
                    match spec_statement_tail(s, e, h) {
                        Err(k) => Err(k),
                        Ok((st, n)) => {
                            proof {
                                lemma_remaining(s, p, e + n);
                            }
                            match spec_body(s, e + n, end) {
                                Err(k) => Err(k),
                                Ok((rest, m)) => Ok((seq![st] + rest, (e - p + n + m) as nat)),
                            }
                        },
                    }
                },
            }
        },
    }
}

/// A statement whose first token `head` has been read, and the newline that
/// ends it.
pub open spec fn spec_statement_tail(s: Seq<char>, p: nat, head: SpecToken) -> Result<
    (SpecStmt, nat),
    SyntaxError,
>
    decreases remaining(s, p), 21nat,
{
    match spec_statement_body(s, p, head) {
        Err(k) => Err(k),
        Ok((st, n)) => match token_at(s, p + n) {
            Err(k) => Err(k),
            Ok((t, e)) => if t is NEWLINE {
                Ok((st, (e - p) as nat))
            } else {
                Err(SyntaxError::Parse(ParseError::ExpectedNewline))
            },
        },
    }
}

/// A condition, `THEN`, a newline and the body of an `IF` or `ELSEIF` branch.
pub open spec fn spec_if_branch(s: Seq<char>, p: nat) -> Result<(SpecIfBranch, nat), SyntaxError>
    decreases remaining(s, p), 18nat,
{
    match spec_expression(s, p) {
        Err(k) => Err(k),
        Ok((c, n)) => match token_at(s, p + n) {
            Err(k) => Err(k),
            Ok((t, e)) => if t is THEN {
                match newline_after(s, e) {
                    Err(k) => Err(k),
                    Ok(e2) => {
                        proof {
                            lemma_lex_token_bounds(s, p + n);
                            lemma_newline_after(s, e);
                            lemma_remaining(s, p, p + n);
                            lemma_remaining(s, p + n, e2);
                        }
                        match spec_body(s, e2, BodyEnd::Branch) {
                            Err(k) => Err(k),
                            Ok((body, m)) => Ok(
                                (SpecIfBranch { condition: c, body }, (e2 - p + m) as nat),
                            ),
                        }
                    },
                }
            } else {
                Err(SyntaxError::Parse(ParseError::ExpectedThen))
            },
        },
    }
}

/// The `ELSEIF` branches of an `IF` statement.
#[verifier::opaque]
pub open spec fn spec_elseif_branches(s: Seq<char>, p: nat) -> Result<
    (Seq<SpecIfBranch>, nat),
    SyntaxError,
>
    decreases remaining(s, p), 17nat,
{
    match token_at(s, p) {
        Err(k) => Err(k),
        Ok((t, e)) => if t is ELSEIF {
            proof {
                lemma_lex_token_bounds(s, p);
            }
            match spec_if_branch(s, e) {
                Err(k) => Err(k),
                Ok((b, n)) => {
                    proof {
                        lemma_remaining(s, p, e + n);
                    }
                    match spec_elseif_branches(s, e + n) {
                        Err(k) => Err(k),
                        Ok((bs, m)) => Ok((seq![b] + bs, (e - p + n + m) as nat)),
                    }
                },
            }
        } else {
            Ok((Seq::empty(), 0))
        },
    }
}

/// The `ELSE` part of an `IF` statement, if there is one.
pub open spec fn spec_else_part(s: Seq<char>, p: nat) -> Result<
    (Option<Seq<SpecStmt>>, nat),
    SyntaxError,
>
    decreases remaining(s, p), 16nat,
{
    match token_at(s, p) {
        Err(k) => Err(k),
        Ok((t, e)) => if t is ELSE {
            match newline_after(s, e) {
                Err(k) => Err(k),
                Ok(e2) => {
                    proof {
                        lemma_lex_token_bounds(s, p);
                        lemma_newline_after(s, e);
                        lemma_remaining(s, e, e2);
                    }
                    match spec_body(s, e2, BodyEnd::Else) {
                        Err(k) => Err(k),
                        Ok((body, m)) => Ok((Some(body), (e2 - p + m) as nat)),
                    }
                },
            }
        } else {
            Ok((None, 0))
        },
    }
}

/// The rest of an `IF` statement after the keyword `IF`.
pub open spec fn spec_if_stmt(s: Seq<char>, p: nat) -> Result<(SpecIfStmt, nat), SyntaxError>
    decreases remaining(s, p), 19nat,
{
    match spec_if_branch(s, p) {
        Err(k) => Err(k),
        Ok((first_branch, n1)) => {
            proof {
                lemma_remaining(s, p, p + n1);
            }
            match spec_elseif_branches(s, p + n1) {
                Err(k) => Err(k),
                Ok((other_branches, n2)) => {
                    proof {
                        lemma_remaining(s, p + n1, p + n1 + n2);
                    }
                    match spec_else_part(s, p + n1 + n2) {
                        Err(k) => Err(k),
                        Ok((else_body, n3)) => match token_at(s, p + n1 + n2 + n3) {
                            Err(k) => Err(k),
                            Ok((t, e)) => if t is ENDIF {
                                Ok(
                                    (
                                        SpecIfStmt { first_branch, other_branches, else_body },
                                        (e - p) as nat,
                                    ),
                                )
                            } else {
                                Err(SyntaxError::Parse(ParseError::ExpectedEndif))
                            },
                        },
                    }
                },
            }
        },
    }
}

/// The rest of a `WHILE` statement after the keyword `WHILE`.
pub open spec fn spec_while_stmt(s: Seq<char>, p: nat) -> Result<
    (SpecWhileStmt, nat),
    SyntaxError,
>
    decreases remaining(s, p), 19nat,
{
    match spec_expression(s, p) {
        Err(k) => Err(k),
        Ok((condition, n)) => match token_at(s, p + n) {
            Err(k) => Err(k),
            Ok((t, e)) => if t is REPEAT {
                match newline_after(s, e) {
                    Err(k) => Err(k),
                    Ok(e2) => {
                        proof {
                            lemma_lex_token_bounds(s, p + n);
                            lemma_newline_after(s, e);
                            lemma_remaining(s, p, p + n);
                            lemma_remaining(s, p + n, e2);
                        }
                        match spec_body(s, e2, BodyEnd::Loop) {
                            Err(k) => Err(k),
                            Ok((body, m)) => match token_at(s, e2 + m) {
                                Err(k) => Err(k),
                                Ok((_t, e3)) => Ok(
                                    (SpecWhileStmt { condition, body }, (e3 - p) as nat),
                                ),
                            },
                        }
                    },
                }
            } else {
                Err(SyntaxError::Parse(ParseError::ExpectedRepeat))
            },
        },
    }
}

/// The identifier at `p`.
pub open spec fn ident_at(s: Seq<char>, p: nat) -> Result<(Seq<char>, nat), SyntaxError> {
    match token_at(s, p) {
        Err(k) => Err(k),
        Ok((t, e)) => match t {
            SpecToken::IDENT(i) => Ok((i, e)),
            _ => Err(SyntaxError::Parse(ParseError::ExpectedIdent)),
        },
    }
}

/// The rest of a statement after its first token `head`, up to its newline.
pub open spec fn spec_statement_body(s: Seq<char>, p: nat, head: SpecToken) -> Result<
    (SpecStmt, nat),
    SyntaxError,
>
    decreases remaining(s, p), 20nat,
{
    match head {
        SpecToken::PRINT => match token_at(s, p) {
            Err(k) => Err(k),
            Ok((t, e)) => match t {
                SpecToken::STRING(v) => Ok((SpecStmt::Print(SpecPrintValue::Str(v)), (e - p) as nat)),
                _ => match spec_expression(s, p) {
                    Err(k) => Err(k),
                    Ok((x, n)) => Ok((SpecStmt::Print(SpecPrintValue::Expr(x)), n)),
                },
            },
        },
        SpecToken::IF => match spec_if_stmt(s, p) {
            Err(k) => Err(k),
            Ok((i, n)) => Ok((SpecStmt::If(i), n)),
        },
        SpecToken::WHILE => match spec_while_stmt(s, p) {
            Err(k) => Err(k),
            Ok((w, n)) => Ok((SpecStmt::While(w), n)),
        },
        SpecToken::LABEL => match ident_at(s, p) {
            Err(k) => Err(k),
            Ok((i, e)) => Ok((SpecStmt::Label(i), (e - p) as nat)),
        },
        SpecToken::GOTO => match ident_at(s, p) {
            Err(k) => Err(k),
            Ok((i, e)) => Ok((SpecStmt::Goto(i), (e - p) as nat)),
        },
        SpecToken::INPUT => match ident_at(s, p) {
            Err(k) => Err(k),
            Ok((i, e)) => Ok((SpecStmt::Input(i), (e - p) as nat)),
        },
        SpecToken::LET => match ident_at(s, p) {
            Err(k) => Err(k),
            Ok((i, e)) => match token_at(s, e) {
                Err(k) => Err(k),
                Ok((t, e2)) => if t is EQ {
                    proof {
                        lemma_lex_token_bounds(s, p);
                        lemma_lex_token_bounds(s, e);
                        lemma_remaining(s, p, e2);
                    }
                    match spec_expression(s, e2) {
                        Err(k) => Err(k),
                        Ok((x, n)) => Ok((SpecStmt::Let(i, x), (e2 - p + n) as nat)),
                    }
                } else {
                    Err(SyntaxError::Parse(ParseError::ExpectedEq))
                },
            },
        },
        _ => Err(SyntaxError::Parse(ParseError::ExpectedStatement)),
    }
}

/// Shifts the count of characters taken by a parse result by `d`.
pub open spec fn after<T>(r: Result<(T, nat), SyntaxError>, d: nat) -> Result<(T, nat), SyntaxError> {
    match r {
        Ok((v, n)) => Ok((v, d + n)),
        Err(k) => Err(k),
    }
}

/// Puts `pre` in front of the statements of a parse result and shifts its count by `d`.
pub open spec fn after_stmts(
    r: Result<(Seq<SpecStmt>, nat), SyntaxError>,
    pre: Seq<SpecStmt>,
    d: nat,
) -> Result<(Seq<SpecStmt>, nat), SyntaxError> {
    match r {
        Ok((v, n)) => Ok((pre + v, d + n)),
        Err(k) => Err(k),
    }
}

/// Puts `pre` in front of the branches of a parse result and shifts its count by `d`.
pub open spec fn after_branches(
    r: Result<(Seq<SpecIfBranch>, nat), SyntaxError>,
    pre: Seq<SpecIfBranch>,
    d: nat,
) -> Result<(Seq<SpecIfBranch>, nat), SyntaxError> {
    match r {
        Ok((v, n)) => Ok((pre + v, d + n)),
        Err(k) => Err(k),
    }
}

/// Puts `pre` in front of the statements of a program parse result.
pub open spec fn after_program(r: Result<Seq<SpecStmt>, SyntaxError>, pre: Seq<SpecStmt>) -> Result<
    Seq<SpecStmt>,
    SyntaxError,
> {
    match r {
        Ok(v) => Ok(pre + v),
        Err(k) => Err(k),
    }
}

/// One step of a body: it ends where its ending token is, or else it is
/// the statement at `p` followed by the body after it.
pub proof fn lemma_body_unfold(s: Seq<char>, p: nat, end: BodyEnd)
    ensures
        spec_body(s, p, end) == match token_at(s, p) {
            Err(k) => Err(k),
            Ok((t, _e)) => if ends_body(t, end) {
                Ok((Seq::empty(), 0))
            } else {
                match spec_statement(s, p) {
                    Err(k) => Err(k),
                    Ok((st, n)) => after_stmts(spec_body(s, p + n, end), seq![st], n),
                }
            },
        },
{
    reveal(spec_body);
    lemma_stmt_head(s, p);
}

/// One step of the `ELSEIF` branches: they end where no `ELSEIF` is, or
/// else they are the branch after the keyword followed by those after it.
pub proof fn lemma_elseif_unfold(s: Seq<char>, p: nat)
    ensures
        spec_elseif_branches(s, p) == match token_at(s, p) {
            Err(k) => Err(k),
            Ok((t, e)) => if t is ELSEIF {
                match spec_if_branch(s, e) {
                    Err(k) => Err(k),
                    Ok((b, n)) => after_branches(
                        spec_elseif_branches(s, e + n),
                        seq![b],
                        (e - p + n) as nat,
                    ),
                }
            } else {
                Ok((Seq::empty(), 0))
            },
        },
{
    reveal(spec_elseif_branches);
    lemma_lex_token_bounds(s, p);
}

/// One step of a program: it ends at the end of input, or else it is the
/// statement at `p` followed by the rest after the newlines after it.
pub proof fn lemma_program_unfold(s: Seq<char>, p: nat)
    ensures
        spec_program_rest(s, p) == match token_at(s, p) {
            Err(k) => Err(k),
            Ok((t, _e)) => if t is EOF {
                Ok(Seq::empty())
            } else {
                match spec_statement(s, p) {
                    Err(k) => Err(k),
                    Ok((st, n)) => match skip_newlines(s, p + n) {
                        Err(k) => Err(k),
                        Ok(q) => after_program(spec_program_rest(s, q), seq![st]),
                    },
                }
            },
        },
{
    reveal(spec_program_rest);
}

/// A statement at `p`, after any newlines, up to the newline that ends it.
pub open spec fn spec_statement(s: Seq<char>, p: nat) -> Result<(SpecStmt, nat), SyntaxError> {
    match stmt_head(s, p) {
        Err(k) => Err(k),
        Ok((h, e)) => match spec_statement_tail(s, e, h) {
            Err(k) => Err(k),
            Ok((st, n)) => Ok((st, (e - p + n) as nat)),
        },
    }
}

/// The statements from `p` to the end of input, each followed by newlines.
#[verifier::opaque]
pub open spec fn spec_program_rest(s: Seq<char>, p: nat) -> Result<Seq<SpecStmt>, SyntaxError>
    decreases remaining(s, p),
{
    match token_at(s, p) {
        Err(k) => Err(k),
        Ok((t, _e)) => if t is EOF {
            Ok(Seq::empty())
        } else {
            match spec_statement(s, p) {
                Err(k) => Err(k),
                Ok((st, n)) => match skip_newlines(s, p + n) {
                    Err(k) => Err(k),
                    Ok(q) => {
                        proof {
                            lemma_stmt_head(s, p);
                            lemma_skip_newlines(s, p + n);
                            lemma_remaining(s, p, q);
                        }
                        match spec_program_rest(s, q) {
                            Err(k) => Err(k),
                            Ok(rest) => Ok(seq![st] + rest),
                        }
                    },
                }
            }
        },
    }
}

/// A whole program from `p`: leading newlines, then statements to the end of input.
pub open spec fn spec_program(s: Seq<char>, p: nat) -> Result<Seq<SpecStmt>, SyntaxError> {
    match skip_newlines(s, p) {
        Err(k) => Err(k),
        Ok(q) => spec_program_rest(s, q),
    }
}

} // verus!
