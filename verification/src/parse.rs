//! The parser: a recursive-descent parser over the lexer's tokens, proved to
//! compute the grammar of `grammar`.
use vstd::prelude::*;

use crate::ast::{
    lemma_branches_view_push, lemma_stmts_view_empty, lemma_stmts_view_push, stmts_view,
    branches_view, Expr, IfBranch, IfStmt, PrintValue, SpecIfBranch, SpecStmt, Stmt, WhileStmt,
};
use crate::error::{Error, ErrorView};
use crate::grammar::{
    lemma_remaining, newline_after, parse_error_message, remaining, skip_newlines, spec_and,
    spec_and_rest, spec_comparison, spec_comparison_rest, spec_expression, spec_math,
    spec_math_rest, spec_not, spec_or_rest, spec_primary, spec_term, spec_term_rest, spec_unary,
    syntax_error_view, token_at, ParseError, SyntaxError, spec_body, spec_statement,
    spec_statement_body, spec_if_branch, spec_if_stmt, spec_while_stmt, spec_elseif_branches,
    spec_else_part, spec_program, spec_program_rest, stmt_head, ends_body, BodyEnd,
    lemma_stmt_head, lemma_skip_newlines, lemma_newline_after, after, after_stmts, after_branches,
    after_program, lemma_body_unfold, lemma_elseif_unfold, lemma_program_unfold,
};
use crate::lex::{lemma_lex_token_bounds, Lexer};
use crate::token::{BinaryOp, Token, UnaryOp};

verus! {

/// The parser went from `before` to `after` and answered `r`, as `expected` says:
/// the value and the characters it took, or the error.
pub open spec fn outcome<T: View>(
    r: Result<T, Error>,
    expected: Result<(T::V, nat), SyntaxError>,
    before: Parser,
    after: Parser,
) -> bool {
    &&& after.wf()
    &&& after.input() == before.input()
    &&& match expected {
        Ok((v, n)) => r matches Ok(x) && x@ == v && after.position() == before.position() + n,
        Err(k) => r matches Err(e) && e@ == syntax_error_view(before.input(), k),
    }
}

/// As [`outcome`], for a run of statements.
pub open spec fn stmts_outcome(
    r: Result<Vec<Stmt>, Error>,
    expected: Result<(Seq<SpecStmt>, nat), SyntaxError>,
    before: Parser,
    after: Parser,
) -> bool {
    &&& after.wf()
    &&& after.input() == before.input()
    &&& match expected {
        Ok((v, n)) => r matches Ok(x) && stmts_view(x@) == v && after.position()
            == before.position() + n,
        Err(k) => r matches Err(e) && e@ == syntax_error_view(before.input(), k),
    }
}

/// As [`outcome`], for a step that only moves the parser.
pub open spec fn move_outcome(
    r: Result<(), Error>,
    expected: Result<nat, SyntaxError>,
    before: Parser,
    after: Parser,
) -> bool {
    &&& after.wf()
    &&& after.input() == before.input()
    &&& match expected {
        Ok(q) => r is Ok && after.position() == q,
        Err(k) => r matches Err(e) && e@ == syntax_error_view(before.input(), k),
    }
}

/// Whether `t` ends a body of the kind `end`.
fn ends(t: &Token, end: BodyEnd) -> (r: bool)
    ensures
        r == ends_body(t@, end),
{
    match end {
        BodyEnd::Branch => matches!(t, Token::ENDIF | Token::ELSEIF | Token::ELSE),
        BodyEnd::Else => matches!(t, Token::ENDIF),
        BodyEnd::Loop => matches!(t, Token::ENDWHILE),
    }
}

/// The error value of a parser error.
fn parse_error(k: ParseError) -> (e: Error)
    ensures
        e@ == ErrorView::Parse(parse_error_message(k)),
{
    Error::Parse(k.message())
}

/// A parser of teeny programs.
pub struct Parser {
    lexer: Lexer,
}

impl Parser {
    /// The characters being parsed.
    pub closed spec fn input(&self) -> Seq<char> {
        self.lexer.input()
    }

    /// The position in the input where parsing goes on.
    pub closed spec fn position(&self) -> nat {
        self.lexer.position()
    }

    /// The parser's lexer is well formed.
    pub closed spec fn wf(&self) -> bool {
        self.lexer.wf()
    }

    proof fn lemma_wf(&self)
        requires
            self.wf(),
        ensures
            self.position() <= self.input().len(),
    {
        self.lexer.lemma_wf();
    }

    /// A parser of `s`, to which a final newline is added.
    pub fn from_str(s: &str) -> (r: Parser)
        ensures
            r.wf(),
            r.input() == s@ + seq!['\n'],
            r.position() == 0,
    {
        Parser { lexer: Lexer::new(s) }
    }

    /// A parser of what `lexer` has left.
    pub fn new(lexer: Lexer) -> (r: Parser)
        requires
            lexer.wf(),
        ensures
            r.wf(),
            r.input() == lexer.input(),
            r.position() == lexer.position(),
    {
        Parser { lexer }
    }

    fn newline_optional(&mut self) -> (r: Result<(), Error>)
        requires
            old(self).wf(),
        ensures
            move_outcome(r, skip_newlines(old(self).input(), old(self).position()), *old(self), *final(self)),
    {
        let ghost s = self.input();
        let ghost p0 = self.position();
        loop
            invariant
                self.wf(),
                self.input() == s,
                s == old(self).input(),
                p0 == old(self).position(),
                skip_newlines(s, p0) == skip_newlines(s, self.position()),
            decreases remaining(s, self.position()),
        {
            let ghost p = self.position();
            proof {
                lemma_lex_token_bounds(s, p);
                self.lemma_wf();
            }
            let t = self.lexer.peek_token()?;
            if matches!(t, Token::NEWLINE) {
                self.lexer.next_token()?;
            } else {
                return Ok(());
            }
        }
    }

    fn single_newline(&mut self) -> (r: Result<(), Error>)
        requires
            old(self).wf(),
        ensures
            move_outcome(
                r,
                match token_at(old(self).input(), old(self).position()) {
                    Err(k) => Err(k),
                    Ok((t, e)) => if t is NEWLINE {
                        Ok(e)
                    } else {
                        Err(SyntaxError::Parse(ParseError::ExpectedNewline))
                    },
                },
                *old(self),
                *final(self),
            ),
    {
        match self.lexer.next_token()? {
            Token::NEWLINE => Ok(()),
            _ => Err(parse_error(ParseError::ExpectedNewline)),
        }
    }

    fn newline(&mut self) -> (r: Result<(), Error>)
        requires
            old(self).wf(),
        ensures
            move_outcome(r, newline_after(old(self).input(), old(self).position()), *old(self), *final(self)),
    {
        match self.lexer.next_token()? {
            Token::NEWLINE => self.newline_optional(),
            _ => Err(parse_error(ParseError::ExpectedNewline)),
        }
    }

    fn primary(&mut self) -> (r: Result<Expr, Error>)
        requires
            old(self).wf(),
        ensures
            outcome(r, spec_primary(old(self).input(), old(self).position()), *old(self), *final(self)),
        decreases remaining(old(self).input(), old(self).position()), 1nat,
    {
        proof {
            lemma_lex_token_bounds(self.input(), self.position());
            self.lemma_wf();
        }
        match self.lexer.next_token()? {
            Token::NUMBER(n) => Ok(Expr::Number(n)),
            Token::IDENT(s) => Ok(Expr::Identifier(s)),
            Token::OPENPAREN => {
                let expr = self.expression()?;
                proof {
                    lemma_lex_token_bounds(self.input(), self.position());
                }
                if !matches!(self.lexer.next_token()?, Token::CLOSEPAREN) {
                    return Err(parse_error(ParseError::MissingCloseParen));
                }
                Ok(expr)
            },
            _ => Err(parse_error(ParseError::ExpectedPrimary)),
        }
    }

    fn unary_expr(&mut self) -> (r: Result<Expr, Error>)
        requires
            old(self).wf(),
        ensures
            outcome(r, spec_unary(old(self).input(), old(self).position()), *old(self), *final(self)),
        decreases remaining(old(self).input(), old(self).position()), 2nat,
    {
        proof {
            lemma_lex_token_bounds(self.input(), self.position());
            self.lemma_wf();
        }
        if matches!(self.lexer.peek_token()?, Token::PLUS | Token::MINUS) {
            let unary_op = match self.lexer.next_token()? {
                Token::PLUS => UnaryOp::Plus,
                _ => UnaryOp::Minus,
            };
            let expr = Box::new(self.primary()?);
            Ok(Expr::Unary(unary_op, expr))
        } else {
            self.primary()
        }
    }

    fn term_expr(&mut self) -> (r: Result<Expr, Error>)
        requires
            old(self).wf(),
        ensures
            outcome(r, spec_term(old(self).input(), old(self).position()), *old(self), *final(self)),
        decreases remaining(old(self).input(), old(self).position()), 4nat,
    {
        let ghost s = self.input();
        let ghost p0 = self.position();
        let mut lhs = self.unary_expr()?;
        loop
            invariant
                self.wf(),
                self.input() == s,
                s == old(self).input(),
                p0 == old(self).position(),
                p0 <= self.position(),
                spec_term(s, p0) == after(
                    spec_term_rest(s, self.position(), lhs@),
                    (self.position() - p0) as nat,
                ),
            decreases remaining(s, self.position()),
        {
            let ghost p = self.position();
            proof {
                lemma_lex_token_bounds(s, p);
                self.lemma_wf();
            }
            if matches!(self.lexer.peek_token()?, Token::SLASH | Token::ASTERISK) {
                let binary_op = match self.lexer.next_token()? {
                    Token::SLASH => BinaryOp::Slash,
                    _ => BinaryOp::Asterisk,
                };
                proof {
                    lemma_remaining(s, p0, self.position());
                }
                let rhs = self.unary_expr()?;
                lhs = Expr::Binary(binary_op, Box::new(lhs), Box::new(rhs));
            } else {
                return Ok(lhs);
            }
        }
    }

    fn math_expr(&mut self) -> (r: Result<Expr, Error>)
        requires
            old(self).wf(),
        ensures
            outcome(r, spec_math(old(self).input(), old(self).position()), *old(self), *final(self)),
        decreases remaining(old(self).input(), old(self).position()), 6nat,
    {
        let ghost s = self.input();
        let ghost p0 = self.position();
        let mut lhs = self.term_expr()?;
        loop
            invariant
                self.wf(),
                self.input() == s,
                s == old(self).input(),
                p0 == old(self).position(),
                p0 <= self.position(),
                spec_math(s, p0) == after(
                    spec_math_rest(s, self.position(), lhs@),
                    (self.position() - p0) as nat,
                ),
            decreases remaining(s, self.position()),
        {
            let ghost p = self.position();
            proof {
                lemma_lex_token_bounds(s, p);
                self.lemma_wf();
            }
            if matches!(self.lexer.peek_token()?, Token::PLUS | Token::MINUS) {
                let binary_op = match self.lexer.next_token()? {
                    Token::PLUS => BinaryOp::Plus,
                    _ => BinaryOp::Minus,
                };
                proof {
                    lemma_remaining(s, p0, self.position());
                }
                let rhs = self.term_expr()?;
                lhs = Expr::Binary(binary_op, Box::new(lhs), Box::new(rhs));
            } else {
                return Ok(lhs);
            }
        }
    }

    fn comparison_expr(&mut self) -> (r: Result<Expr, Error>)
        requires
            old(self).wf(),
        ensures
            outcome(r, spec_comparison(old(self).input(), old(self).position()), *old(self), *final(self)),
        decreases remaining(old(self).input(), old(self).position()), 8nat,
    {
        let ghost s = self.input();
        let ghost p0 = self.position();
        let mut lhs = self.math_expr()?;
        loop
            invariant
                self.wf(),
                self.input() == s,
                s == old(self).input(),
                p0 == old(self).position(),
                p0 <= self.position(),
                spec_comparison(s, p0) == after(
                    spec_comparison_rest(s, self.position(), lhs@),
                    (self.position() - p0) as nat,
                ),
            decreases remaining(s, self.position()),
        {
            let ghost p = self.position();
            proof {
                lemma_lex_token_bounds(s, p);
                self.lemma_wf();
            }
            if self.lexer.peek_token()?.is_comparator() {
                let binary_op = match self.lexer.next_token()?.binary_op() {
                    Some(op) => op,
                    None => BinaryOp::EqEq,
                };
                proof {
                    lemma_remaining(s, p0, self.position());
                }
                let rhs = self.math_expr()?;
                lhs = Expr::Binary(binary_op, Box::new(lhs), Box::new(rhs));
            } else {
                return Ok(lhs);
            }
        }
    }

    fn not_expr(&mut self) -> (r: Result<Expr, Error>)
        requires
            old(self).wf(),
        ensures
            outcome(r, spec_not(old(self).input(), old(self).position()), *old(self), *final(self)),
        decreases remaining(old(self).input(), old(self).position()), 9nat,
    {
        proof {
            lemma_lex_token_bounds(self.input(), self.position());
            self.lemma_wf();
        }
        if matches!(self.lexer.peek_token()?, Token::NOT) {
            let unary_op = UnaryOp::Not;
            let _ = self.lexer.next_token()?;
            let expr = self.comparison_expr()?;
            Ok(Expr::Unary(unary_op, Box::new(expr)))
        } else {
            self.comparison_expr()
        }
    }

    fn and_expr(&mut self) -> (r: Result<Expr, Error>)
        requires
            old(self).wf(),
        ensures
            outcome(r, spec_and(old(self).input(), old(self).position()), *old(self), *final(self)),
        decreases remaining(old(self).input(), old(self).position()), 11nat,
    {
        let ghost s = self.input();
        let ghost p0 = self.position();
        let mut lhs = self.not_expr()?;
        loop
            invariant
                self.wf(),
                self.input() == s,
                s == old(self).input(),
                p0 == old(self).position(),
                p0 <= self.position(),
                spec_and(s, p0) == after(
                    spec_and_rest(s, self.position(), lhs@),
                    (self.position() - p0) as nat,
                ),
            decreases remaining(s, self.position()),
        {
            let ghost p = self.position();
            proof {
                lemma_lex_token_bounds(s, p);
                self.lemma_wf();
            }
            if matches!(self.lexer.peek_token()?, Token::AND) {
                let _ = self.lexer.next_token()?;
                proof {
                    lemma_remaining(s, p0, self.position());
                }
                let rhs = self.not_expr()?;
                lhs = Expr::Binary(BinaryOp::And, Box::new(lhs), Box::new(rhs));
            } else {
                return Ok(lhs);
            }
        }
    }

    fn expression(&mut self) -> (r: Result<Expr, Error>)
        requires
            old(self).wf(),
        ensures
            outcome(r, spec_expression(old(self).input(), old(self).position()), *old(self), *final(self)),
        decreases remaining(old(self).input(), old(self).position()), 13nat,
    {
        let ghost s = self.input();
        let ghost p0 = self.position();
        let mut lhs = self.and_expr()?;
        loop
            invariant
                self.wf(),
                self.input() == s,
                s == old(self).input(),
                p0 == old(self).position(),
                p0 <= self.position(),
                spec_expression(s, p0) == after(
                    spec_or_rest(s, self.position(), lhs@),
                    (self.position() - p0) as nat,
                ),
            decreases remaining(s, self.position()),
        {
            let ghost p = self.position();
            proof {
                lemma_lex_token_bounds(s, p);
                self.lemma_wf();
            }
            if matches!(self.lexer.peek_token()?, Token::OR) {
                let _ = self.lexer.next_token()?;
                proof {
                    lemma_remaining(s, p0, self.position());
                }
                let rhs = self.and_expr()?;
                lhs = Expr::Binary(BinaryOp::Or, Box::new(lhs), Box::new(rhs));
            } else {
                return Ok(lhs);
            }
        }
    }

    /// The statements of a body, up to the token that ends it.
    #[verifier::rlimit(60)]
    #[verifier::spinoff_prover]
    fn body(&mut self, end: BodyEnd) -> (r: Result<Vec<Stmt>, Error>)
        requires
            old(self).wf(),
        ensures
            stmts_outcome(r, spec_body(old(self).input(), old(self).position(), end), *old(self), *final(self)),
        decreases remaining(old(self).input(), old(self).position()), 22nat,
    {
        let ghost s = self.input();
        let ghost p0 = self.position();
        let mut stmts: Vec<Stmt> = Vec::new();
        proof {
            lemma_stmts_view_empty();
            match spec_body(s, p0, end) {
                Ok((v, n)) => {
                    assert(Seq::<SpecStmt>::empty() + v =~= v);
                },
                Err(_) => {},
            }
        }
        loop
            invariant
                self.wf(),
                self.input() == s,
                s == old(self).input(),
                p0 == old(self).position(),
                p0 <= self.position(),
                spec_body(s, p0, end) == after_stmts(
                    spec_body(s, self.position(), end),
                    stmts_view(stmts@),
                    (self.position() - p0) as nat,
                ),
            decreases remaining(s, self.position()),
        {
            let ghost p = self.position();
            proof {
                lemma_lex_token_bounds(s, p);
                lemma_stmt_head(s, p);
                self.lemma_wf();
                lemma_body_unfold(s, p, end);
            }
            let t = self.lexer.peek_token()?;
            if ends(&t, end) {
                return Ok(stmts);
            }
            proof {
                lemma_remaining(s, p0, p);
            }
            let stmt = self.statement()?;
            proof {
                lemma_stmts_view_push(stmts@, stmt);
                lemma_remaining(s, p, self.position());
                match spec_body(s, self.position(), end) {
                    Ok((v, n)) => {
                        assert(stmts_view(stmts@) + (seq![stmt@] + v) =~= stmts_view(stmts@).push(
                            stmt@,
                        ) + v);
                    },
                    Err(_) => {},
                }
            }
            stmts.push(stmt);
        }
    }

    /// A statement, after any newlines, up to the newline that ends it.
    pub fn statement(&mut self) -> (r: Result<Stmt, Error>)
        requires
            old(self).wf(),
        ensures
            outcome(r, spec_statement(old(self).input(), old(self).position()), *old(self), *final(self)),
        decreases remaining(old(self).input(), old(self).position()), 21nat,
    {
        let ghost s = self.input();
        let ghost p = self.position();
        proof {
            lemma_skip_newlines(s, p);
            lemma_stmt_head(s, p);
        }
        self.newline_optional()?;
        proof {
            lemma_lex_token_bounds(s, self.position());
        }
        let head = self.lexer.next_token()?;
        if head.is_eof() {
            return Err(parse_error(ParseError::UnexpectedEof));
        }
        let stmt = self.statement_body(head)?;
        proof {
            self.lemma_wf();
            lemma_lex_token_bounds(s, self.position());
        }
        self.single_newline()?;
        Ok(stmt)
    }

    /// The rest of a statement after its first token `head`, up to its newline.
    #[verifier::rlimit(60)]
    #[verifier::spinoff_prover]
    fn statement_body(&mut self, head: Token) -> (r: Result<Stmt, Error>)
        requires
            old(self).wf(),
        ensures
            outcome(
                r,
                spec_statement_body(old(self).input(), old(self).position(), head@),
                *old(self),
                *final(self),
            ),
        decreases remaining(old(self).input(), old(self).position()), 20nat,
    {
        let ghost s = self.input();
        let ghost p = self.position();
        proof {
            lemma_lex_token_bounds(s, p);
            self.lemma_wf();
        }
        match head {
            Token::PRINT => {
                let print_value = match self.lexer.peek_token()? {
                    Token::STRING(v) => {
                        let _ = self.lexer.next_token()?;
                        PrintValue::Str(v)
                    },
                    _ => PrintValue::Expr(self.expression()?),
                };
                Ok(Stmt::Print(print_value))
            },
            Token::IF => Ok(Stmt::If(self.if_stmt()?)),
            Token::WHILE => Ok(Stmt::While(self.while_stmt()?)),
            Token::LABEL => match self.lexer.next_token()? {
                Token::IDENT(label) => Ok(Stmt::Label(label)),
                _ => Err(parse_error(ParseError::ExpectedIdent)),
            },
            Token::GOTO => match self.lexer.next_token()? {
                Token::IDENT(label) => Ok(Stmt::Goto(label)),
                _ => Err(parse_error(ParseError::ExpectedIdent)),
            },
            Token::INPUT => match self.lexer.next_token()? {
                Token::IDENT(symbol) => Ok(Stmt::Input(symbol)),
                _ => Err(parse_error(ParseError::ExpectedIdent)),
            },
            Token::LET => {
                let symbol = match self.lexer.next_token()? {
                    Token::IDENT(symbol) => symbol,
                    _ => {
                        return Err(parse_error(ParseError::ExpectedIdent));
                    },
                };
                proof {
                    self.lemma_wf();
                    lemma_lex_token_bounds(s, self.position());
                }
                match self.lexer.next_token()? {
                    Token::EQ => {},
                    _ => {
                        return Err(parse_error(ParseError::ExpectedEq));
                    },
                }
                let expr = self.expression()?;
                Ok(Stmt::Let(symbol, expr))
            },
            _ => Err(parse_error(ParseError::ExpectedStatement)),
        }
    }

    /// A condition, `THEN`, a newline and the body of an `IF` or `ELSEIF` branch.
    fn if_branch(&mut self) -> (r: Result<IfBranch, Error>)
        requires
            old(self).wf(),
        ensures
            outcome(r, spec_if_branch(old(self).input(), old(self).position()), *old(self), *final(self)),
        decreases remaining(old(self).input(), old(self).position()), 18nat,
    {
        let ghost s = self.input();
        let ghost p = self.position();
        let condition = self.expression()?;
        let ghost p1 = self.position();
        proof {
            self.lemma_wf();
            lemma_lex_token_bounds(s, p1);
        }
        let next_token = self.lexer.next_token()?;
        if !matches!(next_token, Token::THEN) {
            return Err(parse_error(ParseError::ExpectedThen));
        }
        proof {
            lemma_newline_after(s, self.position());
        }
        self.newline()?;
        proof {
            lemma_remaining(s, p, p1);
            lemma_remaining(s, p1, self.position());
        }
        let body = self.body(BodyEnd::Branch)?;
        Ok(IfBranch { condition, body })
    }

    /// The rest of an `IF` statement after the keyword `IF`.
    #[verifier::rlimit(60)]
    #[verifier::spinoff_prover]
    fn if_stmt(&mut self) -> (r: Result<IfStmt, Error>)
        requires
            old(self).wf(),
        ensures
            outcome(r, spec_if_stmt(old(self).input(), old(self).position()), *old(self), *final(self)),
        decreases remaining(old(self).input(), old(self).position()), 19nat,
    {
        let ghost s = self.input();
        let ghost p0 = self.position();
        let first_branch = self.if_branch()?;
        let ghost p1 = self.position();
        let mut other_branches: Vec<IfBranch> = Vec::new();
        proof {
            lemma_stmts_view_empty();
            match spec_elseif_branches(s, p1) {
                Ok((v, n)) => {
                    assert(Seq::<SpecIfBranch>::empty() + v =~= v);
                },
                Err(_) => {},
            }
        }
        loop
            invariant
                self.wf(),
                self.input() == s,
                s == old(self).input(),
                p0 == old(self).position(),
                p0 <= p1 <= self.position(),
                spec_if_branch(s, p0) == Ok::<_, SyntaxError>(
                    (first_branch@, (p1 - p0) as nat),
                ),
                spec_elseif_branches(s, p1) == after_branches(
                    spec_elseif_branches(s, self.position()),
                    branches_view(other_branches@),
                    (self.position() - p1) as nat,
                ),
            ensures
                self.wf(),
                self.input() == s,
                p1 <= self.position(),
                spec_elseif_branches(s, p1) == Ok::<_, SyntaxError>(
                    (branches_view(other_branches@), (self.position() - p1) as nat),
                ),
            decreases remaining(s, self.position()),
        {
            let ghost p = self.position();
            proof {
                lemma_lex_token_bounds(s, p);
                self.lemma_wf();
                lemma_elseif_unfold(s, p);
            }
            if matches!(self.lexer.peek_token()?, Token::ELSEIF) {
                let _ = self.lexer.next_token()?;
                proof {
                    lemma_remaining(s, p0, self.position());
                }
                let branch = self.if_branch()?;
                proof {
                    lemma_branches_view_push(other_branches@, branch);
                    lemma_remaining(s, p, self.position());
                    match spec_elseif_branches(s, self.position()) {
                        Ok((v, n)) => {
                            assert(branches_view(other_branches@) + (seq![branch@] + v)
                                =~= branches_view(other_branches@).push(branch@) + v);
                        },
                        Err(_) => {},
                    }
                }
                other_branches.push(branch);
            } else {
                proof {
                    assert(branches_view(other_branches@) + Seq::<SpecIfBranch>::empty()
                        =~= branches_view(other_branches@));
                }
                break;
            }
        }
        let ghost p2 = self.position();
        proof {
            self.lemma_wf();
            lemma_lex_token_bounds(s, p2);
            lemma_remaining(s, p0, p2);
        }
        let else_body = if matches!(self.lexer.peek_token()?, Token::ELSE) {
            let _ = self.lexer.next_token()?;
            proof {
                lemma_newline_after(s, self.position());
            }
            self.newline()?;
            proof {
                lemma_remaining(s, p2, self.position());
            }
            Some(self.body(BodyEnd::Else)?)
        } else {
            None
        };
        proof {
            self.lemma_wf();
            lemma_lex_token_bounds(s, self.position());
        }
        if !matches!(self.lexer.next_token()?, Token::ENDIF) {
            return Err(parse_error(ParseError::ExpectedEndif));
        }
        Ok(IfStmt { first_branch, other_branches, else_body })
    }

    /// The rest of a `WHILE` statement after the keyword `WHILE`.
    fn while_stmt(&mut self) -> (r: Result<WhileStmt, Error>)
        requires
            old(self).wf(),
        ensures
            outcome(r, spec_while_stmt(old(self).input(), old(self).position()), *old(self), *final(self)),
        decreases remaining(old(self).input(), old(self).position()), 19nat,
    {
        let ghost s = self.input();
        let ghost p = self.position();
        let condition = self.expression()?;
        let ghost p1 = self.position();
        proof {
            self.lemma_wf();
            lemma_lex_token_bounds(s, p1);
        }
        match self.lexer.next_token()? {
            Token::REPEAT => {},
            _ => {
                return Err(parse_error(ParseError::ExpectedRepeat));
            },
        }
        proof {
            lemma_newline_after(s, self.position());
        }
        self.newline()?;
        proof {
            lemma_remaining(s, p, p1);
            lemma_remaining(s, p1, self.position());
        }
        let body = self.body(BodyEnd::Loop)?;
        proof {
            self.lemma_wf();
            lemma_lex_token_bounds(s, self.position());
        }
        // consume the ENDWHILE
        let _ = self.lexer.next_token()?;
        Ok(WhileStmt { condition, body })
    }

    /// A whole program: statements, each on its own line, to the end of input.
    pub fn program(&mut self) -> (r: Result<Vec<Stmt>, Error>)
        requires
            old(self).wf(),
        ensures
            final(self).wf(),
            final(self).input() == old(self).input(),
            match spec_program(old(self).input(), old(self).position()) {
                Ok(v) => r matches Ok(x) && stmts_view(x@) == v,
                Err(k) => r matches Err(e) && e@ == syntax_error_view(old(self).input(), k),
            },
    {
        let ghost s = self.input();
        self.newline_optional()?;
        let mut stmts: Vec<Stmt> = Vec::new();
        proof {
            lemma_stmts_view_empty();
            match spec_program_rest(s, self.position()) {
                Ok(v) => {
                    assert(Seq::<SpecStmt>::empty() + v =~= v);
                },
                Err(_) => {},
            }
        }
        loop
            invariant
                self.wf(),
                self.input() == s,
                s == old(self).input(),
                spec_program(s, old(self).position()) == after_program(
                    spec_program_rest(s, self.position()),
                    stmts_view(stmts@),
                ),
            decreases remaining(s, self.position()),
        {
            let ghost p = self.position();
            proof {
                lemma_lex_token_bounds(s, p);
                lemma_stmt_head(s, p);
                self.lemma_wf();
                lemma_program_unfold(s, p);
            }
            if self.lexer.peek_token()?.is_eof() {
                proof {
                    assert(stmts_view(stmts@) + Seq::<SpecStmt>::empty() =~= stmts_view(stmts@));
                }
                return Ok(stmts);
            }
            let stmt = self.statement()?;
            let ghost q = self.position();
            proof {
                lemma_skip_newlines(s, q);
            }
            self.newline_optional()?;
            proof {
                lemma_stmts_view_push(stmts@, stmt);
                lemma_remaining(s, p, self.position());
                match spec_program_rest(s, self.position()) {
                    Ok(v) => {
                        assert(stmts_view(stmts@) + (seq![stmt@] + v) =~= stmts_view(stmts@).push(
                            stmt@,
                        ) + v);
                    },
                    Err(_) => {},
                }
            }
            stmts.push(stmt);
        }
    }
}

} // verus!
