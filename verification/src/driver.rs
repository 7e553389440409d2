//! The steps from the text of a teeny program to a checked syntax tree, and
//! to its C code.
use vstd::prelude::*;

use crate::ast::{stmts_view, SpecStmt, Stmt};
use crate::emit::{program_code, Emitter};
use crate::error::{Error, ErrorView};
use crate::grammar::{spec_program, syntax_error_view};
use crate::parse::Parser;
use crate::verify::{tree_verdict, walk_tree};

verus! {

/// What reading and checking the program `source` gives: its statements, or
/// the error that stops it.
pub open spec fn checked_program(source: Seq<char>) -> Result<Seq<SpecStmt>, ErrorView> {
    let s = source + seq!['\n'];
    match spec_program(s, 0) {
        Err(k) => Err(syntax_error_view(s, k)),
        Ok(ss) => match tree_verdict(ss) {
            Some(e) => Err(e),
            None => Ok(ss),
        },
    }
}

/// Parses the program `source` and checks it.
pub fn parse_and_check(source: &str) -> (r: Result<Vec<Stmt>, Error>)
    ensures
        match checked_program(source@) {
            Ok(ss) => r matches Ok(v) && stmts_view(v@) == ss,
            Err(e) => r matches Err(err) && err@ == e,
        },
{
    let mut parser = Parser::from_str(source);
    let ast = parser.program()?;
    walk_tree(ast.as_slice())?;
    Ok(ast)
}

/// The C code of the program `source`, once it has been parsed and checked.
pub fn compile(source: &str) -> (r: Result<String, Error>)
    ensures
        match checked_program(source@) {
            Ok(ss) => r matches Ok(text) && text@ == program_code(ss),
            Err(e) => r matches Err(err) && err@ == e,
        },
{
    let ast = parse_and_check(source)?;
    let mut emitter = Emitter::new();
    emitter.emit_tree(ast.as_slice());
    let text = emitter.write_out();
    proof {
        let ss = stmts_view(ast@);
        assert(text@ =~= program_code(ss));
    }
    Ok(text)
}

} // verus!
