//! The emitter: turns a teeny program into a C program.
use vstd::prelude::*;

use crate::ast::{
    assigned_in_branches, assigned_in_if, assigned_in_stmt, assigned_in_stmts, branches_view, lemma_branches_view, lemma_stmts_view, stmts_view, Expr, IfBranch, IfStmt, PrintValue,
    SpecExpr, SpecIfBranch, SpecIfStmt, SpecPrintValue, SpecStmt, SpecWhileStmt, Stmt, WhileStmt,
};
use crate::token::{binary_op_text, str_eq, unary_op_text};

verus! {

/// The C code of an expression, fully parenthesized.
pub open spec fn expr_code(e: SpecExpr) -> Seq<char>
    decreases e,
{
    match e {
        SpecExpr::Identifier(id) => "("@ + id + ")"@,
        SpecExpr::Number(n) => "("@ + n + ")"@,
        SpecExpr::Unary(op, x) => "("@ + unary_op_text(op) + expr_code(*x) + ")"@,
        SpecExpr::Binary(op, l, r) => "("@ + expr_code(*l) + binary_op_text(op) + expr_code(*r)
            + ")"@,
    }
}

/// The C code of a `PRINT` statement.
pub open spec fn print_code(p: SpecPrintValue) -> Seq<char> {
    match p {
        SpecPrintValue::Str(s) => "printf("@ + "\""@ + s + "\\n\");"@ + "\n"@,
        SpecPrintValue::Expr(x) => "printf("@ + "\"%.2f\\n\", (float)"@ + expr_code(x) + ");"@
            + "\n"@,
    }
}

/// The C code of an `INPUT` statement, given the variables declared before it.
pub open spec fn input_code(declared: Set<Seq<char>>, ident: Seq<char>) -> Seq<char> {
    (if declared.contains(ident) {
        Seq::empty()
    } else {
        "float "@ + ident + ";"@ + "\n"@
    }) + "if(0 == scanf(\"%f\", &"@ + ident + ")) {"@ + "\n"@ + ident + " = 0;"@ + "\n"@
        + "scanf(\"%*s\");"@ + "\n"@ + "}"@ + "\n"@
}

/// The C code of a `LET` statement, given the variables declared before it.
pub open spec fn let_code(declared: Set<Seq<char>>, ident: Seq<char>, x: SpecExpr) -> Seq<char> {
    (if declared.contains(ident) {
        ident + " = "@
    } else {
        "float "@ + ident + " = "@
    }) + expr_code(x) + ";"@ + "\n"@
}

/// The C code of a statement, given the variables declared before it, and
/// the variables declared after it.
pub open spec fn stmt_code(declared: Set<Seq<char>>, st: SpecStmt) -> (Seq<char>, Set<Seq<char>>)
    decreases st,
{
    match st {
        SpecStmt::Print(p) => (print_code(p), declared),
        SpecStmt::If(i) => if_code(declared, i),
        SpecStmt::While(w) => while_code(declared, w),
        SpecStmt::Label(l) => (l + ":"@ + "\n"@, declared),
        SpecStmt::Goto(l) => ("goto "@ + l + ";"@ + "\n"@, declared),
        SpecStmt::Input(i) => (input_code(declared, i), declared.insert(i)),
        SpecStmt::Let(i, x) => (let_code(declared, i, x), declared.insert(i)),
    }
}

/// The C code of a `WHILE` statement.
pub open spec fn while_code(declared: Set<Seq<char>>, w: SpecWhileStmt) -> (
    Seq<char>,
    Set<Seq<char>>,
)
    decreases w,
{
    let (body, d) = stmts_code(declared, w.body);
    ("while ("@ + expr_code(w.condition) + ") {"@ + "\n"@ + body + "}"@ + "\n"@, d)
}

/// The C code of the condition and body of a branch of an `IF` statement.
pub open spec fn branch_code(declared: Set<Seq<char>>, b: SpecIfBranch) -> (
    Seq<char>,
    Set<Seq<char>>,
)
    decreases b,
{
    let (body, d) = stmts_code(declared, b.body);
    ("("@ + expr_code(b.condition) + ") {"@ + "\n"@ + body + "}"@, d)
}

/// The C code of the `ELSEIF` branches of an `IF` statement.
pub open spec fn elseifs_code(declared: Set<Seq<char>>, bs: Seq<SpecIfBranch>) -> (
    Seq<char>,
    Set<Seq<char>>,
)
    decreases bs,
{
    if bs.len() == 0 {
        (Seq::empty(), declared)
    } else {
        let (front, d1) = elseifs_code(declared, bs.subrange(0, bs.len() - 1));
        let (last, d2) = branch_code(d1, bs[bs.len() - 1]);
        (front + " else if "@ + last, d2)
    }
}

/// The C code of an `IF` statement.
pub open spec fn if_code(declared: Set<Seq<char>>, i: SpecIfStmt) -> (Seq<char>, Set<Seq<char>>)
    decreases i,
{
    let (first, d1) = branch_code(declared, i.first_branch);
    let (others, d2) = elseifs_code(d1, i.other_branches);
    let (otherwise, d3) = match i.else_body {
        Some(b) => {
            let (body, d) = stmts_code(d2, b);
            (" else {"@ + "\n"@ + body + "}"@, d)
        },
        None => (Seq::empty(), d2),
    };
    ("if "@ + first + others + otherwise + "\n"@, d3)
}

/// The C code of a run of statements.
pub open spec fn stmts_code(declared: Set<Seq<char>>, ss: Seq<SpecStmt>) -> (
    Seq<char>,
    Set<Seq<char>>,
)
    decreases ss,
{
    if ss.len() == 0 {
        (Seq::empty(), declared)
    } else {
        let (front, d1) = stmts_code(declared, ss.subrange(0, ss.len() - 1));
        let (last, d2) = stmt_code(d1, ss[ss.len() - 1]);
        (front + last, d2)
    }
}

/// The first line of the C header.
pub open spec fn header_start() -> Seq<char> {
    "#include <stdio.h>"@ + "\n"@
}

/// The first line of the C code: the start of `main`.
pub open spec fn code_start() -> Seq<char> {
    "int main(void) {"@ + "\n"@
}

/// The end of `main`.
pub open spec fn code_end() -> Seq<char> {
    "return 0;"@ + "\n"@ + "}"@ + "\n"@
}

/// The C code of a whole program.
pub open spec fn program_code(ss: Seq<SpecStmt>) -> Seq<char> {
    header_start() + "\n"@ + code_start() + stmts_code(Set::empty(), ss).0 + code_end() + "\n"@
}

proof fn lemma_declares_stmt(d: Set<Seq<char>>, st: SpecStmt)
    ensures
        stmt_code(d, st).1 == d + assigned_in_stmt(st),
    decreases st,
{
    match st {
        SpecStmt::If(i) => lemma_declares_if(d, i),
        SpecStmt::While(w) => lemma_declares_stmts(d, w.body),
        _ => {},
    }
    assert(stmt_code(d, st).1 =~= d + assigned_in_stmt(st));
}

proof fn lemma_declares_if(d: Set<Seq<char>>, i: SpecIfStmt)
    ensures
        if_code(d, i).1 == d + assigned_in_if(i),
    decreases i,
{
    lemma_declares_branch(d, i.first_branch);
    let d1 = branch_code(d, i.first_branch).1;
    lemma_declares_branches(d1, i.other_branches);
    let d2 = elseifs_code(d1, i.other_branches).1;
    match i.else_body {
        Some(b) => lemma_declares_stmts(d2, b),
        None => {},
    }
    assert(if_code(d, i).1 =~= d + assigned_in_if(i));
}

proof fn lemma_declares_branch(d: Set<Seq<char>>, b: SpecIfBranch)
    ensures
        branch_code(d, b).1 == d + assigned_in_stmts(b.body),
    decreases b,
{
    lemma_declares_stmts(d, b.body);
}

proof fn lemma_declares_branches(d: Set<Seq<char>>, bs: Seq<SpecIfBranch>)
    ensures
        elseifs_code(d, bs).1 == d + assigned_in_branches(bs),
    decreases bs,
{
    if bs.len() == 0 {
        assert(d + Set::<Seq<char>>::empty() =~= d);
    } else {
        let front = bs.subrange(0, bs.len() - 1);
        lemma_declares_branches(d, front);
        lemma_declares_branch(elseifs_code(d, front).1, bs[bs.len() - 1]);
        assert(elseifs_code(d, bs).1 =~= d + assigned_in_branches(bs));
    }
}

proof fn lemma_declares_stmts(d: Set<Seq<char>>, ss: Seq<SpecStmt>)
    ensures
        stmts_code(d, ss).1 == d + assigned_in_stmts(ss),
    decreases ss,
{
    if ss.len() == 0 {
        assert(d + Set::<Seq<char>>::empty() =~= d);
    } else {
        let front = ss.subrange(0, ss.len() - 1);
        lemma_declares_stmts(d, front);
        lemma_declares_stmt(stmts_code(d, front).1, ss[ss.len() - 1]);
        assert(stmts_code(d, ss).1 =~= d + assigned_in_stmts(ss));
    }
}

/// Emitting statements declares in C exactly the variables declared before
/// and those the statements give a value to by `LET` or `INPUT`.
pub proof fn lemma_emit_declares(declared: Set<Seq<char>>, ss: Seq<SpecStmt>)
    ensures
        stmts_code(declared, ss).1 == declared + assigned_in_stmts(ss),
{
    lemma_declares_stmts(declared, ss);
}

/// Builds the C code of a teeny program: a header, and the code of
/// `main`, with the variables that the code has declared so far.
#[derive(Debug, Clone)]
pub struct Emitter {
    header: String,
    code: String,
    declared_variables: Vec<String>,
}

impl Emitter {
    /// The header emitted so far.
    pub closed spec fn header(&self) -> Seq<char> {
        self.header@
    }

    /// The code emitted so far.
    pub closed spec fn code(&self) -> Seq<char> {
        self.code@
    }

    /// The variables declared so far.
    pub closed spec fn declared(&self) -> Set<Seq<char>> {
        Set::new(
            |x: Seq<char>|
                exists|i: int|
                    0 <= i < self.declared_variables@.len() && #[trigger] self.declared_variables@[i]@
                        == x,
        )
    }

    /// Whether `name` has been declared.
    fn is_declared(&self, name: &str) -> (r: bool)
        ensures
            r == self.declared().contains(name@),
    {
        let mut i: usize = 0;
        while i < self.declared_variables.len()
            invariant
                i <= self.declared_variables@.len(),
                forall|j: int| 0 <= j < i ==> #[trigger] self.declared_variables@[j]@ != name@,
            decreases self.declared_variables@.len() - i,
        {
            if str_eq(self.declared_variables[i].as_str(), name) {
                return true;
            }
            i = i + 1;
        }
        false
    }

    /// Records that `name` has been declared.
    fn declare(&mut self, name: &str)
        ensures
            final(self).declared() == old(self).declared().insert(name@),
            final(self).header() == old(self).header(),
            final(self).code() == old(self).code(),
    {
        self.declared_variables.push(String::from_str(name));
        proof {
            let v = self.declared_variables@;
            assert(v[v.len() - 1]@ == name@);
            assert forall|x: Seq<char>| #[trigger] self.declared().contains(x) == old(
                self,
            ).declared().insert(name@).contains(x) by {
                if old(self).declared().contains(x) {
                    let i = choose|i: int|
                        0 <= i < old(self).declared_variables@.len()
                            && #[trigger] old(self).declared_variables@[i]@ == x;
                    assert(v[i]@ == x);
                }
            }
            assert(self.declared() =~= old(self).declared().insert(name@));
        }
    }

    /// An emitter that has emitted the `#include` line and the start of `main`.
    pub fn new() -> (r: Emitter)
        ensures
            r.header() == header_start(),
            r.code() == code_start(),
            r.declared() == Set::<Seq<char>>::empty(),
    {
        let mut slf = Emitter {
            header: String::new(),
            code: String::new(),
            declared_variables: Vec::new(),
        };
        slf.header_line("#include <stdio.h>");
        slf.emit_line("int main(void) {");
        proof {
            assert(slf.header@ =~= header_start());
            assert(slf.code@ =~= code_start());
        }
        slf
    }

    fn emit(&mut self, code: &str)
        ensures
            final(self).code() == old(self).code() + code@,
            final(self).header() == old(self).header(),
            final(self).declared() == old(self).declared(),
    {
        self.code.append(code);
    }

    fn emit_line(&mut self, code: &str)
        ensures
            final(self).code() == old(self).code() + code@ + "\n"@,
            final(self).header() == old(self).header(),
            final(self).declared() == old(self).declared(),
    {
        self.emit(code);
        self.code.append("\n");
    }

    fn header_line(&mut self, code: &str)
        ensures
            final(self).header() == old(self).header() + code@ + "\n"@,
            final(self).code() == old(self).code(),
            final(self).declared() == old(self).declared(),
    {
        self.header.append(code);
        self.header.append("\n");
    }

    /// Ends `main` and gives the text of the C program: the header, a blank
    /// line, the code, and a final newline.
    pub fn write_out(&mut self) -> (r: String)
        ensures
            final(self).code() == old(self).code() + code_end(),
            final(self).header() == old(self).header(),
            final(self).declared() == old(self).declared(),
            r@ == old(self).header() + "\n"@ + old(self).code() + code_end() + "\n"@,
    {
        self.emit_line("return 0;");
        self.emit_line("}");
        let mut out = self.header.clone();
        out.append("\n");
        out.append(self.code.as_str());
        out.append("\n");
        proof {
            assert(self.code@ =~= old(self).code() + code_end());
            assert(out@ =~= old(self).header() + "\n"@ + old(self).code() + code_end() + "\n"@);
        }
        out
    }

    /// Emits the code of an expression.
    pub fn emit_expr(&mut self, expr: &Expr)
        ensures
            final(self).code() == old(self).code() + expr_code(expr@),
            final(self).header() == old(self).header(),
            final(self).declared() == old(self).declared(),
        decreases expr,
    {
        self.emit("(");
        match expr {
            Expr::Identifier(id) => self.emit(id.as_str()),
            Expr::Number(n) => self.emit(n.as_str()),
            Expr::Unary(op, inner) => {
                self.emit(op.text());
                self.emit_expr(inner);
            },
            Expr::Binary(op, lhs, rhs) => {
                self.emit_expr(lhs);
                self.emit(op.text());
                self.emit_expr(rhs);
            },
        }
        self.emit(")");
        proof {
            assert(self.code() =~= old(self).code() + expr_code(expr@));
        }
    }

    /// Emits a `printf` call for a `PRINT` statement.
    pub fn emit_print_stmt(&mut self, print_value: &PrintValue)
        ensures
            final(self).code() == old(self).code() + print_code(print_value@),
            final(self).header() == old(self).header(),
            final(self).declared() == old(self).declared(),
    {
        self.emit("printf(");
        match print_value {
            PrintValue::Str(s) => {
                self.emit("\"");
                self.emit(s.as_str());
                self.emit_line("\\n\");");
            },
            PrintValue::Expr(expr) => {
                self.emit("\"%.2f\\n\", (float)");
                self.emit_expr(expr);
                self.emit_line(");");
            },
        }
        proof {
            assert(self.code() =~= old(self).code() + print_code(print_value@));
        }
    }

    /// Emits the reading of a number into `ident`, declaring it first if it is new.
    pub fn emit_input(&mut self, ident: &str)
        ensures
            final(self).code() == old(self).code() + input_code(old(self).declared(), ident@),
            final(self).header() == old(self).header(),
            final(self).declared() == old(self).declared().insert(ident@),
    {
        if !self.is_declared(ident) {
            self.emit("float ");
            self.emit(ident);
            self.emit_line(";");
            self.declare(ident);
        }
        self.emit("if(0 == scanf(\"%f\", &");
        self.emit(ident);
        self.emit_line(")) {");
        self.emit(ident);
        self.emit_line(" = 0;");
        self.emit_line("scanf(\"%*s\");");
        self.emit_line("}");
        proof {
            assert(self.declared() =~= old(self).declared().insert(ident@));
            assert(self.code() =~= old(self).code() + input_code(old(self).declared(), ident@));
        }
    }

    /// Emits the condition and the body of a branch of an `IF` statement.
    pub fn emit_if_branch(&mut self, if_branch: &IfBranch)
        ensures
            (final(self).code(), final(self).declared()) == (
                old(self).code() + branch_code(old(self).declared(), if_branch@).0,
                branch_code(old(self).declared(), if_branch@).1,
            ),
            final(self).header() == old(self).header(),
        decreases if_branch,
    {
        self.emit("(");
        self.emit_expr(&if_branch.condition);
        self.emit_line(") {");
        self.emit_tree(if_branch.body.as_slice());
        self.emit("}");
        proof {
            let (body, d) = stmts_code(old(self).declared(), stmts_view(if_branch.body@));
            assert(self.code() =~= old(self).code() + ("("@ + expr_code(if_branch.condition@)
                + ") {"@ + "\n"@ + body + "}"@));
        }
    }

    /// Emits an `IF` statement as a chain of `if` and `else`.
    pub fn emit_if_stmt(&mut self, if_stmt: &IfStmt)
        ensures
            (final(self).code(), final(self).declared()) == (
                old(self).code() + if_code(old(self).declared(), if_stmt@).0,
                if_code(old(self).declared(), if_stmt@).1,
            ),
            final(self).header() == old(self).header(),
        decreases if_stmt,
    {
        let ghost d0 = self.declared();
        self.emit("if ");
        self.emit_if_branch(&if_stmt.first_branch);
        let ghost c1 = self.code();
        let ghost d1 = self.declared();
        let ghost bv = branches_view(if_stmt.other_branches@);
        proof {
            lemma_branches_view(if_stmt.other_branches@);
            assert(bv.subrange(0, 0) =~= Seq::<SpecIfBranch>::empty());
            assert(c1 + Seq::<char>::empty() =~= c1);
        }
        let mut i: usize = 0;
        while i < if_stmt.other_branches.len()
            invariant
                i <= if_stmt.other_branches@.len(),
                bv == branches_view(if_stmt.other_branches@),
                bv.len() == if_stmt.other_branches@.len(),
                forall|k: int|
                    0 <= k < if_stmt.other_branches@.len() ==> #[trigger] bv[k]
                        == if_stmt.other_branches@[k]@,
                self.code() == c1 + elseifs_code(d1, bv.subrange(0, i as int)).0,
                self.declared() == elseifs_code(d1, bv.subrange(0, i as int)).1,
                self.header() == old(self).header(),
            decreases if_stmt.other_branches@.len() - i,
        {
            self.emit(" else if ");
            self.emit_if_branch(&if_stmt.other_branches[i]);
            proof {
                assert(bv.subrange(0, i + 1).subrange(0, i as int) =~= bv.subrange(0, i as int));
                assert(bv.subrange(0, i + 1)[i as int] == if_stmt.other_branches@[i as int]@);
                let (front, e1) = elseifs_code(d1, bv.subrange(0, i as int));
                let (last, e2) = branch_code(e1, if_stmt.other_branches@[i as int]@);
                assert(self.code() =~= c1 + (front + " else if "@ + last));
            }
            i = i + 1;
        }
        proof {
            assert(bv.subrange(0, if_stmt.other_branches@.len() as int) =~= bv);
        }
        let ghost c2 = self.code();
        let ghost d2 = self.declared();
        match &if_stmt.else_body {
            Some(else_body) => {
                self.emit_line(" else {");
                self.emit_tree(else_body.as_slice());
                self.emit("}");
                proof {
                    let (body, d) = stmts_code(d2, stmts_view(else_body@));
                    assert(self.code() =~= c2 + (" else {"@ + "\n"@ + body + "}"@));
                }
            },
            None => {
                proof {
                    assert(self.code() =~= c2 + Seq::<char>::empty());
                }
            },
        }
        self.emit_line("");
        proof {
            let (first, e1) = branch_code(d0, if_stmt.first_branch@);
            let (others, e2) = elseifs_code(e1, bv);
            let (otherwise, e3) = match if_stmt@.else_body {
                Some(b) => {
                    let (body, d) = stmts_code(e2, b);
                    (" else {"@ + "\n"@ + body + "}"@, d)
                },
                None => (Seq::empty(), e2),
            };
            assert(c1 == old(self).code() + "if "@ + first);
            assert(c2 == c1 + others);
            assert(self.code() == c2 + otherwise + ""@ + "\n"@);
            assert(""@ =~= Seq::<char>::empty()) by {
                reveal_strlit("");
            }
            assert(self.code() =~= old(self).code() + ("if "@ + first + others + otherwise
                + "\n"@));
        }
    }

    /// Emits a `WHILE` statement as a `while` loop.
    pub fn emit_while_stmt(&mut self, while_stmt: &WhileStmt)
        ensures
            (final(self).code(), final(self).declared()) == (
                old(self).code() + while_code(old(self).declared(), while_stmt@).0,
                while_code(old(self).declared(), while_stmt@).1,
            ),
            final(self).header() == old(self).header(),
        decreases while_stmt,
    {
        self.emit("while (");
        self.emit_expr(&while_stmt.condition);
        self.emit_line(") {");
        self.emit_tree(while_stmt.body.as_slice());
        self.emit_line("}");
        proof {
            let (body, d) = stmts_code(old(self).declared(), stmts_view(while_stmt.body@));
            assert(self.code() =~= old(self).code() + ("while ("@ + expr_code(
                while_stmt.condition@,
            ) + ") {"@ + "\n"@ + body + "}"@ + "\n"@));
        }
    }

    /// Emits a statement; `LET` declares its variable the first time only.
    pub fn emit_stmt(&mut self, stmt: &Stmt)
        ensures
            (final(self).code(), final(self).declared()) == (
                old(self).code() + stmt_code(old(self).declared(), stmt@).0,
                stmt_code(old(self).declared(), stmt@).1,
            ),
            final(self).header() == old(self).header(),
        decreases stmt,
    {
        match stmt {
            Stmt::Print(pv) => self.emit_print_stmt(pv),
            Stmt::If(if_stmt) => self.emit_if_stmt(if_stmt),
            Stmt::While(while_stmt) => self.emit_while_stmt(while_stmt),
            Stmt::Label(s) => {
                self.emit(s.as_str());
                self.emit_line(":");
                proof {
                    assert(self.code() =~= old(self).code() + (s@ + ":"@ + "\n"@));
                }
            },
            Stmt::Goto(s) => {
                self.emit("goto ");
                self.emit(s.as_str());
                self.emit_line(";");
                proof {
                    assert(self.code() =~= old(self).code() + ("goto "@ + s@ + ";"@ + "\n"@));
                }
            },
            Stmt::Input(ident) => self.emit_input(ident.as_str()),
            Stmt::Let(ident, expr) => {
                if !self.is_declared(ident.as_str()) {
                    self.emit("float ");
                    self.emit(ident.as_str());
                    self.emit(" = ");
                    self.declare(ident.as_str());
                } else {
                    self.emit(ident.as_str());
                    self.emit(" = ");
                }
                self.emit_expr(expr);
                self.emit_line(";");
                proof {
                    assert(self.declared() =~= old(self).declared().insert(ident@));
                    assert(self.code() =~= old(self).code() + let_code(
                        old(self).declared(),
                        ident@,
                        expr@,
                    ));
                }
            },
        }
    }

    /// Emits each statement of a program in turn.
    pub fn emit_tree(&mut self, ast: &[Stmt])
        ensures
            (final(self).code(), final(self).declared()) == (
                old(self).code() + stmts_code(old(self).declared(), stmts_view(ast@)).0,
                stmts_code(old(self).declared(), stmts_view(ast@)).1,
            ),
            final(self).header() == old(self).header(),
        decreases ast@,
    {
        let ghost sv = stmts_view(ast@);
        let ghost c0 = self.code();
        let ghost d0 = self.declared();
        proof {
            lemma_stmts_view(ast@);
            assert(sv.subrange(0, 0) =~= Seq::<SpecStmt>::empty());
            assert(c0 + Seq::<char>::empty() =~= c0);
        }
        let mut i: usize = 0;
        while i < ast.len()
            invariant
                i <= ast@.len(),
                sv == stmts_view(ast@),
                sv.len() == ast@.len(),
                forall|k: int| 0 <= k < ast@.len() ==> #[trigger] sv[k] == ast@[k]@,
                self.code() == c0 + stmts_code(d0, sv.subrange(0, i as int)).0,
                self.declared() == stmts_code(d0, sv.subrange(0, i as int)).1,
                self.header() == old(self).header(),
                c0 == old(self).code(),
                d0 == old(self).declared(),
            decreases ast@.len() - i,
        {
            self.emit_stmt(&ast[i]);
            proof {
                assert(sv.subrange(0, i + 1).subrange(0, i as int) =~= sv.subrange(0, i as int));
                assert(sv.subrange(0, i + 1)[i as int] == ast@[i as int]@);
                let (front, d1) = stmts_code(d0, sv.subrange(0, i as int));
                let (last, d2) = stmt_code(d1, ast@[i as int]@);
                assert(self.code() =~= c0 + (front + last));
            }
            i = i + 1;
        }
        proof {
            assert(sv.subrange(0, ast@.len() as int) =~= sv);
        }
    }
}

} // verus!
