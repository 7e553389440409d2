//! The syntax tree of a teeny program, and its mathematical value.
use vstd::prelude::*;

use crate::token::{BinaryOp, UnaryOp};

verus! {

/// An expression.
#[derive(Debug, PartialEq)]
pub enum Expr {
    Binary(BinaryOp, Box<Expr>, Box<Expr>),
    Unary(UnaryOp, Box<Expr>),
    Number(String),
    Identifier(String),
}

/// A condition and the statements run when it holds.
#[derive(Debug, PartialEq)]
pub struct IfBranch {
    pub condition: Expr,
    pub body: Vec<Stmt>,
}

/// An `IF` statement with its `ELSEIF` branches and its `ELSE` body.
#[derive(Debug, PartialEq)]
pub struct IfStmt {
    pub first_branch: IfBranch,
    pub other_branches: Vec<IfBranch>,
    pub else_body: Option<Vec<Stmt>>,
}

/// A `WHILE` loop.
#[derive(Debug, PartialEq)]
pub struct WhileStmt {
    pub condition: Expr,
    pub body: Vec<Stmt>,
}

/// What a `PRINT` statement prints: a string literal or an expression.
#[derive(Debug, PartialEq)]
pub enum PrintValue {
    Str(String),
    Expr(Expr),
}

/// A statement.
#[derive(Debug, PartialEq)]
pub enum Stmt {
    Print(PrintValue),
    If(IfStmt),
    While(WhileStmt),
    Label(String),
    Goto(String),
    Input(String),
    Let(String, Expr),
}

/// The value of an [`Expr`].
pub enum SpecExpr {
    Binary(BinaryOp, Box<SpecExpr>, Box<SpecExpr>),
    Unary(UnaryOp, Box<SpecExpr>),
    Number(Seq<char>),
    Identifier(Seq<char>),
}

/// The value of an [`IfBranch`].
pub struct SpecIfBranch {
    pub condition: SpecExpr,
    pub body: Seq<SpecStmt>,
}

/// The value of an [`IfStmt`].
pub struct SpecIfStmt {
    pub first_branch: SpecIfBranch,
    pub other_branches: Seq<SpecIfBranch>,
    pub else_body: Option<Seq<SpecStmt>>,
}

/// The value of a [`WhileStmt`].
pub struct SpecWhileStmt {
    pub condition: SpecExpr,
    pub body: Seq<SpecStmt>,
}

/// The value of a [`PrintValue`].
pub enum SpecPrintValue {
    Str(Seq<char>),
    Expr(SpecExpr),
}

/// The value of a [`Stmt`].
pub enum SpecStmt {
    Print(SpecPrintValue),
    If(SpecIfStmt),
    While(SpecWhileStmt),
    Label(Seq<char>),
    Goto(Seq<char>),
    Input(Seq<char>),
    Let(Seq<char>, SpecExpr),
}

/// The value of an expression.
pub open spec fn expr_view(e: Expr) -> SpecExpr
    decreases e,
{
    match e {
        Expr::Binary(op, l, r) => SpecExpr::Binary(op, Box::new(expr_view(*l)), Box::new(expr_view(*r))),
        Expr::Unary(op, x) => SpecExpr::Unary(op, Box::new(expr_view(*x))),
        Expr::Number(n) => SpecExpr::Number(n@),
        Expr::Identifier(i) => SpecExpr::Identifier(i@),
    }
}

impl View for Expr {
    type V = SpecExpr;

    open spec fn view(&self) -> SpecExpr {
        expr_view(*self)
    }
}

/// The value of what a `PRINT` statement prints.
pub open spec fn print_value_view(p: PrintValue) -> SpecPrintValue {
    match p {
        PrintValue::Str(s) => SpecPrintValue::Str(s@),
        PrintValue::Expr(e) => SpecPrintValue::Expr(e@),
    }
}

impl View for PrintValue {
    type V = SpecPrintValue;

    open spec fn view(&self) -> SpecPrintValue {
        print_value_view(*self)
    }
}

/// The value of a statement.
pub open spec fn stmt_view(s: Stmt) -> SpecStmt
    decreases s, 0nat,
{
    match s {
        Stmt::Print(p) => SpecStmt::Print(print_value_view(p)),
        Stmt::If(i) => SpecStmt::If(
            SpecIfStmt {
                first_branch: branch_view(i.first_branch),
                other_branches: branches_view(i.other_branches@),
                else_body: match i.else_body {
                    Some(b) => Some(stmts_view(b@)),
                    None => None,
                },
            },
        ),
        Stmt::While(w) => SpecStmt::While(
            SpecWhileStmt { condition: w.condition@, body: stmts_view(w.body@) },
        ),
        Stmt::Label(l) => SpecStmt::Label(l@),
        Stmt::Goto(l) => SpecStmt::Goto(l@),
        Stmt::Input(i) => SpecStmt::Input(i@),
        Stmt::Let(i, e) => SpecStmt::Let(i@, e@),
    }
}

/// The value of a branch of an `IF` statement.
pub open spec fn branch_view(b: IfBranch) -> SpecIfBranch
    decreases b, 0nat,
{
    SpecIfBranch { condition: b.condition@, body: stmts_view(b.body@) }
}

/// The values of some statements, in order.
pub open spec fn stmts_view(v: Seq<Stmt>) -> Seq<SpecStmt>
    decreases v, 0nat,
{
    if v.len() == 0 {
        Seq::empty()
    } else {
        stmts_view(v.subrange(0, v.len() - 1)).push(stmt_view(v[v.len() - 1]))
    }
}

/// The values of some branches, in order.
pub open spec fn branches_view(v: Seq<IfBranch>) -> Seq<SpecIfBranch>
    decreases v, 0nat,
{
    if v.len() == 0 {
        Seq::empty()
    } else {
        branches_view(v.subrange(0, v.len() - 1)).push(branch_view(v[v.len() - 1]))
    }
}

impl View for Stmt {
    type V = SpecStmt;

    open spec fn view(&self) -> SpecStmt {
        stmt_view(*self)
    }
}

/// The value of an `IF` statement.
pub open spec fn if_stmt_view(i: IfStmt) -> SpecIfStmt {
    SpecIfStmt {
        first_branch: branch_view(i.first_branch),
        other_branches: branches_view(i.other_branches@),
        else_body: match i.else_body {
            Some(b) => Some(stmts_view(b@)),
            None => None,
        },
    }
}

impl View for IfStmt {
    type V = SpecIfStmt;

    open spec fn view(&self) -> SpecIfStmt {
        if_stmt_view(*self)
    }
}

/// The value of a `WHILE` statement.
pub open spec fn while_stmt_view(w: WhileStmt) -> SpecWhileStmt {
    SpecWhileStmt { condition: w.condition@, body: stmts_view(w.body@) }
}

impl View for WhileStmt {
    type V = SpecWhileStmt;

    open spec fn view(&self) -> SpecWhileStmt {
        while_stmt_view(*self)
    }
}

/// A copy of an expression.
fn copy_expr(e: &Expr) -> (r: Expr)
    ensures
        r@ == e@,
    decreases e,
{
    match e {
        Expr::Binary(op, l, r) => Expr::Binary(*op, Box::new(copy_expr(l)), Box::new(copy_expr(r))),
        Expr::Unary(op, x) => Expr::Unary(*op, Box::new(copy_expr(x))),
        Expr::Number(n) => Expr::Number(n.clone()),
        Expr::Identifier(i) => Expr::Identifier(i.clone()),
    }
}

/// A copy of what a `PRINT` statement prints.
fn copy_print_value(p: &PrintValue) -> (r: PrintValue)
    ensures
        r@ == p@,
{
    match p {
        PrintValue::Str(s) => PrintValue::Str(s.clone()),
        PrintValue::Expr(e) => PrintValue::Expr(copy_expr(e)),
    }
}

/// A copy of a statement.
fn copy_stmt(st: &Stmt) -> (r: Stmt)
    ensures
        r@ == st@,
    decreases st,
{
    match st {
        Stmt::Print(p) => Stmt::Print(copy_print_value(p)),
        Stmt::If(i) => Stmt::If(copy_if_stmt(i)),
        Stmt::While(w) => Stmt::While(copy_while_stmt(w)),
        Stmt::Label(l) => Stmt::Label(l.clone()),
        Stmt::Goto(l) => Stmt::Goto(l.clone()),
        Stmt::Input(i) => Stmt::Input(i.clone()),
        Stmt::Let(i, e) => Stmt::Let(i.clone(), copy_expr(e)),
    }
}

/// A copy of a branch of an `IF` statement.
fn copy_branch(b: &IfBranch) -> (r: IfBranch)
    ensures
        r@ == b@,
    decreases b,
{
    IfBranch { condition: copy_expr(&b.condition), body: copy_stmts(&b.body) }
}

/// A copy of an `IF` statement.
fn copy_if_stmt(i: &IfStmt) -> (r: IfStmt)
    ensures
        r@ == i@,
    decreases i,
{
    let else_body = match &i.else_body {
        Some(b) => Some(copy_stmts(b)),
        None => None,
    };
    IfStmt {
        first_branch: copy_branch(&i.first_branch),
        other_branches: copy_branches(&i.other_branches),
        else_body,
    }
}

/// A copy of a `WHILE` statement.
fn copy_while_stmt(w: &WhileStmt) -> (r: WhileStmt)
    ensures
        r@ == w@,
    decreases w,
{
    WhileStmt { condition: copy_expr(&w.condition), body: copy_stmts(&w.body) }
}

/// A copy of a body of statements.
fn copy_stmts(v: &Vec<Stmt>) -> (r: Vec<Stmt>)
    ensures
        stmts_view(r@) == stmts_view(v@),
    decreases v,
{
    let mut r: Vec<Stmt> = Vec::new();
    let mut i: usize = 0;
    proof {
        assert(v@.subrange(0, 0) =~= Seq::<Stmt>::empty());
        assert(r@ =~= Seq::<Stmt>::empty());
    }
    while i < v.len()
        invariant
            i <= v@.len(),
            stmts_view(r@) == stmts_view(v@.subrange(0, i as int)),
        decreases v@.len() - i,
    {
        let c = copy_stmt(&v[i]);
        proof {
            lemma_stmts_view_push(r@, c);
            lemma_stmts_view_push(v@.subrange(0, i as int), v@[i as int]);
            assert(v@.subrange(0, i as int).push(v@[i as int]) =~= v@.subrange(0, i + 1));
        }
        r.push(c);
        i = i + 1;
    }
    proof {
        assert(v@.subrange(0, v@.len() as int) =~= v@);
    }
    r
}

/// A copy of some branches of an `IF` statement.
fn copy_branches(v: &Vec<IfBranch>) -> (r: Vec<IfBranch>)
    ensures
        branches_view(r@) == branches_view(v@),
    decreases v,
{
    let mut r: Vec<IfBranch> = Vec::new();
    let mut i: usize = 0;
    proof {
        assert(v@.subrange(0, 0) =~= Seq::<IfBranch>::empty());
        assert(r@ =~= Seq::<IfBranch>::empty());
    }
    while i < v.len()
        invariant
            i <= v@.len(),
            branches_view(r@) == branches_view(v@.subrange(0, i as int)),
        decreases v@.len() - i,
    {
        let c = copy_branch(&v[i]);
        proof {
            lemma_branches_view_push(r@, c);
            lemma_branches_view_push(v@.subrange(0, i as int), v@[i as int]);
            assert(v@.subrange(0, i as int).push(v@[i as int]) =~= v@.subrange(0, i + 1));
        }
        r.push(c);
        i = i + 1;
    }
    proof {
        assert(v@.subrange(0, v@.len() as int) =~= v@);
    }
    r
}

impl Clone for Expr {
    fn clone(&self) -> (r: Self)
        ensures
            r@ == self@,
    {
        copy_expr(self)
    }
}

impl Clone for PrintValue {
    fn clone(&self) -> (r: Self)
        ensures
            r@ == self@,
    {
        copy_print_value(self)
    }
}

impl Clone for Stmt {
    fn clone(&self) -> (r: Self)
        ensures
            r@ == self@,
    {
        copy_stmt(self)
    }
}

impl Clone for IfBranch {
    fn clone(&self) -> (r: Self)
        ensures
            r@ == self@,
    {
        copy_branch(self)
    }
}

impl Clone for IfStmt {
    fn clone(&self) -> (r: Self)
        ensures
            r@ == self@,
    {
        copy_if_stmt(self)
    }
}

impl Clone for WhileStmt {
    fn clone(&self) -> (r: Self)
        ensures
            r@ == self@,
    {
        copy_while_stmt(self)
    }
}

/// The value of statements with one more at the end.
pub proof fn lemma_stmts_view_push(v: Seq<Stmt>, st: Stmt)
    ensures
        stmts_view(v.push(st)) == stmts_view(v).push(st@),
{
    assert(v.push(st).subrange(0, v.len() as int) =~= v);
}

/// The value of branches with one more at the end.
pub proof fn lemma_branches_view_push(v: Seq<IfBranch>, b: IfBranch)
    ensures
        branches_view(v.push(b)) == branches_view(v).push(b@),
{
    assert(v.push(b).subrange(0, v.len() as int) =~= v);
}

/// No statements, or no branches, have the empty value.
pub proof fn lemma_stmts_view_empty()
    ensures
        stmts_view(Seq::<Stmt>::empty()) == Seq::<SpecStmt>::empty(),
        branches_view(Seq::<IfBranch>::empty()) == Seq::<SpecIfBranch>::empty(),
{
}

/// The value of a sequence of statements holds the value of each.
pub proof fn lemma_stmts_view(v: Seq<Stmt>)
    ensures
        stmts_view(v).len() == v.len(),
        forall|i: int| 0 <= i < v.len() ==> #[trigger] stmts_view(v)[i] == v[i]@,
    decreases v.len(),
{
    if v.len() > 0 {
        lemma_stmts_view(v.subrange(0, v.len() - 1));
    }
}

/// The value of a sequence of branches holds the value of each.
pub proof fn lemma_branches_view(v: Seq<IfBranch>)
    ensures
        branches_view(v).len() == v.len(),
        forall|i: int| 0 <= i < v.len() ==> #[trigger] branches_view(v)[i] == v[i]@,
    decreases v.len(),
{
    if v.len() > 0 {
        lemma_branches_view(v.subrange(0, v.len() - 1));
    }
}

/// The variables that a statement gives a value to, by `LET` or `INPUT`,
/// its nested bodies included.
pub open spec fn assigned_in_stmt(st: SpecStmt) -> Set<Seq<char>>
    decreases st,
{
    match st {
        SpecStmt::If(i) => assigned_in_if(i),
        SpecStmt::While(w) => assigned_in_stmts(w.body),
        SpecStmt::Input(x) => set![x],
        SpecStmt::Let(x, _e) => set![x],
        _ => Set::empty(),
    }
}

/// The variables given a value in the branches and `ELSE` body of an `IF` statement.
pub open spec fn assigned_in_if(i: SpecIfStmt) -> Set<Seq<char>>
    decreases i,
{
    assigned_in_stmts(i.first_branch.body) + assigned_in_branches(i.other_branches) + match i.else_body {
        Some(b) => assigned_in_stmts(b),
        None => Set::empty(),
    }
}

/// The variables given a value in the bodies of some branches.
pub open spec fn assigned_in_branches(bs: Seq<SpecIfBranch>) -> Set<Seq<char>>
    decreases bs,
{
    if bs.len() == 0 {
        Set::empty()
    } else {
        assigned_in_branches(bs.subrange(0, bs.len() - 1)) + assigned_in_stmts(
            bs[bs.len() - 1].body,
        )
    }
}

/// The variables given a value in some statements.
pub open spec fn assigned_in_stmts(ss: Seq<SpecStmt>) -> Set<Seq<char>>
    decreases ss,
{
    if ss.len() == 0 {
        Set::empty()
    } else {
        assigned_in_stmts(ss.subrange(0, ss.len() - 1)) + assigned_in_stmt(ss[ss.len() - 1])
    }
}

/// The values of the statements of a program.
pub open spec fn program_view(v: Vec<Stmt>) -> Seq<SpecStmt> {
    stmts_view(v@)
}

impl View for IfBranch {
    type V = SpecIfBranch;

    open spec fn view(&self) -> SpecIfBranch {
        branch_view(*self)
    }
}

} // verus!
