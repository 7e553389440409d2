//! Checks of a parsed program before it runs: every identifier is given a
//! value before it is read, and every `GOTO` names a label of the program.
use vstd::hash_set::StringHashSet;
use vstd::prelude::*;

use crate::ast::{
    assigned_in_branches, assigned_in_if, assigned_in_stmt, assigned_in_stmts, branches_view, lemma_branches_view, lemma_stmts_view, stmts_view, Expr, IfBranch, IfStmt,
    SpecExpr, SpecIfBranch, SpecIfStmt, SpecStmt, SpecWhileStmt, Stmt, WhileStmt,
};
use crate::emit::{lemma_emit_declares, stmts_code};
use crate::error::{Error, ErrorView};

verus! {

/// What the walk over a program has seen so far: the identifiers given a
/// value, the labels declared, and the labels of the `GOTO` statements, in order.
pub struct SpecContext {
    pub identifiers: Set<Seq<char>>,
    pub labels: Set<Seq<char>>,
    pub gotos: Seq<Seq<char>>,
}

/// The context at the start of a program: nothing seen yet.
pub open spec fn empty_context() -> SpecContext {
    SpecContext { identifiers: Set::empty(), labels: Set::empty(), gotos: Seq::empty() }
}

/// The first identifier of `e`, from the left, that is not in `ids`.
pub open spec fn undeclared_in(ids: Set<Seq<char>>, e: SpecExpr) -> Option<Seq<char>>
    decreases e,
{
    match e {
        SpecExpr::Binary(_op, l, r) => match undeclared_in(ids, *l) {
            Some(x) => Some(x),
            None => undeclared_in(ids, *r),
        },
        SpecExpr::Unary(_op, x) => undeclared_in(ids, *x),
        SpecExpr::Number(_n) => None,
        SpecExpr::Identifier(i) => if ids.contains(i) {
            None
        } else {
            Some(i)
        },
    }
}

/// The identifiers that occur in an expression, under any operator.
pub open spec fn expr_identifiers(e: SpecExpr) -> Set<Seq<char>>
    decreases e,
{
    match e {
        SpecExpr::Binary(_op, l, r) => expr_identifiers(*l) + expr_identifiers(*r),
        SpecExpr::Unary(_op, x) => expr_identifiers(*x),
        SpecExpr::Number(_n) => Set::empty(),
        SpecExpr::Identifier(i) => set![i],
    }
}

/// An expression is accepted exactly when every identifier in it, under any
/// operator, is declared; the identifier it is refused for occurs in it and
/// is not declared.
pub proof fn lemma_undeclared_in(ids: Set<Seq<char>>, e: SpecExpr)
    ensures
        undeclared_in(ids, e) is None <==> expr_identifiers(e).subset_of(ids),
        undeclared_in(ids, e) matches Some(x) ==> expr_identifiers(e).contains(x) && !ids.contains(
            x,
        ),
    decreases e,
{
    match e {
        SpecExpr::Binary(_op, l, r) => {
            lemma_undeclared_in(ids, *l);
            lemma_undeclared_in(ids, *r);
        },
        SpecExpr::Unary(_op, x) => {
            lemma_undeclared_in(ids, *x);
        },
        SpecExpr::Number(_n) => {},
        SpecExpr::Identifier(i) => {},
    }
}

/// The context after a statement, or the identifier it reads before it is declared.
pub open spec fn walked_stmt(c: SpecContext, st: SpecStmt) -> Result<SpecContext, Seq<char>>
    decreases st,
{
    match st {
        SpecStmt::Print(_p) => Ok(c),
        SpecStmt::If(i) => walked_if(c, i),
        SpecStmt::While(w) => walked_while(c, w),
        SpecStmt::Label(l) => Ok(SpecContext { labels: c.labels.insert(l), ..c }),
        SpecStmt::Goto(l) => Ok(SpecContext { gotos: c.gotos.push(l), ..c }),
        SpecStmt::Input(i) => Ok(SpecContext { identifiers: c.identifiers.insert(i), ..c }),
        SpecStmt::Let(i, x) => {
            let c2 = SpecContext { identifiers: c.identifiers.insert(i), ..c };
            match undeclared_in(c2.identifiers, x) {
                Some(v) => Err(v),
                None => Ok(c2),
            }
        },
    }
}

/// The context after a `WHILE` statement: its condition, then its body.
pub open spec fn walked_while(c: SpecContext, w: SpecWhileStmt) -> Result<SpecContext, Seq<char>>
    decreases w,
{
    match undeclared_in(c.identifiers, w.condition) {
        Some(x) => Err(x),
        None => walked_stmts(c, w.body),
    }
}

/// The context after a branch of an `IF` statement: its condition, then its body.
pub open spec fn walked_branch(c: SpecContext, b: SpecIfBranch) -> Result<SpecContext, Seq<char>>
    decreases b,
{
    match undeclared_in(c.identifiers, b.condition) {
        Some(x) => Err(x),
        None => walked_stmts(c, b.body),
    }
}

/// The context after some branches, in order.
pub open spec fn walked_branches(c: SpecContext, bs: Seq<SpecIfBranch>) -> Result<
    SpecContext,
    Seq<char>,
>
    decreases bs,
{
    if bs.len() == 0 {
        Ok(c)
    } else {
        match walked_branches(c, bs.subrange(0, bs.len() - 1)) {
            Err(x) => Err(x),
            Ok(c1) => walked_branch(c1, bs[bs.len() - 1]),
        }
    }
}

/// The context after an `IF` statement: its branches in order, then its `ELSE` body.
pub open spec fn walked_if(c: SpecContext, i: SpecIfStmt) -> Result<SpecContext, Seq<char>>
    decreases i,
{
    match walked_branch(c, i.first_branch) {
        Err(x) => Err(x),
        Ok(c1) => match walked_branches(c1, i.other_branches) {
            Err(x) => Err(x),
            Ok(c2) => match i.else_body {
                Some(b) => walked_stmts(c2, b),
                None => Ok(c2),
            },
        },
    }
}

/// The context after some statements, in order.
pub open spec fn walked_stmts(c: SpecContext, ss: Seq<SpecStmt>) -> Result<SpecContext, Seq<char>>
    decreases ss,
{
    if ss.len() == 0 {
        Ok(c)
    } else {
        match walked_stmts(c, ss.subrange(0, ss.len() - 1)) {
            Err(x) => Err(x),
            Ok(c1) => walked_stmt(c1, ss[ss.len() - 1]),
        }
    }
}

/// The first label of `gotos`, from index `i` on, that is not in `labels`.
pub open spec fn missing_label(labels: Set<Seq<char>>, gotos: Seq<Seq<char>>, i: int) -> Option<
    Seq<char>,
>
    decreases gotos.len() - i,
{
    if i < 0 || i >= gotos.len() {
        None
    } else if labels.contains(gotos[i]) {
        missing_label(labels, gotos, i + 1)
    } else {
        Some(gotos[i])
    }
}

/// The message for an identifier read before it is declared.
pub open spec fn undeclared_message(x: Seq<char>) -> Seq<char> {
    "Identifier `"@ + x + "` used before declared"@
}

/// The message for a `GOTO` to a label that does not exist.
pub open spec fn missing_label_message(l: Seq<char>) -> Seq<char> {
    "Label gotoed `"@ + l + "` does not exist"@
}

/// The verdict on a whole program: the first identifier read before it is
/// declared, or else the first `GOTO` to a label that does not exist, or else none.
pub open spec fn tree_verdict(ss: Seq<SpecStmt>) -> Option<ErrorView> {
    match walked_stmts(empty_context(), ss) {
        Err(x) => Some(ErrorView::Lexer(undeclared_message(x))),
        Ok(c) => match missing_label(c.labels, c.gotos, 0) {
            Some(l) => Some(ErrorView::Lexer(missing_label_message(l))),
            None => None,
        },
    }
}

/// Once a prefix of some statements fails, all of them fail the same way.
pub proof fn lemma_walked_stmts_prefix(c: SpecContext, ss: Seq<SpecStmt>, i: int)
    requires
        0 <= i <= ss.len(),
        walked_stmts(c, ss.subrange(0, i)) is Err,
    ensures
        walked_stmts(c, ss) == walked_stmts(c, ss.subrange(0, i)),
    decreases ss.len() - i,
{
    if i < ss.len() {
        assert(ss.subrange(0, i + 1).subrange(0, i) =~= ss.subrange(0, i));
        lemma_walked_stmts_prefix(c, ss, i + 1);
    } else {
        assert(ss.subrange(0, i) =~= ss);
    }
}

/// Once a prefix of some branches fails, all of them fail the same way.
pub proof fn lemma_walked_branches_prefix(c: SpecContext, bs: Seq<SpecIfBranch>, i: int)
    requires
        0 <= i <= bs.len(),
        walked_branches(c, bs.subrange(0, i)) is Err,
    ensures
        walked_branches(c, bs) == walked_branches(c, bs.subrange(0, i)),
    decreases bs.len() - i,
{
    if i < bs.len() {
        assert(bs.subrange(0, i + 1).subrange(0, i) =~= bs.subrange(0, i));
        lemma_walked_branches_prefix(c, bs, i + 1);
    } else {
        assert(bs.subrange(0, i) =~= bs);
    }
}

/// From context `c` to context `c2`, the identifiers `assigned` were added,
/// no label was lost and the gotos seen so far were kept in front.
pub open spec fn grows(c: SpecContext, c2: SpecContext, assigned: Set<Seq<char>>) -> bool {
    &&& c2.identifiers == c.identifiers + assigned
    &&& c.labels.subset_of(c2.labels)
    &&& c.gotos.len() <= c2.gotos.len()
    &&& c2.gotos.subrange(0, c.gotos.len() as int) == c.gotos
}

proof fn lemma_grows_trans(c1: SpecContext, c2: SpecContext, c3: SpecContext, a: Set<Seq<char>>, b: Set<Seq<char>>)
    requires
        grows(c1, c2, a),
        grows(c2, c3, b),
    ensures
        grows(c1, c3, a + b),
{
    assert(c3.identifiers =~= c1.identifiers + (a + b));
    assert(c3.gotos.subrange(0, c1.gotos.len() as int) =~= c2.gotos.subrange(
        0,
        c1.gotos.len() as int,
    ));
}

proof fn lemma_grows_refl(c: SpecContext)
    ensures
        grows(c, c, Set::empty()),
{
    assert(c.identifiers + Set::empty() =~= c.identifiers);
    assert(c.gotos.subrange(0, c.gotos.len() as int) =~= c.gotos);
}

proof fn lemma_walk_grows_stmt(c: SpecContext, st: SpecStmt)
    ensures
        walked_stmt(c, st) matches Ok(c2) ==> grows(c, c2, assigned_in_stmt(st)),
    decreases st,
{
    lemma_grows_refl(c);
    match st {
        SpecStmt::If(i) => lemma_walk_grows_if(c, i),
        SpecStmt::While(w) => {
            lemma_walk_grows_stmts(c, w.body);
        },
        SpecStmt::Goto(l) => {
            assert(c.gotos.push(l).subrange(0, c.gotos.len() as int) =~= c.gotos);
            assert(c.identifiers + Set::empty() =~= c.identifiers);
        },
        SpecStmt::Input(x) => {
            assert(c.identifiers.insert(x) =~= c.identifiers + set![x]);
        },
        SpecStmt::Let(x, _e) => {
            assert(c.identifiers.insert(x) =~= c.identifiers + set![x]);
        },
        _ => {
            assert(c.identifiers + Set::empty() =~= c.identifiers);
        },
    }
}

proof fn lemma_walk_grows_if(c: SpecContext, i: SpecIfStmt)
    ensures
        walked_if(c, i) matches Ok(c2) ==> grows(c, c2, assigned_in_if(i)),
    decreases i,
{
    lemma_walk_grows_stmts(c, i.first_branch.body);
    if let Ok(c1) = walked_branch(c, i.first_branch) {
        lemma_walk_grows_branches(c1, i.other_branches);
        if let Ok(c2) = walked_branches(c1, i.other_branches) {
            lemma_grows_trans(c, c1, c2, assigned_in_stmts(i.first_branch.body), assigned_in_branches(i.other_branches));
            match i.else_body {
                Some(b) => {
                    lemma_walk_grows_stmts(c2, b);
                    if let Ok(c3) = walked_stmts(c2, b) {
                        lemma_grows_trans(
                            c,
                            c2,
                            c3,
                            assigned_in_stmts(i.first_branch.body) + assigned_in_branches(
                                i.other_branches,
                            ),
                            assigned_in_stmts(b),
                        );
                    }
                },
                None => {
                    lemma_grows_refl(c2);
                    lemma_grows_trans(
                        c,
                        c2,
                        c2,
                        assigned_in_stmts(i.first_branch.body) + assigned_in_branches(
                            i.other_branches,
                        ),
                        Set::empty(),
                    );
                },
            }
        }
    }
}

proof fn lemma_walk_grows_branches(c: SpecContext, bs: Seq<SpecIfBranch>)
    ensures
        walked_branches(c, bs) matches Ok(c2) ==> grows(c, c2, assigned_in_branches(bs)),
    decreases bs,
{
    if bs.len() == 0 {
        lemma_grows_refl(c);
    } else {
        let front = bs.subrange(0, bs.len() - 1);
        lemma_walk_grows_branches(c, front);
        if let Ok(c1) = walked_branches(c, front) {
            lemma_walk_grows_stmts(c1, bs[bs.len() - 1].body);
            if let Ok(c2) = walked_branches(c, bs) {
                assert(walked_branch(c1, bs[bs.len() - 1]) == Ok::<SpecContext, Seq<char>>(c2));
                assert(walked_stmts(c1, bs[bs.len() - 1].body) == Ok::<SpecContext, Seq<char>>(c2));
                lemma_grows_trans(
                    c,
                    c1,
                    c2,
                    assigned_in_branches(front),
                    assigned_in_stmts(bs[bs.len() - 1].body),
                );
            }
        }
    }
}

proof fn lemma_walk_grows_stmts(c: SpecContext, ss: Seq<SpecStmt>)
    ensures
        walked_stmts(c, ss) matches Ok(c2) ==> grows(c, c2, assigned_in_stmts(ss)),
    decreases ss,
{
    if ss.len() == 0 {
        lemma_grows_refl(c);
    } else {
        let front = ss.subrange(0, ss.len() - 1);
        lemma_walk_grows_stmts(c, front);
        if let Ok(c1) = walked_stmts(c, front) {
            lemma_walk_grows_stmt(c1, ss[ss.len() - 1]);
            if let Ok(c2) = walked_stmts(c, ss) {
                lemma_grows_trans(c, c1, c2, assigned_in_stmts(front), assigned_in_stmt(ss[ss.len() - 1]));
            }
        }
    }
}

/// Walking statements only adds to what has been seen: the identifiers they
/// give a value to are added, no label is forgotten, and the gotos seen
/// before stay in front.
pub proof fn lemma_walk_grows(c: SpecContext, ss: Seq<SpecStmt>)
    ensures
        walked_stmts(c, ss) matches Ok(c2) ==> grows(c, c2, assigned_in_stmts(ss)),
{
    lemma_walk_grows_stmts(c, ss);
}

/// When the walk over a program gets through, the identifiers it has seen
/// declared are exactly the variables that the emitter declares in C.
pub proof fn lemma_walk_and_emit_agree(ss: Seq<SpecStmt>)
    ensures
        walked_stmts(empty_context(), ss) matches Ok(c) ==> c.identifiers == stmts_code(
            Set::empty(),
            ss,
        ).1,
{
    lemma_walk_grows_stmts(empty_context(), ss);
    lemma_emit_declares(Set::empty(), ss);
}

/// The values of a sequence of strings.
pub open spec fn strings_view(v: Seq<String>) -> Seq<Seq<char>> {
    v.map_values(|s: String| s@)
}

/// What the walk over a program has seen so far.
pub struct Context {
    identifiers_declared: StringHashSet,
    labels_declared: StringHashSet,
    labels_gotoed: Vec<String>,
}

impl View for Context {
    type V = SpecContext;

    closed spec fn view(&self) -> SpecContext {
        SpecContext {
            identifiers: self.identifiers_declared@,
            labels: self.labels_declared@,
            gotos: strings_view(self.labels_gotoed@),
        }
    }
}

impl Context {
    /// A context that has seen nothing.
    pub fn new() -> (r: Context)
        ensures
            r@ == empty_context(),
    {
        let r = Context {
            identifiers_declared: StringHashSet::new(),
            labels_declared: StringHashSet::new(),
            labels_gotoed: Vec::new(),
        };
        proof {
            assert(strings_view(r.labels_gotoed@) =~= Seq::<Seq<char>>::empty());
        }
        r
    }
}

/// The error for an identifier read before it is declared.
fn undeclared_error(x: &str) -> (e: Error)
    ensures
        e@ == ErrorView::Lexer(undeclared_message(x@)),
{
    let mut m = String::from_str("Identifier `");
    m.append(x);
    m.append("` used before declared");
    Error::Lexer(m)
}

/// Checks that every identifier of an expression has been declared.
pub fn walk_expr(expr: &Expr, context: &mut Context) -> (r: Result<(), Error>)
    ensures
        final(context)@ == old(context)@,
        match undeclared_in(old(context)@.identifiers, expr@) {
            None => r is Ok,
            Some(x) => r matches Err(e) && e@ == ErrorView::Lexer(undeclared_message(x)),
        },
        r is Ok <==> expr_identifiers(expr@).subset_of(old(context)@.identifiers),
    decreases expr,
{
    proof {
        lemma_undeclared_in(context@.identifiers, expr@);
    }
    match expr {
        Expr::Binary(_op, lhs, rhs) => {
            walk_expr(lhs, context)?;
            walk_expr(rhs, context)
        },
        Expr::Unary(_op, inner) => walk_expr(inner, context),
        Expr::Number(_n) => Ok(()),
        Expr::Identifier(ident) => {
            if !context.identifiers_declared.contains(ident.as_str()) {
                return Err(undeclared_error(ident.as_str()));
            }
            Ok(())
        },
    }
}

/// The walk went from context `before` to `after` and answered `r`, as `expected` says.
pub open spec fn walk_outcome(
    r: Result<(), Error>,
    expected: Result<SpecContext, Seq<char>>,
    after: SpecContext,
) -> bool {
    match expected {
        Ok(c) => r is Ok && after == c,
        Err(x) => r matches Err(e) && e@ == ErrorView::Lexer(undeclared_message(x)),
    }
}

/// A `WHILE` condition is checked against the identifiers declared before the
/// loop, whatever its body declares: the loop is accepted only if every
/// identifier of the condition was declared before it, and otherwise it is
/// refused for one of them.
pub proof fn lemma_while_condition_first(c: SpecContext, w: SpecWhileStmt)
    ensures
        walked_while(c, w) is Ok ==> expr_identifiers(w.condition).subset_of(c.identifiers),
        !expr_identifiers(w.condition).subset_of(c.identifiers) ==> (walked_while(c, w) matches Err(x)
            && expr_identifiers(w.condition).contains(x) && !c.identifiers.contains(x)),
{
    lemma_undeclared_in(c.identifiers, w.condition);
}

/// Likewise, the condition of an `IF` or `ELSEIF` branch is checked against
/// the identifiers declared before the branch.
pub proof fn lemma_branch_condition_first(c: SpecContext, b: SpecIfBranch)
    ensures
        walked_branch(c, b) is Ok ==> expr_identifiers(b.condition).subset_of(c.identifiers),
        !expr_identifiers(b.condition).subset_of(c.identifiers) ==> (walked_branch(c, b) matches Err(x)
            && expr_identifiers(b.condition).contains(x) && !c.identifiers.contains(x)),
{
    lemma_undeclared_in(c.identifiers, b.condition);
}

/// Walks each statement of a body in turn.
fn walk_stmts(stmts: &[Stmt], context: &mut Context) -> (r: Result<(), Error>)
    ensures
        walk_outcome(r, walked_stmts(old(context)@, stmts_view(stmts@)), final(context)@),
    decreases stmts@,
{
    let ghost sv = stmts_view(stmts@);
    let ghost c0 = context@;
    proof {
        lemma_stmts_view(stmts@);
        assert(sv.subrange(0, 0) =~= Seq::<SpecStmt>::empty());
    }
    let mut i: usize = 0;
    while i < stmts.len()
        invariant
            i <= stmts@.len(),
            sv == stmts_view(stmts@),
            sv.len() == stmts@.len(),
            forall|k: int| 0 <= k < stmts@.len() ==> #[trigger] sv[k] == stmts@[k]@,
            c0 == old(context)@,
            walked_stmts(c0, sv.subrange(0, i as int)) == Ok::<SpecContext, Seq<char>>(context@),
        decreases stmts@.len() - i,
    {
        proof {
            assert(sv.subrange(0, i + 1).subrange(0, i as int) =~= sv.subrange(0, i as int));
            assert(sv.subrange(0, i + 1)[i as int] == stmts@[i as int]@);
            assert(walked_stmts(c0, sv.subrange(0, i + 1)) == walked_stmt(context@, stmts@[i as int]@));
        }
        let r = walk_stmt(&stmts[i], context);
        if r.is_err() {
            proof {
                lemma_walked_stmts_prefix(c0, sv, i + 1);
            }
            return r;
        }
        i = i + 1;
    }
    proof {
        assert(sv.subrange(0, stmts@.len() as int) =~= sv);
    }
    Ok(())
}

/// Checks the condition, then the body, of a branch of an `IF` statement.
pub fn walk_if_branch(if_branch: &IfBranch, context: &mut Context) -> (r: Result<(), Error>)
    ensures
        walk_outcome(r, walked_branch(old(context)@, if_branch@), final(context)@),
    decreases if_branch,
{
    walk_expr(&if_branch.condition, context)?;
    walk_stmts(if_branch.body.as_slice(), context)
}

/// Checks the branches of an `IF` statement in order, then its `ELSE` body.
pub fn walk_if_stmt(if_stmt: &IfStmt, context: &mut Context) -> (r: Result<(), Error>)
    ensures
        walk_outcome(r, walked_if(old(context)@, if_stmt@), final(context)@),
    decreases if_stmt,
{
    walk_if_branch(&if_stmt.first_branch, context)?;
    let ghost c1 = context@;
    let ghost bv = branches_view(if_stmt.other_branches@);
    proof {
        lemma_branches_view(if_stmt.other_branches@);
        assert(bv.subrange(0, 0) =~= Seq::<SpecIfBranch>::empty());
    }
    let mut i: usize = 0;
    while i < if_stmt.other_branches.len()
        invariant
            i <= if_stmt.other_branches@.len(),
            bv == branches_view(if_stmt.other_branches@),
            bv.len() == if_stmt.other_branches@.len(),
            forall|k: int|
                0 <= k < if_stmt.other_branches@.len() ==> #[trigger] bv[k]
                    == if_stmt.other_branches@[k]@,
            walked_branch(old(context)@, if_stmt.first_branch@) == Ok::<SpecContext, Seq<char>>(c1),
            walked_branches(c1, bv.subrange(0, i as int)) == Ok::<SpecContext, Seq<char>>(
                context@,
            ),
        decreases if_stmt.other_branches@.len() - i,
    {
        proof {
            assert(bv.subrange(0, i + 1).subrange(0, i as int) =~= bv.subrange(0, i as int));
            assert(bv.subrange(0, i + 1)[i as int] == if_stmt.other_branches@[i as int]@);
        }
        let r = walk_if_branch(&if_stmt.other_branches[i], context);
        if r.is_err() {
            proof {
                lemma_walked_branches_prefix(c1, bv, i + 1);
            }
            return r;
        }
        i = i + 1;
    }
    proof {
        assert(bv.subrange(0, if_stmt.other_branches@.len() as int) =~= bv);
    }
    match &if_stmt.else_body {
        Some(body) => walk_stmts(body.as_slice(), context),
        None => Ok(()),
    }
}

/// Checks the condition, then the body, of a `WHILE` statement.
pub fn walk_while_stmt(while_stmt: &WhileStmt, context: &mut Context) -> (r: Result<(), Error>)
    ensures
        walk_outcome(r, walked_while(old(context)@, while_stmt@), final(context)@),
    decreases while_stmt,
{
    walk_expr(&while_stmt.condition, context)?;
    walk_stmts(while_stmt.body.as_slice(), context)
}

/// Checks a statement and records what it declares: a `LET` or `INPUT` its
/// variable (a `LET` before its expression is checked), a `LABEL` its label,
/// a `GOTO` the label it names. What a `PRINT` prints is not checked.
pub fn walk_stmt(stmt: &Stmt, context: &mut Context) -> (r: Result<(), Error>)
    ensures
        walk_outcome(r, walked_stmt(old(context)@, stmt@), final(context)@),
    decreases stmt,
{
    match stmt {
        Stmt::Print(_pv) => Ok(()),
        Stmt::If(if_stmt) => walk_if_stmt(if_stmt, context),
        Stmt::While(while_stmt) => walk_while_stmt(while_stmt, context),
        Stmt::Label(label) => {
            context.labels_declared.insert(label.clone());
            Ok(())
        },
        Stmt::Goto(label) => {
            let ghost before = context.labels_gotoed@;
            context.labels_gotoed.push(label.clone());
            proof {
                assert(strings_view(context.labels_gotoed@) =~= strings_view(before).push(label@));
            }
            Ok(())
        },
        Stmt::Input(ident) => {
            context.identifiers_declared.insert(ident.clone());
            Ok(())
        },
        Stmt::Let(ident, expr) => {
            context.identifiers_declared.insert(ident.clone());
            walk_expr(expr, context)
        },
    }
}

/// Checks a whole program: every identifier is declared (by `LET` or
/// `INPUT`) before it is read, and every `GOTO` names a label of the program.
pub fn walk_tree(ast: &[Stmt]) -> (r: Result<(), Error>)
    ensures
        match tree_verdict(stmts_view(ast@)) {
            None => r is Ok,
            Some(e) => r matches Err(err) && err@ == e,
        },
{
    let mut context = Context::new();
    let ghost sv = stmts_view(ast@);
    let r = walk_stmts(ast, &mut context);
    if r.is_err() {
        return r;
    }
    let mut j: usize = 0;
    while j < context.labels_gotoed.len()
        invariant
            j <= context.labels_gotoed@.len(),
            sv == stmts_view(ast@),
            walked_stmts(empty_context(), sv) == Ok::<SpecContext, Seq<char>>(context@),
            missing_label(context@.labels, context@.gotos, 0) == missing_label(
                context@.labels,
                context@.gotos,
                j as int,
            ),
        decreases context.labels_gotoed@.len() - j,
    {
        let label = &context.labels_gotoed[j];
        proof {
            assert(context@.gotos[j as int] == label@);
        }
        if !context.labels_declared.contains(label.as_str()) {
            let mut m = String::from_str("Label gotoed `");
            m.append(label.as_str());
            m.append("` does not exist");
            return Err(Error::Lexer(m));
        }
        j = j + 1;
    }
    Ok(())
}

} // verus!
