//! Abstract syntax for the source language: expressions and statements as
//! owned trees, plus ghost mirror types (`ExprV`, `StmtV`) whose string
//! payloads are character sequences, used by all contracts.
use vstd::prelude::*;

verus! {

/// Binary operators of the expression grammar.
#[derive(Debug, Clone, Copy, PartialEq, Eq, Structural)]
pub enum Op {
    Add,
    Sub,
    Mul,
    Div,
    LessThan,
}

/// Expressions: each node exclusively owns its children.
#[derive(Debug)]
pub enum Expr {
    Integer(i32),
    StringLiteral(String),
    Variable(String),
    /// Array allocation; the child is the size expression.
    NewArray(Box<Expr>),
    /// Array element read: array name, index expression.
    ArrayAccess(String, Box<Expr>),
    /// Function call: callee name, arguments in order.
    Call(String, Vec<Expr>),
    /// Method call: receiver, method name, arguments in order.
    MethodCall(Box<Expr>, String, Vec<Expr>),
    /// Object instantiation by class name.
    NewInstance(String),
    /// Field read: object expression, field name.
    GetField(Box<Expr>, String),
    Binary(Box<Expr>, Op, Box<Expr>),
}

/// Statements: each node exclusively owns its children.
#[derive(Debug)]
pub enum Stmt {
    /// Variable declaration: name, initializer.
    VarDecl(String, Expr),
    Assign(String, Expr),
    Return(Expr),
    /// Array element write: array name, index, value.
    ArraySet(String, Expr, Expr),
    Print(Expr),
    Block(Vec<Stmt>),
    /// Conditional: condition, then branch, optional else branch.
    If(Expr, Box<Stmt>, Option<Box<Stmt>>),
    While(Expr, Box<Stmt>),
    Expression(Expr),
    /// Function definition: mangled name, parameter names, body statements.
    Function(String, Vec<String>, Vec<Stmt>),
    /// Class definition: name, field names, method definitions.
    Class(String, Vec<String>, Vec<Stmt>),
    /// Field write: object expression, field name, value.
    FieldSet(Box<Expr>, String, Expr),
}

/// Ghost mirror of `Expr` with `Seq<char>` in place of `String`.
pub ghost enum ExprV {
    Integer(i32),
    StringLiteral(Seq<char>),
    Variable(Seq<char>),
    NewArray(Box<ExprV>),
    ArrayAccess(Seq<char>, Box<ExprV>),
    Call(Seq<char>, Seq<ExprV>),
    MethodCall(Box<ExprV>, Seq<char>, Seq<ExprV>),
    NewInstance(Seq<char>),
    GetField(Box<ExprV>, Seq<char>),
    Binary(Box<ExprV>, Op, Box<ExprV>),
}

/// Ghost mirror of `Stmt` with `Seq<char>` in place of `String`.
pub ghost enum StmtV {
    VarDecl(Seq<char>, ExprV),
    Assign(Seq<char>, ExprV),
    Return(ExprV),
    ArraySet(Seq<char>, ExprV, ExprV),
    Print(ExprV),
    Block(Seq<StmtV>),
    If(ExprV, Box<StmtV>, Option<Box<StmtV>>),
    While(ExprV, Box<StmtV>),
    Expression(ExprV),
    Function(Seq<char>, Seq<Seq<char>>, Seq<StmtV>),
    Class(Seq<char>, Seq<Seq<char>>, Seq<StmtV>),
    FieldSet(Box<ExprV>, Seq<char>, ExprV),
}

pub open spec fn expr_view(e: Expr) -> ExprV
    decreases e,
{
    match e {
        Expr::Integer(v) => ExprV::Integer(v),
        Expr::StringLiteral(s) => ExprV::StringLiteral(s@),
        Expr::Variable(n) => ExprV::Variable(n@),
        Expr::NewArray(sz) => ExprV::NewArray(Box::new(expr_view(*sz))),
        Expr::ArrayAccess(n, ix) => ExprV::ArrayAccess(n@, Box::new(expr_view(*ix))),
        Expr::Call(n, args) => ExprV::Call(n@, exprs_view(args@)),
        Expr::MethodCall(obj, m, args) => ExprV::MethodCall(
            Box::new(expr_view(*obj)),
            m@,
            exprs_view(args@),
        ),
        Expr::NewInstance(n) => ExprV::NewInstance(n@),
        Expr::GetField(obj, f) => ExprV::GetField(Box::new(expr_view(*obj)), f@),
        Expr::Binary(l, op, r) => ExprV::Binary(
            Box::new(expr_view(*l)),
            op,
            Box::new(expr_view(*r)),
        ),
    }
}

pub open spec fn exprs_view(s: Seq<Expr>) -> Seq<ExprV>
    decreases s,
{
    if s.len() == 0 {
        Seq::empty()
    } else {
        exprs_view(s.drop_last()).push(expr_view(s.last()))
    }
}

pub open spec fn stmt_view(s: Stmt) -> StmtV
    decreases s,
{
    match s {
        Stmt::VarDecl(n, e) => StmtV::VarDecl(n@, expr_view(e)),
        Stmt::Assign(n, e) => StmtV::Assign(n@, expr_view(e)),
        Stmt::Return(e) => StmtV::Return(expr_view(e)),
        Stmt::ArraySet(n, ix, v) => StmtV::ArraySet(n@, expr_view(ix), expr_view(v)),
        Stmt::Print(e) => StmtV::Print(expr_view(e)),
        Stmt::Block(ss) => StmtV::Block(stmts_view(ss@)),
        Stmt::If(c, t, e) => StmtV::If(
            expr_view(c),
            Box::new(stmt_view(*t)),
            match e {
                Some(eb) => Some(Box::new(stmt_view(*eb))),
                None => None,
            },
        ),
        Stmt::While(c, b) => StmtV::While(expr_view(c), Box::new(stmt_view(*b))),
        Stmt::Expression(e) => StmtV::Expression(expr_view(e)),
        Stmt::Function(n, ps, body) => StmtV::Function(n@, names_view(ps@), stmts_view(body@)),
        Stmt::Class(n, fs, ms) => StmtV::Class(n@, names_view(fs@), stmts_view(ms@)),
        Stmt::FieldSet(obj, f, v) => StmtV::FieldSet(
            Box::new(expr_view(*obj)),
            f@,
            expr_view(v),
        ),
    }
}

pub open spec fn stmts_view(s: Seq<Stmt>) -> Seq<StmtV>
    decreases s,
{
    if s.len() == 0 {
        Seq::empty()
    } else {
        stmts_view(s.drop_last()).push(stmt_view(s.last()))
    }
}

pub open spec fn names_view(s: Seq<String>) -> Seq<Seq<char>> {
    s.map_values(|n: String| n@)
}

impl View for Expr {
    type V = ExprV;

    open spec fn view(&self) -> ExprV {
        expr_view(*self)
    }
}

impl View for Stmt {
    type V = StmtV;

    open spec fn view(&self) -> StmtV {
        stmt_view(*self)
    }
}

/// `stmts_view` agrees pointwise with `stmt_view`.
pub proof fn lemma_stmts_view_index(s: Seq<Stmt>, i: int)
    requires
        0 <= i < s.len(),
    ensures
        stmts_view(s).len() == s.len(),
        stmts_view(s)[i] == stmt_view(s[i]),
    decreases s.len(),
{
    if s.len() > 0 && i < s.len() - 1 {
        lemma_stmts_view_index(s.drop_last(), i);
    } else if s.len() > 0 {
        lemma_stmts_view_len(s.drop_last());
    }
}

/// `exprs_view` agrees pointwise with `expr_view`.
pub proof fn lemma_exprs_view_index(s: Seq<Expr>, i: int)
    requires
        0 <= i < s.len(),
    ensures
        exprs_view(s).len() == s.len(),
        exprs_view(s)[i] == expr_view(s[i]),
    decreases s.len(),
{
    if s.len() > 0 && i < s.len() - 1 {
        lemma_exprs_view_index(s.drop_last(), i);
    } else if s.len() > 0 {
        lemma_exprs_view_len(s.drop_last());
    }
}

pub proof fn lemma_stmts_view_len(s: Seq<Stmt>)
    ensures
        stmts_view(s).len() == s.len(),
    decreases s.len(),
{
    if s.len() > 0 {
        lemma_stmts_view_len(s.drop_last());
    }
}

pub proof fn lemma_exprs_view_len(s: Seq<Expr>)
    ensures
        exprs_view(s).len() == s.len(),
    decreases s.len(),
{
    if s.len() > 0 {
        lemma_exprs_view_len(s.drop_last());
    }
}

} // verus!
