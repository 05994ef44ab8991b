//! Abstract syntax: expressions, statements, function declarations and the
//! program, with their mathematical models.

use vstd::prelude::*;

use crate::scanner::{NumberLit, SpecNumber};

verus! {

#[derive(Debug, Clone, Copy, PartialEq)]
pub enum Op {
    Add,
    Sub,
    Mul,
    Div,
}

pub ghost enum SpecExpr {
    Constant(SpecNumber),
    Binary(Box<SpecExpr>, Op, Box<SpecExpr>),
    Unary(Op, Box<SpecExpr>),
    Call(Seq<char>, Seq<SpecExpr>),
    Symbol(Seq<char>),
}

#[derive(Debug, PartialEq)]
pub enum Expr {
    Constant(NumberLit),
    Binary(Box<Expr>, Op, Box<Expr>),
    Unary(Op, Box<Expr>),
    Call(String, Vec<Box<Expr>>),
    Symbol(String),
}

/// The mathematical model of an expression tree.
pub open spec fn expr_view(e: Expr) -> SpecExpr
    decreases e,
{
    match e {
        Expr::Constant(n) => SpecExpr::Constant(n@),
        Expr::Binary(l, op, r) => SpecExpr::Binary(Box::new(expr_view(*l)), op, Box::new(
            expr_view(*r),
        )),
        Expr::Unary(op, e1) => SpecExpr::Unary(op, Box::new(expr_view(*e1))),
        Expr::Call(name, args) => SpecExpr::Call(name@, exprs_view(args@)),
        Expr::Symbol(name) => SpecExpr::Symbol(name@),
    }
}

/// The models of a sequence of argument expressions.
pub open spec fn exprs_view(args: Seq<Box<Expr>>) -> Seq<SpecExpr>
    decreases args,
{
    if args.len() == 0 {
        Seq::empty()
    } else {
        seq![expr_view(*args[0])] + exprs_view(args.subrange(1, args.len() as int))
    }
}

pub proof fn lemma_exprs_view(args: Seq<Box<Expr>>)
    ensures
        exprs_view(args).len() == args.len(),
        forall|i: int| 0 <= i < args.len() ==> exprs_view(args)[i] == expr_view(*args[i]),
    decreases args.len(),
{
    if args.len() > 0 {
        lemma_exprs_view(args.subrange(1, args.len() as int));
    }
}

impl View for Expr {
    type V = SpecExpr;

    open spec fn view(&self) -> SpecExpr {
        expr_view(*self)
    }
}

#[derive(Debug, PartialEq)]
pub enum Stmt {
    ExprStmt(Expr),
    Assignment(String, Expr),
    Return(Option<Expr>),
    Conditional(Expr, Expr, Option<Expr>),
}

pub ghost enum SpecStmt {
    ExprStmt(SpecExpr),
    Assignment(Seq<char>, SpecExpr),
    Return(Option<SpecExpr>),
    Conditional(SpecExpr, SpecExpr, Option<SpecExpr>),
}

impl View for Stmt {
    type V = SpecStmt;

    open spec fn view(&self) -> SpecStmt {
        match self {
            Stmt::ExprStmt(e) => SpecStmt::ExprStmt(e@),
            Stmt::Assignment(name, e) => SpecStmt::Assignment(name@, e@),
            Stmt::Return(oe) => SpecStmt::Return(
                match oe {
                    Some(e) => Some(e@),
                    None => None,
                },
            ),
            Stmt::Conditional(c, y, on) => SpecStmt::Conditional(
                c@,
                y@,
                match on {
                    Some(n) => Some(n@),
                    None => None,
                },
            ),
        }
    }
}

pub proof fn lemma_exprs_view_push(s: Seq<Box<Expr>>, b: Box<Expr>)
    ensures
        exprs_view(s.push(b)) == exprs_view(s) + seq![expr_view(*b)],
{
    lemma_exprs_view(s.push(b));
    lemma_exprs_view(s);
    assert(exprs_view(s.push(b)) =~= exprs_view(s) + seq![expr_view(*b)]);
}

/// The models of a statement list.
pub open spec fn stmts_view(v: Seq<Stmt>) -> Seq<SpecStmt> {
    v.map_values(|s: Stmt| s@)
}

/// The models of a declaration list.
pub open spec fn funcs_view(v: Seq<FuncDecl>) -> Seq<SpecFuncDecl> {
    v.map_values(|f: FuncDecl| f@)
}

#[derive(Debug, PartialEq)]
pub struct FuncDecl {
    pub name: String,
    pub body: Vec<Stmt>,
}

pub ghost struct SpecFuncDecl {
    pub name: Seq<char>,
    pub body: Seq<SpecStmt>,
}

impl View for FuncDecl {
    type V = SpecFuncDecl;

    open spec fn view(&self) -> SpecFuncDecl {
        SpecFuncDecl { name: self.name@, body: self.body@.map_values(|s: Stmt| s@) }
    }
}

#[derive(Debug, PartialEq)]
pub struct Program {
    pub functions: Vec<FuncDecl>,
}

pub ghost struct SpecProgram {
    pub functions: Seq<SpecFuncDecl>,
}

impl View for Program {
    type V = SpecProgram;

    open spec fn view(&self) -> SpecProgram {
        SpecProgram { functions: self.functions@.map_values(|f: FuncDecl| f@) }
    }
}

impl Program {
    /// An empty program, to be filled declaration by declaration.
    pub fn new() -> (r: Program)
        ensures
            r@.functions == Seq::<SpecFuncDecl>::empty(),
    {
        let r = Program { functions: Vec::new() };
        proof {
            assert(r@.functions =~= Seq::<SpecFuncDecl>::empty());
        }
        r
    }
}

} // verus!
