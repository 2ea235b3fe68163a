//! The syntax tree: expressions and statements, as the parser builds them.
use vstd::prelude::*;

use crate::grammar::{stmt_tree, stmt_trees, tree, trees};
use crate::token::{Literal, Token};

verus! {

#[derive(Debug, PartialEq, Eq)]
pub enum Expr {
    AssignExpr(Token, Box<Expr>),
    BinaryExpr(Box<Expr>, Token, Box<Expr>),
    GroupingExpr(Box<Expr>),
    LiteralExpr(Literal),
    UnaryExpr(Token, Box<Expr>),
    VariableExpr(Token),
    LogicalExpr(Box<Expr>, Token, Box<Expr>),
    /// Callee, closing parenthesis (kept for its line), arguments.
    Call(Box<Expr>, Token, Vec<Expr>),
}

/// A statement. A function's body is a list of statements, run as a block.
#[derive(Debug, PartialEq, Eq)]
pub enum Stmt {
    Print(Expr),
    Expression(Expr),
    VarDeclaration(Token, Option<Expr>),
    Function(Token, Vec<Token>, Vec<Stmt>),
    Block(Vec<Stmt>),
    If(Expr, Box<Stmt>, Option<Box<Stmt>>),
    While(Expr, Box<Stmt>),
    Return(Token, Expr),
}

fn clone_exprs(v: &Vec<Expr>) -> (r: Vec<Expr>)
    ensures
        trees(r@) == trees(v@),
    decreases v@,
{
    let mut r: Vec<Expr> = Vec::new();
    let mut i: usize = 0;
    while i < v.len()
        invariant
            i <= v@.len(),
            trees(r@) == trees(v@.subrange(0, i as int)),
        decreases v@.len() - i,
    {
        proof {
            assert(v@.contains(v@[i as int]));
        }
        let c = v[i].clone();
        let ghost before = r@;
        r.push(c);
        proof {
            assert(r@.drop_last() =~= before);
            assert(v@.subrange(0, i + 1).drop_last() =~= v@.subrange(0, i as int));
        }
        i = i + 1;
    }
    assert(v@.subrange(0, v@.len() as int) =~= v@);
    r
}

pub(crate) fn clone_stmts(v: &Vec<Stmt>) -> (r: Vec<Stmt>)
    ensures
        stmt_trees(r@) == stmt_trees(v@),
    decreases v@,
{
    let mut r: Vec<Stmt> = Vec::new();
    let mut i: usize = 0;
    while i < v.len()
        invariant
            i <= v@.len(),
            stmt_trees(r@) == stmt_trees(v@.subrange(0, i as int)),
        decreases v@.len() - i,
    {
        proof {
            assert(v@.contains(v@[i as int]));
        }
        let c = v[i].clone();
        let ghost before = r@;
        r.push(c);
        proof {
            assert(r@.drop_last() =~= before);
            assert(v@.subrange(0, i + 1).drop_last() =~= v@.subrange(0, i as int));
        }
        i = i + 1;
    }
    assert(v@.subrange(0, v@.len() as int) =~= v@);
    r
}

pub(crate) fn clone_tokens(v: &Vec<Token>) -> (r: Vec<Token>)
    ensures
        r@ == v@,
{
    let mut r: Vec<Token> = Vec::new();
    let mut i: usize = 0;
    while i < v.len()
        invariant
            i <= v@.len(),
            r@ == v@.subrange(0, i as int),
        decreases v@.len() - i,
    {
        r.push(v[i].clone());
        i = i + 1;
        assert(r@ =~= v@.subrange(0, i as int));
    }
    assert(r@ =~= v@);
    r
}

impl Clone for Expr {
    fn clone(&self) -> (r: Self)
        ensures
            tree(r) == tree(*self),
        decreases self,
    {
        match self {
            Expr::AssignExpr(t, e) => Expr::AssignExpr(t.clone(), Box::new((**e).clone())),
            Expr::BinaryExpr(l, t, r) => Expr::BinaryExpr(
                Box::new((**l).clone()),
                t.clone(),
                Box::new((**r).clone()),
            ),
            Expr::GroupingExpr(e) => Expr::GroupingExpr(Box::new((**e).clone())),
            Expr::LiteralExpr(l) => Expr::LiteralExpr(l.clone()),
            Expr::UnaryExpr(t, e) => Expr::UnaryExpr(t.clone(), Box::new((**e).clone())),
            Expr::VariableExpr(t) => Expr::VariableExpr(t.clone()),
            Expr::LogicalExpr(l, t, r) => Expr::LogicalExpr(
                Box::new((**l).clone()),
                t.clone(),
                Box::new((**r).clone()),
            ),
            Expr::Call(c, t, args) => Expr::Call(
                Box::new((**c).clone()),
                t.clone(),
                clone_exprs(args),
            ),
        }
    }
}

impl Clone for Stmt {
    fn clone(&self) -> (r: Self)
        ensures
            stmt_tree(r) == stmt_tree(*self),
        decreases self,
    {
        match self {
            Stmt::Print(e) => Stmt::Print(e.clone()),
            Stmt::Expression(e) => Stmt::Expression(e.clone()),
            Stmt::VarDeclaration(t, init) => {
                let init = match init {
                    Some(e) => Some(e.clone()),
                    None => None,
                };
                Stmt::VarDeclaration(t.clone(), init)
            },
            Stmt::Function(name, params, body) => Stmt::Function(
                name.clone(),
                clone_tokens(params),
                clone_stmts(body),
            ),
            Stmt::Block(stmts) => Stmt::Block(clone_stmts(stmts)),
            Stmt::If(c, t, e) => {
                let e = match e {
                    Some(s) => Some(Box::new((**s).clone())),
                    None => None,
                };
                Stmt::If(c.clone(), Box::new((**t).clone()), e)
            },
            Stmt::While(c, b) => Stmt::While(c.clone(), Box::new((**b).clone())),
            Stmt::Return(t, e) => Stmt::Return(t.clone(), e.clone()),
        }
    }
}

pub fn bexpr(left: Expr, operator: Token, right: Expr) -> (r: Expr)
    ensures
        r == Expr::BinaryExpr(Box::new(left), operator, Box::new(right)),
{
    Expr::BinaryExpr(Box::new(left), operator, Box::new(right))
}

pub fn gexpr(group: Expr) -> (r: Expr)
    ensures
        r == Expr::GroupingExpr(Box::new(group)),
{
    Expr::GroupingExpr(Box::new(group))
}

pub fn lexpr(literal: Literal) -> (r: Expr)
    ensures
        r == Expr::LiteralExpr(literal),
{
    Expr::LiteralExpr(literal)
}

pub fn uexpr(operator: Token, right: Expr) -> (r: Expr)
    ensures
        r == Expr::UnaryExpr(operator, Box::new(right)),
{
    Expr::UnaryExpr(operator, Box::new(right))
}

pub fn vexpr(identifier: Token) -> (r: Expr)
    ensures
        r == Expr::VariableExpr(identifier),
{
    Expr::VariableExpr(identifier)
}

pub fn aexpr(identifier: Token, value: Expr) -> (r: Expr)
    ensures
        r == Expr::AssignExpr(identifier, Box::new(value)),
{
    Expr::AssignExpr(identifier, Box::new(value))
}

pub fn lgexpr(left: Expr, operator: Token, right: Expr) -> (r: Expr)
    ensures
        r == Expr::LogicalExpr(Box::new(left), operator, Box::new(right)),
{
    Expr::LogicalExpr(Box::new(left), operator, Box::new(right))
}

pub fn cexpr(callee: Expr, paren: Token, arguments: Vec<Expr>) -> (r: Expr)
    ensures
        r == Expr::Call(Box::new(callee), paren, arguments),
{
    Expr::Call(Box::new(callee), paren, arguments)
}

pub fn pstmt(expr: Expr) -> (r: Stmt)
    ensures
        r == Stmt::Print(expr),
{
    Stmt::Print(expr)
}

pub fn estmt(expr: Expr) -> (r: Stmt)
    ensures
        r == Stmt::Expression(expr),
{
    Stmt::Expression(expr)
}

pub fn vdstmt(token: Token, initializer: Option<Expr>) -> (r: Stmt)
    ensures
        r == Stmt::VarDeclaration(token, initializer),
{
    Stmt::VarDeclaration(token, initializer)
}

pub fn ifstmt(expr: Expr, stmt_then: Stmt, stmt_else: Option<Stmt>) -> (r: Stmt)
    ensures
        r == Stmt::If(
            expr,
            Box::new(stmt_then),
            match stmt_else {
                Some(s) => Some(Box::new(s)),
                None => None,
            },
        ),
{
    let stmt_else = match stmt_else {
        Some(s) => Some(Box::new(s)),
        None => None,
    };
    Stmt::If(expr, Box::new(stmt_then), stmt_else)
}

pub fn wstmt(expr: Expr, stmt: Stmt) -> (r: Stmt)
    ensures
        r == Stmt::While(expr, Box::new(stmt)),
{
    Stmt::While(expr, Box::new(stmt))
}

pub fn fstmt(identifier: Token, parameters: Vec<Token>, body: Vec<Stmt>) -> (r: Stmt)
    ensures
        r == Stmt::Function(identifier, parameters, body),
{
    Stmt::Function(identifier, parameters, body)
}

} // verus!
