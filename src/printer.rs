//! Prints an expression tree in prefix form, for inspecting what was parsed.
use vstd::prelude::*;

use crate::ast::Expr;
use crate::grammar::{tree, trees, Tree};
use crate::text::concat;
use crate::token::Literal;

verus! {

/// The prefix form of an expression tree.
pub open spec fn show(t: Tree) -> Seq<char>
    decreases t,
{
    match t {
        Tree::Binary(l, operator, r) => parenthesized(operator.lexeme@, seq![show(*l), show(*r)])
            + ")"@,
        Tree::Logical(l, operator, r) => parenthesized(operator.lexeme@, seq![show(*l), show(*r)])
            + ")"@,
        Tree::Grouping(e) => parenthesized("group"@, seq![show(*e)]) + ")"@,
        Tree::Unary(operator, e) => parenthesized(operator.lexeme@, seq![show(*e)]) + ")"@,
        Tree::Literal(literal) => show_literal(literal),
        Tree::Variable(name) => name.lexeme@,
        Tree::Assign(name, value) => parenthesized("="@, seq![name.lexeme@, show(*value)]) + ")"@,
        Tree::Call(callee, _, arguments) => parenthesized(
            "call"@,
            seq![show(*callee)] + show_all(arguments),
        ) + ")"@,
    }
}

pub open spec fn show_all(s: Seq<Tree>) -> Seq<Seq<char>>
    decreases s,
{
    if s.len() == 0 {
        Seq::empty()
    } else {
        show_all(s.drop_last()).push(show(s.last()))
    }
}

/// Literals as written: strings in double quotes, numbers by their numeral.
pub open spec fn show_literal(literal: Literal) -> Seq<char> {
    match literal {
        Literal::String(s) => "\""@ + s@ + "\""@,
        Literal::Number(n) => n@,
        Literal::Boolean(b) => if b {
            "true"@
        } else {
            "false"@
        },
        Literal::Nil => "nil"@,
    }
}

fn one(a: String) -> (r: Vec<String>)
    ensures
        r@.map_values(|s: String| s@) == seq![a@],
{
    let mut r = Vec::new();
    r.push(a);
    assert(r@.map_values(|s: String| s@) =~= seq![a@]);
    r
}

fn two(a: String, b: String) -> (r: Vec<String>)
    ensures
        r@.map_values(|s: String| s@) == seq![a@, b@],
{
    let mut r = Vec::new();
    r.push(a);
    r.push(b);
    assert(r@.map_values(|s: String| s@) =~= seq![a@, b@]);
    r
}

pub struct AstPrinter;

impl AstPrinter {
    /// `(op left right)`, `(group e)`, `(= name value)`, `(call callee args…)`;
    /// literals and names as written.
    pub fn print(&mut self, expr: &Expr) -> (r: String)
        ensures
            r@ == show(tree(*expr)),
        decreases expr,
    {
        match expr {
            Expr::BinaryExpr(left, operator, right) => {
                let l = self.print(left);
                let r = self.print(right);
                parenthesize(operator.lexeme.as_str(), &two(l, r))
            },
            Expr::LogicalExpr(left, operator, right) => {
                let l = self.print(left);
                let r = self.print(right);
                parenthesize(operator.lexeme.as_str(), &two(l, r))
            },
            Expr::GroupingExpr(e) => {
                let inner = self.print(e);
                parenthesize("group", &one(inner))
            },
            Expr::UnaryExpr(operator, e) => {
                let inner = self.print(e);
                parenthesize(operator.lexeme.as_str(), &one(inner))
            },
            Expr::LiteralExpr(literal) => match literal {
                Literal::String(s) => {
                    let mut r = concat("\"", s.as_str());
                    r.append("\"");
                    r
                },
                Literal::Number(n) => n.clone(),
                Literal::Boolean(b) => String::from_str(if *b { "true" } else { "false" }),
                Literal::Nil => String::from_str("nil"),
            },
            Expr::VariableExpr(name) => name.lexeme.clone(),
            Expr::AssignExpr(name, value) => {
                let v = self.print(value);
                parenthesize("=", &two(name.lexeme.clone(), v))
            },
            Expr::Call(callee, _, arguments) => {
                let mut parts = one(self.print(callee));
                let mut rest = self.print_all(arguments);
                let ghost (head, tail) = (parts@, rest@);
                parts.append(&mut rest);
                assert(parts@.map_values(|s: String| s@) =~= head.map_values(|s: String| s@)
                    + tail.map_values(|s: String| s@));
                parenthesize("call", &parts)
            },
        }
    }
}

impl AstPrinter {
    fn print_all(&mut self, exprs: &Vec<Expr>) -> (r: Vec<String>)
        ensures
            r@.map_values(|s: String| s@) == show_all(trees(exprs@)),
        decreases exprs@,
    {
        let mut parts: Vec<String> = Vec::new();
        let mut i: usize = 0;
        assert(exprs@.subrange(0, 0) =~= Seq::<Expr>::empty());
        assert(parts@.map_values(|s: String| s@) =~= Seq::<Seq<char>>::empty());
        while i < exprs.len()
            invariant
                i <= exprs@.len(),
                parts@.map_values(|s: String| s@) == show_all(trees(exprs@.subrange(0, i as int))),
            decreases exprs@.len() - i,
        {
            proof {
                assert(exprs@.contains(exprs@[i as int]));
            }
            let shown = self.print(&exprs[i]);
            proof {
                let next = exprs@.subrange(0, i + 1);
                assert(next.drop_last() =~= exprs@.subrange(0, i as int));
                assert(trees(next) == trees(exprs@.subrange(0, i as int)).push(tree(exprs@[i as int])));
                let tn = trees(next);
                assert(tn.drop_last() =~= trees(exprs@.subrange(0, i as int)));
                assert(show_all(tn) == show_all(tn.drop_last()).push(show(tn.last())));
            }
            let ghost before = parts@;
            parts.push(shown);
            assert(parts@.map_values(|s: String| s@) =~= before.map_values(|s: String| s@).push(shown@));
            i = i + 1;
        }
        assert(exprs@.subrange(0, exprs@.len() as int) =~= exprs@);
        parts
    }
}

/// `(name part part …)`.
pub open spec fn parenthesized(name: Seq<char>, parts: Seq<Seq<char>>) -> Seq<char>
    decreases parts.len(),
{
    if parts.len() == 0 {
        "("@ + name
    } else {
        parenthesized(name, parts.drop_last()) + " "@ + parts.last()
    }
}

fn parenthesize(name: &str, parts: &Vec<String>) -> (r: String)
    ensures
        r@ == parenthesized(name@, parts@.map_values(|s: String| s@)) + ")"@,
{
    let mut r = concat("(", name);
    let mut i: usize = 0;
    while i < parts.len()
        invariant
            i <= parts@.len(),
            r@ == parenthesized(name@, parts@.subrange(0, i as int).map_values(|s: String| s@)),
        decreases parts@.len() - i,
    {
        proof {
            let m = parts@.subrange(0, i + 1).map_values(|s: String| s@);
            assert(m.drop_last() =~= parts@.subrange(0, i as int).map_values(|s: String| s@));
        }
        r.append(" ");
        r.append(parts[i].as_str());
        i = i + 1;
    }
    assert(parts@.subrange(0, parts@.len() as int) =~= parts@);
    r.append(")");
    r
}

} // verus!
