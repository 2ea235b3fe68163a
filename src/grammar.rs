//! The expression grammar as spec functions over a token sequence, and the
//! trees it derives. The parser's expression functions are proved to compute
//! exactly these.
use vstd::prelude::*;

use crate::ast::{Expr, Stmt};
use crate::error::{diagnostic, place_of};
use crate::parser::{starts_statement, MAX_ARITY};
use crate::token::{Literal, Token, TokenType};

verus! {

/// An expression tree: the shape of an `Expr`, with argument lists as
/// sequences.
pub enum Tree {
    Assign(Token, Box<Tree>),
    Binary(Box<Tree>, Token, Box<Tree>),
    Grouping(Box<Tree>),
    Literal(Literal),
    Unary(Token, Box<Tree>),
    Variable(Token),
    Logical(Box<Tree>, Token, Box<Tree>),
    Call(Box<Tree>, Token, Seq<Tree>),
}

pub open spec fn tree(e: Expr) -> Tree
    decreases e,
{
    match e {
        Expr::AssignExpr(t, v) => Tree::Assign(t, Box::new(tree(*v))),
        Expr::BinaryExpr(l, t, r) => Tree::Binary(Box::new(tree(*l)), t, Box::new(tree(*r))),
        Expr::GroupingExpr(g) => Tree::Grouping(Box::new(tree(*g))),
        Expr::LiteralExpr(l) => Tree::Literal(l),
        Expr::UnaryExpr(t, r) => Tree::Unary(t, Box::new(tree(*r))),
        Expr::VariableExpr(t) => Tree::Variable(t),
        Expr::LogicalExpr(l, t, r) => Tree::Logical(Box::new(tree(*l)), t, Box::new(tree(*r))),
        Expr::Call(c, p, args) => Tree::Call(Box::new(tree(*c)), p, trees(args@)),
    }
}

pub open spec fn trees(s: Seq<Expr>) -> Seq<Tree>
    decreases s,
{
    if s.len() == 0 {
        Seq::empty()
    } else {
        trees(s.drop_last()).push(tree(s.last()))
    }
}

/// One step of the grammar: a tree or an error (its token and message), the
/// position after the step, and the diagnostics reported on the way.
pub struct Step<T> {
    pub value: Result<T, (Token, Seq<char>)>,
    pub pos: int,
    pub notes: Seq<Seq<char>>,
}

pub open spec fn done<T>(value: T, pos: int, notes: Seq<Seq<char>>) -> Step<T> {
    Step { value: Ok(value), pos, notes }
}

pub open spec fn fail<T>(token: Token, message: Seq<char>, pos: int, notes: Seq<Seq<char>>) -> Step<T> {
    Step { value: Err((token, message)), pos, notes }
}

/// A step, after `notes` were reported before it.
pub open spec fn after<T>(notes: Seq<Seq<char>>, s: Step<T>) -> Step<T> {
    Step { value: s.value, pos: s.pos, notes: notes + s.notes }
}

/// A failed step, seen as a failure of the enclosing production.
pub open spec fn failed<T, U>(s: Step<T>) -> Step<U> {
    Step { value: Err(s.value->Err_0), pos: s.pos, notes: s.notes }
}

/// Whether the token at `pos` has kind `k`, the end of input never matching.
pub open spec fn is_at(toks: Seq<Token>, pos: int, k: TokenType) -> bool {
    0 <= pos < toks.len() && toks[pos].token_type != TokenType::Eof && toks[pos].token_type == k
}

/// Whether `k` is an operator of a binary precedence level, from `factor` (4)
/// up to `logic_or` (9).
pub open spec fn level_operator(level: int, k: TokenType) -> bool {
    if level == 9 {
        k == TokenType::Or
    } else if level == 8 {
        k == TokenType::And
    } else if level == 7 {
        k == TokenType::BangEqual || k == TokenType::EqualEqual
    } else if level == 6 {
        k == TokenType::Greater || k == TokenType::GreaterEqual || k == TokenType::Less || k
            == TokenType::LessEqual
    } else if level == 5 {
        k == TokenType::Minus || k == TokenType::Plus
    } else {
        k == TokenType::Slash || k == TokenType::Star
    }
}

pub open spec fn operator_at(toks: Seq<Token>, level: int, pos: int) -> bool {
    0 <= pos < toks.len() && toks[pos].token_type != TokenType::Eof && level_operator(
        level,
        toks[pos].token_type,
    )
}

/// `logic_or` and `logic_and` build logical nodes, the other levels binary ones.
pub open spec fn combine(level: int, left: Tree, operator: Token, right: Tree) -> Tree {
    if level >= 8 {
        Tree::Logical(Box::new(left), operator, Box::new(right))
    } else {
        Tree::Binary(Box::new(left), operator, Box::new(right))
    }
}

/// The literal a number or string token stands for.
pub open spec fn literal_of(t: Token) -> Literal {
    match t.literal {
        Some(l) => l,
        None => if t.token_type == TokenType::Number {
            Literal::Number(t.lexeme)
        } else {
            Literal::String(t.lexeme)
        },
    }
}

/// expression → assignment
pub open spec fn expression(toks: Seq<Token>, pos: int) -> Step<Tree>
    decreases toks.len() - pos, 20int,
{
    if !(0 <= pos < toks.len()) {
        fail(toks[0], Seq::empty(), pos, Seq::empty())
    } else {
        assignment(toks, pos)
    }
}

/// assignment → IDENTIFIER "=" assignment | logic_or, where a target that is
/// not a variable is reported and the target itself is the result.
pub open spec fn assignment(toks: Seq<Token>, pos: int) -> Step<Tree>
    decreases toks.len() - pos, 19int,
{
    if !(0 <= pos < toks.len()) {
        fail(toks[0], Seq::empty(), pos, Seq::empty())
    } else {
        let l = binary(toks, 9, pos);
        if l.value is Err || !is_at(toks, l.pos, TokenType::Equal) || !(pos <= l.pos < toks.len()) {
            l
        } else {
            let v = assignment(toks, l.pos + 1);
            if v.value is Err {
                after(l.notes, v)
            } else {
                match l.value->Ok_0 {
                    Tree::Variable(name) => done(
                        Tree::Assign(name, Box::new(v.value->Ok_0)),
                        v.pos,
                        l.notes + v.notes,
                    ),
                    other => done(
                        other,
                        v.pos,
                        (l.notes + v.notes).push(
                            diagnostic(
                                toks[l.pos].line as nat,
                                place_of(toks[l.pos]),
                                "Invalid assignment target."@,
                            ),
                        ),
                    ),
                }
            }
        }
    }
}

/// A binary precedence level: its next tighter level, then any number of
/// (operator, operand) pairs, associating to the left.
pub open spec fn binary(toks: Seq<Token>, level: int, pos: int) -> Step<Tree>
    decreases toks.len() - pos, 2 * level,
{
    if !(0 <= pos < toks.len()) || !(4 <= level <= 9) {
        fail(toks[0], Seq::empty(), pos, Seq::empty())
    } else {
        let l = operand(toks, level, pos);
        if l.value is Err || !(pos < l.pos <= toks.len()) {
            l
        } else {
            binary_tail(toks, level, l.value->Ok_0, l.pos, l.notes)
        }
    }
}

pub open spec fn operand(toks: Seq<Token>, level: int, pos: int) -> Step<Tree>
    decreases toks.len() - pos, 2 * level - 1,
{
    if !(0 <= pos < toks.len()) || !(4 <= level <= 9) {
        fail(toks[0], Seq::empty(), pos, Seq::empty())
    } else if level == 4 {
        unary(toks, pos)
    } else {
        binary(toks, level - 1, pos)
    }
}

pub open spec fn binary_tail(
    toks: Seq<Token>,
    level: int,
    left: Tree,
    pos: int,
    notes: Seq<Seq<char>>,
) -> Step<Tree>
    decreases toks.len() - pos, 2 * level,
{
    if !(0 <= pos < toks.len()) || !(4 <= level <= 9) {
        fail(toks[0], Seq::empty(), pos, notes)
    } else if !operator_at(toks, level, pos) {
        done(left, pos, notes)
    } else {
        let r = operand(toks, level, pos + 1);
        if r.value is Err || !(pos < r.pos <= toks.len()) {
            after(notes, r)
        } else {
            binary_tail(
                toks,
                level,
                combine(level, left, toks[pos], r.value->Ok_0),
                r.pos,
                notes + r.notes,
            )
        }
    }
}

/// unary → ( "!" | "-" ) unary | call
pub open spec fn unary(toks: Seq<Token>, pos: int) -> Step<Tree>
    decreases toks.len() - pos, 3int,
{
    if !(0 <= pos < toks.len()) {
        fail(toks[0], Seq::empty(), pos, Seq::empty())
    } else if is_at(toks, pos, TokenType::Bang) || is_at(toks, pos, TokenType::Minus) {
        let r = unary(toks, pos + 1);
        if r.value is Err {
            r
        } else {
            done(Tree::Unary(toks[pos], Box::new(r.value->Ok_0)), r.pos, r.notes)
        }
    } else {
        call(toks, pos)
    }
}

/// call → primary ( "(" arguments? ")" )*
pub open spec fn call(toks: Seq<Token>, pos: int) -> Step<Tree>
    decreases toks.len() - pos, 2int,
{
    if !(0 <= pos < toks.len()) {
        fail(toks[0], Seq::empty(), pos, Seq::empty())
    } else {
        let p = primary(toks, pos);
        if p.value is Err || !(pos < p.pos <= toks.len()) {
            p
        } else {
            call_tail(toks, p.value->Ok_0, p.pos, p.notes)
        }
    }
}

pub open spec fn call_tail(toks: Seq<Token>, callee: Tree, pos: int, notes: Seq<Seq<char>>) -> Step<Tree>
    decreases toks.len() - pos, 2int,
{
    if !(0 <= pos < toks.len()) {
        fail(toks[0], Seq::empty(), pos, notes)
    } else if !is_at(toks, pos, TokenType::LeftParen) {
        done(callee, pos, notes)
    } else {
        let f = finish_call(toks, callee, pos + 1);
        if f.value is Err || !(pos < f.pos <= toks.len()) {
            after(notes, f)
        } else {
            call_tail(toks, f.value->Ok_0, f.pos, notes + f.notes)
        }
    }
}

/// arguments → expression ( "," expression )*, then ")"; at most
/// `MAX_ARITY` arguments.
pub open spec fn finish_call(toks: Seq<Token>, callee: Tree, pos: int) -> Step<Tree>
    decreases toks.len() - pos, 22int,
{
    if !(0 <= pos < toks.len()) {
        fail(toks[0], Seq::empty(), pos, Seq::empty())
    } else if is_at(toks, pos, TokenType::RightParen) {
        done(Tree::Call(Box::new(callee), toks[pos], Seq::empty()), pos + 1, Seq::empty())
    } else {
        arguments(toks, callee, Seq::empty(), pos)
    }
}

/// The arguments after `args`, then ")".
pub open spec fn arguments(toks: Seq<Token>, callee: Tree, args: Seq<Tree>, pos: int) -> Step<Tree>
    decreases toks.len() - pos, 21int,
{
    if !(0 <= pos < toks.len()) {
        fail(toks[0], Seq::empty(), pos, Seq::empty())
    } else if args.len() >= MAX_ARITY {
        fail(toks[pos], "Can't have more than 255 arguments."@, pos, Seq::empty())
    } else {
        let e = expression(toks, pos);
        if e.value is Err {
            e
        } else if is_at(toks, e.pos, TokenType::Comma) && pos <= e.pos < toks.len() {
            after(e.notes, arguments(toks, callee, args.push(e.value->Ok_0), e.pos + 1))
        } else if is_at(toks, e.pos, TokenType::RightParen) {
            done(
                Tree::Call(Box::new(callee), toks[e.pos], args.push(e.value->Ok_0)),
                e.pos + 1,
                e.notes,
            )
        } else {
            fail(toks[e.pos], "Expect ')' after arguments."@, e.pos, e.notes)
        }
    }
}

/// primary → "true" | "false" | "nil" | NUMBER | STRING | IDENTIFIER
///         | "(" expression ")"
pub open spec fn primary(toks: Seq<Token>, pos: int) -> Step<Tree>
    decreases toks.len() - pos, 1int,
{
    if !(0 <= pos < toks.len()) {
        fail(toks[0], Seq::empty(), pos, Seq::empty())
    } else if is_at(toks, pos, TokenType::False) {
        done(Tree::Literal(Literal::Boolean(false)), pos + 1, Seq::empty())
    } else if is_at(toks, pos, TokenType::True) {
        done(Tree::Literal(Literal::Boolean(true)), pos + 1, Seq::empty())
    } else if is_at(toks, pos, TokenType::Nil) {
        done(Tree::Literal(Literal::Nil), pos + 1, Seq::empty())
    } else if is_at(toks, pos, TokenType::Number) || is_at(toks, pos, TokenType::String) {
        done(Tree::Literal(literal_of(toks[pos])), pos + 1, Seq::empty())
    } else if is_at(toks, pos, TokenType::Identifier) {
        done(Tree::Variable(toks[pos]), pos + 1, Seq::empty())
    } else if is_at(toks, pos, TokenType::LeftParen) {
        let e = expression(toks, pos + 1);
        if e.value is Err {
            e
        } else if is_at(toks, e.pos, TokenType::RightParen) {
            done(Tree::Grouping(Box::new(e.value->Ok_0)), e.pos + 1, e.notes)
        } else {
            fail(toks[e.pos], "Expect ')' after expression."@, e.pos, e.notes)
        }
    } else {
        fail(toks[pos], "Expected expression."@, pos, Seq::empty())
    }
}

/// A statement tree: the shape of a `Stmt`, with lists as sequences.
pub enum StmtTree {
    Print(Tree),
    Expression(Tree),
    Var(Token, Option<Tree>),
    Function(Token, Seq<Token>, Seq<StmtTree>),
    Block(Seq<StmtTree>),
    If(Tree, Box<StmtTree>, Option<Box<StmtTree>>),
    While(Tree, Box<StmtTree>),
    Return(Token, Tree),
}

pub open spec fn stmt_tree(s: Stmt) -> StmtTree
    decreases s,
{
    match s {
        Stmt::Print(e) => StmtTree::Print(tree(e)),
        Stmt::Expression(e) => StmtTree::Expression(tree(e)),
        Stmt::VarDeclaration(t, init) => StmtTree::Var(
            t,
            match init {
                Some(e) => Some(tree(e)),
                None => None,
            },
        ),
        Stmt::Function(name, params, body) => StmtTree::Function(name, params@, stmt_trees(body@)),
        Stmt::Block(body) => StmtTree::Block(stmt_trees(body@)),
        Stmt::If(c, t, e) => StmtTree::If(
            tree(c),
            Box::new(stmt_tree(*t)),
            match e {
                Some(x) => Some(Box::new(stmt_tree(*x))),
                None => None,
            },
        ),
        Stmt::While(c, b) => StmtTree::While(tree(c), Box::new(stmt_tree(*b))),
        Stmt::Return(t, e) => StmtTree::Return(t, tree(e)),
    }
}

pub open spec fn stmt_trees(s: Seq<Stmt>) -> Seq<StmtTree>
    decreases s,
{
    if s.len() == 0 {
        Seq::empty()
    } else {
        stmt_trees(s.drop_last()).push(stmt_tree(s.last()))
    }
}

pub open spec fn lift<T>(s: Step<T>) -> Step<Option<T>> {
    Step {
        value: match s.value {
            Ok(v) => Ok(Some(v)),
            Err(e) => Err(e),
        },
        pos: s.pos,
        notes: s.notes,
    }
}

/// declaration → funDecl | varDecl | statement
#[verifier::opaque]
pub open spec fn declaration(toks: Seq<Token>, pos: int) -> Step<StmtTree>
    decreases toks.len() - pos, 34int,
{
    if !(0 <= pos < toks.len()) {
        fail(toks[0], Seq::empty(), pos, Seq::empty())
    } else if is_at(toks, pos, TokenType::Fun) {
        fun_decl(toks, "function"@, pos + 1)
    } else if is_at(toks, pos, TokenType::Var) {
        var_decl(toks, pos + 1)
    } else {
        statement(toks, pos)
    }
}

/// statement → exprStmt | forStmt | ifStmt | printStmt | returnStmt
///           | whileStmt | block
#[verifier::opaque]
pub open spec fn statement(toks: Seq<Token>, pos: int) -> Step<StmtTree>
    decreases toks.len() - pos, 33int,
{
    if !(0 <= pos < toks.len()) {
        fail(toks[0], Seq::empty(), pos, Seq::empty())
    } else if is_at(toks, pos, TokenType::For) {
        for_stmt(toks, pos + 1)
    } else if is_at(toks, pos, TokenType::If) {
        if_stmt(toks, pos + 1)
    } else if is_at(toks, pos, TokenType::Print) {
        print_stmt(toks, pos + 1)
    } else if is_at(toks, pos, TokenType::While) {
        while_stmt(toks, pos + 1)
    } else if is_at(toks, pos, TokenType::Return) {
        return_stmt(toks, pos + 1)
    } else if is_at(toks, pos, TokenType::LeftBrace) {
        let b = block(toks, pos + 1);
        if b.value is Err {
            failed(b)
        } else {
            done(StmtTree::Block(b.value->Ok_0), b.pos, b.notes)
        }
    } else {
        expression_stmt(toks, pos)
    }
}

/// block → "{" declaration* "}", after the brace.
#[verifier::opaque]
pub open spec fn block(toks: Seq<Token>, pos: int) -> Step<Seq<StmtTree>>
    decreases toks.len() - pos, 36int,
{
    if !(0 <= pos < toks.len()) {
        fail(toks[0], Seq::empty(), pos, Seq::empty())
    } else {
        block_tail(toks, Seq::empty(), pos, Seq::empty())
    }
}

#[verifier::opaque]
pub open spec fn block_tail(
    toks: Seq<Token>,
    stmts: Seq<StmtTree>,
    pos: int,
    notes: Seq<Seq<char>>,
) -> Step<Seq<StmtTree>>
    decreases toks.len() - pos, 35int,
{
    if !(0 <= pos < toks.len()) {
        fail(toks[0], Seq::empty(), pos, notes)
    } else if is_at(toks, pos, TokenType::RightBrace) {
        done(stmts, pos + 1, notes)
    } else if toks[pos].token_type == TokenType::Eof {
        fail(toks[pos], "Expect '}' after block."@, pos, notes)
    } else {
        let d = declaration(toks, pos);
        if d.value is Err {
            failed(after(notes, d))
        } else if pos < d.pos < toks.len() {
            block_tail(toks, stmts.push(d.value->Ok_0), d.pos, notes + d.notes)
        } else {
            fail(toks[0], Seq::empty(), pos, notes)
        }
    }
}

/// ifStmt → "if" "(" expression ")" statement ( "else" statement )?
#[verifier::opaque]
pub open spec fn if_stmt(toks: Seq<Token>, pos: int) -> Step<StmtTree>
    decreases toks.len() - pos, 30int,
{
    if !(0 <= pos < toks.len()) {
        fail(toks[0], Seq::empty(), pos, Seq::empty())
    } else if !is_at(toks, pos, TokenType::LeftParen) {
        fail(toks[pos], "Expect '(' after 'if'."@, pos, Seq::empty())
    } else {
        let c = expression(toks, pos + 1);
        if c.value is Err {
            failed(c)
        } else if !is_at(toks, c.pos, TokenType::RightParen) {
            fail(toks[c.pos], "Expect ')' after if condition."@, c.pos, c.notes)
        } else if !(pos < c.pos) {
            fail(toks[0], Seq::empty(), pos, Seq::empty())
        } else {
            let t = statement(toks, c.pos + 1);
            if t.value is Err {
                failed(after(c.notes, t))
            } else if is_at(toks, t.pos, TokenType::Else) && pos < t.pos {
                let e = statement(toks, t.pos + 1);
                if e.value is Err {
                    failed(after(c.notes + t.notes, e))
                } else {
                    done(
                        StmtTree::If(
                            c.value->Ok_0,
                            Box::new(t.value->Ok_0),
                            Some(Box::new(e.value->Ok_0)),
                        ),
                        e.pos,
                        c.notes + t.notes + e.notes,
                    )
                }
            } else {
                done(
                    StmtTree::If(c.value->Ok_0, Box::new(t.value->Ok_0), None),
                    t.pos,
                    c.notes + t.notes,
                )
            }
        }
    }
}

/// `for (I; C; U) B` as `{ I; while (C) { B; U; } }`, a missing condition
/// read as `true`.
pub open spec fn desugar(
    init: Option<StmtTree>,
    cond: Option<Tree>,
    inc: Option<Tree>,
    body: StmtTree,
) -> StmtTree {
    let looped = match inc {
        Some(i) => StmtTree::Block(seq![body, StmtTree::Expression(i)]),
        None => body,
    };
    let w = StmtTree::While(
        match cond {
            Some(c) => c,
            None => Tree::Literal(Literal::Boolean(true)),
        },
        Box::new(looped),
    );
    match init {
        Some(s) => StmtTree::Block(seq![s, w]),
        None => w,
    }
}

pub open spec fn opt_stmt_tree(o: Option<Stmt>) -> Option<StmtTree> {
    match o {
        Some(s) => Some(stmt_tree(s)),
        None => None,
    }
}

pub open spec fn opt_tree(o: Option<Expr>) -> Option<Tree> {
    match o {
        Some(e) => Some(tree(e)),
        None => None,
    }
}

/// The initializer clause of a `for`: `;`, a variable declaration, or an
/// expression statement.
#[verifier::opaque]
pub open spec fn for_init(toks: Seq<Token>, pos: int) -> Step<Option<StmtTree>>
    decreases toks.len() - pos, 31int,
{
    if !(0 <= pos < toks.len()) {
        fail(toks[0], Seq::empty(), pos, Seq::empty())
    } else if is_at(toks, pos, TokenType::Semicolon) {
        done(None, pos + 1, Seq::empty())
    } else if is_at(toks, pos, TokenType::Var) {
        lift(var_decl(toks, pos + 1))
    } else {
        lift(expression_stmt(toks, pos))
    }
}

/// An expression, or none where the token at `pos` has kind `stop`.
#[verifier::opaque]
pub open spec fn optional_expression(toks: Seq<Token>, pos: int, stop: TokenType) -> Step<Option<Tree>>
    decreases toks.len() - pos, 30int,
{
    if !(0 <= pos < toks.len()) {
        fail(toks[0], Seq::empty(), pos, Seq::empty())
    } else if is_at(toks, pos, stop) {
        done(None, pos, Seq::empty())
    } else {
        lift(expression(toks, pos))
    }
}

/// forStmt → "for" "(" ( varDecl | exprStmt | ";" ) expression? ";"
///           expression? ")" statement
#[verifier::opaque]
pub open spec fn for_stmt(toks: Seq<Token>, pos: int) -> Step<StmtTree>
    decreases toks.len() - pos, 32int,
{
    if !(0 <= pos < toks.len()) {
        fail(toks[0], Seq::empty(), pos, Seq::empty())
    } else if !is_at(toks, pos, TokenType::LeftParen) {
        fail(toks[pos], "Expect '(' after 'for'."@, pos, Seq::empty())
    } else {
        let init = for_init(toks, pos + 1);
        if init.value is Err {
            failed(init)
        } else if !(pos < init.pos < toks.len()) {
            fail(toks[0], Seq::empty(), pos, Seq::empty())
        } else {
            let cond = optional_expression(toks, init.pos, TokenType::Semicolon);
            if cond.value is Err {
                failed(after(init.notes, cond))
            } else if !is_at(toks, cond.pos, TokenType::Semicolon) {
                fail(toks[cond.pos], "Expect ';' after loop condition."@, cond.pos, init.notes + cond.notes)
            } else if !(pos < cond.pos) {
                fail(toks[0], Seq::empty(), pos, Seq::empty())
            } else {
                let inc = optional_expression(toks, cond.pos + 1, TokenType::RightParen);
                if inc.value is Err {
                    failed(after(init.notes + cond.notes, inc))
                } else if !is_at(toks, inc.pos, TokenType::RightParen) {
                    fail(
                        toks[inc.pos],
                        "Expect ')' after for clauses."@,
                        inc.pos,
                        init.notes + cond.notes + inc.notes,
                    )
                } else if !(pos < inc.pos) {
                    fail(toks[0], Seq::empty(), pos, Seq::empty())
                } else {
                    let b = statement(toks, inc.pos + 1);
                    if b.value is Err {
                        failed(after(init.notes + cond.notes + inc.notes, b))
                    } else {
                        done(
                            desugar(init.value->Ok_0, cond.value->Ok_0, inc.value->Ok_0, b.value->Ok_0),
                            b.pos,
                            init.notes + cond.notes + inc.notes + b.notes,
                        )
                    }
                }
            }
        }
    }
}

/// whileStmt → "while" "(" expression ")" statement
#[verifier::opaque]
pub open spec fn while_stmt(toks: Seq<Token>, pos: int) -> Step<StmtTree>
    decreases toks.len() - pos, 30int,
{
    if !(0 <= pos < toks.len()) {
        fail(toks[0], Seq::empty(), pos, Seq::empty())
    } else if !is_at(toks, pos, TokenType::LeftParen) {
        fail(toks[pos], "Expect '(' after 'while'."@, pos, Seq::empty())
    } else {
        let c = expression(toks, pos + 1);
        if c.value is Err {
            failed(c)
        } else if !is_at(toks, c.pos, TokenType::RightParen) {
            fail(toks[c.pos], "Expect ')' after while condition."@, c.pos, c.notes)
        } else if !(pos < c.pos) {
            fail(toks[0], Seq::empty(), pos, Seq::empty())
        } else {
            let b = statement(toks, c.pos + 1);
            if b.value is Err {
                failed(after(c.notes, b))
            } else {
                done(StmtTree::While(c.value->Ok_0, Box::new(b.value->Ok_0)), b.pos, c.notes + b.notes)
            }
        }
    }
}

/// returnStmt → "return" expression? ";", after the keyword at `pos - 1`.
#[verifier::opaque]
pub open spec fn return_stmt(toks: Seq<Token>, pos: int) -> Step<StmtTree>
    decreases toks.len() - pos, 30int,
{
    if !(0 < pos < toks.len()) {
        fail(toks[0], Seq::empty(), pos, Seq::empty())
    } else if is_at(toks, pos, TokenType::Semicolon) {
        done(StmtTree::Return(toks[pos - 1], Tree::Literal(Literal::Nil)), pos + 1, Seq::empty())
    } else {
        let e = expression(toks, pos);
        if e.value is Err {
            failed(e)
        } else if is_at(toks, e.pos, TokenType::Semicolon) {
            done(StmtTree::Return(toks[pos - 1], e.value->Ok_0), e.pos + 1, e.notes)
        } else {
            fail(toks[e.pos], "Expect ';' after return value."@, e.pos, e.notes)
        }
    }
}

/// funDecl → "fun" IDENTIFIER "(" parameters? ")" block, after the keyword.
#[verifier::opaque]
pub open spec fn fun_decl(toks: Seq<Token>, kind: Seq<char>, pos: int) -> Step<StmtTree>
    decreases toks.len() - pos, 30int,
{
    if !(0 <= pos < toks.len()) {
        fail(toks[0], Seq::empty(), pos, Seq::empty())
    } else if !is_at(toks, pos, TokenType::Identifier) {
        fail(toks[pos], "Expect "@ + kind + " name."@, pos, Seq::empty())
    } else if !is_at(toks, pos + 1, TokenType::LeftParen) {
        fail(toks[pos + 1], "Expect '(' after "@ + kind + " name."@, pos + 1, Seq::empty())
    } else {
        let ps = if is_at(toks, pos + 2, TokenType::RightParen) {
            done(Seq::empty(), pos + 2, Seq::empty())
        } else {
            parameters(toks, Seq::empty(), pos + 2)
        };
        if ps.value is Err {
            failed(ps)
        } else if !is_at(toks, ps.pos, TokenType::RightParen) {
            fail(toks[ps.pos], "Expect ')' after parameters."@, ps.pos, ps.notes)
        } else if !is_at(toks, ps.pos + 1, TokenType::LeftBrace) {
            fail(toks[ps.pos + 1], "Expect '{' to start "@ + kind + " body."@, ps.pos + 1, ps.notes)
        } else if !(pos < ps.pos) {
            fail(toks[0], Seq::empty(), pos, Seq::empty())
        } else {
            let b = block(toks, ps.pos + 2);
            if b.value is Err {
                failed(after(ps.notes, b))
            } else {
                done(StmtTree::Function(toks[pos], ps.value->Ok_0, b.value->Ok_0), b.pos, ps.notes + b.notes)
            }
        }
    }
}

/// The parameters after `params`: names separated by commas. Past
/// `MAX_ARITY` each one is reported, and parsing goes on.
#[verifier::opaque]
pub open spec fn parameters(toks: Seq<Token>, params: Seq<Token>, pos: int) -> Step<Seq<Token>>
    decreases toks.len() - pos, 29int,
{
    if !(0 <= pos < toks.len()) {
        fail(toks[0], Seq::empty(), pos, Seq::empty())
    } else {
        let noted = if params.len() >= MAX_ARITY {
            seq![diagnostic(toks[pos].line as nat, place_of(toks[pos]), "Can't have more than 255 parameters"@)]
        } else {
            Seq::empty()
        };
        if !is_at(toks, pos, TokenType::Identifier) {
            fail(toks[pos], "Expect parameter name."@, pos, noted)
        } else if is_at(toks, pos + 1, TokenType::Comma) {
            after(noted, parameters(toks, params.push(toks[pos]), pos + 2))
        } else {
            done(params.push(toks[pos]), pos + 1, noted)
        }
    }
}

/// varDecl → "var" IDENTIFIER ( "=" expression )? ";", after the keyword.
#[verifier::opaque]
pub open spec fn var_decl(toks: Seq<Token>, pos: int) -> Step<StmtTree>
    decreases toks.len() - pos, 30int,
{
    if !(0 <= pos < toks.len()) {
        fail(toks[0], Seq::empty(), pos, Seq::empty())
    } else if !is_at(toks, pos, TokenType::Identifier) {
        fail(toks[pos], "Expect variable name."@, pos, Seq::empty())
    } else if is_at(toks, pos + 1, TokenType::Equal) {
        let e = expression(toks, pos + 2);
        if e.value is Err {
            failed(e)
        } else if is_at(toks, e.pos, TokenType::Semicolon) {
            done(StmtTree::Var(toks[pos], Some(e.value->Ok_0)), e.pos + 1, e.notes)
        } else {
            fail(toks[e.pos], "Expect ';' after variable declaration."@, e.pos, e.notes)
        }
    } else if is_at(toks, pos + 1, TokenType::Semicolon) {
        done(StmtTree::Var(toks[pos], None), pos + 2, Seq::empty())
    } else {
        fail(toks[pos + 1], "Expect ';' after variable declaration."@, pos + 1, Seq::empty())
    }
}

/// printStmt → "print" expression ";", after the keyword.
#[verifier::opaque]
pub open spec fn print_stmt(toks: Seq<Token>, pos: int) -> Step<StmtTree>
    decreases toks.len() - pos, 30int,
{
    if !(0 <= pos < toks.len()) {
        fail(toks[0], Seq::empty(), pos, Seq::empty())
    } else {
        let e = expression(toks, pos);
        if e.value is Err {
            failed(e)
        } else if is_at(toks, e.pos, TokenType::Semicolon) {
            done(StmtTree::Print(e.value->Ok_0), e.pos + 1, e.notes)
        } else {
            fail(toks[e.pos], "Expect ';' after value."@, e.pos, e.notes)
        }
    }
}

/// exprStmt → expression ";"
#[verifier::opaque]
pub open spec fn expression_stmt(toks: Seq<Token>, pos: int) -> Step<StmtTree>
    decreases toks.len() - pos, 30int,
{
    if !(0 <= pos < toks.len()) {
        fail(toks[0], Seq::empty(), pos, Seq::empty())
    } else {
        let e = expression(toks, pos);
        if e.value is Err {
            failed(e)
        } else if is_at(toks, e.pos, TokenType::Semicolon) {
            done(StmtTree::Expression(e.value->Ok_0), e.pos + 1, e.notes)
        } else {
            fail(toks[e.pos], "Expect ';' after value."@, e.pos, e.notes)
        }
    }
}

/// Where panic-mode recovery resumes, from the position after the token it
/// skips first: after a `;`, before a statement keyword, or at the end.
pub open spec fn resume(toks: Seq<Token>, pos: int) -> int
    decreases toks.len() - pos,
{
    if !(0 < pos < toks.len()) || toks[pos].token_type == TokenType::Eof || toks[pos
        - 1].token_type == TokenType::Semicolon || starts_statement(toks[pos].token_type) {
        pos
    } else {
        resume(toks, pos + 1)
    }
}

/// Where recovery from an error at `pos` resumes: one token is skipped, unless
/// it ends the input.
pub open spec fn synchronized(toks: Seq<Token>, pos: int) -> int {
    if 0 <= pos < toks.len() && toks[pos].token_type != TokenType::Eof {
        resume(toks, pos + 1)
    } else {
        pos
    }
}

/// What parsing a whole program gives: its statements, and the diagnostics.
pub struct Program {
    pub statements: Seq<StmtTree>,
    pub notes: Seq<Seq<char>>,
}

/// program → declaration* EOF, where a failed declaration is reported and
/// parsing resumes where recovery puts it.
pub open spec fn program(toks: Seq<Token>, pos: int) -> Program {
    program_tail(toks, Seq::empty(), pos, Seq::empty())
}

#[verifier::opaque]
pub open spec fn program_tail(
    toks: Seq<Token>,
    stmts: Seq<StmtTree>,
    pos: int,
    notes: Seq<Seq<char>>,
) -> Program
    decreases toks.len() - pos,
{
    if !(0 <= pos < toks.len()) || toks[pos].token_type == TokenType::Eof {
        Program { statements: stmts, notes }
    } else {
        let d = declaration(toks, pos);
        match d.value {
            Ok(s) => if pos < d.pos < toks.len() {
                program_tail(toks, stmts.push(s), d.pos, notes + d.notes)
            } else {
                Program { statements: stmts, notes }
            },
            Err((t, m)) => {
                let p = synchronized(toks, d.pos);
                if pos < p < toks.len() {
                    program_tail(
                        toks,
                        stmts,
                        p,
                        (notes + d.notes).push(diagnostic(t.line as nat, place_of(t), m)),
                    )
                } else {
                    Program { statements: stmts, notes: (notes + d.notes).push(diagnostic(t.line as nat, place_of(t), m)) }
                }
            },
        }
    }
}

/// A number token followed by a token that continues no expression parses, at
/// every level from `unary` to `binary` level 4, as that number alone.
proof fn lemma_number_operand(toks: Seq<Token>, q: int)
    requires
        0 <= q,
        q + 1 < toks.len(),
        toks[q].token_type == TokenType::Number,
        toks[q + 1].token_type != TokenType::LeftParen,
    ensures
        unary(toks, q) == done(Tree::Literal(literal_of(toks[q])), q + 1, Seq::empty()),
{
    let lit = Tree::Literal(literal_of(toks[q]));
    assert(primary(toks, q) == done(lit, q + 1, Seq::<Seq<char>>::empty()));
    assert(call_tail(toks, lit, q + 1, Seq::empty()) == done(lit, q + 1, Seq::<Seq<char>>::empty()));
    assert(call(toks, q) == done(lit, q + 1, Seq::<Seq<char>>::empty()));
}

/// A level whose operand ends before a token that is no operator of it, nor
/// of any looser level, gives that operand.
proof fn lemma_level_passes(toks: Seq<Token>, level: int, at: int, t: Tree, end: int)
    requires
        5 <= level <= 9,
        0 <= at < end < toks.len(),
        binary(toks, level - 1, at) == done(t, end, Seq::<Seq<char>>::empty()),
        !operator_at(toks, level, end),
    ensures
        binary(toks, level, at) == done(t, end, Seq::<Seq<char>>::empty()),
{
    assert(operand(toks, level, at) == binary(toks, level - 1, at));
    assert(binary_tail(toks, level, t, end, Seq::empty()) == done(t, end, Seq::<Seq<char>>::empty()));
}

/// Multiplication and division bind tighter than addition and subtraction:
/// for any numbers `x`, `y`, `z`, an additive operator `p` and a
/// multiplicative operator `m`, the tokens `x p y m z ;` parse as the
/// expression `x p (y m z)`, ending before the `;`.
pub proof fn lemma_product_binds_tighter(toks: Seq<Token>, at: int)
    requires
        0 <= at,
        at + 5 < toks.len(),
        toks[at].token_type == TokenType::Number,
        toks[at + 1].token_type == TokenType::Plus || toks[at + 1].token_type == TokenType::Minus,
        toks[at + 2].token_type == TokenType::Number,
        toks[at + 3].token_type == TokenType::Star || toks[at + 3].token_type == TokenType::Slash,
        toks[at + 4].token_type == TokenType::Number,
        toks[at + 5].token_type == TokenType::Semicolon,
    ensures
        expression(toks, at) == done(
            Tree::Binary(
                Box::new(Tree::Literal(literal_of(toks[at]))),
                toks[at + 1],
                Box::new(
                    Tree::Binary(
                        Box::new(Tree::Literal(literal_of(toks[at + 2]))),
                        toks[at + 3],
                        Box::new(Tree::Literal(literal_of(toks[at + 4]))),
                    ),
                ),
            ),
            at + 5,
            Seq::<Seq<char>>::empty(),
        ),
{
    let none = Seq::<Seq<char>>::empty();
    assert(none + none =~= none);
    let x = Tree::Literal(literal_of(toks[at]));
    let y = Tree::Literal(literal_of(toks[at + 2]));
    let z = Tree::Literal(literal_of(toks[at + 4]));
    lemma_number_operand(toks, at);
    lemma_number_operand(toks, at + 2);
    lemma_number_operand(toks, at + 4);
    // y m z, at level 4.
    let product = Tree::Binary(Box::new(y), toks[at + 3], Box::new(z));
    assert(operand(toks, 4, at + 2) == unary(toks, at + 2));
    assert(operand(toks, 4, at + 4) == unary(toks, at + 4));
    assert(binary_tail(toks, 4, product, at + 5, none) == done(product, at + 5, none));
    assert(binary_tail(toks, 4, y, at + 3, none) == binary_tail(toks, 4, product, at + 5, none));
    assert(binary(toks, 4, at + 2) == done(product, at + 5, none));
    // x alone at level 4: its next token is no multiplicative operator.
    assert(operand(toks, 4, at) == unary(toks, at));
    assert(binary_tail(toks, 4, x, at + 1, none) == done(x, at + 1, none));
    assert(binary(toks, 4, at) == done(x, at + 1, none));
    // x p (y m z), at level 5.
    let sum = Tree::Binary(Box::new(x), toks[at + 1], Box::new(product));
    assert(operand(toks, 5, at) == binary(toks, 4, at));
    assert(operand(toks, 5, at + 2) == binary(toks, 4, at + 2));
    assert(binary_tail(toks, 5, sum, at + 5, none) == done(sum, at + 5, none));
    assert(binary_tail(toks, 5, x, at + 1, none) == binary_tail(toks, 5, sum, at + 5, none));
    assert(binary(toks, 5, at) == done(sum, at + 5, none));
    // The looser levels pass it on: `;` is none of their operators.
    lemma_level_passes(toks, 6, at, sum, at + 5);
    lemma_level_passes(toks, 7, at, sum, at + 5);
    lemma_level_passes(toks, 8, at, sum, at + 5);
    lemma_level_passes(toks, 9, at, sum, at + 5);
    assert(assignment(toks, at) == binary(toks, 9, at));
}

/// Parsing is deterministic: `Parser::parse` returns the statements whose
/// trees are the grammar's `program` of its tokens, so two parses of the same
/// tokens from the same position give equal trees.
pub proof fn lemma_parse_deterministic(
    tokens: Seq<Token>,
    start: int,
    first: Seq<Stmt>,
    second: Seq<Stmt>,
)
    requires
        stmt_trees(first) == program(tokens, start).statements,
        stmt_trees(second) == program(tokens, start).statements,
    ensures
        stmt_trees(first) == stmt_trees(second),
{
}

} // verus!
