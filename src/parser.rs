//! The recursive-descent parser, with panic-mode recovery.
use vstd::prelude::*;

use crate::ast::{
    aexpr, bexpr, cexpr, estmt, fstmt, gexpr, ifstmt, lexpr, lgexpr, pstmt, uexpr, vdstmt, vexpr,
    wstmt, Expr, Stmt,
};
use crate::error::{diagnostic, place_of, ErrorReporter, ParseError};
use crate::text::concat;
use crate::grammar::{self, stmt_tree, stmt_trees, tree, trees, StmtTree, Tree};
use crate::token::{Literal, Token, TokenType};

verus! {

/// The most arguments a call, or parameters a function, may have.
pub const MAX_ARITY: usize = 255;

/// Whether a token of this kind starts a statement, where recovery resumes.
pub open spec fn starts_statement(t: TokenType) -> bool {
    t == TokenType::Class || t == TokenType::Fun || t == TokenType::Var || t == TokenType::For
        || t == TokenType::If || t == TokenType::While || t == TokenType::Print || t
        == TokenType::Return
}

/// Whether `tokens` is a token list the parser accepts: it ends in `Eof`.
pub open spec fn ends_in_eof(tokens: Seq<Token>) -> bool {
    tokens.len() > 0 && tokens.last().token_type == TokenType::Eof
}

proof fn lemma_trees_len(s: Seq<Expr>)
    ensures
        trees(s).len() == s.len(),
    decreases s.len(),
{
    if s.len() > 0 {
        lemma_trees_len(s.drop_last());
    }
}

fn parse_error(token: &Token, message: &str) -> (r: ParseError)
    ensures
        r.token == *token,
        r.message@ == message@,
{
    ParseError { token: token.clone(), message: String::from_str(message) }
}

fn pair(a: Stmt, b: Stmt) -> (r: Vec<Stmt>)
    ensures
        stmt_trees(r@) == seq![stmt_tree(a), stmt_tree(b)],
{
    let mut r = Vec::new();
    r.push(a);
    r.push(b);
    let ghost v = r@;
    assert(v.drop_last() =~= seq![a]);
    assert(seq![a].drop_last() =~= Seq::<Stmt>::empty());
    assert(stmt_trees(seq![a]) == stmt_trees(Seq::<Stmt>::empty()).push(stmt_tree(a)));
    assert(stmt_trees(v) == stmt_trees(seq![a]).push(stmt_tree(b)));
    assert(stmt_trees(v) =~= seq![stmt_tree(a), stmt_tree(b)]);
    r
}

/// `for (I; C; U) B` as `{ I; while (C) { B; U; } }`.
fn desugar_for(initializer: Option<Stmt>, condition: Option<Expr>, increment: Option<Expr>, body: Stmt) -> (r: Stmt)
    ensures
        stmt_tree(r) == grammar::desugar(
            grammar::opt_stmt_tree(initializer),
            grammar::opt_tree(condition),
            grammar::opt_tree(increment),
            stmt_tree(body),
        ),
{
    let ghost body_tree = stmt_tree(body);
    let looped = match increment {
        Some(i) => {
            let ghost it = tree(i);
            let b = Stmt::Block(pair(body, estmt(i)));
            assert(stmt_tree(b) == StmtTree::Block(seq![body_tree, StmtTree::Expression(it)]));
            b
        },
        None => body,
    };
    let ghost looped_tree = stmt_tree(looped);
    let w = match condition {
        Some(c) => {
            let ghost ct = tree(c);
            let w = wstmt(c, looped);
            assert(stmt_tree(w) == StmtTree::While(ct, Box::new(looped_tree)));
            w
        },
        None => {
            let w = wstmt(lexpr(Literal::Boolean(true)), looped);
            assert(stmt_tree(w) == StmtTree::While(Tree::Literal(Literal::Boolean(true)), Box::new(looped_tree)));
            w
        },
    };
    let ghost w_tree = stmt_tree(w);
    match initializer {
        Some(init) => {
            let ghost init_tree = stmt_tree(init);
            let b = Stmt::Block(pair(init, w));
            assert(stmt_tree(b) == StmtTree::Block(seq![init_tree, w_tree]));
            b
        },
        None => w,
    }
}

fn kind_message(before: &str, kind: &str, after: &str) -> (r: String)
    ensures
        r@ == before@ + kind@ + after@,
{
    let mut r = concat(before, kind);
    r.append(after);
    r
}

/// Turns a token list into statements. Errors are reported to its reporter.
pub struct Parser {
    current: usize,
    reporter: ErrorReporter,
    tokens: Vec<Token>,
}

impl Parser {
    pub closed spec fn tokens(&self) -> Seq<Token> {
        self.tokens@
    }

    pub closed spec fn position(&self) -> nat {
        self.current as nat
    }

    pub closed spec fn reporter(&self) -> ErrorReporter {
        self.reporter
    }

    pub closed spec fn wf(&self) -> bool {
        &&& ends_in_eof(self.tokens@)
        &&& self.current < self.tokens@.len()
    }

    /// Whether the next token is the end of input.
    pub closed spec fn done(&self) -> bool {
        self.tokens@[self.current as int].token_type == TokenType::Eof
    }

    spec fn follows(&self, before: Parser) -> bool {
        &&& self.wf()
        &&& self.tokens@ == before.tokens@
        &&& self.current >= before.current
        &&& before.reporter.had_error ==> self.reporter.had_error
        &&& self.reporter.had_runtime_error == before.reporter.had_runtime_error
    }

    pub fn new(tokens: Vec<Token>) -> (r: Parser)
        requires
            ends_in_eof(tokens@),
        ensures
            r.wf(),
            r.tokens() == tokens@,
            r.position() == 0,
            !r.reporter().had_error,
            !r.reporter().had_runtime_error,
    {
        Parser { current: 0, reporter: ErrorReporter::new(), tokens }
    }

    /// Makes `reporter` the sink of this parser's diagnostics.
    pub fn set_error_reporter(&mut self, reporter: ErrorReporter)
        requires
            old(self).wf(),
        ensures
            final(self).wf(),
            final(self).tokens() == old(self).tokens(),
            final(self).position() == old(self).position(),
            final(self).reporter() == reporter,
    {
        self.reporter = reporter;
    }

    /// Hands back the reporter with what parsing reported.
    pub fn take_error_reporter(self) -> (r: ErrorReporter)
        ensures
            r == self.reporter(),
    {
        self.reporter
    }

    /// Parses declarations up to the end of input. After a failed declaration
    /// the error is reported and parsing resumes at the next statement. The
    /// statements and the diagnostics are those the grammar's `program`
    /// derives from the tokens.
    #[verifier::spinoff_prover]
    #[verifier::rlimit(60)]
    pub fn parse(&mut self) -> (r: Vec<Stmt>)
        requires
            old(self).wf(),
        ensures
            final(self).wf(),
            final(self).tokens() == old(self).tokens(),
            final(self).done(),
            stmt_trees(r@) == grammar::program(old(self).tokens(), old(self).position() as int).statements,
            final(self).reporter().log() == old(self).reporter().log() + grammar::program(
                old(self).tokens(),
                old(self).position() as int,
            ).notes,
            final(self).reporter().had_error == (old(self).reporter().had_error || grammar::program(
                old(self).tokens(),
                old(self).position() as int,
            ).notes.len() > 0),
            final(self).reporter().had_runtime_error == old(self).reporter().had_runtime_error,
    {
        proof {
            reveal(grammar::program_tail);
        }
        let ghost toks = self.tokens@;
        let ghost start = self.current as int;
        let mut statements: Vec<Stmt> = Vec::new();
        let ghost mut notes: Seq<Seq<char>> = Seq::empty();
        while !self.is_at_end()
            invariant
                self.follows(*old(self)),
                self.tokens@ == toks,
                start == old(self).current,
                self.reporter.log() =~= old(self).reporter.log() + notes,
                self.reporter.had_error == (old(self).reporter.had_error || notes.len() > 0),
                grammar::program(toks, start) == grammar::program_tail(
                    toks,
                    stmt_trees(statements@),
                    self.current as int,
                    notes,
                ),
            decreases self.tokens@.len() - self.current,
        {
            proof {
                reveal(grammar::program_tail);
            }
            let ghost pos = self.current as int;
            let ghost so_far = stmt_trees(statements@);
            let ghost d = grammar::declaration(toks, pos);
            match self.declaration() {
                Ok(stmt) => {
                    proof {
                        assert(statements@.push(stmt).drop_last() =~= statements@);
                        assert(grammar::program_tail(toks, so_far, pos, notes) == grammar::program_tail(
                            toks,
                            so_far.push(stmt_tree(stmt)),
                            d.pos,
                            notes + d.notes,
                        ));
                        notes = notes + d.notes;
                    }
                    statements.push(stmt);
                },
                Err(e) => {
                    self.error(&e.token, e.message.as_str());
                    self.synchronize();
                    proof {
                        let note = diagnostic(e.token.line as nat, place_of(e.token), e.message@);
                        assert(grammar::program_tail(toks, so_far, pos, notes) == grammar::program_tail(
                            toks,
                            so_far,
                            self.current as int,
                            (notes + d.notes).push(note),
                        ));
                        notes = (notes + d.notes).push(note);
                    }
                },
            }
        }
        statements
    }

    spec fn moved(&self, before: Parser, pos: int, notes: Seq<Seq<char>>) -> bool {
        &&& self.current as int == pos
        &&& self.reporter.log() =~= before.reporter.log() + notes
        &&& self.reporter.had_error == (before.reporter.had_error || notes.len() > 0)
    }

    spec fn took_stmt(&self, before: Parser, r: Result<Stmt, ParseError>, step: grammar::Step<StmtTree>) -> bool {
        &&& self.moved(before, step.pos, step.notes)
        &&& match r {
            Ok(s) => step.value == Ok::<StmtTree, (Token, Seq<char>)>(stmt_tree(s)),
            Err(e) => step.value == Err::<StmtTree, (Token, Seq<char>)>((e.token, e.message@)),
        }
    }

    spec fn took_block(&self, before: Parser, r: Result<Vec<Stmt>, ParseError>, step: grammar::Step<Seq<StmtTree>>) -> bool {
        &&& self.moved(before, step.pos, step.notes)
        &&& match r {
            Ok(v) => step.value == Ok::<Seq<StmtTree>, (Token, Seq<char>)>(stmt_trees(v@)),
            Err(e) => step.value == Err::<Seq<StmtTree>, (Token, Seq<char>)>((e.token, e.message@)),
        }
    }

    spec fn took_params(&self, before: Parser, r: Result<Vec<Token>, ParseError>, step: grammar::Step<Seq<Token>>) -> bool {
        &&& self.moved(before, step.pos, step.notes)
        &&& match r {
            Ok(v) => step.value == Ok::<Seq<Token>, (Token, Seq<char>)>(v@),
            Err(e) => step.value == Err::<Seq<Token>, (Token, Seq<char>)>((e.token, e.message@)),
        }
    }

    /// declaration → funDecl | varDecl | statement
    #[verifier::spinoff_prover]
    #[verifier::rlimit(60)]
    fn declaration(&mut self) -> (r: Result<Stmt, ParseError>)
        requires
            old(self).wf(),
        ensures
            final(self).follows(*old(self)),
            r is Ok ==> final(self).current > old(self).current,
            final(self).took_stmt(*old(self), r, grammar::declaration(old(self).tokens@, old(self).current as int)),
        decreases old(self).tokens@.len() - old(self).current, 15nat,
    {
        proof {
            reveal(grammar::declaration);
        }
        if self.match_one(TokenType::Fun) {
            return self.fun_decl_stmt("function");
        }
        if self.match_one(TokenType::Var) {
            return self.var_decl_stmt();
        }
        self.statement()
    }

    /// statement → exprStmt | forStmt | ifStmt | printStmt | returnStmt
    ///           | whileStmt | block
    #[verifier::spinoff_prover]
    #[verifier::rlimit(60)]
    fn statement(&mut self) -> (r: Result<Stmt, ParseError>)
        requires
            old(self).wf(),
        ensures
            final(self).follows(*old(self)),
            r is Ok ==> final(self).current > old(self).current,
            final(self).took_stmt(*old(self), r, grammar::statement(old(self).tokens@, old(self).current as int)),
        decreases old(self).tokens@.len() - old(self).current, 14nat,
    {
        proof {
            reveal(grammar::statement);
        }
        if self.match_one(TokenType::For) {
            return self.for_stmt();
        }
        if self.match_one(TokenType::If) {
            return self.if_stmt();
        }
        if self.match_one(TokenType::Print) {
            return self.print_stmt();
        }
        if self.match_one(TokenType::While) {
            return self.while_stmt();
        }
        if self.match_one(TokenType::Return) {
            return self.return_stmt();
        }
        if self.match_one(TokenType::LeftBrace) {
            let stmts = self.block()?;
            return Ok(Stmt::Block(stmts));
        }
        self.expression_stmt()
    }

    /// block → "{" declaration* "}", with the brace already consumed.
    #[verifier::spinoff_prover]
    #[verifier::rlimit(60)]
    fn block(&mut self) -> (r: Result<Vec<Stmt>, ParseError>)
        requires
            old(self).wf(),
        ensures
            final(self).follows(*old(self)),
            r is Ok ==> final(self).current > old(self).current,
            final(self).took_block(*old(self), r, grammar::block(old(self).tokens@, old(self).current as int)),
        decreases old(self).tokens@.len() - old(self).current, 16nat,
    {
        proof {
            reveal(grammar::block);
            reveal(grammar::block_tail);
        }
        let ghost toks = self.tokens@;
        let ghost start = self.current as int;
        let mut stmts: Vec<Stmt> = Vec::new();
        let ghost mut notes: Seq<Seq<char>> = Seq::empty();
        while !self.check(TokenType::RightBrace) && !self.is_at_end()
            invariant
                self.follows(*old(self)),
                self.tokens@ == toks,
                start == old(self).current,
                self.reporter.log() =~= old(self).reporter.log() + notes,
                self.reporter.had_error == (old(self).reporter.had_error || notes.len() > 0),
                grammar::block(toks, start) == grammar::block_tail(
                    toks,
                    stmt_trees(stmts@),
                    self.current as int,
                    notes,
                ),
            decreases self.tokens@.len() - self.current,
        {
            proof {
                reveal(grammar::block_tail);
            }
            let ghost pos = self.current as int;
            let ghost so_far = stmt_trees(stmts@);
            let ghost d = grammar::declaration(toks, pos);
            let stmt = match self.declaration() {
                Ok(s) => s,
                Err(e) => {
                    proof {
                        assert(grammar::block_tail(toks, so_far, pos, notes) == grammar::failed::<StmtTree, Seq<StmtTree>>(grammar::after(notes, d)));
                    }
                    return Err(e);
                },
            };
            proof {
                assert(stmts@.push(stmt).drop_last() =~= stmts@);
                assert(grammar::block_tail(toks, so_far, pos, notes) == grammar::block_tail(
                    toks,
                    so_far.push(stmt_tree(stmt)),
                    d.pos,
                    notes + d.notes,
                ));
                notes = notes + d.notes;
            }
            stmts.push(stmt);
        }
        self.consume(TokenType::RightBrace, "Expect '}' after block.")?;
        Ok(stmts)
    }

    /// ifStmt → "if" "(" expression ")" statement ( "else" statement )?
    #[verifier::spinoff_prover]
    #[verifier::rlimit(60)]
    fn if_stmt(&mut self) -> (r: Result<Stmt, ParseError>)
        requires
            old(self).wf(),
        ensures
            final(self).follows(*old(self)),
            r is Ok ==> final(self).current > old(self).current,
            final(self).took_stmt(*old(self), r, grammar::if_stmt(old(self).tokens@, old(self).current as int)),
        decreases old(self).tokens@.len() - old(self).current, 12nat,
    {
        proof {
            reveal(grammar::if_stmt);
        }
        self.consume(TokenType::LeftParen, "Expect '(' after 'if'.")?;
        let condition = self.expression()?;
        self.consume(TokenType::RightParen, "Expect ')' after if condition.")?;
        let then_branch = self.statement()?;
        let mut else_branch: Option<Stmt> = None;
        if self.match_one(TokenType::Else) {
            else_branch = Some(self.statement()?);
        }
        Ok(ifstmt(condition, then_branch, else_branch))
    }

    /// forStmt → "for" "(" ( varDecl | exprStmt | ";" ) expression? ";"
    ///           expression? ")" statement
    ///
    /// Desugared: `for (I; C; U) B` is `{ I; while (C) { B; U; } }`, with a
    /// missing condition read as `true`.
    #[verifier::spinoff_prover]
    #[verifier::rlimit(100)]
    fn for_stmt(&mut self) -> (r: Result<Stmt, ParseError>)
        requires
            old(self).wf(),
        ensures
            final(self).follows(*old(self)),
            r is Ok ==> final(self).current > old(self).current,
            final(self).took_stmt(*old(self), r, grammar::for_stmt(old(self).tokens@, old(self).current as int)),
        decreases old(self).tokens@.len() - old(self).current, 13nat,
    {
        proof {
            reveal(grammar::for_stmt);
        }
        self.consume(TokenType::LeftParen, "Expect '(' after 'for'.")?;
        let initializer = self.for_initializer()?;
        let condition = self.optional_expression(TokenType::Semicolon)?;
        self.consume(TokenType::Semicolon, "Expect ';' after loop condition.")?;
        let increment = self.optional_expression(TokenType::RightParen)?;
        self.consume(TokenType::RightParen, "Expect ')' after for clauses.")?;
        let body = self.statement()?;
        Ok(desugar_for(initializer, condition, increment, body))
    }

    /// The initializer clause of a `for`, after its parenthesis.
    #[verifier::spinoff_prover]
    fn for_initializer(&mut self) -> (r: Result<Option<Stmt>, ParseError>)
        requires
            old(self).wf(),
        ensures
            final(self).follows(*old(self)),
            r is Ok ==> final(self).current > old(self).current,
            final(self).moved(*old(self), grammar::for_init(old(self).tokens@, old(self).current as int).pos, grammar::for_init(old(self).tokens@, old(self).current as int).notes),
            match r {
                Ok(o) => grammar::for_init(old(self).tokens@, old(self).current as int).value == Ok::<Option<StmtTree>, (Token, Seq<char>)>(grammar::opt_stmt_tree(o)),
                Err(e) => grammar::for_init(old(self).tokens@, old(self).current as int).value == Err::<Option<StmtTree>, (Token, Seq<char>)>((e.token, e.message@)),
            },
        decreases old(self).tokens@.len() - old(self).current, 13nat,
    {
        proof {
            reveal(grammar::for_init);
        }
        if self.match_one(TokenType::Semicolon) {
            Ok(None)
        } else if self.match_one(TokenType::Var) {
            Ok(Some(self.var_decl_stmt()?))
        } else {
            Ok(Some(self.expression_stmt()?))
        }
    }

    /// An expression, or none where the next token has kind `stop`.
    #[verifier::spinoff_prover]
    fn optional_expression(&mut self, stop: TokenType) -> (r: Result<Option<Expr>, ParseError>)
        requires
            old(self).wf(),
        ensures
            final(self).follows(*old(self)),
            final(self).moved(*old(self), grammar::optional_expression(old(self).tokens@, old(self).current as int, stop).pos, grammar::optional_expression(old(self).tokens@, old(self).current as int, stop).notes),
            match r {
                Ok(o) => grammar::optional_expression(old(self).tokens@, old(self).current as int, stop).value == Ok::<Option<Tree>, (Token, Seq<char>)>(grammar::opt_tree(o)),
                Err(e) => grammar::optional_expression(old(self).tokens@, old(self).current as int, stop).value == Err::<Option<Tree>, (Token, Seq<char>)>((e.token, e.message@)),
            },
            r matches Ok(Some(_)) ==> final(self).current > old(self).current,
        decreases old(self).tokens@.len() - old(self).current, 12nat,
    {
        proof {
            reveal(grammar::optional_expression);
        }
        if self.check(stop) {
            Ok(None)
        } else {
            Ok(Some(self.expression()?))
        }
    }

    /// whileStmt → "while" "(" expression ")" statement
    #[verifier::spinoff_prover]
    #[verifier::rlimit(60)]
    fn while_stmt(&mut self) -> (r: Result<Stmt, ParseError>)
        requires
            old(self).wf(),
        ensures
            final(self).follows(*old(self)),
            r is Ok ==> final(self).current > old(self).current,
            final(self).took_stmt(*old(self), r, grammar::while_stmt(old(self).tokens@, old(self).current as int)),
        decreases old(self).tokens@.len() - old(self).current, 12nat,
    {
        proof {
            reveal(grammar::while_stmt);
        }
        self.consume(TokenType::LeftParen, "Expect '(' after 'while'.")?;
        let condition = self.expression()?;
        self.consume(TokenType::RightParen, "Expect ')' after while condition.")?;
        let body = self.statement()?;
        Ok(wstmt(condition, body))
    }

    /// returnStmt → "return" expression? ";" with the keyword already consumed;
    /// a missing value is `nil`.
    #[verifier::spinoff_prover]
    #[verifier::rlimit(60)]
    fn return_stmt(&mut self) -> (r: Result<Stmt, ParseError>)
        requires
            old(self).wf(),
            old(self).current > 0,
        ensures
            final(self).follows(*old(self)),
            r is Ok ==> final(self).current > old(self).current,
            final(self).took_stmt(*old(self), r, grammar::return_stmt(old(self).tokens@, old(self).current as int)),
        decreases old(self).tokens@.len() - old(self).current, 12nat,
    {
        proof {
            reveal(grammar::return_stmt);
        }
        let keyword = self.previous().clone();
        let value = if self.check(TokenType::Semicolon) {
            lexpr(Literal::Nil)
        } else {
            self.expression()?
        };
        self.consume(TokenType::Semicolon, "Expect ';' after return value.")?;
        Ok(Stmt::Return(keyword, value))
    }

    /// funDecl → "fun" IDENTIFIER "(" parameters? ")" block, with the keyword
    /// already consumed; `kind` names what is declared in messages.
    #[verifier::spinoff_prover]
    #[verifier::rlimit(60)]
    fn fun_decl_stmt(&mut self, kind: &str) -> (r: Result<Stmt, ParseError>)
        requires
            old(self).wf(),
        ensures
            final(self).follows(*old(self)),
            r is Ok ==> final(self).current > old(self).current,
            final(self).took_stmt(*old(self), r, grammar::fun_decl(old(self).tokens@, kind@, old(self).current as int)),
        decreases old(self).tokens@.len() - old(self).current, 12nat,
    {
        proof {
            reveal(grammar::fun_decl);
        }
        let name = self.consume(TokenType::Identifier, kind_message("Expect ", kind, " name.").as_str())?;
        self.consume(
            TokenType::LeftParen,
            kind_message("Expect '(' after ", kind, " name.").as_str(),
        )?;
        let parameters = if self.check(TokenType::RightParen) {
            Vec::new()
        } else {
            self.parameters_from(Vec::new())?
        };
        self.consume(TokenType::RightParen, "Expect ')' after parameters.")?;
        self.consume(
            TokenType::LeftBrace,
            kind_message("Expect '{' to start ", kind, " body.").as_str(),
        )?;
        let body = self.block()?;
        Ok(fstmt(name, parameters, body))
    }

    /// The parameter names after `parameters`. Past `MAX_ARITY` each one is
    /// reported, and parsing goes on.
    #[verifier::spinoff_prover]
    #[verifier::rlimit(60)]
    fn parameters_from(&mut self, parameters: Vec<Token>) -> (r: Result<Vec<Token>, ParseError>)
        requires
            old(self).wf(),
        ensures
            final(self).follows(*old(self)),
            r is Ok ==> final(self).current > old(self).current,
            final(self).took_params(*old(self), r, grammar::parameters(old(self).tokens@, parameters@, old(self).current as int)),
        decreases old(self).tokens@.len() - old(self).current,
    {
        proof {
            reveal(grammar::parameters);
        }
        if parameters.len() >= MAX_ARITY {
            let at = self.peek().clone();
            self.error(&at, "Can't have more than 255 parameters");
        }
        let parameter = self.consume(TokenType::Identifier, "Expect parameter name.")?;
        let mut parameters = parameters;
        parameters.push(parameter);
        if self.match_one(TokenType::Comma) {
            return self.parameters_from(parameters);
        }
        Ok(parameters)
    }

    /// varDecl → "var" IDENTIFIER ( "=" expression )? ";"
    #[verifier::spinoff_prover]
    #[verifier::rlimit(60)]
    fn var_decl_stmt(&mut self) -> (r: Result<Stmt, ParseError>)
        requires
            old(self).wf(),
        ensures
            final(self).follows(*old(self)),
            r is Ok ==> final(self).current > old(self).current,
            final(self).took_stmt(*old(self), r, grammar::var_decl(old(self).tokens@, old(self).current as int)),
        decreases old(self).tokens@.len() - old(self).current, 12nat,
    {
        proof {
            reveal(grammar::var_decl);
        }
        let name = self.consume(TokenType::Identifier, "Expect variable name.")?;
        let mut initializer = None;
        if self.match_one(TokenType::Equal) {
            initializer = Some(self.expression()?);
        }
        self.consume(TokenType::Semicolon, "Expect ';' after variable declaration.")?;
        Ok(vdstmt(name, initializer))
    }

    /// printStmt → "print" expression ";"
    #[verifier::spinoff_prover]
    #[verifier::rlimit(60)]
    fn print_stmt(&mut self) -> (r: Result<Stmt, ParseError>)
        requires
            old(self).wf(),
        ensures
            final(self).follows(*old(self)),
            r is Ok ==> final(self).current > old(self).current,
            final(self).took_stmt(*old(self), r, grammar::print_stmt(old(self).tokens@, old(self).current as int)),
        decreases old(self).tokens@.len() - old(self).current, 12nat,
    {
        proof {
            reveal(grammar::print_stmt);
        }
        let value = self.expression()?;
        self.consume(TokenType::Semicolon, "Expect ';' after value.")?;
        Ok(pstmt(value))
    }

    /// exprStmt → expression ";"
    #[verifier::spinoff_prover]
    #[verifier::rlimit(60)]
    fn expression_stmt(&mut self) -> (r: Result<Stmt, ParseError>)
        requires
            old(self).wf(),
        ensures
            final(self).follows(*old(self)),
            r is Ok ==> final(self).current > old(self).current,
            final(self).took_stmt(*old(self), r, grammar::expression_stmt(old(self).tokens@, old(self).current as int)),
        decreases old(self).tokens@.len() - old(self).current, 12nat,
    {
        proof {
            reveal(grammar::expression_stmt);
        }
        let expr = self.expression()?;
        self.consume(TokenType::Semicolon, "Expect ';' after value.")?;
        Ok(estmt(expr))
    }

    /// The parser went from `before` to `self` as the grammar step `step`
    /// says, with result `r`.
    spec fn took(&self, before: Parser, r: Result<Expr, ParseError>, step: grammar::Step<Tree>) -> bool {
        &&& self.current as int == step.pos
        &&& self.reporter.log() =~= before.reporter.log() + step.notes
        &&& self.reporter.had_error == (before.reporter.had_error || step.notes.len() > 0)
        &&& match r {
            Ok(e) => step.value == Ok::<Tree, (Token, Seq<char>)>(tree(e)),
            Err(e) => step.value == Err::<Tree, (Token, Seq<char>)>((e.token, e.message@)),
        }
    }

    /// expression → assignment
    fn expression(&mut self) -> (r: Result<Expr, ParseError>)
        requires
            old(self).wf(),
        ensures
            final(self).follows(*old(self)),
            r is Ok ==> final(self).current > old(self).current,
            final(self).took(*old(self), r, grammar::expression(old(self).tokens@, old(self).current as int)),
        decreases old(self).tokens@.len() - old(self).current, 11nat,
    {
        self.assignment()
    }

    /// assignment → IDENTIFIER "=" assignment | logic_or
    ///
    /// The target is parsed as an expression first; anything but a variable
    /// is reported as an invalid target, without recovery.
    fn assignment(&mut self) -> (r: Result<Expr, ParseError>)
        requires
            old(self).wf(),
        ensures
            final(self).follows(*old(self)),
            r is Ok ==> final(self).current > old(self).current,
            final(self).took(*old(self), r, grammar::assignment(old(self).tokens@, old(self).current as int)),
        decreases old(self).tokens@.len() - old(self).current, 10nat,
    {
        let expr = self.or()?;
        if self.match_one(TokenType::Equal) {
            let equals = self.previous().clone();
            let value = self.assignment()?;
            return match expr {
                Expr::VariableExpr(name) => Ok(aexpr(name, value)),
                other => {
                    self.error(&equals, "Invalid assignment target.");
                    Ok(other)
                },
            };
        }
        Ok(expr)
    }

    /// logic_or → logic_and ( "or" logic_and )*
    fn or(&mut self) -> (r: Result<Expr, ParseError>)
        requires
            old(self).wf(),
        ensures
            final(self).follows(*old(self)),
            r is Ok ==> final(self).current > old(self).current,
            final(self).took(*old(self), r, grammar::binary(old(self).tokens@, 9, old(self).current as int)),
        decreases old(self).tokens@.len() - old(self).current, 9nat,
    {
        let mut expr = self.and()?;
        let ghost mut notes = grammar::binary(self.tokens@, 8, old(self).current as int).notes;
        while self.match_operator(9)
            invariant
                self.follows(*old(self)),
                self.current > old(self).current,
                self.reporter.log() =~= old(self).reporter.log() + notes,
                self.reporter.had_error == (old(self).reporter.had_error || notes.len() > 0),
                grammar::binary(old(self).tokens@, 9, old(self).current as int) == grammar::binary_tail(
                    self.tokens@, 9, tree(expr), self.current as int, notes),
            decreases self.tokens@.len() - self.current,
        {
            let operator = self.previous().clone();
            let ghost before = *self;
            let ghost left_tree = tree(expr);
            let ghost pos = before.current - 1;
            let right = self.and()?;
            proof {
                let rs = grammar::binary(self.tokens@, 8, before.current as int);
                assert(grammar::operator_at(self.tokens@, 9, pos));
                assert(grammar::operand(self.tokens@, 9, pos + 1) == rs);
                assert(rs.value == Ok::<Tree, (Token, Seq<char>)>(tree(right)));
                assert(operator == self.tokens@[pos]);
                assert(grammar::binary_tail(self.tokens@, 9, left_tree, pos, notes) == grammar::binary_tail(
                    self.tokens@, 9, grammar::combine(9, left_tree, self.tokens@[pos], tree(right)), rs.pos, notes + rs.notes));
                notes = notes + rs.notes;
            }
            expr = lgexpr(expr, operator, right);
            assert(tree(expr) == grammar::combine(9, left_tree, self.tokens@[pos], tree(right)));
        }
        Ok(expr)
    }

    /// logic_and → equality ( "and" equality )*
    fn and(&mut self) -> (r: Result<Expr, ParseError>)
        requires
            old(self).wf(),
        ensures
            final(self).follows(*old(self)),
            r is Ok ==> final(self).current > old(self).current,
            final(self).took(*old(self), r, grammar::binary(old(self).tokens@, 8, old(self).current as int)),
        decreases old(self).tokens@.len() - old(self).current, 8nat,
    {
        let mut expr = self.equality()?;
        let ghost mut notes = grammar::binary(self.tokens@, 7, old(self).current as int).notes;
        while self.match_operator(8)
            invariant
                self.follows(*old(self)),
                self.current > old(self).current,
                self.reporter.log() =~= old(self).reporter.log() + notes,
                self.reporter.had_error == (old(self).reporter.had_error || notes.len() > 0),
                grammar::binary(old(self).tokens@, 8, old(self).current as int) == grammar::binary_tail(
                    self.tokens@, 8, tree(expr), self.current as int, notes),
            decreases self.tokens@.len() - self.current,
        {
            let operator = self.previous().clone();
            let ghost before = *self;
            let ghost left_tree = tree(expr);
            let ghost pos = before.current - 1;
            let right = self.equality()?;
            proof {
                let rs = grammar::binary(self.tokens@, 7, before.current as int);
                assert(grammar::operator_at(self.tokens@, 8, pos));
                assert(grammar::operand(self.tokens@, 8, pos + 1) == rs);
                assert(rs.value == Ok::<Tree, (Token, Seq<char>)>(tree(right)));
                assert(operator == self.tokens@[pos]);
                assert(grammar::binary_tail(self.tokens@, 8, left_tree, pos, notes) == grammar::binary_tail(
                    self.tokens@, 8, grammar::combine(8, left_tree, self.tokens@[pos], tree(right)), rs.pos, notes + rs.notes));
                notes = notes + rs.notes;
            }
            expr = lgexpr(expr, operator, right);
            assert(tree(expr) == grammar::combine(8, left_tree, self.tokens@[pos], tree(right)));
        }
        Ok(expr)
    }

    /// equality → comparison ( ( "!=" | "==" ) comparison )*
    fn equality(&mut self) -> (r: Result<Expr, ParseError>)
        requires
            old(self).wf(),
        ensures
            final(self).follows(*old(self)),
            r is Ok ==> final(self).current > old(self).current,
            final(self).took(*old(self), r, grammar::binary(old(self).tokens@, 7, old(self).current as int)),
        decreases old(self).tokens@.len() - old(self).current, 7nat,
    {
        let mut expr = self.comparison()?;
        let ghost mut notes = grammar::binary(self.tokens@, 6, old(self).current as int).notes;
        while self.match_operator(7)
            invariant
                self.follows(*old(self)),
                self.current > old(self).current,
                self.reporter.log() =~= old(self).reporter.log() + notes,
                self.reporter.had_error == (old(self).reporter.had_error || notes.len() > 0),
                grammar::binary(old(self).tokens@, 7, old(self).current as int) == grammar::binary_tail(
                    self.tokens@, 7, tree(expr), self.current as int, notes),
            decreases self.tokens@.len() - self.current,
        {
            let operator = self.previous().clone();
            let ghost before = *self;
            let ghost left_tree = tree(expr);
            let ghost pos = before.current - 1;
            let right = self.comparison()?;
            proof {
                let rs = grammar::binary(self.tokens@, 6, before.current as int);
                assert(grammar::operator_at(self.tokens@, 7, pos));
                assert(grammar::operand(self.tokens@, 7, pos + 1) == rs);
                assert(rs.value == Ok::<Tree, (Token, Seq<char>)>(tree(right)));
                assert(operator == self.tokens@[pos]);
                assert(grammar::binary_tail(self.tokens@, 7, left_tree, pos, notes) == grammar::binary_tail(
                    self.tokens@, 7, grammar::combine(7, left_tree, self.tokens@[pos], tree(right)), rs.pos, notes + rs.notes));
                notes = notes + rs.notes;
            }
            expr = bexpr(expr, operator, right);
            assert(tree(expr) == grammar::combine(7, left_tree, self.tokens@[pos], tree(right)));
        }
        Ok(expr)
    }

    /// comparison → term ( ( ">" | ">=" | "<" | "<=" ) term )*
    fn comparison(&mut self) -> (r: Result<Expr, ParseError>)
        requires
            old(self).wf(),
        ensures
            final(self).follows(*old(self)),
            r is Ok ==> final(self).current > old(self).current,
            final(self).took(*old(self), r, grammar::binary(old(self).tokens@, 6, old(self).current as int)),
        decreases old(self).tokens@.len() - old(self).current, 6nat,
    {
        let mut expr = self.term()?;
        let ghost mut notes = grammar::binary(self.tokens@, 5, old(self).current as int).notes;
        while self.match_operator(6)
            invariant
                self.follows(*old(self)),
                self.current > old(self).current,
                self.reporter.log() =~= old(self).reporter.log() + notes,
                self.reporter.had_error == (old(self).reporter.had_error || notes.len() > 0),
                grammar::binary(old(self).tokens@, 6, old(self).current as int) == grammar::binary_tail(
                    self.tokens@, 6, tree(expr), self.current as int, notes),
            decreases self.tokens@.len() - self.current,
        {
            let operator = self.previous().clone();
            let ghost before = *self;
            let ghost left_tree = tree(expr);
            let ghost pos = before.current - 1;
            let right = self.term()?;
            proof {
                let rs = grammar::binary(self.tokens@, 5, before.current as int);
                assert(grammar::operator_at(self.tokens@, 6, pos));
                assert(grammar::operand(self.tokens@, 6, pos + 1) == rs);
                assert(rs.value == Ok::<Tree, (Token, Seq<char>)>(tree(right)));
                assert(operator == self.tokens@[pos]);
                assert(grammar::binary_tail(self.tokens@, 6, left_tree, pos, notes) == grammar::binary_tail(
                    self.tokens@, 6, grammar::combine(6, left_tree, self.tokens@[pos], tree(right)), rs.pos, notes + rs.notes));
                notes = notes + rs.notes;
            }
            expr = bexpr(expr, operator, right);
            assert(tree(expr) == grammar::combine(6, left_tree, self.tokens@[pos], tree(right)));
        }
        Ok(expr)
    }

    /// term → factor ( ( "-" | "+" ) factor )*
    fn term(&mut self) -> (r: Result<Expr, ParseError>)
        requires
            old(self).wf(),
        ensures
            final(self).follows(*old(self)),
            r is Ok ==> final(self).current > old(self).current,
            final(self).took(*old(self), r, grammar::binary(old(self).tokens@, 5, old(self).current as int)),
        decreases old(self).tokens@.len() - old(self).current, 5nat,
    {
        let mut expr = self.factor()?;
        let ghost mut notes = grammar::binary(self.tokens@, 4, old(self).current as int).notes;
        while self.match_operator(5)
            invariant
                self.follows(*old(self)),
                self.current > old(self).current,
                self.reporter.log() =~= old(self).reporter.log() + notes,
                self.reporter.had_error == (old(self).reporter.had_error || notes.len() > 0),
                grammar::binary(old(self).tokens@, 5, old(self).current as int) == grammar::binary_tail(
                    self.tokens@, 5, tree(expr), self.current as int, notes),
            decreases self.tokens@.len() - self.current,
        {
            let operator = self.previous().clone();
            let ghost before = *self;
            let ghost left_tree = tree(expr);
            let ghost pos = before.current - 1;
            let right = self.factor()?;
            proof {
                let rs = grammar::binary(self.tokens@, 4, before.current as int);
                assert(grammar::operator_at(self.tokens@, 5, pos));
                assert(grammar::operand(self.tokens@, 5, pos + 1) == rs);
                assert(rs.value == Ok::<Tree, (Token, Seq<char>)>(tree(right)));
                assert(operator == self.tokens@[pos]);
                assert(grammar::binary_tail(self.tokens@, 5, left_tree, pos, notes) == grammar::binary_tail(
                    self.tokens@, 5, grammar::combine(5, left_tree, self.tokens@[pos], tree(right)), rs.pos, notes + rs.notes));
                notes = notes + rs.notes;
            }
            expr = bexpr(expr, operator, right);
            assert(tree(expr) == grammar::combine(5, left_tree, self.tokens@[pos], tree(right)));
        }
        Ok(expr)
    }

    /// factor → unary ( ( "/" | "*" ) unary )*
    fn factor(&mut self) -> (r: Result<Expr, ParseError>)
        requires
            old(self).wf(),
        ensures
            final(self).follows(*old(self)),
            r is Ok ==> final(self).current > old(self).current,
            final(self).took(*old(self), r, grammar::binary(old(self).tokens@, 4, old(self).current as int)),
        decreases old(self).tokens@.len() - old(self).current, 4nat,
    {
        let mut expr = self.unary()?;
        let ghost mut notes = grammar::unary(self.tokens@, old(self).current as int).notes;
        while self.match_operator(4)
            invariant
                self.follows(*old(self)),
                self.current > old(self).current,
                self.reporter.log() =~= old(self).reporter.log() + notes,
                self.reporter.had_error == (old(self).reporter.had_error || notes.len() > 0),
                grammar::binary(old(self).tokens@, 4, old(self).current as int) == grammar::binary_tail(
                    self.tokens@, 4, tree(expr), self.current as int, notes),
            decreases self.tokens@.len() - self.current,
        {
            let operator = self.previous().clone();
            let ghost before = *self;
            let ghost left_tree = tree(expr);
            let ghost pos = before.current - 1;
            let right = self.unary()?;
            proof {
                let rs = grammar::unary(self.tokens@, before.current as int);
                assert(grammar::operator_at(self.tokens@, 4, pos));
                assert(grammar::operand(self.tokens@, 4, pos + 1) == rs);
                assert(rs.value == Ok::<Tree, (Token, Seq<char>)>(tree(right)));
                assert(operator == self.tokens@[pos]);
                assert(grammar::binary_tail(self.tokens@, 4, left_tree, pos, notes) == grammar::binary_tail(self.tokens@, 4, grammar::combine(4, left_tree, self.tokens@[pos], tree(right)), rs.pos, notes + rs.notes));
                notes = notes + rs.notes;
            }
            expr = bexpr(expr, operator, right);
            assert(tree(expr) == grammar::combine(4, left_tree, self.tokens@[pos], tree(right)));
        }
        Ok(expr)
    }

    /// unary → ( "!" | "-" ) unary | call
    fn unary(&mut self) -> (r: Result<Expr, ParseError>)
        requires
            old(self).wf(),
        ensures
            final(self).follows(*old(self)),
            r is Ok ==> final(self).current > old(self).current,
            final(self).took(*old(self), r, grammar::unary(old(self).tokens@, old(self).current as int)),
        decreases old(self).tokens@.len() - old(self).current, 3nat,
    {
        if self.match_one(TokenType::Bang) || self.match_one(TokenType::Minus) {
            let operator = self.previous().clone();
            let right = self.unary()?;
            return Ok(uexpr(operator, right));
        }
        self.call()
    }

    /// call → primary ( "(" arguments? ")" )*
    #[verifier::spinoff_prover]
    #[verifier::rlimit(60)]
    fn call(&mut self) -> (r: Result<Expr, ParseError>)
        requires
            old(self).wf(),
        ensures
            final(self).follows(*old(self)),
            r is Ok ==> final(self).current > old(self).current,
            final(self).took(*old(self), r, grammar::call(old(self).tokens@, old(self).current as int)),
        decreases old(self).tokens@.len() - old(self).current, 2nat,
    {
        let mut expr = self.primary()?;
        let ghost mut notes = grammar::primary(self.tokens@, old(self).current as int).notes;
        while self.match_one(TokenType::LeftParen)
            invariant
                self.follows(*old(self)),
                self.current > old(self).current,
                self.reporter.log() =~= old(self).reporter.log() + notes,
                self.reporter.had_error == (old(self).reporter.had_error || notes.len() > 0),
                grammar::call(old(self).tokens@, old(self).current as int) == grammar::call_tail(
                    self.tokens@, tree(expr), self.current as int, notes),
            decreases self.tokens@.len() - self.current,
        {
            let ghost before = *self;
            let ghost callee = tree(expr);
            expr = self.finish_call(expr)?;
            proof {
                notes = notes + grammar::finish_call(self.tokens@, callee, before.current as int).notes;
            }
        }
        Ok(expr)
    }

    /// arguments → expression ( "," expression )*, then ")".
    fn finish_call(&mut self, callee: Expr) -> (r: Result<Expr, ParseError>)
        requires
            old(self).wf(),
        ensures
            final(self).follows(*old(self)),
            r is Ok ==> final(self).current > old(self).current,
            r is Ok ==> (r->Ok_0 matches Expr::Call(c, _, arguments) && *c == callee && arguments@.len()
                <= MAX_ARITY),
            final(self).took(*old(self), r, grammar::finish_call(old(self).tokens@, tree(callee), old(self).current as int)),
        decreases old(self).tokens@.len() - old(self).current, 13nat,
    {
        if self.check(TokenType::RightParen) {
            let paren = self.consume(TokenType::RightParen, "Expect ')' after arguments.")?;
            let arguments: Vec<Expr> = Vec::new();
            assert(trees(arguments@) =~= Seq::<Tree>::empty());
            return Ok(cexpr(callee, paren, arguments));
        }
        let arguments: Vec<Expr> = Vec::new();
        assert(trees(arguments@) =~= Seq::<Tree>::empty());
        self.arguments_from(callee, arguments)
    }

    /// The arguments of a call after `arguments`, then ")".
    fn arguments_from(&mut self, callee: Expr, arguments: Vec<Expr>) -> (r: Result<Expr, ParseError>)
        requires
            old(self).wf(),
            arguments@.len() <= MAX_ARITY,
        ensures
            final(self).follows(*old(self)),
            r is Ok ==> final(self).current > old(self).current,
            r is Ok ==> (r->Ok_0 matches Expr::Call(c, _, a) && *c == callee && a@.len() <= MAX_ARITY),
            final(self).took(
                *old(self),
                r,
                grammar::arguments(old(self).tokens@, tree(callee), trees(arguments@), old(self).current as int),
            ),
        decreases old(self).tokens@.len() - old(self).current, 12nat,
    {
        proof {
            lemma_trees_len(arguments@);
        }
        if arguments.len() >= MAX_ARITY {
            return Err(parse_error(self.peek(), "Can't have more than 255 arguments."));
        }
        let argument = self.expression()?;
        let mut arguments = arguments;
        proof {
            assert(arguments@.push(argument).drop_last() =~= arguments@);
        }
        arguments.push(argument);
        if self.match_one(TokenType::Comma) {
            return self.arguments_from(callee, arguments);
        }
        let paren = self.consume(TokenType::RightParen, "Expect ')' after arguments.")?;
        Ok(cexpr(callee, paren, arguments))
    }

    /// primary → "true" | "false" | "nil" | NUMBER | STRING | IDENTIFIER
    ///         | "(" expression ")"
    fn primary(&mut self) -> (r: Result<Expr, ParseError>)
        requires
            old(self).wf(),
        ensures
            final(self).follows(*old(self)),
            r is Ok ==> final(self).current > old(self).current,
            final(self).took(*old(self), r, grammar::primary(old(self).tokens@, old(self).current as int)),
        decreases old(self).tokens@.len() - old(self).current, 1nat,
    {
        if self.match_one(TokenType::False) {
            return Ok(lexpr(Literal::Boolean(false)));
        }
        if self.match_one(TokenType::True) {
            return Ok(lexpr(Literal::Boolean(true)));
        }
        if self.match_one(TokenType::Nil) {
            return Ok(lexpr(Literal::Nil));
        }
        if self.match_one(TokenType::Number) || self.match_one(TokenType::String) {
            let previous = self.previous();
            let literal = match &previous.literal {
                Some(l) => l.clone(),
                None => if previous.token_type == TokenType::Number {
                    Literal::Number(previous.lexeme.clone())
                } else {
                    Literal::String(previous.lexeme.clone())
                },
            };
            return Ok(lexpr(literal));
        }
        if self.match_one(TokenType::Identifier) {
            return Ok(vexpr(self.previous().clone()));
        }
        if self.match_one(TokenType::LeftParen) {
            let expr = self.expression()?;
            self.consume(TokenType::RightParen, "Expect ')' after expression.")?;
            return Ok(gexpr(expr));
        }
        Err(parse_error(self.peek(), "Expected expression."))
    }

    /// Consumes the next token if it is an operator of precedence `level`.
    fn match_operator(&mut self, level: usize) -> (r: bool)
        requires
            old(self).wf(),
        ensures
            final(self).wf(),
            final(self).tokens@ == old(self).tokens@,
            final(self).reporter == old(self).reporter,
            r == grammar::operator_at(old(self).tokens@, level as int, old(self).current as int),
            final(self).current == old(self).current + if r {
                1int
            } else {
                0int
            },
    {
        if self.is_at_end() {
            return false;
        }
        let k = self.peek().token_type;
        let hit = if level == 9 {
            k == TokenType::Or
        } else if level == 8 {
            k == TokenType::And
        } else if level == 7 {
            k == TokenType::BangEqual || k == TokenType::EqualEqual
        } else if level == 6 {
            k == TokenType::Greater || k == TokenType::GreaterEqual || k == TokenType::Less || k
                == TokenType::LessEqual
        } else if level == 5 {
            k == TokenType::Minus || k == TokenType::Plus
        } else {
            k == TokenType::Slash || k == TokenType::Star
        };
        if hit {
            self.advance();
        }
        hit
    }

    /// Consumes the next token if it has kind `token_type`.
    fn match_one(&mut self, token_type: TokenType) -> (r: bool)
        requires
            old(self).wf(),
        ensures
            final(self).wf(),
            final(self).tokens@ == old(self).tokens@,
            final(self).reporter == old(self).reporter,
            r == old(self).check_spec(token_type),
            final(self).current == old(self).current + if r {
                1int
            } else {
                0int
            },
    {
        if self.check(token_type) {
            self.advance();
            return true;
        }
        false
    }

    /// Consumes the next token, unless it ends the input.
    fn advance(&mut self)
        requires
            old(self).wf(),
        ensures
            final(self).wf(),
            final(self).tokens@ == old(self).tokens@,
            final(self).reporter == old(self).reporter,
            final(self).current == old(self).current + if old(self).done() {
                0int
            } else {
                1int
            },
    {
        if !self.is_at_end() {
            let n = self.tokens.len();
            assert(self.tokens@.last() == self.tokens@[n - 1]);
            assert(self.current < n - 1);
            self.current = self.current + 1;
        }
    }

    /// Consumes the next token if it has kind `token_type`, else fails with
    /// `message` at that token.
    fn consume(&mut self, token_type: TokenType, message: &str) -> (r: Result<Token, ParseError>)
        requires
            old(self).wf(),
        ensures
            final(self).wf(),
            final(self).tokens@ == old(self).tokens@,
            final(self).reporter == old(self).reporter,
            r is Ok <==> old(self).check_spec(token_type),
            r is Ok ==> final(self).current == old(self).current + 1 && r->Ok_0 == old(
                self,
            ).tokens@[old(self).current as int],
            r is Err ==> final(self).current == old(self).current && r->Err_0.token == old(
                self,
            ).tokens@[old(self).current as int] && r->Err_0.message@ == message@,
    {
        if self.check(token_type) {
            let token = self.peek().clone();
            self.advance();
            return Ok(token);
        }
        Err(parse_error(self.peek(), message))
    }

    /// Discards tokens up to a likely statement boundary: just after a `;`, or
    /// before a keyword that starts a statement.
    fn synchronize(&mut self)
        requires
            old(self).wf(),
        ensures
            final(self).wf(),
            final(self).tokens@ == old(self).tokens@,
            final(self).reporter == old(self).reporter,
            final(self).current >= old(self).current,
            !old(self).done() ==> final(self).current > old(self).current,
            final(self).current == grammar::synchronized(old(self).tokens@, old(self).current as int),
    {
        self.advance();
        while !self.is_at_end()
            invariant
                self.wf(),
                self.tokens@ == old(self).tokens@,
                self.reporter == old(self).reporter,
                self.current >= old(self).current,
                !old(self).done() ==> self.current > old(self).current,
                self.current > 0 || self.done(),
                grammar::synchronized(old(self).tokens@, old(self).current as int) == grammar::resume(
                    self.tokens@,
                    self.current as int,
                ),
            decreases self.tokens@.len() - self.current,
        {
            if self.previous().token_type == TokenType::Semicolon {
                return;
            }
            let next = self.peek().token_type;
            if next == TokenType::Class || next == TokenType::Fun || next == TokenType::Var || next
                == TokenType::For || next == TokenType::If || next == TokenType::While || next
                == TokenType::Print || next == TokenType::Return {
                return;
            }
            self.advance();
        }
    }

    spec fn check_spec(&self, token_type: TokenType) -> bool {
        !self.done() && self.tokens@[self.current as int].token_type == token_type
    }

    fn check(&self, token_type: TokenType) -> (r: bool)
        requires
            self.wf(),
        ensures
            r == self.check_spec(token_type),
    {
        if self.is_at_end() {
            return false;
        }
        self.peek().token_type == token_type
    }

    fn is_at_end(&self) -> (r: bool)
        requires
            self.wf(),
        ensures
            r == self.done(),
    {
        self.peek().token_type == TokenType::Eof
    }

    fn peek(&self) -> (r: &Token)
        requires
            self.wf(),
        ensures
            *r == self.tokens@[self.current as int],
    {
        &self.tokens[self.current]
    }

    fn previous(&self) -> (r: &Token)
        requires
            self.wf(),
            self.current > 0,
        ensures
            *r == self.tokens@[self.current - 1],
    {
        &self.tokens[self.current - 1]
    }

    /// Reports a syntactic error at `token`.
    fn error(&mut self, token: &Token, message: &str)
        requires
            old(self).wf(),
        ensures
            final(self).wf(),
            final(self).tokens@ == old(self).tokens@,
            final(self).current == old(self).current,
            final(self).reporter.log() == old(self).reporter.log().push(
                diagnostic(token.line as nat, place_of(*token), message@),
            ),
            final(self).reporter.had_error,
            final(self).reporter.had_runtime_error == old(self).reporter.had_runtime_error,
    {
        self.reporter.error(token, message);
    }
}

} // verus!
