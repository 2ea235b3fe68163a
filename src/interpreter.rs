//! The evaluator: walks statements and expressions over the scope table.
use vstd::prelude::*;

use crate::ast::{clone_stmts, clone_tokens, Expr, Stmt};
use crate::environment::{
    binding_in, holder, lemma_holder_binds, lemma_holder_resolves, lemma_resolve_rebound, rebound,
    resolve, Environment, Scopes,
};
use crate::error::{ErrorReporter, RuntimeError};
use crate::grammar::{stmt_tree, stmt_trees, tree, trees, StmtTree, Tree};
use crate::semantics::{
    same_but_scopes, args_eval, blocks, calls, evaluates, executes, interprets, logically, loops, opened,
    printed_value, runs, Trace,
};
use crate::text::{concat, decimal, push_decimal};
use crate::token::{Literal, Token, TokenType};
use crate::value::{copy_of, equal_values, truthy, Builtin, Function, Numeric, Object};

verus! {

/// A function declaration as it ran: name, parameters, body.
pub struct Declaration {
    pub name: Token,
    pub parameters: Vec<Token>,
    pub body: Vec<Stmt>,
}

/// Why execution left a statement early: a runtime error, or a `return`
/// carrying its keyword and value out of the enclosing call.
pub enum Unwind<N> {
    Error(RuntimeError),
    Return(Token, Object<N>),
}

/// The message for operands of the wrong kind.
pub open spec fn numeric_message() -> Seq<char> {
    "operands must be numeric for operation"@
}

fn runtime_error(token: &Token, message: &str) -> (r: RuntimeError)
    ensures
        r.token == *token,
        r.message@ == message@,
{
    RuntimeError { token: token.clone(), message: String::from_str(message) }
}

/// Whether `operator` stops a logical expression at a left operand `left`:
/// `or` at a truthy one, `and` at a falsy one.
pub open spec fn short_circuits<N>(operator: TokenType, left: Object<N>) -> bool {
    (operator == TokenType::Or && truthy(left)) || (operator == TokenType::And && !truthy(left))
}

/// The text `print` writes for `v`, where the value decides it: every value
/// but a number. `names` are the names of the function declarations run so far.
pub open spec fn display<N>(v: Object<N>, names: Seq<Seq<char>>) -> Option<Seq<char>> {
    match v {
        Object::Number(_) => None,
        Object::String(s) => Some(s@),
        Object::Boolean(b) => Some(
            if b {
                "true"@
            } else {
                "false"@
            },
        ),
        Object::Nil => Some("nil"@),
        Object::Callable(Function::Native(Builtin::Clock)) => Some("<native fn clock>"@),
        Object::Callable(Function::User { declaration, .. }) => if declaration < names.len() {
            Some("<fn "@ + names[declaration as int] + ">"@)
        } else {
            None
        },
    }
}

/// The result of a binary operator on two operand values, where the operand
/// kinds decide it. For two numbers only the kind of the result is fixed.
pub open spec fn binary_outcome<N>(
    operator: Token,
    left: Object<N>,
    right: Object<N>,
    names: Seq<Seq<char>>,
    r: Result<Object<N>, RuntimeError>,
) -> bool {
    let numbers = left is Number && right is Number;
    match operator.token_type {
        TokenType::Plus => if numbers {
            r is Ok && r->Ok_0 is Number
        } else {
            &&& r is Ok
            &&& r->Ok_0 is String
            &&& display(left, names) is Some && display(right, names) is Some ==> r->Ok_0->String_0@
                == display(left, names)->0 + display(right, names)->0
        },
        TokenType::Minus | TokenType::Star | TokenType::Slash => if numbers {
            r is Ok && r->Ok_0 is Number
        } else {
            r is Err && r->Err_0.token == operator && r->Err_0.message@ == numeric_message()
        },
        TokenType::Greater | TokenType::GreaterEqual | TokenType::Less | TokenType::LessEqual => if numbers {
            r is Ok && r->Ok_0 is Boolean
        } else {
            r is Err && r->Err_0.token == operator && r->Err_0.message@ == numeric_message()
        },
        TokenType::EqualEqual => r is Ok && r->Ok_0 is Boolean && (equal_values(left, right) is Some
            ==> r->Ok_0 == Object::<N>::Boolean(equal_values(left, right)->0)),
        TokenType::BangEqual => r is Ok && r->Ok_0 is Boolean && (equal_values(left, right) is Some
            ==> r->Ok_0 == Object::<N>::Boolean(!equal_values(left, right)->0)),
        _ => r is Err && r->Err_0.token == operator,
    }
}

/// The result of a unary operator on its operand value.
pub open spec fn unary_outcome<N>(operator: Token, value: Object<N>, r: Result<Object<N>, RuntimeError>) -> bool {
    match operator.token_type {
        TokenType::Minus => if value is Number {
            r is Ok && r->Ok_0 is Number
        } else {
            r is Err && r->Err_0.token == operator && r->Err_0.message@ == numeric_message()
        },
        TokenType::Bang => r == Ok::<Object<N>, RuntimeError>(Object::Boolean(!truthy(value))),
        _ => r is Err && r->Err_0.token == operator,
    }
}

/// "Expected A arguments but got B."
pub open spec fn arity_message(expected: nat, got: nat) -> Seq<char> {
    "Expected "@ + decimal(expected) + " arguments but got "@ + decimal(got) + "."@
}

/// A value the scope table may hold: a user function's closure is a scope
/// below `keep`, and its declaration is one of the `declared` that ran.
pub open spec fn holdable<N>(v: Object<N>, keep: nat, declared: nat) -> bool {
    match v {
        Object::Callable(Function::User { declaration, closure }) => closure < keep && declaration
            < declared,
        _ => true,
    }
}

/// Every value bound in `envs` is holdable.
pub open spec fn all_holdable<N>(envs: Seq<Environment<N>>, keep: nat, declared: nat) -> bool {
    forall|i: int, name: Seq<char>|
        0 <= i < envs.len() ==> match #[trigger] binding_in(envs[i].values@, name) {
            Some(Some(v)) => holdable(v, keep, declared),
            _ => true,
        }
}

proof fn lemma_holdable_grows<N>(envs: Seq<Environment<N>>, keep: nat, declared: nat, k: nat, d: nat)
    requires
        all_holdable(envs, keep, declared),
        keep <= k,
        declared <= d,
    ensures
        all_holdable(envs, k, d),
{
    assert forall|i: int, name: Seq<char>| 0 <= i < envs.len() implies match #[trigger] binding_in(
        envs[i].values@,
        name,
    ) {
        Some(Some(v)) => holdable(v, k, d),
        _ => true,
    } by {
        if let Some(Some(v)) = binding_in(envs[i].values@, name) {
            assert(holdable(v, keep, declared));
        }
    }
}

proof fn lemma_rebound_holdable<N>(
    before: Seq<Environment<N>>,
    after: Seq<Environment<N>>,
    at: int,
    name: Seq<char>,
    value: Option<Object<N>>,
    keep: nat,
    declared: nat,
)
    requires
        all_holdable(before, keep, declared),
        rebound(before, after, at, name, value),
        value matches Some(v) ==> holdable(v, keep, declared),
    ensures
        all_holdable(after, keep, declared),
{
    assert forall|i: int, n: Seq<char>| 0 <= i < after.len() implies match #[trigger] binding_in(
        after[i].values@,
        n,
    ) {
        Some(Some(v)) => holdable(v, keep, declared),
        _ => true,
    } by {
        if i != at {
            assert(after[i] == before[i]);
            assert(binding_in(before[i].values@, n) == binding_in(after[i].values@, n));
        } else if n != name {
            assert(binding_in(after[at].values@, n) == binding_in(before[at].values@, n));
        }
    }
}

proof fn lemma_prefix_holdable<N>(envs: Seq<Environment<N>>, len: int, keep: nat, declared: nat)
    requires
        all_holdable(envs, keep, declared),
        0 <= len <= envs.len(),
    ensures
        all_holdable(envs.subrange(0, len), keep, declared),
{
    let p = envs.subrange(0, len);
    assert forall|i: int, n: Seq<char>| 0 <= i < p.len() implies match #[trigger] binding_in(
        p[i].values@,
        n,
    ) {
        Some(Some(v)) => holdable(v, keep, declared),
        _ => true,
    } by {
        assert(p[i] == envs[i]);
        assert(binding_in(envs[i].values@, n) == binding_in(p[i].values@, n));
    }
}

proof fn lemma_resolved_holdable<N>(envs: Seq<Environment<N>>, at: int, name: Seq<char>, keep: nat, declared: nat)
    requires
        all_holdable(envs, keep, declared),
    ensures
        resolve(envs, at, name) matches Some(Some(v)) ==> holdable(v, keep, declared),
    decreases at,
{
    if 0 <= at < envs.len() {
        let b = binding_in(envs[at].values@, name);
        if b is None {
            match envs[at].enclosing {
                Some(e) => {
                    if e < at {
                        lemma_resolved_holdable(envs, e as int, name, keep, declared);
                    }
                },
                None => {},
            }
        }
    }
}

/// Evaluates programs, keeping the global scope between calls of `interpret`.
pub struct Interpreter<N> {
    pub scopes: Scopes<N>,
    pub declarations: Vec<Declaration>,
    pub current: usize,
    /// Scopes below this index may be held by a function value and are kept.
    pub keep: usize,
    /// Loop iterations left before evaluation gives up.
    pub steps: u64,
    pub output: Vec<String>,
    pub reporter: ErrorReporter,
}

impl<N: Numeric> Interpreter<N> {
    pub closed spec fn wf(&self) -> bool {
        &&& self.scopes.wf()
        &&& self.current < self.scopes.envs@.len()
        &&& 1 <= self.keep <= self.scopes.envs@.len()
        &&& all_holdable(self.scopes.envs@, self.keep as nat, self.declarations@.len())
    }

    /// The number of arguments `f` takes.
    pub open spec fn arity_of(&self, f: Function) -> nat {
        match f {
            Function::Native(Builtin::Clock) => 0,
            Function::User { declaration, .. } => self.declarations@[declaration as int].parameters@.len(),
        }
    }

    /// Whether `v` is a value this interpreter's scopes may hold.
    pub closed spec fn holds(&self, v: Object<N>) -> bool {
        holdable(v, self.keep as nat, self.declarations@.len())
    }

    /// The scope table.
    pub closed spec fn envs(&self) -> Seq<Environment<N>> {
        self.scopes.envs@
    }

    /// The scope in effect.
    pub closed spec fn scope(&self) -> int {
        self.current as int
    }

    pub closed spec fn printed(&self) -> Seq<Seq<char>> {
        self.output@.map_values(|s: String| s@)
    }

    pub open spec fn reporter(&self) -> ErrorReporter {
        self.reporter
    }

    /// The names of the function declarations run so far, in order.
    pub closed spec fn names(&self) -> Seq<Seq<char>> {
        self.declarations@.map_values(|d: Declaration| d.name.lexeme@)
    }

    /// `self` is a later state of `before` within one statement: the same scope in
    /// effect, no more steps left, nothing reported.
    pub closed spec fn frames(&self, before: Self) -> bool {
        &&& self.wf()
        &&& self.current == before.current
        &&& self.steps <= before.steps
        &&& self.reporter == before.reporter
        &&& self.keep >= before.keep
        &&& self.declarations@.len() >= before.declarations@.len()
        &&& forall|i: int|
            0 <= i < before.declarations@.len() ==> #[trigger] self.declarations@[i]
                == before.declarations@[i]
    }

    /// Opening an empty scope keeps every bound value holdable.
    proof fn lemma_pushed(&self, before: Seq<Environment<N>>)
        requires
            all_holdable(before, self.keep as nat, self.declarations@.len()),
            self.scopes.envs@.len() == before.len() + 1,
            self.scopes.envs@.subrange(0, before.len() as int) == before,
            forall|name: Seq<char>| #[trigger] self.scopes.envs@[before.len() as int].binding(name) is None,
        ensures
            all_holdable(self.scopes.envs@, self.keep as nat, self.declarations@.len()),
    {
        let envs = self.scopes.envs@;
        assert forall|i: int, n: Seq<char>| 0 <= i < envs.len() implies match #[trigger] binding_in(
            envs[i].values@,
            n,
        ) {
            Some(Some(v)) => holdable(v, self.keep as nat, self.declarations@.len()),
            _ => true,
        } by {
            if i < before.len() {
                assert(envs.subrange(0, before.len() as int)[i] == envs[i]);
            } else {
                assert(envs[i].binding(n) is None);
            }
        }
    }

    /// A fresh interpreter whose global scope binds `clock`.
    pub fn new() -> (r: Interpreter<N>)
        ensures
            r.wf(),
            r.envs().len() == 1,
            r.envs()[0].binding("clock"@) == Some(
                Some(Object::<N>::Callable(Function::Native(Builtin::Clock))),
            ),
            forall|name: Seq<char>|
                name != "clock"@ ==> (#[trigger] r.envs()[0].binding(name)) is None,
            r.names() == Seq::<Seq<char>>::empty(),
            r.scope() == 0,
            r.printed() == Seq::<Seq<char>>::empty(),
            !r.reporter().had_error,
            !r.reporter().had_runtime_error,
    {
        let mut scopes = Scopes::new();
        let ghost fresh = scopes.envs@;
        proof {
            assert forall|i: int, name: Seq<char>| 0 <= i < fresh.len() implies match #[trigger] binding_in(
                fresh[i].values@,
                name,
            ) {
                Some(Some(v)) => holdable(v, 1, 0),
                _ => true,
            } by {
                assert(fresh[0].binding(name) is None);
            }
        }
        let clock = Token::new(TokenType::Identifier, "clock", None, 0);
        scopes.define(0, &clock, Some(Object::Callable(Function::Native(Builtin::Clock))));
        proof {
            lemma_rebound_holdable(
                fresh,
                scopes.envs@,
                0,
                clock.lexeme@,
                Some(Object::Callable(Function::Native(Builtin::Clock))),
                1,
                0,
            );
        }
        proof {
            reveal_strlit("clock");
            assert forall|name: Seq<char>| name != "clock"@ implies (#[trigger] scopes.envs@[0].binding(
                name,
            )) is None by {
                assert(fresh[0].binding(name) is None);
            }
        }
        let r = Interpreter {
            scopes,
            declarations: Vec::new(),
            current: 0,
            keep: 1,
            steps: u64::MAX,
            output: Vec::new(),
            reporter: ErrorReporter::new(),
        };
        assert(r.printed() =~= Seq::<Seq<char>>::empty());
        assert(r.names() =~= Seq::<Seq<char>>::empty());
        r
    }

    /// Makes `reporter` the sink of runtime errors.
    pub fn set_error_reporter(&mut self, reporter: ErrorReporter)
        requires
            old(self).wf(),
        ensures
            final(self).wf(),
            final(self).reporter() == reporter,
            *final(self) == (Interpreter { reporter, ..*old(self) }),
            final(self).scope() == old(self).scope(),
            final(self).printed() == old(self).printed(),
    {
        self.reporter = reporter;
    }

    /// Hands back the reporter, leaving a fresh one.
    pub fn take_error_reporter(&mut self) -> (r: ErrorReporter)
        requires
            old(self).wf(),
        ensures
            final(self).wf(),
            r == old(self).reporter(),
            *final(self) == (Interpreter { reporter: final(self).reporter, ..*old(self) }),
            final(self).scope() == old(self).scope(),
            final(self).printed() == old(self).printed(),
    {
        let mut r = ErrorReporter::new();
        std::mem::swap(&mut r, &mut self.reporter);
        r
    }

    /// Hands out the lines printed so far and forgets them.
    pub fn take_output(&mut self) -> (r: Vec<String>)
        requires
            old(self).wf(),
        ensures
            final(self).wf(),
            r@.map_values(|s: String| s@) == old(self).printed(),
            final(self).printed() == Seq::<Seq<char>>::empty(),
            final(self).reporter() == old(self).reporter(),
    {
        let mut r = Vec::new();
        std::mem::swap(&mut r, &mut self.output);
        assert(self.printed() =~= Seq::<Seq<char>>::empty());
        r
    }

    /// Runs `statements` in order, as `interprets` says: each with the full
    /// depth budget. The first runtime error is reported and ends the run; the
    /// statements after it do not run.
    pub fn interpret(&mut self, statements: &Vec<Stmt>)
        requires
            old(self).wf(),
        ensures
            exists|w: Trace<N>, stopped: bool| #[trigger] interprets(*old(self), stmt_trees(statements@), *final(self), stopped, w),
            final(self).wf(),
            final(self).scope() == old(self).scope(),
            final(self).reporter().had_error == old(self).reporter().had_error,
            old(self).reporter().had_runtime_error ==> final(self).reporter().had_runtime_error,
    {
        let ghost s0 = *self;
        let ghost all = stmt_trees(statements@);
        let mut i: usize = 0;
        proof {
            assert(statements@.subrange(0, 0) =~= Seq::<Stmt>::empty());
            assert(interprets(s0, stmt_trees(statements@.subrange(0, 0)), *self, false, leaf()));
        }
        while i < statements.len()
            invariant
                self.wf(),
                self.current == old(self).current,
                self.reporter == old(self).reporter,
                s0 == *old(self),
                all == stmt_trees(statements@),
                i <= statements@.len(),
                exists|w: Trace<N>| #[trigger] interprets(s0, stmt_trees(statements@.subrange(0, i as int)), *self, false, w),
            decreases statements@.len() - i,
        {
            let ghost p = *self;
            let ghost wp = choose|w: Trace<N>| #[trigger] interprets(s0, stmt_trees(statements@.subrange(0, i as int)), p, false, w);
            proof {
                lemma_stmt_trees_step(statements@, i as int);
            }
            let u = self.execute(&statements[i], usize::MAX);
            let ghost m2 = *self;
            let ghost we = choose|w: Trace<N>| #[trigger] executes(usize::MAX as nat, p, stmt_tree(statements@[i as int]), m2, u, w);
            let ghost wn = Trace { states: seq![p, m2], values: seq![], lists: seq![], units: seq![u], flags: seq![false], subs: seq![wp, we] };
            match u {
                Ok(()) => {
                    assert(interprets(s0, stmt_trees(statements@.subrange(0, i + 1)), *self, false, wn));
                },
                Err(Unwind::Error(e)) => {
                    self.reporter.runtime_error(&e.token, e.message.as_str());
                    proof {
                        assert(interprets(s0, stmt_trees(statements@.subrange(0, i + 1)), *self, true, wn));
                        lemma_stmt_trees_len(statements@);
                        lemma_stmt_trees_prefix(statements@, i + 1);
                        let wf = lemma_interprets_stop(s0, all, i + 1, *self, wn);
                        assert(interprets(s0, all, *self, true, wf));
                    }
                    return;
                },
                Err(Unwind::Return(keyword, _)) => {
                    self.reporter.runtime_error(&keyword, "Can't return from top-level code.");
                    proof {
                        assert(interprets(s0, stmt_trees(statements@.subrange(0, i + 1)), *self, true, wn));
                        lemma_stmt_trees_len(statements@);
                        lemma_stmt_trees_prefix(statements@, i + 1);
                        let wf = lemma_interprets_stop(s0, all, i + 1, *self, wn);
                        assert(interprets(s0, all, *self, true, wf));
                    }
                    return;
                },
            }
            i = i + 1;
        }
        proof {
            assert(statements@.subrange(0, statements@.len() as int) =~= statements@);
        }
    }

    fn overflow() -> (r: RuntimeError) {
        let at = Token::new(TokenType::Eof, "", None, 0);
        runtime_error(&at, "Stack overflow.")
    }

    /// Runs one statement, as `executes` says. On every way out the scope in
    /// effect is the one it started in.
    pub fn execute(&mut self, stmt: &Stmt, depth: usize) -> (r: Result<(), Unwind<N>>)
        requires
            old(self).wf(),
        ensures
            exists|w: Trace<N>| #[trigger] executes(depth as nat, *old(self), stmt_tree(*stmt), *final(self), r, w),
            final(self).frames(*old(self)),
            r matches Err(Unwind::Return(_, v)) ==> final(self).holds(v),
        decreases depth,
    {
        if depth == 0 {
            let r = Err(Unwind::Error(Self::overflow()));
            assert(executes(0, *old(self), stmt_tree(*stmt), *self, r, leaf()));
            return r;
        }
        let ghost k = (depth as nat - 1) as nat;
        let ghost d = depth as nat;
        let ghost s0 = *self;
        match stmt {
            Stmt::Print(e) => {
                let res = self.evaluate(e, depth - 1);
                let ghost m = *self;
                let ghost w1 = choose|w: Trace<N>| #[trigger] evaluates(k, s0, tree(*e), m, res, w);
                let ghost w = node(seq![m], seq![res], seq![w1]);
                match res {
                    Ok(value) => {
                        self.print_value(&value);
                        assert(executes(d, s0, stmt_tree(*stmt), *self, Ok(()), w));
                        Ok(())
                    },
                    Err(x) => {
                        assert(executes(d, s0, stmt_tree(*stmt), *self, Err(Unwind::Error(x)), w));
                        Err(Unwind::Error(x))
                    },
                }
            },
            Stmt::Expression(e) => {
                let res = self.evaluate(e, depth - 1);
                let ghost w1 = choose|w: Trace<N>| #[trigger] evaluates(k, s0, tree(*e), *self, res, w);
                let ghost w = node(seq![*self], seq![res], seq![w1]);
                let r = match res {
                    Ok(_) => Ok(()),
                    Err(x) => Err(Unwind::Error(x)),
                };
                assert(executes(d, s0, stmt_tree(*stmt), *self, r, w));
                r
            },
            Stmt::VarDeclaration(name, initializer) => {
                let ghost mut w = leaf();
                let value = match initializer {
                    Some(e) => {
                        let res = self.evaluate(e, depth - 1);
                        let ghost m = *self;
                        let ghost w1 = choose|w: Trace<N>| #[trigger] evaluates(k, s0, tree(*e), m, res, w);
                        proof {
                            w = node(seq![m], seq![res], seq![w1]);
                        }
                        match res {
                            Ok(v) => Some(v),
                            Err(x) => {
                                assert(executes(d, s0, stmt_tree(*stmt), *self, Err(Unwind::Error(x)), w));
                                return Err(Unwind::Error(x));
                            },
                        }
                    },
                    None => None,
                };
                let ghost before = self.scopes.envs@;
                self.scopes.define(self.current, name, value);
                proof {
                    lemma_rebound_holdable(
                        before,
                        self.scopes.envs@,
                        self.current as int,
                        name.lexeme@,
                        value,
                        self.keep as nat,
                        self.declarations@.len(),
                    );
                }
                assert(executes(d, s0, stmt_tree(*stmt), *self, Ok(()), w));
                Ok(())
            },
            Stmt::Block(stmts) => {
                let ghost before = self.scopes.envs@;
                let scope = self.scopes.push(self.current);
                proof {
                    self.lemma_pushed(before);
                }
                let ghost m = *self;
                let r = self.execute_block(stmts, scope, depth - 1);
                let ghost w1 = choose|w: Trace<N>| #[trigger] blocks(k, m, stmt_trees(stmts@), scope as int, *self, r, w);
                assert(executes(d, s0, stmt_tree(*stmt), *self, r, node(seq![m], seq![], seq![w1])));
                r
            },
            Stmt::If(condition, then_branch, else_branch) => {
                let res = self.evaluate(condition, depth - 1);
                let ghost m = *self;
                let ghost w1 = choose|w: Trace<N>| #[trigger] evaluates(k, s0, tree(*condition), m, res, w);
                let c = match res {
                    Ok(v) => v,
                    Err(x) => {
                        assert(executes(d, s0, stmt_tree(*stmt), *self, Err(Unwind::Error(x)), node(seq![m], seq![res], seq![w1])));
                        return Err(Unwind::Error(x));
                    },
                };
                if c.is_truthy() {
                    let r = self.execute(then_branch, depth - 1);
                    let ghost w2 = choose|w: Trace<N>| #[trigger] executes(k, m, stmt_tree(**then_branch), *self, r, w);
                    assert(executes(d, s0, stmt_tree(*stmt), *self, r, node(seq![m], seq![res], seq![w1, w2])));
                    r
                } else {
                    match else_branch {
                        Some(s) => {
                            let r = self.execute(s, depth - 1);
                            let ghost w2 = choose|w: Trace<N>| #[trigger] executes(k, m, stmt_tree(**s), *self, r, w);
                            assert(executes(d, s0, stmt_tree(*stmt), *self, r, node(seq![m], seq![res], seq![w1, w2])));
                            r
                        },
                        None => {
                            assert(executes(d, s0, stmt_tree(*stmt), *self, Ok(()), node(seq![m], seq![res], seq![w1])));
                            Ok(())
                        },
                    }
                }
            },
            Stmt::While(condition, body) => {
                let ghost c = tree(*condition);
                let ghost b = stmt_tree(**body);
                let ghost mut rounds: Seq<Trace<N>> = Seq::empty();
                loop
                    invariant
                        self.frames(*old(self)),
                        depth > 0,
                        k == (depth as nat - 1) as nat,
                        d == depth as nat,
                        s0 == *old(self),
                        c == tree(*condition),
                        b == stmt_tree(**body),
                        stmt_tree(*stmt) == StmtTree::While(c, Box::new(b)),
                        forall|t: Interpreter<N>, r: Result<(), Unwind<N>>, w: Trace<N>|
                            #[trigger] loops(d, *self, c, b, t, r, w) ==> loops(d, s0, c, b, t, r, nest(rounds, w)),
                    decreases self.steps,
                {
                    let ghost p = *self;
                    if self.steps == 0 {
                        let r = Err(
                            Unwind::Error(
                                runtime_error(
                                    &Token::new(TokenType::While, "while", None, 0),
                                    "Step limit reached.",
                                ),
                            ),
                        );
                        assert(loops(d, p, c, b, *self, r, leaf()));
                        assert(executes(d, s0, stmt_tree(*stmt), *self, r, nest(rounds, leaf())));
                        return r;
                    }
                    self.steps = self.steps - 1;
                    let ghost p1 = *self;
                    let res = self.evaluate(condition, depth - 1);
                    let ghost m = *self;
                    let ghost wc = choose|w: Trace<N>| #[trigger] evaluates(k, p1, c, m, res, w);
                    let value = match res {
                        Ok(v) => v,
                        Err(x) => {
                            let r = Err(Unwind::Error(x));
                            let ghost w = node(seq![m], seq![res], seq![wc]);
                            assert(loops(d, p, c, b, *self, r, w));
                            assert(executes(d, s0, stmt_tree(*stmt), *self, r, nest(rounds, w)));
                            return r;
                        },
                    };
                    if !value.is_truthy() {
                        let ghost w = node(seq![m], seq![res], seq![wc]);
                        assert(loops(d, p, c, b, *self, Ok(()), w));
                        assert(executes(d, s0, stmt_tree(*stmt), *self, Ok(()), nest(rounds, w)));
                        return Ok(());
                    }
                    let u = self.execute(body, depth - 1);
                    let ghost m2 = *self;
                    let ghost wb = choose|w: Trace<N>| #[trigger] executes(k, m, b, m2, u, w);
                    let ghost round = Trace {
                        states: seq![m, m2],
                        values: seq![res],
                        lists: Seq::empty(),
                        units: seq![u],
                        flags: Seq::empty(),
                        subs: seq![wc, wb],
                    };
                    match u {
                        Ok(()) => {},
                        Err(x) => {
                            assert(loops(d, p, c, b, *self, Err(x), round));
                            assert(executes(d, s0, stmt_tree(*stmt), *self, Err(x), nest(rounds, round)));
                            return Err(x);
                        },
                    }
                    proof {
                        assert forall|t: Interpreter<N>, r: Result<(), Unwind<N>>, w: Trace<N>|
                            #[trigger] loops(d, m2, c, b, t, r, w) implies loops(
                                d,
                                s0,
                                c,
                                b,
                                t,
                                r,
                                nest(rounds.push(round), w),
                            ) by {
                            let rw = Trace { subs: seq![wc, wb, w], ..round };
                            assert(loops(d, p, c, b, t, r, rw));
                            lemma_nest_push(rounds, round, w);
                        }
                        rounds = rounds.push(round);
                    }
                }
            },
            Stmt::Function(name, parameters, body) => {
                let declaration = self.declarations.len();
                let d = Declaration {
                    name: name.clone(),
                    parameters: clone_tokens(parameters),
                    body: clone_stmts(body),
                };
                let ghost (keep0, declared0) = (self.keep as nat, self.declarations@.len());
                self.declarations.push(d);
                let n = self.scopes.envs.len();
                if self.keep <= self.current {
                    assert(self.current < n);
                    self.keep = self.current + 1;
                }
                let f = Object::Callable(Function::User { declaration, closure: self.current });
                let ghost before = self.scopes.envs@;
                proof {
                    lemma_holdable_grows(before, keep0, declared0, self.keep as nat, self.declarations@.len());
                }
                self.scopes.define(self.current, name, Some(f));
                proof {
                    lemma_rebound_holdable(
                        before,
                        self.scopes.envs@,
                        self.current as int,
                        name.lexeme@,
                        Some(f),
                        self.keep as nat,
                        self.declarations@.len(),
                    );
                }
                assert(executes(depth as nat, s0, stmt_tree(*stmt), *self, Ok(()), leaf()));
                Ok(())
            },
            Stmt::Return(keyword, e) => {
                let res = self.evaluate(e, depth - 1);
                let ghost w1 = choose|w: Trace<N>| #[trigger] evaluates(k, s0, tree(*e), *self, res, w);
                let ghost w = node(seq![*self], seq![res], seq![w1]);
                let r = match res {
                    Ok(value) => Err(Unwind::Return(keyword.clone(), value)),
                    Err(x) => Err(Unwind::Error(x)),
                };
                assert(executes(d, s0, stmt_tree(*stmt), *self, r, w));
                r
            },
        }
    }

    /// Runs `stmts` in the scope `scope`, a child opened for them, then returns
    /// to the scope in effect before, on every way out, as `blocks` says. The
    /// child is dropped unless a function value may hold it.
    pub fn execute_block(&mut self, stmts: &Vec<Stmt>, scope: usize, depth: usize) -> (r: Result<
        (),
        Unwind<N>,
    >)
        requires
            old(self).wf(),
            old(self).scope() < scope < old(self).envs().len(),
        ensures
            exists|w: Trace<N>| #[trigger] blocks(depth as nat, *old(self), stmt_trees(stmts@), scope as int, *final(self), r, w),
            final(self).frames(*old(self)),
            r matches Err(Unwind::Return(_, v)) ==> final(self).holds(v),
        decreases depth,
    {
        let previous = self.current;
        self.current = scope;
        let ghost entered = *self;
        let ghost all = stmt_trees(stmts@);
        let mut result: Result<(), Unwind<N>> = Ok(());
        let mut i: usize = 0;
        proof {
            assert(stmts@.subrange(0, 0) =~= Seq::<Stmt>::empty());
            assert(runs(depth as nat, entered, stmt_trees(stmts@.subrange(0, 0)), *self, result, leaf()));
        }
        let mut going = true;
        while i < stmts.len() && going
            invariant
                going <==> result is Ok,
                self.wf(),
                self.current == scope,
                self.steps <= old(self).steps,
                self.reporter == old(self).reporter,
                previous == old(self).current,
                previous < scope,
                self.keep >= old(self).keep,
                entered == (Interpreter { current: scope, ..*old(self) }),
                all == stmt_trees(stmts@),
                i <= stmts@.len(),
                result matches Err(Unwind::Return(_, v)) ==> self.holds(v),
                self.declarations@.len() >= old(self).declarations@.len(),
                forall|j: int|
                    0 <= j < old(self).declarations@.len() ==> #[trigger] self.declarations@[j]
                        == old(self).declarations@[j],
                exists|w: Trace<N>| #[trigger] runs(depth as nat, entered, stmt_trees(stmts@.subrange(0, i as int)), *self, result, w),
            decreases stmts@.len() - i,
        {
            let ghost p = *self;
            let ghost prev = result;

            let ghost wp = choose|w: Trace<N>| #[trigger] runs(depth as nat, entered, stmt_trees(stmts@.subrange(0, i as int)), p, result, w);
            proof {
                lemma_stmt_trees_step(stmts@, i as int);
            }
            if depth == 0 {
                result = Err(Unwind::Error(Self::overflow()));
                let ghost wn = Trace { states: seq![p], values: seq![], lists: seq![], units: seq![prev], flags: seq![], subs: seq![wp] };
                assert(runs(depth as nat, entered, stmt_trees(stmts@.subrange(0, i + 1)), *self, result, wn));
            } else {
                result = self.execute(&stmts[i], depth - 1);
                let ghost we = choose|w: Trace<N>| #[trigger] executes((depth as nat - 1) as nat, p, stmt_tree(stmts@[i as int]), *self, result, w);
                let ghost wn = Trace { states: seq![p], values: seq![], lists: seq![], units: seq![prev], flags: seq![], subs: seq![wp, we] };
                assert(runs(depth as nat, entered, stmt_trees(stmts@.subrange(0, i + 1)), *self, result, wn));
            }
            going = match &result {
                Ok(()) => true,
                Err(_) => false,
            };
            i = i + 1;
        }
        let ghost m = *self;
        let ghost wr = choose|w: Trace<N>| #[trigger] runs(depth as nat, entered, stmt_trees(stmts@.subrange(0, i as int)), m, result, w);
        let ghost wfull = if i == stmts@.len() {
            wr
        } else {
            lemma_stmt_trees_len(stmts@);
            lemma_stmt_trees_prefix(stmts@, i as int);
            lemma_runs_stop(depth as nat, entered, all, i as int, m, result, wr)
        };
        proof {
            if i == stmts@.len() {
                assert(stmts@.subrange(0, i as int) =~= stmts@);
            }
        }
        self.current = previous;
        if self.keep <= scope {
            let ghost before = self.scopes.envs@;
            self.scopes.truncate(scope);
            proof {
                lemma_prefix_holdable(before, scope as int, self.keep as nat, self.declarations@.len());
            }
        }
        assert(blocks(depth as nat, *old(self), all, scope as int, *self, result, Trace { states: seq![m], values: seq![], lists: seq![], units: seq![], flags: seq![], subs: seq![wfull] }));
        result
    }

    /// Opens the scope a call runs in: a child of the function's `closure`,
    /// not of the caller's scope, with each parameter bound to its argument.
    /// A name that is no parameter is unbound there, so it resolves from the
    /// closure.
    fn open_call_scope(&mut self, closure: usize, parameters: &Vec<Token>, arguments: &Vec<Object<N>>) -> (r: usize)
        requires
            old(self).wf(),
            closure < old(self).scopes.envs@.len(),
            parameters@.len() == arguments@.len(),
            forall|k: int| 0 <= k < arguments@.len() ==> old(self).holds(#[trigger] arguments@[k]),
        ensures
            opened(*old(self), closure, parameters@, arguments@, *final(self)),
            final(self).keep == old(self).keep,
            final(self).frames(*old(self)),
            final(self).declarations == old(self).declarations,
            r == old(self).scopes.envs@.len(),
            final(self).scopes.envs@.len() == r + 1,
            forall|i: int| 0 <= i < r ==> #[trigger] final(self).scopes.envs@[i] == old(self).scopes.envs@[i],
            final(self).scopes.envs@[r as int].enclosing == Some(closure),
            forall|j: int| 0 <= j < parameters@.len() ==> (#[trigger] final(self).scopes.envs@[r as int].binding(parameters@[j].lexeme@)) is Some,
            forall|name: Seq<char>|
                (forall|j: int| 0 <= j < parameters@.len() ==> (#[trigger] parameters@[j]).lexeme@ != name)
                    ==> (#[trigger] final(self).scopes.envs@[r as int].binding(name)) is None,
    {
        let ghost fresh = self.scopes.envs@;
        let scope = self.scopes.push(closure);
        proof {
            self.lemma_pushed(fresh);
            assert forall|i: int| 0 <= i < scope implies #[trigger] self.scopes.envs@[i] == old(self).scopes.envs@[i] by {
                assert(self.scopes.envs@.subrange(0, scope as int)[i] == self.scopes.envs@[i]);
            }
        }
        let mut i: usize = 0;
        while i < parameters.len()
            invariant
                self.frames(*old(self)),
                self.declarations == old(self).declarations,
                self.keep == old(self).keep,
                forall|k: int| 0 <= k < arguments@.len() ==> old(self).holds(#[trigger] arguments@[k]),
                scope == old(self).scopes.envs@.len(),
                self.scopes.envs@.len() == scope + 1,
                forall|k: int| 0 <= k < scope ==> #[trigger] self.scopes.envs@[k] == old(self).scopes.envs@[k],
                self.scopes.envs@[scope as int].enclosing == Some(closure),
                parameters@.len() == arguments@.len(),
                i <= parameters@.len(),
                forall|j: int| 0 <= j < i ==> (#[trigger] self.scopes.envs@[scope as int].binding(parameters@[j].lexeme@)) is Some,
                forall|name: Seq<char>|
                    (forall|j: int| 0 <= j < i ==> (#[trigger] parameters@[j]).lexeme@ != name)
                        ==> (#[trigger] self.scopes.envs@[scope as int].binding(name)) is None,
                same_but_scopes(*old(self), *self),
                forall|j: int|
                    0 <= j < i && (forall|k: int|
                        j < k < i ==> (#[trigger] parameters@[k]).lexeme@ != parameters@[j].lexeme@) ==> ((
                    #[trigger] self.scopes.envs@[scope as int].binding(parameters@[j].lexeme@)) matches Some(Some(x))
                        && copy_of(arguments@[j], x)),
            decreases parameters@.len() - i,
        {
            let ghost before = self.scopes.envs@;
            let argument = arguments[i].copy();
            proof {
                assert(old(self).holds(arguments@[i as int]));
            }
            self.scopes.define(scope, &parameters[i], Some(argument));
            proof {
                lemma_rebound_holdable(
                    before,
                    self.scopes.envs@,
                    scope as int,
                    parameters@[i as int].lexeme@,
                    Some(argument),
                    self.keep as nat,
                    self.declarations@.len(),
                );
                let p = parameters@[i as int].lexeme@;
                assert forall|j: int| 0 <= j < i + 1 implies (#[trigger] self.scopes.envs@[scope as int].binding(parameters@[j].lexeme@)) is Some by {
                    if parameters@[j].lexeme@ != p {
                        assert(before[scope as int].binding(parameters@[j].lexeme@) is Some);
                    }
                }
                assert forall|name: Seq<char>|
                    (forall|j: int| 0 <= j < i + 1 ==> (#[trigger] parameters@[j]).lexeme@ != name)
                        implies (#[trigger] self.scopes.envs@[scope as int].binding(name)) is None by {
                    assert(parameters@[i as int].lexeme@ != name);
                    assert(before[scope as int].binding(name) is None);
                }
                assert forall|j: int|
                    0 <= j < i + 1 && (forall|k: int|
                        j < k < i + 1 ==> (#[trigger] parameters@[k]).lexeme@ != parameters@[j].lexeme@) implies ((
                    #[trigger] self.scopes.envs@[scope as int].binding(parameters@[j].lexeme@)) matches Some(Some(x))
                        && copy_of(arguments@[j], x)) by {
                    if j < i {
                        assert(parameters@[i as int].lexeme@ != parameters@[j].lexeme@);
                        assert(forall|k: int| j < k < i ==> (#[trigger] parameters@[k]).lexeme@ != parameters@[j].lexeme@);
                        assert(self.scopes.envs@[scope as int].binding(parameters@[j].lexeme@) == before[scope as int].binding(parameters@[j].lexeme@));
                    } else {
                        assert(j == i);
                        assert(self.scopes.envs@[scope as int].binding(parameters@[j].lexeme@) == Some(Some(argument)));
                    }
                }
            }
            i = i + 1;
        }
        scope
    }
    /// Evaluates one expression, as `evaluates` says. The scope in effect is
    /// left as it was.
    pub fn evaluate(&mut self, expr: &Expr, depth: usize) -> (r: Result<Object<N>, RuntimeError>)
        requires
            old(self).wf(),
        ensures
            exists|w: Trace<N>| #[trigger] evaluates(depth as nat, *old(self), tree(*expr), *final(self), r, w),
            final(self).frames(*old(self)),
            r matches Ok(v) ==> final(self).holds(v),
        decreases depth,
    {
        if depth == 0 {
            let r = Err(Self::overflow());
            assert(evaluates(0, *old(self), tree(*expr), *self, r, leaf()));
            return r;
        }
        let ghost s0 = *self;
        let ghost k = (depth as nat - 1) as nat;
        let ghost d = depth as nat;
        match expr {
            Expr::LiteralExpr(literal) => {
                let r = Ok(
                    match literal {
                        Literal::Number(numeral) => Object::Number(N::from_numeral(numeral.as_str())),
                        Literal::String(s) => Object::String(s.clone()),
                        Literal::Boolean(b) => Object::Boolean(*b),
                        Literal::Nil => Object::Nil,
                    },
                );
                assert(evaluates(d, s0, tree(*expr), *self, r, leaf()));
                r
            },
            Expr::GroupingExpr(e) => {
                let r = self.evaluate(e, depth - 1);
                let ghost w1 = choose|w: Trace<N>| #[trigger] evaluates(k, s0, tree(**e), *self, r, w);
                assert(evaluates(d, s0, tree(*expr), *self, r, node(seq![], seq![], seq![w1])));
                r
            },
            Expr::UnaryExpr(operator, e) => {
                let res = self.evaluate(e, depth - 1);
                let ghost w1 = choose|w: Trace<N>| #[trigger] evaluates(k, s0, tree(**e), *self, res, w);
                let ghost w = node(seq![], seq![res], seq![w1]);
                let r = match res {
                    Ok(value) => unary_operation(operator, value),
                    Err(x) => Err(x),
                };
                assert(evaluates(d, s0, tree(*expr), *self, r, w));
                r
            },
            Expr::BinaryExpr(left, operator, right) => {
                let res1 = self.evaluate(left, depth - 1);
                let ghost m = *self;
                let ghost w1 = choose|w: Trace<N>| #[trigger] evaluates(k, s0, tree(**left), m, res1, w);
                let l = match res1 {
                    Ok(v) => v,
                    Err(x) => {
                        assert(evaluates(d, s0, tree(*expr), *self, res1, node(seq![m], seq![res1], seq![w1])));
                        return Err(x);
                    },
                };
                let res2 = self.evaluate(right, depth - 1);
                let ghost w2 = choose|w: Trace<N>| #[trigger] evaluates(k, m, tree(**right), *self, res2, w);
                let ghost w = node(seq![m], seq![res1, res2], seq![w1, w2]);
                let r = match res2 {
                    Ok(v) => self.binary_operation(operator, l, v),
                    Err(x) => Err(x),
                };
                assert(evaluates(d, s0, tree(*expr), *self, r, w));
                r
            },
            Expr::VariableExpr(name) => {
                proof {
                    lemma_resolved_holdable(
                        self.scopes.envs@,
                        self.current as int,
                        name.lexeme@,
                        self.keep as nat,
                        self.declarations@.len(),
                    );
                }
                let r = self.scopes.get(self.current, name);
                assert(evaluates(d, s0, tree(*expr), *self, r, leaf()));
                r
            },
            Expr::AssignExpr(name, e) => {
                let res = self.evaluate(e, depth - 1);
                let ghost m = *self;
                let ghost w1 = choose|w: Trace<N>| #[trigger] evaluates(k, s0, tree(**e), m, res, w);
                let ghost w = node(seq![m], seq![res], seq![w1]);
                let value = match res {
                    Ok(v) => v,
                    Err(x) => {
                        assert(evaluates(d, s0, tree(*expr), *self, res, w));
                        return Err(x);
                    },
                };
                let result = value.copy();
                let ghost before = self.scopes.envs@;
                let ghost v = value;
                match self.scopes.assign(self.current, name, value) {
                    Ok(()) => {},
                    Err(x) => {
                        assert(evaluates(d, s0, tree(*expr), *self, Err(x), w));
                        return Err(x);
                    },
                }
                proof {
                    let h = holder(before, self.current as int, name.lexeme@)->0;
                    lemma_holder_resolves(before, self.current as int, name.lexeme@);
                    lemma_holder_binds(before, self.current as int, name.lexeme@);
                    lemma_resolve_rebound(before, self.scopes.envs@, h, name.lexeme@, Some(v), self.current as int, name.lexeme@);
                    lemma_rebound_holdable(
                        before,
                        self.scopes.envs@,
                        h,
                        name.lexeme@,
                        Some(v),
                        self.keep as nat,
                        self.declarations@.len(),
                    );
                }
                assert(evaluates(d, s0, tree(*expr), *self, Ok(result), w));
                Ok(result)
            },
            Expr::LogicalExpr(left, operator, right) => {
                let res = self.evaluate(left, depth - 1);
                let ghost m = *self;
                let ghost w1 = choose|w: Trace<N>| #[trigger] evaluates(k, s0, tree(**left), m, res, w);
                let l = match res {
                    Ok(v) => v,
                    Err(x) => {
                        assert(evaluates(d, s0, tree(*expr), *self, res, node(seq![m], seq![res], seq![w1])));
                        return Err(x);
                    },
                };
                let ghost lv = l;
                let r = self.logical(operator, l, right, depth - 1);
                let ghost w2 = choose|w: Trace<N>| #[trigger] logically(k, m, *operator, lv, tree(**right), *self, r, w);
                assert(evaluates(d, s0, tree(*expr), *self, r, node(seq![m], seq![res], seq![w1, w2])));
                r
            },
            Expr::Call(callee, paren, arguments) => {
                let res = self.evaluate(callee, depth - 1);
                let ghost m = *self;
                let ghost w1 = choose|w: Trace<N>| #[trigger] evaluates(k, s0, tree(**callee), m, res, w);
                let function = match res {
                    Ok(v) => v,
                    Err(x) => {
                        assert(evaluates(d, s0, tree(*expr), *self, res, node(seq![m], seq![res], seq![w1])));
                        return Err(x);
                    },
                };
                let ghost args = trees(arguments@);
                let mut values: Vec<Object<N>> = Vec::new();
                let mut i: usize = 0;
                proof {
                    assert(trees(arguments@.subrange(0, 0)) =~= Seq::<Tree>::empty());
                    assert(values@ =~= Seq::<Object<N>>::empty());
                    assert(args_eval(k, m, trees(arguments@.subrange(0, 0)), *self, Ok(values@), leaf()));
                }
                while i < arguments.len()
                    invariant
                        self.frames(*old(self)),
                        depth > 0,
                        k == (depth as nat - 1) as nat,
                        expr is Call,
                        self.holds(function),
                        forall|j: int| 0 <= j < values@.len() ==> self.holds(#[trigger] values@[j]),
                        i <= arguments@.len(),
                        args == trees(arguments@),
                        d == depth as nat,
                        s0 == *old(self),
                        res == Ok::<Object<N>, RuntimeError>(function),
                        evaluates(k, s0, tree(**callee), m, res, w1),
                        *expr == Expr::Call(*callee, *paren, *arguments),
                        exists|w: Trace<N>| #[trigger] args_eval(k, m, trees(arguments@.subrange(0, i as int)), *self, Ok::<Seq<Object<N>>, RuntimeError>(values@), w),
                    decreases arguments@.len() - i,
                {
                    let ghost p = *self;
                    let ghost vs = values@;
                    let ghost wp = choose|w: Trace<N>| #[trigger] args_eval(k, m, trees(arguments@.subrange(0, i as int)), p, Ok::<Seq<Object<N>>, RuntimeError>(vs), w);
                    let ghost next = trees(arguments@.subrange(0, i + 1));
                    proof {
                        lemma_trees_step(arguments@, i as int);
                    }
                    let res = self.evaluate(&arguments[i], depth - 1);
                    let ghost wa = choose|w: Trace<N>| #[trigger] evaluates(k, p, tree(arguments@[i as int]), *self, res, w);
                    let ghost wn = Trace { states: seq![p], values: seq![res], lists: seq![Ok::<Seq<Object<N>>, RuntimeError>(vs)], units: seq![], flags: seq![], subs: seq![wp, wa] };
                    match res {
                        Ok(v) => {
                            values.push(v);
                            assert(args_eval(k, m, next, *self, Ok::<Seq<Object<N>>, RuntimeError>(values@), wn));
                        },
                        Err(x) => {
                            let ghost e = Err::<Seq<Object<N>>, RuntimeError>(x);
                            assert(args_eval(k, m, next, *self, e, wn));
                            proof {
                                lemma_trees_len(arguments@);
                                lemma_trees_prefix(arguments@, i as int + 1);
                                let wf = lemma_args_stop(k, m, args, i as int + 1, *self, x, wn);
                                assert(arguments@.subrange(0, arguments@.len() as int) =~= arguments@);
                                let ww = Trace { states: seq![m, *self], values: seq![Ok::<Object<N>, RuntimeError>(function)], lists: seq![e], units: seq![], flags: seq![], subs: seq![w1, wf] };
                                assert(evaluates(d, s0, tree(*expr), *self, Err(x), ww));
                            }
                            return Err(x);
                        },
                    }
                    i = i + 1;
                }
                let ghost m2 = *self;
                let ghost wargs = choose|w: Trace<N>| #[trigger] args_eval(k, m, trees(arguments@.subrange(0, i as int)), m2, Ok::<Seq<Object<N>>, RuntimeError>(values@), w);
                proof {
                    assert(arguments@.subrange(0, arguments@.len() as int) =~= arguments@);
                }
                let ghost vals = values@;
                let ghost ww = Trace { states: seq![m, m2], values: seq![res], lists: seq![Ok::<Seq<Object<N>>, RuntimeError>(vals)], units: seq![], flags: seq![], subs: seq![w1, wargs] };
                match function {
                    Object::Callable(f) => {
                        let arity = f.arity(self);
                        if arity != values.len() {
                            let r = Err(arity_error(paren, arity, values.len()));
                            assert(evaluates(d, s0, tree(*expr), *self, r, ww));
                            return r;
                        }
                        let r = f.call(self, values, paren, depth - 1);
                        let ghost w3 = choose|w: Trace<N>| #[trigger] calls(k, m2, f, vals, *self, r, w);
                        let ghost wc = Trace { states: seq![m, m2], values: seq![res], lists: seq![Ok::<Seq<Object<N>>, RuntimeError>(vals)], units: seq![], flags: seq![], subs: seq![w1, wargs, w3] };
                        assert(evaluates(d, s0, tree(*expr), *self, r, wc));
                        r
                    },
                    _ => {
                        let r = Err(runtime_error(paren, "Can only call functions or classes."));
                        assert(evaluates(d, s0, tree(*expr), *self, r, ww));
                        r
                    },
                }
            },
        }
    }

    /// Finishes a logical expression whose left operand evaluated to `left`.
    /// When the operator short-circuits, the result is `left` itself and the
    /// right operand is not evaluated: nothing changes. Otherwise the result is
    /// the right operand's.
    pub fn logical(&mut self, operator: &Token, left: Object<N>, right: &Expr, depth: usize) -> (r:
        Result<Object<N>, RuntimeError>)
        requires
            old(self).wf(),
            old(self).holds(left),
        ensures
            exists|w: Trace<N>| #[trigger] logically(depth as nat, *old(self), *operator, left, tree(*right), *final(self), r, w),
            final(self).frames(*old(self)),
            r matches Ok(v) ==> final(self).holds(v),
            short_circuits(operator.token_type, left) ==> r == Ok::<Object<N>, RuntimeError>(left)
                && *final(self) == *old(self),
        decreases depth,
    {
        let truth = left.is_truthy();
        if (operator.token_type == TokenType::Or && truth) || (operator.token_type == TokenType::And
            && !truth) {
            assert(logically(depth as nat, *old(self), *operator, left, tree(*right), *self, Ok(left), leaf()));
            return Ok(left);
        }
        if depth == 0 {
            let r = Err(Self::overflow());
            assert(logically(depth as nat, *old(self), *operator, left, tree(*right), *self, r, leaf()));
            return r;
        }
        let r = self.evaluate(right, depth - 1);
        let ghost w1 = choose|w: Trace<N>| #[trigger] evaluates((depth as nat - 1) as nat, *old(self), tree(*right), *self, r, w);
        assert(logically(depth as nat, *old(self), *operator, left, tree(*right), *self, r, w1));
        r
    }

    /// Writes the text of `value` as one line of output.
    pub fn print_value(&mut self, value: &Object<N>)
        requires
            old(self).wf(),
        ensures
            final(self).frames(*old(self)),
            final(self).envs() == old(self).envs(),
            final(self).names() == old(self).names(),
            final(self).printed().len() == old(self).printed().len() + 1,
            final(self).printed().drop_last() == old(self).printed(),
            display(*value, old(self).names()) matches Some(t) ==> final(self).printed().last() == t,
            printed_value(*old(self), *value, *final(self)),
    {
        let text = self.stringify(value);
        self.output.push(text);
        assert(self.printed().drop_last() =~= old(self).printed());
    }

    /// The text `print` writes for `value`.
    pub fn stringify(&self, value: &Object<N>) -> (r: String)
        ensures
            display(*value, self.names()) matches Some(t) ==> r@ == t,
    {
        match value {
            Object::Number(n) => n.render(),
            Object::String(s) => s.clone(),
            Object::Boolean(b) => String::from_str(if *b { "true" } else { "false" }),
            Object::Nil => String::from_str("nil"),
            Object::Callable(Function::Native(Builtin::Clock)) => String::from_str("<native fn clock>"),
            Object::Callable(Function::User { declaration, .. }) => {
                if *declaration < self.declarations.len() {
                    let mut s = concat("<fn ", self.declarations[*declaration].name.lexeme.as_str());
                    s.append(">");
                    s
                } else {
                    String::from_str("<fn>")
                }
            },
        }
    }

    /// Applies a binary operator to its operand values. `+` adds two numbers
    /// and otherwise joins the operands' texts.
    pub fn binary_operation(&self, operator: &Token, left: Object<N>, right: Object<N>) -> (r: Result<
        Object<N>,
        RuntimeError,
    >)
        ensures
            binary_outcome(*operator, left, right, self.names(), r),
    {
        match operator.token_type {
            TokenType::Plus => match (&left, &right) {
                (Object::Number(a), Object::Number(b)) => Ok(Object::Number(a.plus(b))),
                // Any other operands are joined as text.
                _ => {
                    let mut s = self.stringify(&left);
                    let t = self.stringify(&right);
                    s.append(t.as_str());
                    Ok(Object::String(s))
                },
            },
            TokenType::Minus | TokenType::Star | TokenType::Slash | TokenType::Greater
            | TokenType::GreaterEqual | TokenType::Less | TokenType::LessEqual => match (&left, &right) {
                (Object::Number(a), Object::Number(b)) => Ok(numeric_operation(operator.token_type, a, b)),
                _ => Err(runtime_error(operator, "operands must be numeric for operation")),
            },
            TokenType::EqualEqual => Ok(Object::Boolean(left.equals(&right))),
            TokenType::BangEqual => Ok(Object::Boolean(!left.equals(&right))),
            _ => Err(runtime_error(operator, "unknown operator")),
        }
    }
}

fn numeric_operation<N: Numeric>(operator: TokenType, a: &N, b: &N) -> (r: Object<N>)
    ensures
        operator == TokenType::Minus || operator == TokenType::Star || operator == TokenType::Slash
            ==> r is Number,
        !(operator == TokenType::Minus || operator == TokenType::Star || operator == TokenType::Slash)
            ==> r is Boolean,
{
    match operator {
        TokenType::Minus => Object::Number(a.minus(b)),
        TokenType::Star => Object::Number(a.times(b)),
        TokenType::Slash => Object::Number(a.divide(b)),
        TokenType::Greater => Object::Boolean(a.greater(b)),
        TokenType::GreaterEqual => Object::Boolean(a.greater_equal(b)),
        TokenType::Less => Object::Boolean(a.less(b)),
        _ => Object::Boolean(a.less_equal(b)),
    }
}

/// Applies a unary operator to its operand value.
pub fn unary_operation<N: Numeric>(operator: &Token, value: Object<N>) -> (r: Result<Object<N>, RuntimeError>)
    ensures
        unary_outcome(*operator, value, r),
{
    match operator.token_type {
        TokenType::Minus => match value {
            Object::Number(n) => Ok(Object::Number(n.negate())),
            _ => Err(runtime_error(operator, "operands must be numeric for operation")),
        },
        TokenType::Bang => Ok(Object::Boolean(!value.is_truthy())),
        _ => Err(runtime_error(operator, "unexpected token on unary expression")),
    }
}

/// "Expected A arguments but got B."
fn arity_error(paren: &Token, expected: usize, got: usize) -> (r: RuntimeError)
    ensures
        r.token == *paren,
        r.message@ == arity_message(expected as nat, got as nat),
{
    let mut message = String::from_str("Expected ");
    push_decimal(&mut message, expected);
    message.append(" arguments but got ");
    push_decimal(&mut message, got);
    message.append(".");
    RuntimeError { token: paren.clone(), message }
}


/// A step made of no other steps.
pub open spec fn leaf<N>() -> Trace<N> {
    Trace {
        states: Seq::empty(),
        values: Seq::empty(),
        lists: Seq::empty(),
        units: Seq::empty(),
        flags: Seq::empty(),
        subs: Seq::empty(),
    }
}

/// A step with the given intermediate states, values and sub-steps.
pub open spec fn node<N>(
    states: Seq<Interpreter<N>>,
    values: Seq<Result<Object<N>, RuntimeError>>,
    subs: Seq<Trace<N>>,
) -> Trace<N> {
    Trace { states, values, lists: Seq::empty(), units: Seq::empty(), flags: Seq::empty(), subs }
}

proof fn lemma_trees_step(v: Seq<Expr>, i: int)
    requires
        0 <= i < v.len(),
    ensures
        trees(v.subrange(0, i + 1)) == trees(v.subrange(0, i)).push(tree(v[i])),
        trees(v.subrange(0, i + 1)).drop_last() == trees(v.subrange(0, i)),
        trees(v.subrange(0, i + 1)).last() == tree(v[i]),
        trees(v.subrange(0, i + 1)).len() == i + 1,
{
    assert(v.subrange(0, i + 1).drop_last() =~= v.subrange(0, i));
    lemma_trees_len(v.subrange(0, i + 1));
}

proof fn lemma_trees_len(s: Seq<Expr>)
    ensures
        trees(s).len() == s.len(),
    decreases s.len(),
{
    if s.len() > 0 {
        lemma_trees_len(s.drop_last());
    }
}

proof fn lemma_trees_prefix(v: Seq<Expr>, j: int)
    requires
        0 <= j <= v.len(),
    ensures
        trees(v.subrange(0, j)) == trees(v).subrange(0, j),
    decreases v.len(),
{
    lemma_trees_len(v);
    if j < v.len() {
        lemma_trees_prefix(v.drop_last(), j);
        assert(v.drop_last().subrange(0, j) =~= v.subrange(0, j));
        assert(trees(v).subrange(0, j) =~= trees(v.drop_last()).subrange(0, j));
    } else {
        assert(v.subrange(0, j) =~= v);
        assert(trees(v).subrange(0, j) =~= trees(v));
    }
}

proof fn lemma_stmt_trees_len(s: Seq<Stmt>)
    ensures
        stmt_trees(s).len() == s.len(),
    decreases s.len(),
{
    if s.len() > 0 {
        lemma_stmt_trees_len(s.drop_last());
    }
}

proof fn lemma_stmt_trees_prefix(v: Seq<Stmt>, j: int)
    requires
        0 <= j <= v.len(),
    ensures
        stmt_trees(v.subrange(0, j)) == stmt_trees(v).subrange(0, j),
    decreases v.len(),
{
    lemma_stmt_trees_len(v);
    if j < v.len() {
        lemma_stmt_trees_prefix(v.drop_last(), j);
        assert(v.drop_last().subrange(0, j) =~= v.subrange(0, j));
        assert(stmt_trees(v).subrange(0, j) =~= stmt_trees(v.drop_last()).subrange(0, j));
    } else {
        assert(v.subrange(0, j) =~= v);
        assert(stmt_trees(v).subrange(0, j) =~= stmt_trees(v));
    }
}

/// The trace of a loop from its first state, given the traces of the rounds
/// run so far and the trace of the rest of the loop.
pub open spec fn nest<N>(rounds: Seq<Trace<N>>, w: Trace<N>) -> Trace<N>
    decreases rounds.len(),
{
    if rounds.len() == 0 {
        w
    } else {
        let f = rounds[0];
        Trace { subs: seq![f.subs[0], f.subs[1], nest(rounds.drop_first(), w)], ..f }
    }
}

proof fn lemma_nest_push<N>(rounds: Seq<Trace<N>>, round: Trace<N>, w: Trace<N>)
    requires
        round.subs.len() == 2,
    ensures
        nest(rounds.push(round), w) == nest(
            rounds,
            Trace { subs: seq![round.subs[0], round.subs[1], w], ..round },
        ),
    decreases rounds.len(),
{
    let x = Trace { subs: seq![round.subs[0], round.subs[1], w], ..round };
    if rounds.len() > 0 {
        assert(rounds.push(round).drop_first() =~= rounds.drop_first().push(round));
        lemma_nest_push(rounds.drop_first(), round, w);
        assert(rounds.push(round)[0] == rounds[0]);
        assert(nest(rounds.push(round), w) == Trace {
            subs: seq![rounds[0].subs[0], rounds[0].subs[1], nest(rounds.drop_first(), x)],
            ..rounds[0]
        });
    } else {
        assert(rounds.push(round).drop_first() =~= Seq::<Trace<N>>::empty());
        assert(rounds.push(round)[0] == round);
        assert(nest(Seq::<Trace<N>>::empty(), w) == w);
        assert(nest(rounds.push(round), w) == x);
        assert(nest(rounds, x) == x);
    }
}

/// An error in the first `i` arguments is the error of the whole list.
proof fn lemma_args_stop<N: Numeric>(
    d: nat,
    s: Interpreter<N>,
    args: Seq<Tree>,
    i: int,
    t: Interpreter<N>,
    e: RuntimeError,
    w: Trace<N>,
) -> (wf: Trace<N>)
    requires
        0 <= i <= args.len(),
        args_eval(d, s, args.subrange(0, i), t, Err(e), w),
    ensures
        args_eval(d, s, args, t, Err(e), wf),
    decreases args.len() - i,
{
    if i == args.len() {
        assert(args.subrange(0, i) =~= args);
        w
    } else {
        let next = Trace {
            states: seq![t],
            values: Seq::empty(),
            lists: seq![Err::<Seq<Object<N>>, RuntimeError>(e)],
            units: Seq::empty(),
            flags: Seq::empty(),
            subs: seq![w],
        };
        assert(args.subrange(0, i + 1).drop_last() =~= args.subrange(0, i));
        assert(args_eval(d, s, args.subrange(0, i + 1), t, Err(e), next));
        lemma_args_stop(d, s, args, i + 1, t, e, next)
    }
}

/// An unwind in the first `i` statements is the result of running them all.
proof fn lemma_runs_stop<N: Numeric>(
    d: nat,
    s: Interpreter<N>,
    stmts: Seq<StmtTree>,
    i: int,
    t: Interpreter<N>,
    u: Result<(), Unwind<N>>,
    w: Trace<N>,
) -> (wf: Trace<N>)
    requires
        0 <= i <= stmts.len(),
        u is Err,
        runs(d, s, stmts.subrange(0, i), t, u, w),
    ensures
        runs(d, s, stmts, t, u, wf),
    decreases stmts.len() - i,
{
    if i == stmts.len() {
        assert(stmts.subrange(0, i) =~= stmts);
        w
    } else {
        let next = Trace {
            states: seq![t],
            values: Seq::empty(),
            lists: Seq::empty(),
            units: seq![u],
            flags: Seq::empty(),
            subs: seq![w],
        };
        assert(stmts.subrange(0, i + 1).drop_last() =~= stmts.subrange(0, i));
        assert(runs(d, s, stmts.subrange(0, i + 1), t, u, next));
        lemma_runs_stop(d, s, stmts, i + 1, t, u, next)
    }
}

/// A run stopped in the first `i` statements is stopped for all of them.
proof fn lemma_interprets_stop<N: Numeric>(
    s: Interpreter<N>,
    stmts: Seq<StmtTree>,
    i: int,
    t: Interpreter<N>,
    w: Trace<N>,
) -> (wf: Trace<N>)
    requires
        0 <= i <= stmts.len(),
        interprets(s, stmts.subrange(0, i), t, true, w),
    ensures
        interprets(s, stmts, t, true, wf),
    decreases stmts.len() - i,
{
    if i == stmts.len() {
        assert(stmts.subrange(0, i) =~= stmts);
        w
    } else {
        let next = Trace {
            states: seq![t],
            values: Seq::empty(),
            lists: Seq::empty(),
            units: Seq::empty(),
            flags: seq![true],
            subs: seq![w],
        };
        assert(stmts.subrange(0, i + 1).drop_last() =~= stmts.subrange(0, i));
        assert(interprets(s, stmts.subrange(0, i + 1), t, true, next));
        lemma_interprets_stop(s, stmts, i + 1, t, next)
    }
}

proof fn lemma_stmt_trees_step(v: Seq<Stmt>, i: int)
    requires
        0 <= i < v.len(),
    ensures
        stmt_trees(v.subrange(0, i + 1)).drop_last() == stmt_trees(v.subrange(0, i)),
        stmt_trees(v.subrange(0, i + 1)).last() == stmt_tree(v[i]),
        stmt_trees(v.subrange(0, i + 1)).len() > 0,
{
    assert(v.subrange(0, i + 1).drop_last() =~= v.subrange(0, i));
}

impl Function {
    /// The number of arguments this function takes.
    pub fn arity<N: Numeric>(&self, interpreter: &Interpreter<N>) -> (r: usize)
        requires
            interpreter.holds(Object::Callable(*self)),
        ensures
            r == interpreter.arity_of(*self),
    {
        match self {
            Function::Native(Builtin::Clock) => 0,
            Function::User { declaration, .. } => interpreter.declarations[*declaration].parameters.len(),
        }
    }

    /// Calls this function with `arguments`, whose count matches its arity.
    /// The body runs in a scope opened by `open_call_scope`; a `return` ends
    /// the call with its value, and running off the end gives `nil`. Errors
    /// pass through.
    pub fn call<N: Numeric>(&self, interpreter: &mut Interpreter<N>, arguments: Vec<Object<N>>, paren: &Token, depth: usize) -> (r: Result<
        Object<N>,
        RuntimeError,
    >)
        requires
            old(interpreter).wf(),
            old(interpreter).holds(Object::Callable(*self)),
            forall|k: int| 0 <= k < arguments@.len() ==> old(interpreter).holds(#[trigger] arguments@[k]),
        ensures
            exists|w: Trace<N>| #[trigger] calls(depth as nat, *old(interpreter), *self, arguments@, *final(interpreter), r, w),
            final(interpreter).frames(*old(interpreter)),
            r matches Ok(v) ==> final(interpreter).holds(v),
            *self == Function::Native(Builtin::Clock) && depth > 0 ==> r is Ok && r->Ok_0 is Number,
        decreases depth,
    {
        let ghost s0 = *interpreter;
        if depth == 0 {
            let r = Err(Interpreter::<N>::overflow());
            assert(calls(0, s0, *self, arguments@, *interpreter, r, leaf()));
            return r;
        }
        match self {
            Function::Native(Builtin::Clock) => {
                let r = Ok(Object::Number(N::clock()));
                assert(calls(depth as nat, s0, *self, arguments@, *interpreter, r, leaf()));
                r
            },
            Function::User { declaration, closure } => {
                let parameters = clone_tokens(&interpreter.declarations[*declaration].parameters);
                let body = clone_stmts(&interpreter.declarations[*declaration].body);
                if parameters.len() != arguments.len() {
                    let r = Err(arity_error(paren, parameters.len(), arguments.len()));
                    assert(calls(depth as nat, s0, *self, arguments@, *interpreter, r, leaf()));
                    return r;
                }
                let scope = interpreter.open_call_scope(*closure, &parameters, &arguments);
                let ghost m = *interpreter;
                let u = interpreter.execute_block(&body, scope, depth - 1);
                let ghost w1 = choose|w: Trace<N>| #[trigger] blocks((depth as nat - 1) as nat, m, stmt_trees(body@), scope as int, *interpreter, u, w);
                let ghost w = Trace { states: seq![m], values: seq![], lists: seq![], units: seq![u], flags: seq![], subs: seq![w1] };
                let r = match u {
                    Ok(()) => Ok(Object::Nil),
                    Err(Unwind::Return(_, value)) => Ok(value),
                    Err(Unwind::Error(e)) => Err(e),
                };
                assert(calls(depth as nat, s0, *self, arguments@, *interpreter, r, w));
                r
            },
        }
    }
}

} // verus!
