//! What evaluation does, as relations between the interpreter state before
//! and after. Each relation takes a trace: the intermediate states and results
//! of the steps it is made of. Numbers are left to the number domain: where a
//! number is computed, only its kind is fixed.
use vstd::prelude::*;

use crate::environment::{
    holder, lemma_closure_resolution, lemma_resolve_unaffected, rebound, resolve, scopes_wf,
    undefined_message, uninitialized_message, Environment,
};
use crate::error::{diagnostic, quoted_place, RuntimeError};
use crate::grammar::{stmt_trees, StmtTree, Tree};
use crate::interpreter::{
    arity_message, binary_outcome, display, short_circuits, unary_outcome, Interpreter, Unwind,
};
use crate::token::{Literal, Token};
use crate::value::{copy_of, truthy, Builtin, Function, Numeric, Object};

verus! {

/// The intermediate states and results of a step, and the traces of the
/// steps it is made of.
pub struct Trace<N> {
    pub states: Seq<Interpreter<N>>,
    pub values: Seq<Result<Object<N>, RuntimeError>>,
    pub lists: Seq<Result<Seq<Object<N>>, RuntimeError>>,
    pub units: Seq<Result<(), Unwind<N>>>,
    pub flags: Seq<bool>,
    pub subs: Seq<Trace<N>>,
}

pub open spec fn envs_of<N: Numeric>(s: Interpreter<N>) -> Seq<Environment<N>> {
    s.scopes.envs@
}

/// `t` is `s` but for its scopes.
pub open spec fn same_but_scopes<N: Numeric>(s: Interpreter<N>, t: Interpreter<N>) -> bool {
    &&& t.declarations == s.declarations
    &&& t.current == s.current
    &&& t.keep == s.keep
    &&& t.steps == s.steps
    &&& t.output == s.output
    &&& t.reporter == s.reporter
}

/// `t` is `s` with the same scopes.
pub open spec fn same_as<N: Numeric>(s: Interpreter<N>, t: Interpreter<N>) -> bool {
    same_but_scopes(s, t) && envs_of(t) == envs_of(s)
}

/// The value of a literal; a number literal gives some number.
pub open spec fn literal_result<N: Numeric>(l: Literal, r: Result<Object<N>, RuntimeError>) -> bool {
    match l {
        Literal::String(x) => r == Ok::<Object<N>, RuntimeError>(Object::String(x)),
        Literal::Boolean(b) => r == Ok::<Object<N>, RuntimeError>(Object::Boolean(b)),
        Literal::Nil => r == Ok::<Object<N>, RuntimeError>(Object::Nil),
        Literal::Number(_) => r is Ok && r->Ok_0 is Number,
    }
}

/// Reading `name` from scope `at`.
pub open spec fn looked_up<N: Numeric>(
    envs: Seq<Environment<N>>,
    at: int,
    name: Token,
    r: Result<Object<N>, RuntimeError>,
) -> bool {
    match resolve(envs, at, name.lexeme@) {
        Some(Some(v)) => r is Ok && copy_of(v, r->Ok_0),
        Some(None) => r is Err && r->Err_0.token == name && r->Err_0.message@
            == uninitialized_message(name.lexeme@),
        None => r is Err && r->Err_0.token == name && r->Err_0.message@ == undefined_message(
            name.lexeme@,
        ),
    }
}

/// `t` is `s` after the value `v` was printed as one line.
pub open spec fn printed_value<N: Numeric>(s: Interpreter<N>, v: Object<N>, t: Interpreter<N>) -> bool {
    &&& t.scopes == s.scopes
    &&& t.declarations == s.declarations
    &&& t.current == s.current
    &&& t.keep == s.keep
    &&& t.steps == s.steps
    &&& t.reporter == s.reporter
    &&& t.printed().len() == s.printed().len() + 1
    &&& t.printed().drop_last() == s.printed()
    &&& display(v, s.names()) matches Some(text) ==> t.printed().last() == text
}

/// `m` is `s` with a new empty scope inside `enclosing`, at the end of the table.
pub open spec fn pushed<N: Numeric>(s: Interpreter<N>, enclosing: usize, m: Interpreter<N>) -> bool {
    let n = envs_of(s).len();
    &&& same_but_scopes(s, m)
    &&& envs_of(m).len() == n + 1
    &&& envs_of(m).subrange(0, n as int) == envs_of(s)
    &&& envs_of(m)[n as int].enclosing == Some(enclosing)
    &&& forall|name: Seq<char>| #[trigger] envs_of(m)[n as int].binding(name) is None
}

/// `m` is `s` with a call scope opened inside `closure` (not inside the
/// caller's scope), binding each parameter to its argument; a later parameter
/// of the same name wins, and no other name is bound there.
pub open spec fn opened<N: Numeric>(
    s: Interpreter<N>,
    closure: usize,
    params: Seq<Token>,
    vals: Seq<Object<N>>,
    m: Interpreter<N>,
) -> bool {
    let n = envs_of(s).len();
    &&& same_but_scopes(s, m)
    &&& envs_of(m).len() == n + 1
    &&& forall|i: int| 0 <= i < n ==> #[trigger] envs_of(m)[i] == envs_of(s)[i]
    &&& envs_of(m)[n as int].enclosing == Some(closure)
    &&& forall|name: Seq<char>|
        (forall|j: int| 0 <= j < params.len() ==> (#[trigger] params[j]).lexeme@ != name)
            ==> (#[trigger] envs_of(m)[n as int].binding(name)) is None
    &&& forall|j: int|
        0 <= j < params.len() && (forall|k: int|
            j < k < params.len() ==> (#[trigger] params[k]).lexeme@ != params[j].lexeme@) ==> ((
        #[trigger] envs_of(m)[n as int].binding(params[j].lexeme@)) matches Some(Some(x))
            && copy_of(vals[j], x))
}

/// `t` is `m` back in scope `previous` after a block ran in scope `scope`:
/// the block's scopes are dropped unless a function value may hold them.
pub open spec fn restored<N: Numeric>(m: Interpreter<N>, previous: usize, scope: int, t: Interpreter<N>) -> bool {
    &&& t.current == previous
    &&& t.declarations == m.declarations
    &&& t.keep == m.keep
    &&& t.steps == m.steps
    &&& t.output == m.output
    &&& t.reporter == m.reporter
    &&& envs_of(t) == if m.keep <= scope && scope <= envs_of(m).len() {
        envs_of(m).subrange(0, scope)
    } else {
        envs_of(m)
    }
}

/// `t` is `s` after the declaration `fun name(params) { body }` ran: it is
/// recorded, and `name` is bound in the current scope to a function closing
/// over that scope, which is kept from then on.
pub open spec fn declared<N: Numeric>(
    s: Interpreter<N>,
    name: Token,
    params: Seq<Token>,
    body: Seq<StmtTree>,
    t: Interpreter<N>,
) -> bool {
    let n = s.declarations@.len();
    &&& t.declarations@.len() == n + 1
    &&& forall|i: int| 0 <= i < n ==> #[trigger] t.declarations@[i] == s.declarations@[i]
    &&& t.declarations@[n as int].name == name
    &&& t.declarations@[n as int].parameters@ == params
    &&& stmt_trees(t.declarations@[n as int].body@) == body
    &&& t.keep == if s.keep <= s.current {
        (s.current + 1) as usize
    } else {
        s.keep
    }
    &&& t.current == s.current
    &&& t.steps == s.steps
    &&& t.output == s.output
    &&& t.reporter == s.reporter
    &&& rebound(
        envs_of(s),
        envs_of(t),
        s.current as int,
        name.lexeme@,
        Some(Object::Callable(Function::User { declaration: n as usize, closure: s.current })),
    )
}

/// Evaluating `e` from state `s` with depth budget `d` ends in `t` with `r`.
pub open spec fn evaluates<N: Numeric>(
    d: nat,
    s: Interpreter<N>,
    e: Tree,
    t: Interpreter<N>,
    r: Result<Object<N>, RuntimeError>,
    w: Trace<N>,
) -> bool
    decreases d, 2nat, 0nat,
{
    if d == 0 {
        t == s && r is Err
    } else {
        let k = (d - 1) as nat;
        match e {
            Tree::Literal(l) => t == s && literal_result(l, r),
            Tree::Grouping(g) => evaluates(k, s, *g, t, r, w.subs[0]),
            Tree::Unary(op, x) => evaluates(k, s, *x, t, w.values[0], w.subs[0]) && match w.values[0] {
                Ok(a) => unary_outcome(op, a, r),
                Err(_) => r == w.values[0],
            },
            Tree::Binary(l, op, rr) => {
                let m = w.states[0];
                let v = w.values[0];
                evaluates(k, s, *l, m, v, w.subs[0]) && match v {
                    Err(_) => t == m && r == v,
                    Ok(a) => {
                        let x = w.values[1];
                        evaluates(k, m, *rr, t, x, w.subs[1]) && match x {
                            Err(_) => r == x,
                            Ok(b) => binary_outcome(op, a, b, t.names(), r),
                        }
                    },
                }
            },
            Tree::Variable(name) => t == s && looked_up(envs_of(s), s.current as int, name, r),
            Tree::Assign(name, x) => {
                let m = w.states[0];
                let v = w.values[0];
                evaluates(k, s, *x, m, v, w.subs[0]) && match v {
                    Err(_) => t == m && r == v,
                    Ok(a) => if resolve(envs_of(m), m.current as int, name.lexeme@) is Some {
                        &&& r is Ok
                        &&& copy_of(a, r->Ok_0)
                        &&& same_but_scopes(m, t)
                        &&& rebound(
                            envs_of(m),
                            envs_of(t),
                            holder(envs_of(m), m.current as int, name.lexeme@)->0,
                            name.lexeme@,
                            Some(a),
                        )
                    } else {
                        same_as(m, t) && r is Err && r->Err_0.token == name && r->Err_0.message@
                            == undefined_message(name.lexeme@)
                    },
                }
            },
            Tree::Logical(l, op, rr) => {
                let m = w.states[0];
                let v = w.values[0];
                evaluates(k, s, *l, m, v, w.subs[0]) && match v {
                    Err(_) => t == m && r == v,
                    Ok(a) => logically(k, m, op, a, *rr, t, r, w.subs[1]),
                }
            },
            Tree::Call(c, paren, args) => {
                let m = w.states[0];
                let v = w.values[0];
                evaluates(k, s, *c, m, v, w.subs[0]) && match v {
                    Err(_) => t == m && r == v,
                    Ok(f) => {
                        let m2 = w.states[1];
                        let vs = w.lists[0];
                        args_eval(k, m, args, m2, vs, w.subs[1]) && match vs {
                            Err(e) => t == m2 && r == Err::<Object<N>, RuntimeError>(e),
                            Ok(vals) => match f {
                                Object::Callable(func) => if m2.arity_of(func) != vals.len() {
                                    t == m2 && r is Err && r->Err_0.token == paren
                                        && r->Err_0.message@ == arity_message(
                                        m2.arity_of(func),
                                        vals.len(),
                                    )
                                } else {
                                    calls(k, m2, func, vals, t, r, w.subs[2])
                                },
                                _ => t == m2 && r is Err && r->Err_0.token == paren
                                    && r->Err_0.message@ == "Can only call functions or classes."@,
                            },
                        }
                    },
                }
            },
        }
    }
}

/// A logical operator after its left operand gave `a`: the left value when the
/// operator short-circuits (the right operand is not evaluated), else the
/// value of `right`.
pub open spec fn logically<N: Numeric>(
    d: nat,
    s: Interpreter<N>,
    op: Token,
    a: Object<N>,
    right: Tree,
    t: Interpreter<N>,
    r: Result<Object<N>, RuntimeError>,
    w: Trace<N>,
) -> bool
    decreases d, 1nat, 0nat,
{
    if short_circuits(op.token_type, a) {
        t == s && r == Ok::<Object<N>, RuntimeError>(a)
    } else if d == 0 {
        t == s && r is Err
    } else {
        evaluates((d - 1) as nat, s, right, t, r, w)
    }
}

/// Evaluating `args` left to right: their values, or the first error.
pub open spec fn args_eval<N: Numeric>(
    d: nat,
    s: Interpreter<N>,
    args: Seq<Tree>,
    t: Interpreter<N>,
    r: Result<Seq<Object<N>>, RuntimeError>,
    w: Trace<N>,
) -> bool
    decreases d, 3nat, args.len(),
{
    if args.len() == 0 {
        t == s && r == Ok::<Seq<Object<N>>, RuntimeError>(Seq::empty())
    } else {
        let m = w.states[0];
        let rv = w.lists[0];
        args_eval(d, s, args.drop_last(), m, rv, w.subs[0]) && match rv {
            Err(_) => t == m && r == rv,
            Ok(vs) => {
                let x = w.values[0];
                evaluates(d, m, args.last(), t, x, w.subs[1]) && match x {
                    Err(e) => r == Err::<Seq<Object<N>>, RuntimeError>(e),
                    Ok(y) => r == Ok::<Seq<Object<N>>, RuntimeError>(vs.push(y)),
                }
            },
        }
    }
}

/// Calling `f` with `vals`: `clock` gives a number; a user function runs its
/// body as a block in a scope opened inside its closure, and gives the value
/// of a `return`, `nil` when the body ends, or the error.
pub open spec fn calls<N: Numeric>(
    d: nat,
    s: Interpreter<N>,
    f: Function,
    vals: Seq<Object<N>>,
    t: Interpreter<N>,
    r: Result<Object<N>, RuntimeError>,
    w: Trace<N>,
) -> bool
    decreases d, 2nat, 0nat,
{
    if d == 0 {
        t == s && r is Err
    } else {
        match f {
            Function::Native(Builtin::Clock) => t == s && r is Ok && r->Ok_0 is Number,
            Function::User { declaration, closure } => {
                let decl = s.declarations@[declaration as int];
                if decl.parameters@.len() != vals.len() {
                    t == s && r is Err
                } else {
                    let m = w.states[0];
                    let u = w.units[0];
                    &&& opened(s, closure, decl.parameters@, vals, m)
                    &&& blocks(
                        (d - 1) as nat,
                        m,
                        stmt_trees(decl.body@),
                        envs_of(s).len() as int,
                        t,
                        u,
                        w.subs[0],
                    )
                    &&& r == match u {
                        Ok(()) => Ok::<Object<N>, RuntimeError>(Object::Nil),
                        Err(Unwind::Return(_, v)) => Ok::<Object<N>, RuntimeError>(v),
                        Err(Unwind::Error(e)) => Err::<Object<N>, RuntimeError>(e),
                    }
                }
            },
        }
    }
}

/// Running `stmts` as a block in `scope`, then going back to the scope in
/// effect before; the first unwind ends the block and is its result.
pub open spec fn blocks<N: Numeric>(
    d: nat,
    s: Interpreter<N>,
    stmts: Seq<StmtTree>,
    scope: int,
    t: Interpreter<N>,
    r: Result<(), Unwind<N>>,
    w: Trace<N>,
) -> bool
    decreases d, 5nat, 0nat,
{
    let m = w.states[0];
    runs(d, Interpreter { current: scope as usize, ..s }, stmts, m, r, w.subs[0]) && restored(
        m,
        s.current,
        scope,
        t,
    )
}

/// Running `stmts` in order until the first unwind.
pub open spec fn runs<N: Numeric>(
    d: nat,
    s: Interpreter<N>,
    stmts: Seq<StmtTree>,
    t: Interpreter<N>,
    r: Result<(), Unwind<N>>,
    w: Trace<N>,
) -> bool
    decreases d, 4nat, stmts.len(),
{
    if stmts.len() == 0 {
        t == s && r is Ok
    } else {
        let m = w.states[0];
        let x = w.units[0];
        runs(d, s, stmts.drop_last(), m, x, w.subs[0]) && match x {
            Err(_) => t == m && r == x,
            Ok(()) => if d == 0 {
                t == m && r matches Err(Unwind::Error(_))
            } else {
                executes((d - 1) as nat, m, stmts.last(), t, r, w.subs[1])
            },
        }
    }
}

/// Executing `st` from state `s` with depth budget `d` ends in `t` with `r`.
pub open spec fn executes<N: Numeric>(
    d: nat,
    s: Interpreter<N>,
    st: StmtTree,
    t: Interpreter<N>,
    r: Result<(), Unwind<N>>,
    w: Trace<N>,
) -> bool
    decreases d, 2nat, 0nat,
{
    if d == 0 {
        t == s && r matches Err(Unwind::Error(_))
    } else {
        let k = (d - 1) as nat;
        let m = w.states[0];
        let v = w.values[0];
        match st {
            StmtTree::Print(e) => evaluates(k, s, e, m, v, w.subs[0]) && match v {
                Err(x) => t == m && r == Err::<(), Unwind<N>>(Unwind::Error(x)),
                Ok(a) => r is Ok && printed_value(m, a, t),
            },
            StmtTree::Expression(e) => evaluates(k, s, e, t, v, w.subs[0]) && match v {
                Err(x) => r == Err::<(), Unwind<N>>(Unwind::Error(x)),
                Ok(_) => r is Ok,
            },
            StmtTree::Var(name, None) => r is Ok && same_but_scopes(s, t) && rebound(
                envs_of(s),
                envs_of(t),
                s.current as int,
                name.lexeme@,
                None,
            ),
            StmtTree::Var(name, Some(e)) => evaluates(k, s, e, m, v, w.subs[0]) && match v {
                Err(x) => t == m && r == Err::<(), Unwind<N>>(Unwind::Error(x)),
                Ok(a) => r is Ok && same_but_scopes(m, t) && rebound(
                    envs_of(m),
                    envs_of(t),
                    m.current as int,
                    name.lexeme@,
                    Some(a),
                ),
            },
            StmtTree::Block(stmts) => pushed(s, s.current, m) && blocks(
                k,
                m,
                stmts,
                envs_of(s).len() as int,
                t,
                r,
                w.subs[0],
            ),
            StmtTree::If(c, th, el) => evaluates(k, s, c, m, v, w.subs[0]) && match v {
                Err(x) => t == m && r == Err::<(), Unwind<N>>(Unwind::Error(x)),
                Ok(a) => if truthy(a) {
                    executes(k, m, *th, t, r, w.subs[1])
                } else {
                    match el {
                        Some(x) => executes(k, m, *x, t, r, w.subs[1]),
                        None => t == m && r is Ok,
                    }
                },
            },
            StmtTree::While(c, b) => loops(d, s, c, *b, t, r, w),
            StmtTree::Function(name, params, body) => r is Ok && declared(s, name, params, body, t),
            StmtTree::Return(kw, e) => evaluates(k, s, e, t, v, w.subs[0]) && match v {
                Err(x) => r == Err::<(), Unwind<N>>(Unwind::Error(x)),
                Ok(a) => r == Err::<(), Unwind<N>>(Unwind::Return(kw, a)),
            },
        }
    }
}

/// A `while` loop from state `s`: each round spends one step, evaluates the
/// condition and, while it is truthy, runs the body.
pub open spec fn loops<N: Numeric>(
    d: nat,
    s: Interpreter<N>,
    c: Tree,
    b: StmtTree,
    t: Interpreter<N>,
    r: Result<(), Unwind<N>>,
    w: Trace<N>,
) -> bool
    decreases d, 1nat, s.steps as nat,
{
    if d == 0 || s.steps == 0 {
        t == s && r matches Err(Unwind::Error(_))
    } else {
        let k = (d - 1) as nat;
        let s1 = Interpreter { steps: (s.steps - 1) as u64, ..s };
        let m = w.states[0];
        let v = w.values[0];
        evaluates(k, s1, c, m, v, w.subs[0]) && match v {
            Err(x) => t == m && r == Err::<(), Unwind<N>>(Unwind::Error(x)),
            Ok(a) => if !truthy(a) {
                t == m && r is Ok
            } else {
                let m2 = w.states[1];
                let u = w.units[0];
                executes(k, m, b, m2, u, w.subs[1]) && match u {
                    Err(_) => t == m2 && r == u,
                    Ok(()) => m2.steps < s.steps && loops(d, m2, c, b, t, r, w.subs[2]),
                }
            },
        }
    }
}

/// `t` is `m` after a runtime error at `token` with `message` was reported.
pub open spec fn reported<N: Numeric>(m: Interpreter<N>, token: Token, message: Seq<char>, t: Interpreter<N>) -> bool {
    &&& t.scopes == m.scopes
    &&& t.declarations == m.declarations
    &&& t.current == m.current
    &&& t.keep == m.keep
    &&& t.steps == m.steps
    &&& t.output == m.output
    &&& t.reporter.log() == m.reporter.log().push(
        diagnostic(token.line as nat, quoted_place(token.lexeme@), message),
    )
    &&& t.reporter.had_runtime_error
    &&& t.reporter.had_error == m.reporter.had_error
}

/// Running a program's statements from `s`, each with the full depth budget;
/// the first runtime error, or a `return` outside any function, is reported
/// and ends the run (`stopped`).
pub open spec fn interprets<N: Numeric>(
    s: Interpreter<N>,
    stmts: Seq<StmtTree>,
    t: Interpreter<N>,
    stopped: bool,
    w: Trace<N>,
) -> bool
    decreases stmts.len(),
{
    if stmts.len() == 0 {
        t == s && !stopped
    } else {
        let m = w.states[0];
        let st = w.flags[0];
        interprets(s, stmts.drop_last(), m, st, w.subs[0]) && if st {
            t == m && stopped
        } else {
            let m2 = w.states[1];
            let u = w.units[0];
            executes(usize::MAX as nat, m, stmts.last(), m2, u, w.subs[1]) && match u {
                Ok(()) => t == m2 && !stopped,
                Err(Unwind::Error(e)) => stopped && reported(m2, e.token, e.message@, t),
                Err(Unwind::Return(kw, _)) => stopped && reported(
                    m2,
                    kw,
                    "Can't return from top-level code."@,
                    t,
                ),
            }
        }
    }
}

/// Free variables resolve against the defining scope: in the scope a call
/// opens (see `calls`), a name that is no parameter denotes what it denoted
/// from the function's closure before the call, whatever scope the call was
/// made from.
pub proof fn lemma_call_resolves_in_closure<N: Numeric>(
    s: Interpreter<N>,
    closure: usize,
    params: Seq<Token>,
    vals: Seq<Object<N>>,
    m: Interpreter<N>,
    name: Seq<char>,
)
    requires
        opened(s, closure, params, vals, m),
        scopes_wf(envs_of(s)),
        scopes_wf(envs_of(m)),
        closure < envs_of(s).len(),
        forall|j: int| 0 <= j < params.len() ==> (#[trigger] params[j]).lexeme@ != name,
    ensures
        resolve(envs_of(m), envs_of(s).len() as int, name) == resolve(envs_of(s), closure as int, name),
{
    let n = envs_of(s).len() as int;
    assert(envs_of(m)[n].binding(name) is None);
    lemma_closure_resolution(envs_of(m), n, closure, name);
    lemma_resolve_unaffected(envs_of(s), envs_of(m), n, closure as int, name);
}

/// A block's scope is invisible from the scope it is opened in (see the
/// `Block` case of `executes`): opening it changes nothing any name denotes
/// from there, and what is later defined in it is defined at its own index,
/// which `lemma_block_isolation` shows the outer scope does not see.
pub proof fn lemma_block_scope_invisible<N: Numeric>(
    s: Interpreter<N>,
    m: Interpreter<N>,
    name: Seq<char>,
)
    requires
        pushed(s, s.current, m),
        scopes_wf(envs_of(s)),
        s.current < envs_of(s).len(),
    ensures
        resolve(envs_of(m), s.current as int, name) == resolve(envs_of(s), s.current as int, name),
{
    let n = envs_of(s).len() as int;
    assert forall|i: int| 0 <= i < n implies #[trigger] envs_of(m)[i] == envs_of(s)[i] by {
        assert(envs_of(m).subrange(0, n)[i] == envs_of(m)[i]);
    }
    lemma_resolve_unaffected(envs_of(s), envs_of(m), n, s.current as int, name);
}

} // verus!
