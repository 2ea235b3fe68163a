//! Scopes: lexically nested bindings from names to optional values, kept in a
//! table and addressed by index, so that a closure can keep its defining scope.
use vstd::prelude::*;

use crate::error::RuntimeError;
use crate::text::concat;
use crate::token::Token;
use crate::value::{copy_of, Numeric, Object};

verus! {

/// The binding of `name` in a list of bindings; a later entry shadows an
/// earlier one. `Some(None)` is a name declared without a value.
pub open spec fn binding_in<N>(b: Seq<(String, Option<Object<N>>)>, name: Seq<char>) -> Option<
    Option<Object<N>>,
>
    decreases b.len(),
{
    if b.len() == 0 {
        None
    } else if b.last().0@ == name {
        Some(b.last().1)
    } else {
        binding_in(b.drop_last(), name)
    }
}

proof fn lemma_binding_at<N>(b: Seq<(String, Option<Object<N>>)>, i: int, name: Seq<char>)
    requires
        0 <= i < b.len(),
        b[i].0@ == name,
        forall|j: int| i < j < b.len() ==> (#[trigger] b[j]).0@ != name,
    ensures
        binding_in(b, name) == Some(b[i].1),
    decreases b.len(),
{
    if i < b.len() - 1 {
        lemma_binding_at(b.drop_last(), i, name);
    }
}

proof fn lemma_binding_absent<N>(b: Seq<(String, Option<Object<N>>)>, name: Seq<char>)
    requires
        forall|j: int| 0 <= j < b.len() ==> (#[trigger] b[j]).0@ != name,
    ensures
        binding_in(b, name) is None,
    decreases b.len(),
{
    if b.len() > 0 {
        lemma_binding_absent(b.drop_last(), name);
    }
}

proof fn lemma_binding_update<N>(
    b: Seq<(String, Option<Object<N>>)>,
    i: int,
    v: Option<Object<N>>,
    other: Seq<char>,
)
    requires
        0 <= i < b.len(),
        forall|j: int| i < j < b.len() ==> (#[trigger] b[j]).0@ != b[i].0@,
    ensures
        binding_in(b.update(i, (b[i].0, v)), b[i].0@) == Some(v),
        other != b[i].0@ ==> binding_in(b.update(i, (b[i].0, v)), other) == binding_in(b, other),
    decreases b.len(),
{
    let u = b.update(i, (b[i].0, v));
    if i < b.len() - 1 {
        assert(u.drop_last() =~= b.drop_last().update(i, (b[i].0, v)));
        lemma_binding_update(b.drop_last(), i, v, other);
    } else {
        assert(u.drop_last() =~= b.drop_last());
    }
}

proof fn lemma_binding_push<N>(
    b: Seq<(String, Option<Object<N>>)>,
    entry: (String, Option<Object<N>>),
    name: Seq<char>,
)
    ensures
        binding_in(b.push(entry), name) == if entry.0@ == name {
            Some(entry.1)
        } else {
            binding_in(b, name)
        },
{
    assert(b.push(entry).drop_last() =~= b);
}

/// One scope: its enclosing scope, if any, and its bindings.
pub struct Environment<N> {
    pub enclosing: Option<usize>,
    pub values: Vec<(String, Option<Object<N>>)>,
}

impl<N: Numeric> Environment<N> {
    pub open spec fn binding(&self, name: Seq<char>) -> Option<Option<Object<N>>> {
        binding_in(self.values@, name)
    }

    pub fn new(enclosing: Option<usize>) -> (r: Environment<N>)
        ensures
            r.enclosing == enclosing,
            forall|name: Seq<char>| #[trigger] r.binding(name) is None,
    {
        Environment { enclosing, values: Vec::new() }
    }

    /// Where `name` is bound in this scope.
    fn find(&self, name: &String) -> (r: Option<usize>)
        ensures
            match r {
                Some(i) => i < self.values@.len() && self.values@[i as int].0@ == name@
                    && self.binding(name@) == Some(self.values@[i as int].1) && forall|j: int|
                    i < j < self.values@.len() ==> (#[trigger] self.values@[j]).0@ != name@,
                None => self.binding(name@) is None,
            },
    {
        let mut i = self.values.len();
        while i > 0
            invariant
                i <= self.values@.len(),
                forall|j: int| i <= j < self.values@.len() ==> (#[trigger] self.values@[j]).0@ != name@,
            decreases i,
        {
            i = i - 1;
            if self.values[i].0 == *name {
                proof {
                    lemma_binding_at(self.values@, i as int, name@);
                }
                return Some(i);
            }
        }
        proof {
            lemma_binding_absent(self.values@, name@);
        }
        None
    }

    /// Binds `name` here, replacing any binding it had in this scope.
    pub fn define(&mut self, name: &Token, value: Option<Object<N>>)
        ensures
            final(self).enclosing == old(self).enclosing,
            final(self).binding(name.lexeme@) == Some(value),
            forall|other: Seq<char>|
                other != name.lexeme@ ==> #[trigger] final(self).binding(other) == old(self).binding(
                    other,
                ),
    {
        self.set(&name.lexeme, value);
    }

    fn set(&mut self, name: &String, value: Option<Object<N>>)
        ensures
            final(self).enclosing == old(self).enclosing,
            final(self).binding(name@) == Some(value),
            forall|other: Seq<char>|
                other != name@ ==> #[trigger] final(self).binding(other) == old(self).binding(other),
    {
        match self.find(name) {
            Some(i) => {
                let key = self.values[i].0.clone();
                self.values.set(i, (key, value));
                proof {
                    assert forall|other: Seq<char>| other != name@ implies #[trigger] binding_in(
                        self.values@,
                        other,
                    ) == binding_in(old(self).values@, other) by {
                        lemma_binding_update(old(self).values@, i as int, value, other);
                    }
                    lemma_binding_update(old(self).values@, i as int, value, name@);
                }
            },
            None => {
                let key = name.clone();
                self.values.push((key, value));
                proof {
                    assert forall|other: Seq<char>| #[trigger] binding_in(self.values@, other)
                        == (if name@ == other {
                        Some(value)
                    } else {
                        binding_in(old(self).values@, other)
                    }) by {
                        lemma_binding_push(old(self).values@, (key, value), other);
                    }
                }
            },
        }
    }
}

/// Every scope's enclosing scope comes before it.
pub open spec fn scopes_wf<N>(envs: Seq<Environment<N>>) -> bool {
    forall|i: int|
        0 <= i < envs.len() ==> match (#[trigger] envs[i]).enclosing {
            Some(e) => e < i,
            None => true,
        }
}

/// What `name` denotes from scope `at`: its binding in the nearest scope of
/// the chain that binds it.
pub open spec fn resolve<N>(envs: Seq<Environment<N>>, at: int, name: Seq<char>) -> Option<
    Option<Object<N>>,
>
    decreases at,
{
    if 0 <= at < envs.len() {
        match binding_in(envs[at].values@, name) {
            Some(v) => Some(v),
            None => match envs[at].enclosing {
                Some(e) => if e < at {
                    resolve(envs, e as int, name)
                } else {
                    None
                },
                None => None,
            },
        }
    } else {
        None
    }
}

/// The scope on the chain from `at` that binds `name`.
pub open spec fn holder<N>(envs: Seq<Environment<N>>, at: int, name: Seq<char>) -> Option<int>
    decreases at,
{
    if 0 <= at < envs.len() {
        match binding_in(envs[at].values@, name) {
            Some(_) => Some(at),
            None => match envs[at].enclosing {
                Some(e) => if e < at {
                    holder(envs, e as int, name)
                } else {
                    None
                },
                None => None,
            },
        }
    } else {
        None
    }
}

/// The message for a name no scope binds.
pub open spec fn undefined_message(name: Seq<char>) -> Seq<char> {
    "Undefined variable '"@ + name + "'."@
}

/// The message for a name declared without a value.
pub open spec fn uninitialized_message(name: Seq<char>) -> Seq<char> {
    "Uninitialized variable '"@ + name + "'."@
}

fn name_error(token: &Token, prefix: &str) -> (r: RuntimeError)
    ensures
        r.token == *token,
        r.message@ == prefix@ + token.lexeme@ + "'."@,
{
    let mut message = concat(prefix, token.lexeme.as_str());
    message.append("'.");
    RuntimeError { token: token.clone(), message }
}

/// `after` is `before` with one binding of scope `at` set: `name` to `value`.
pub open spec fn rebound<N>(
    before: Seq<Environment<N>>,
    after: Seq<Environment<N>>,
    at: int,
    name: Seq<char>,
    value: Option<Object<N>>,
) -> bool {
    &&& after.len() == before.len()
    &&& 0 <= at < before.len()
    &&& forall|i: int| 0 <= i < before.len() && i != at ==> #[trigger] after[i] == before[i]
    &&& after[at].enclosing == before[at].enclosing
    &&& binding_in(after[at].values@, name) == Some(value)
    &&& forall|other: Seq<char>|
        other != name ==> #[trigger] binding_in(after[at].values@, other) == binding_in(
            before[at].values@,
            other,
        )
}

/// Scopes after index `bound` do not change what any name denotes from a scope
/// before it: a chain only ever leads to earlier scopes.
pub proof fn lemma_resolve_unaffected<N>(
    before: Seq<Environment<N>>,
    after: Seq<Environment<N>>,
    bound: int,
    at: int,
    name: Seq<char>,
)
    requires
        scopes_wf(before),
        0 <= at < bound <= before.len(),
        bound <= after.len(),
        forall|i: int| 0 <= i < bound ==> #[trigger] after[i] == before[i],
    ensures
        resolve(after, at, name) == resolve(before, at, name),
        holder(after, at, name) == holder(before, at, name),
    decreases at,
{
    assert(after[at] == before[at]);
    match before[at].enclosing {
        Some(e) => {
            if e < at {
                lemma_resolve_unaffected(before, after, bound, e as int, name);
            }
        },
        None => {},
    }
}

/// Setting a name in the scope that binds it changes what that name denotes
/// from exactly the scopes whose chain finds it there, and nothing else.
pub proof fn lemma_resolve_rebound<N>(
    before: Seq<Environment<N>>,
    after: Seq<Environment<N>>,
    h: int,
    name: Seq<char>,
    value: Option<Object<N>>,
    at: int,
    other: Seq<char>,
)
    requires
        scopes_wf(before),
        rebound(before, after, h, name, value),
        binding_in(before[h].values@, name) is Some,
    ensures
        resolve(after, at, name) == if holder(before, at, name) == Some(h) {
            Some(value)
        } else {
            resolve(before, at, name)
        },
        other != name ==> resolve(after, at, other) == resolve(before, at, other),
    decreases at,
{
    if 0 <= at < before.len() {
        if at != h {
            assert(after[at] == before[at]);
        }
        match before[at].enclosing {
            Some(e) => {
                if e < at {
                    lemma_resolve_rebound(before, after, h, name, value, e as int, other);
                }
            },
            None => {},
        }
    }
}

/// A variable declared in an inner scope is not visible from the scopes it is
/// nested in: defining a name in scope `inner` leaves what every name denotes
/// from an earlier scope `outer` as it was.
pub proof fn lemma_block_isolation<N>(
    before: Seq<Environment<N>>,
    after: Seq<Environment<N>>,
    inner: int,
    outer: int,
    name: Seq<char>,
    value: Option<Object<N>>,
    any: Seq<char>,
)
    requires
        scopes_wf(before),
        0 <= outer < inner,
        rebound(before, after, inner, name, value),
    ensures
        resolve(after, outer, any) == resolve(before, outer, any),
{
    lemma_resolve_unaffected(before, after, inner, outer, any);
}

/// An assignment made from an inner scope to a name that the inner scope does
/// not bind sets the binding of the enclosing scope: afterwards the name
/// denotes the new value from both scopes.
pub proof fn lemma_assign_through<N>(
    before: Seq<Environment<N>>,
    after: Seq<Environment<N>>,
    inner: int,
    outer: usize,
    name: Seq<char>,
    value: Object<N>,
)
    requires
        scopes_wf(before),
        0 <= inner < before.len(),
        before[inner].enclosing == Some(outer),
        binding_in(before[inner].values@, name) is None,
        resolve(before, outer as int, name) is Some,
        rebound(before, after, holder(before, inner, name)->0, name, Some(value)),
    ensures
        resolve(after, outer as int, name) == Some(Some(value)),
        resolve(after, inner, name) == Some(Some(value)),
{
    assert(outer < inner) by {
        assert(match before[inner].enclosing {
            Some(e) => e < inner,
            None => true,
        });
    }
    lemma_holder_resolves(before, outer as int, name);
    assert(holder(before, inner, name) == holder(before, outer as int, name));
    let h = holder(before, inner, name)->0;
    lemma_holder_binds(before, inner, name);
    lemma_resolve_rebound(before, after, h, name, Some(value), outer as int, name);
    lemma_resolve_rebound(before, after, h, name, Some(value), inner, name);
}

/// A name resolves exactly when some scope on the chain holds it.
pub proof fn lemma_holder_resolves<N>(envs: Seq<Environment<N>>, at: int, name: Seq<char>)
    ensures
        (resolve(envs, at, name) is Some) == (holder(envs, at, name) is Some),
    decreases at,
{
    if 0 <= at < envs.len() {
        match envs[at].enclosing {
            Some(e) => {
                if e < at {
                    lemma_holder_resolves(envs, e as int, name);
                }
            },
            None => {},
        }
    }
}

/// The holder of a name is a scope that binds it.
pub proof fn lemma_holder_binds<N>(envs: Seq<Environment<N>>, at: int, name: Seq<char>)
    ensures
        holder(envs, at, name) matches Some(h) ==> 0 <= h < envs.len() && binding_in(
            envs[h].values@,
            name,
        ) is Some,
    decreases at,
{
    if 0 <= at < envs.len() {
        match envs[at].enclosing {
            Some(e) => {
                if e < at {
                    lemma_holder_binds(envs, e as int, name);
                }
            },
            None => {},
        }
    }
}

/// Free variables resolve against the defining scope: in a call scope that
/// encloses a function's closure, a name the call scope does not bind (no
/// parameter) denotes what it denotes from the closure, whichever scope the
/// call was made from.
pub proof fn lemma_closure_resolution<N>(
    envs: Seq<Environment<N>>,
    call: int,
    closure: usize,
    name: Seq<char>,
)
    requires
        scopes_wf(envs),
        0 <= call < envs.len(),
        envs[call].enclosing == Some(closure),
        binding_in(envs[call].values@, name) is None,
    ensures
        resolve(envs, call, name) == resolve(envs, closure as int, name),
{
    assert(match envs[call].enclosing {
        Some(e) => e < call,
        None => true,
    });
}

/// The table of all scopes.
pub struct Scopes<N> {
    pub envs: Vec<Environment<N>>,
}

impl<N: Numeric> Scopes<N> {
    pub open spec fn wf(&self) -> bool {
        scopes_wf(self.envs@)
    }

    /// A table holding one scope, the global one.
    pub fn new() -> (r: Scopes<N>)
        ensures
            r.wf(),
            r.envs@.len() == 1,
            r.envs@[0].enclosing is None,
            forall|name: Seq<char>| #[trigger] resolve(r.envs@, 0, name) is None,
            forall|name: Seq<char>| #[trigger] r.envs@[0].binding(name) is None,
    {
        let global = Environment::new(None);
        let r = Scopes { envs: vec![global] };
        assert forall|name: Seq<char>| #[trigger] resolve(r.envs@, 0, name) is None by {
            assert(r.envs@[0] == global);
            assert(global.binding(name) is None);
        }
        r
    }

    /// Opens a scope inside `enclosing` and returns its index.
    pub fn push(&mut self, enclosing: usize) -> (r: usize)
        requires
            old(self).wf(),
            enclosing < old(self).envs@.len(),
        ensures
            final(self).wf(),
            r == old(self).envs@.len(),
            final(self).envs@.len() == r + 1,
            final(self).envs@.subrange(0, r as int) == old(self).envs@,
            final(self).envs@[r as int].enclosing == Some(enclosing),
            forall|name: Seq<char>| #[trigger] final(self).envs@[r as int].binding(name) is None,
    {
        let r = self.envs.len();
        self.envs.push(Environment::new(Some(enclosing)));
        assert(self.envs@.subrange(0, r as int) =~= old(self).envs@);
        r
    }

    /// Drops the scopes from index `len` on.
    pub fn truncate(&mut self, len: usize)
        requires
            old(self).wf(),
        ensures
            final(self).wf(),
            len <= old(self).envs@.len() ==> final(self).envs@ == old(self).envs@.subrange(
                0,
                len as int,
            ),
            len > old(self).envs@.len() ==> final(self).envs@ == old(self).envs@,
    {
        self.envs.truncate(len);
    }

    /// Binds `name` in scope `at`.
    pub fn define(&mut self, at: usize, name: &Token, value: Option<Object<N>>)
        requires
            old(self).wf(),
            at < old(self).envs@.len(),
        ensures
            final(self).wf(),
            rebound(old(self).envs@, final(self).envs@, at as int, name.lexeme@, value),
    {
        let mut env = Environment::new(None);
        std::mem::swap(&mut env, &mut self.envs[at]);
        env.define(name, value);
        std::mem::swap(&mut env, &mut self.envs[at]);
        proof {
            assert forall|other: Seq<char>| other != name.lexeme@ implies #[trigger] binding_in(
                self.envs@[at as int].values@,
                other,
            ) == binding_in(old(self).envs@[at as int].values@, other) by {
                assert(self.envs@[at as int].binding(other) == old(self).envs@[at as int].binding(
                    other,
                ));
            }
        }
    }

    /// The value `name` denotes from scope `at`.
    pub fn get(&self, at: usize, name: &Token) -> (r: Result<Object<N>, RuntimeError>)
        requires
            self.wf(),
        ensures
            match resolve(self.envs@, at as int, name.lexeme@) {
                Some(Some(v)) => r is Ok && copy_of(v, r->Ok_0),
                Some(None) => r is Err && r->Err_0.token == *name && r->Err_0.message@
                    == uninitialized_message(name.lexeme@),
                None => r is Err && r->Err_0.token == *name && r->Err_0.message@
                    == undefined_message(name.lexeme@),
            },
    {
        if at >= self.envs.len() {
            return Err(name_error(name, "Undefined variable '"));
        }
        let mut s = at;
        loop
            invariant
                self.wf(),
                s < self.envs@.len(),
                resolve(self.envs@, at as int, name.lexeme@) == resolve(
                    self.envs@,
                    s as int,
                    name.lexeme@,
                ),
            decreases s,
        {
            let env = &self.envs[s];
            match env.find(&name.lexeme) {
                Some(i) => {
                    return match &env.values[i].1 {
                        Some(v) => Ok(v.copy()),
                        None => Err(name_error(name, "Uninitialized variable '")),
                    };
                },
                None => {},
            }
            match env.enclosing {
                Some(e) => {
                    assert(e < s);
                    s = e;
                },
                None => {
                    return Err(name_error(name, "Undefined variable '"));
                },
            }
        }
    }

    /// Sets `name` to `value` in the nearest scope from `at` that binds it.
    pub fn assign(&mut self, at: usize, name: &Token, value: Object<N>) -> (r: Result<
        (),
        RuntimeError,
    >)
        requires
            old(self).wf(),
        ensures
            final(self).wf(),
            r is Ok <==> resolve(old(self).envs@, at as int, name.lexeme@) is Some,
            r is Ok ==> rebound(
                old(self).envs@,
                final(self).envs@,
                holder(old(self).envs@, at as int, name.lexeme@)->0,
                name.lexeme@,
                Some(value),
            ),
            r is Err ==> final(self).envs@ == old(self).envs@ && r->Err_0.token == *name
                && r->Err_0.message@ == undefined_message(name.lexeme@),
    {
        if at >= self.envs.len() {
            return Err(name_error(name, "Undefined variable '"));
        }
        let mut s = at;
        loop
            invariant
                self.wf(),
                *self == *old(self),
                s < self.envs@.len(),
                resolve(self.envs@, at as int, name.lexeme@) == resolve(
                    self.envs@,
                    s as int,
                    name.lexeme@,
                ),
                holder(self.envs@, at as int, name.lexeme@) == holder(
                    self.envs@,
                    s as int,
                    name.lexeme@,
                ),
            decreases s,
        {
            match self.envs[s].find(&name.lexeme) {
                Some(_) => {
                    self.define(s, name, Some(value));
                    return Ok(());
                },
                None => {},
            }
            match self.envs[s].enclosing {
                Some(e) => {
                    assert(e < s);
                    s = e;
                },
                None => {
                    return Err(name_error(name, "Undefined variable '"));
                },
            }
        }
    }
}

} // verus!
