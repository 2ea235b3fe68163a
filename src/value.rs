//! Runtime values.
use vstd::prelude::*;

verus! {

/// The number domain the evaluator computes with. Lox numbers are 64-bit
/// floating-point values; their arithmetic, comparison, parsing and printing
/// are supplied by whoever runs the interpreter.
pub trait Numeric: Sized {
    /// The number a numeral (digits, optionally a point and digits) denotes.
    fn from_numeral(numeral: &str) -> Self;

    fn duplicate(&self) -> Self;

    fn plus(&self, other: &Self) -> Self;

    fn minus(&self, other: &Self) -> Self;

    fn times(&self, other: &Self) -> Self;

    fn divide(&self, other: &Self) -> Self;

    fn negate(&self) -> Self;

    fn less(&self, other: &Self) -> bool;

    fn less_equal(&self, other: &Self) -> bool;

    fn greater(&self, other: &Self) -> bool;

    fn greater_equal(&self, other: &Self) -> bool;

    fn equals(&self, other: &Self) -> bool;

    /// The shortest text that reads back as the same number.
    fn render(&self) -> String;

    /// Seconds since the Unix epoch, now.
    fn clock() -> Self;
}

/// The built-in routines.
#[derive(Clone, Copy, Debug, PartialEq, Eq, Structural)]
pub enum Builtin {
    Clock,
}

/// A callable value: a built-in, or a user function given by its declaration
/// and the scope it captured when the declaration ran.
#[derive(Clone, Copy, Debug, PartialEq, Eq, Structural)]
pub enum Function {
    Native(Builtin),
    User { declaration: usize, closure: usize },
}

/// A runtime value.
#[derive(Debug)]
pub enum Object<N> {
    Number(N),
    String(String),
    Boolean(bool),
    Callable(Function),
    Nil,
}

/// `b` is a copy of `a`: the same value, or for a number, a number.
pub open spec fn copy_of<N>(a: Object<N>, b: Object<N>) -> bool {
    match a {
        Object::Number(_) => b is Number,
        _ => b == a,
    }
}

/// Only `nil` and `false` are false.
pub open spec fn truthy<N>(v: Object<N>) -> bool {
    match v {
        Object::Nil => false,
        Object::Boolean(b) => b,
        _ => true,
    }
}

/// Equality of two values, where the value kinds decide it: values of
/// different kinds are unequal, and two numbers are left to the number domain.
pub open spec fn equal_values<N>(a: Object<N>, b: Object<N>) -> Option<bool> {
    match (a, b) {
        (Object::Number(_), Object::Number(_)) => None,
        (Object::String(x), Object::String(y)) => Some(x@ == y@),
        (Object::Boolean(x), Object::Boolean(y)) => Some(x == y),
        (Object::Callable(f), Object::Callable(g)) => Some(f == g),
        (Object::Nil, Object::Nil) => Some(true),
        _ => Some(false),
    }
}

/// Equality is reflexive on every value but a number, `nil` equals `nil`, and
/// values of different kinds are never equal.
pub proof fn lemma_equality<N>(a: Object<N>, b: Object<N>)
    ensures
        !(a is Number) ==> equal_values(a, a) == Some(true),
        equal_values(Object::<N>::Nil, Object::<N>::Nil) == Some(true),
        !same_kind(a, b) ==> equal_values(a, b) == Some(false),
{
}

pub open spec fn same_kind<N>(a: Object<N>, b: Object<N>) -> bool {
    ||| (a is Number && b is Number)
    ||| (a is String && b is String)
    ||| (a is Boolean && b is Boolean)
    ||| (a is Callable && b is Callable)
    ||| (a is Nil && b is Nil)
}

impl<N: Numeric> Object<N> {
    pub fn copy(&self) -> (r: Object<N>)
        ensures
            copy_of(*self, r),
    {
        match self {
            Object::Number(n) => Object::Number(n.duplicate()),
            Object::String(s) => Object::String(s.clone()),
            Object::Boolean(b) => Object::Boolean(*b),
            Object::Callable(f) => Object::Callable(*f),
            Object::Nil => Object::Nil,
        }
    }

    pub fn is_truthy(&self) -> (r: bool)
        ensures
            r == truthy(*self),
    {
        match self {
            Object::Nil => false,
            Object::Boolean(b) => *b,
            _ => true,
        }
    }

    /// `==` on values; two numbers compare in the number domain.
    pub fn equals(&self, other: &Object<N>) -> (r: bool)
        ensures
            equal_values(*self, *other) is Some ==> r == equal_values(*self, *other)->0,
    {
        match (self, other) {
            (Object::Number(x), Object::Number(y)) => x.equals(y),
            (Object::String(x), Object::String(y)) => *x == *y,
            (Object::Boolean(x), Object::Boolean(y)) => *x == *y,
            (Object::Callable(f), Object::Callable(g)) => *f == *g,
            (Object::Nil, Object::Nil) => true,
            _ => false,
        }
    }
}

impl<N: Numeric> Clone for Object<N> {
    fn clone(&self) -> (r: Self)
        ensures
            copy_of(*self, r),
    {
        self.copy()
    }
}

} // verus!
