//! A tree-walking interpreter for Lox: a scanner from source text to tokens, a
//! recursive-descent parser from tokens to statements, lexically nested scopes
//! and an evaluator over them.
use vstd::prelude::*;

pub mod ast;
pub mod environment;
pub mod error;
pub mod interpreter;
pub mod parser;
pub mod printer;
pub mod runner;
pub mod scanner;
pub mod semantics;
pub mod text;
pub mod token;
pub mod grammar;
pub mod value;

pub use ast::{
    aexpr, bexpr, cexpr, estmt, fstmt, gexpr, ifstmt, lexpr, lgexpr, pstmt, uexpr, vdstmt, vexpr,
    wstmt, Expr, Stmt,
};
pub use environment::{Environment, Scopes};
pub use error::{ErrorReporter, ParseError, RuntimeError};
pub use interpreter::{Declaration, Interpreter, Unwind};
pub use parser::Parser;
pub use printer::AstPrinter;
pub use runner::Runner;
pub use scanner::Scanner;
pub use token::{Literal, Token, TokenType};
pub use value::{Builtin, Function, Numeric, Object};

verus! {

} // verus!
