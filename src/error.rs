//! Diagnostics: the reporter that collects them and carries the two sticky
//! flags, and the error values of the parser and the evaluator.
use vstd::prelude::*;

use crate::text::{concat, decimal, push_decimal};
use crate::token::{Token, TokenType};

verus! {

/// `[line N] Error<place>: <message>`.
pub open spec fn diagnostic(line: nat, place: Seq<char>, message: Seq<char>) -> Seq<char> {
    "[line "@ + decimal(line) + "] Error"@ + place + ": "@ + message
}

/// Where a diagnostic about `token` points: the end of input, or its lexeme.
pub open spec fn place_of(token: Token) -> Seq<char> {
    if token.token_type == TokenType::Eof {
        " at end"@
    } else {
        quoted_place(token.lexeme@)
    }
}

pub open spec fn quoted_place(lexeme: Seq<char>) -> Seq<char> {
    " at '"@ + lexeme + "'"@
}

/// Collects diagnostics in the order they were reported. `had_error` is set by
/// lexical and syntactic reports, `had_runtime_error` by evaluation.
pub struct ErrorReporter {
    pub had_error: bool,
    pub had_runtime_error: bool,
    pub diagnostics: Vec<String>,
}

impl ErrorReporter {
    /// The diagnostics as character sequences.
    pub open spec fn log(&self) -> Seq<Seq<char>> {
        self.diagnostics@.map_values(|s: String| s@)
    }

    pub fn new() -> (r: ErrorReporter)
        ensures
            !r.had_error,
            !r.had_runtime_error,
            r.log() == Seq::<Seq<char>>::empty(),
    {
        let r = ErrorReporter { had_error: false, had_runtime_error: false, diagnostics: Vec::new() };
        assert(r.log() =~= Seq::<Seq<char>>::empty());
        r
    }

    pub fn has_error(&self) -> (r: bool)
        ensures
            r == self.had_error,
    {
        self.had_error
    }

    pub fn has_runtime_error(&self) -> (r: bool)
        ensures
            r == self.had_runtime_error,
    {
        self.had_runtime_error
    }

    /// Clears the syntactic flag only.
    pub fn reset(&mut self)
        ensures
            !final(self).had_error,
            final(self).had_runtime_error == old(self).had_runtime_error,
            final(self).log() == old(self).log(),
    {
        self.had_error = false;
    }

    fn push_line(&mut self, line: usize, place: &str, message: &str)
        ensures
            final(self).log() == old(self).log().push(diagnostic(line as nat, place@, message@)),
            final(self).had_error == old(self).had_error,
            final(self).had_runtime_error == old(self).had_runtime_error,
    {
        let mut s = String::from_str("[line ");
        push_decimal(&mut s, line);
        s.append("] Error");
        s.append(place);
        s.append(": ");
        s.append(message);
        assert(s@ =~= diagnostic(line as nat, place@, message@));
        self.diagnostics.push(s);
        assert(self.log() =~= old(self).log().push(diagnostic(line as nat, place@, message@)));
    }

    /// Reports a lexical or syntactic error at `line`.
    pub fn report(&mut self, line: usize, place: &str, message: &str)
        ensures
            final(self).log() == old(self).log().push(diagnostic(line as nat, place@, message@)),
            final(self).had_error,
            final(self).had_runtime_error == old(self).had_runtime_error,
    {
        self.push_line(line, place, message);
        self.had_error = true;
    }

    /// Reports a syntactic error at `token`.
    pub fn error(&mut self, token: &Token, message: &str)
        ensures
            final(self).log() == old(self).log().push(
                diagnostic(token.line as nat, place_of(*token), message@),
            ),
            final(self).had_error,
            final(self).had_runtime_error == old(self).had_runtime_error,
    {
        if token.token_type == TokenType::Eof {
            self.report(token.line, " at end", message);
        } else {
            let place = quote_lexeme(&token.lexeme);
            self.report(token.line, place.as_str(), message);
        }
    }

    /// Reports an evaluation error at `token`.
    pub fn runtime_error(&mut self, token: &Token, message: &str)
        ensures
            final(self).log() == old(self).log().push(
                diagnostic(token.line as nat, quoted_place(token.lexeme@), message@),
            ),
            final(self).had_error == old(self).had_error,
            final(self).had_runtime_error,
    {
        let place = quote_lexeme(&token.lexeme);
        self.push_line(token.line, place.as_str(), message);
        self.had_runtime_error = true;
    }

    /// Hands out the diagnostics collected so far and forgets them.
    pub fn take_diagnostics(&mut self) -> (r: Vec<String>)
        ensures
            r@.map_values(|s: String| s@) == old(self).log(),
            final(self).log() == Seq::<Seq<char>>::empty(),
            final(self).had_error == old(self).had_error,
            final(self).had_runtime_error == old(self).had_runtime_error,
    {
        let mut r = Vec::new();
        std::mem::swap(&mut r, &mut self.diagnostics);
        assert(self.log() =~= Seq::<Seq<char>>::empty());
        r
    }
}

fn quote_lexeme(lexeme: &String) -> (r: String)
    ensures
        r@ == quoted_place(lexeme@),
{
    let mut r = concat(" at '", lexeme.as_str());
    r.append("'");
    r
}

/// A failed grammar production: where, and why.
#[derive(Debug)]
pub struct ParseError {
    pub token: Token,
    pub message: String,
}

/// A fault during evaluation: the offending token, for its line, and a message.
#[derive(Debug)]
pub struct RuntimeError {
    pub token: Token,
    pub message: String,
}

} // verus!
