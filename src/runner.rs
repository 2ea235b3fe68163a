//! Runs one source text through scanning, parsing and evaluation.
use vstd::prelude::*;

use crate::error::ErrorReporter;
use crate::interpreter::Interpreter;
use crate::parser::Parser;
use crate::grammar::{program, stmt_trees, StmtTree};
use crate::scanner::{lexed, line_at, views, Scanner};
use crate::semantics::{interprets, Trace};
use crate::token::{Token, TokenType};
use crate::value::Numeric;

verus! {

/// `toks` are the tokens scanning `source` gives: the lexer's, then `Eof` on
/// the last line.
pub open spec fn scanned_source(source: Seq<char>, toks: Seq<Token>) -> bool {
    views(toks) == lexed(source, 0).tokens + seq![
        (TokenType::Eof, Seq::<char>::empty(), line_at(source, source.len() as int)),
    ]
}

/// `a` and `b` are the same interpreter state but for the reporter.
pub open spec fn same_but_reporter<N: Numeric>(a: Interpreter<N>, b: Interpreter<N>) -> bool {
    a == (Interpreter { reporter: a.reporter, ..b })
}

/// The program ran: from the interpreter state `before`, with the reporter
/// `log`, to `after` with reporter `reporter`, as `interprets` says.
pub open spec fn ran_program<N: Numeric>(
    stmts: Seq<StmtTree>,
    log: ErrorReporter,
    before: Interpreter<N>,
    reporter: ErrorReporter,
    after: Interpreter<N>,
) -> bool {
    exists|s: Interpreter<N>, t: Interpreter<N>, w: Trace<N>, stopped: bool|
        #[trigger] interprets(s, stmts, t, stopped, w) && same_but_reporter(s, before)
            && s.reporter.log() == log.log() && !s.reporter.had_error && same_but_reporter(after, t)
            && reporter == t.reporter
}

/// What running `source`, scanned into `toks`, did: a syntax error is reported
/// and nothing runs; with no lexical or syntax error, the program the grammar
/// derives runs.
pub open spec fn ran<N: Numeric>(
    source: Seq<char>,
    toks: Seq<Token>,
    log: ErrorReporter,
    before: Interpreter<N>,
    reporter: ErrorReporter,
    after: Interpreter<N>,
) -> bool {
    let prog = program(toks, 0);
    let lexical = lexed(source, 0).notes.len() > 0;
    &&& !lexical && prog.notes.len() > 0 ==> reporter.had_error && after == before
        && reporter.log() == log.log() + prog.notes
    &&& !lexical && prog.notes.len() == 0 ==> ran_program(prog.statements, log, before, reporter, after)
}

/// Drives source texts through the three stages, sharing one reporter.
pub struct Runner {
    error_reporter: ErrorReporter,
}

impl Runner {
    pub closed spec fn reporter(&self) -> ErrorReporter {
        self.error_reporter
    }

    pub fn new() -> (r: Runner)
        ensures
            !r.reporter().had_error,
            !r.reporter().had_runtime_error,
            r.reporter().log() == Seq::<Seq<char>>::empty(),
    {
        Runner { error_reporter: ErrorReporter::new() }
    }

    fn take_reporter(&mut self) -> (r: ErrorReporter)
        ensures
            r == old(self).reporter(),
    {
        let mut r = ErrorReporter::new();
        std::mem::swap(&mut r, &mut self.error_reporter);
        r
    }

    /// Scans, parses and evaluates `source` with `interpreter`. A lexical or
    /// syntactic error stops the run before evaluation: the interpreter is then
    /// left untouched.
    pub fn run<N: Numeric>(&mut self, source: &str, interpreter: &mut Interpreter<N>)
        requires
            source@.len() < usize::MAX,
            old(interpreter).wf(),
        ensures
            final(interpreter).wf(),
            final(interpreter).scope() == old(interpreter).scope(),
            old(self).reporter().had_error ==> final(self).reporter().had_error,
            final(self).reporter().had_error ==> *final(interpreter) == *old(interpreter),
            lexed(source@, 0).notes.len() > 0 ==> final(self).reporter().log() == old(
                self,
            ).reporter().log() + lexed(source@, 0).notes,
            old(self).reporter().had_runtime_error ==> final(self).reporter().had_runtime_error,
            !old(self).reporter().had_error ==> exists|toks: Seq<Token>|
                #[trigger] scanned_source(source@, toks) && ran(
                    source@,
                    toks,
                    old(self).reporter(),
                    *old(interpreter),
                    final(self).reporter(),
                    *final(interpreter),
                ),
    {
        let mut scanner = Scanner::new(source);
        scanner.set_error_reporter(self.take_reporter());
        let tokens = scanner.scan_tokens();
        let ghost toks = tokens@;
        proof {
            assert(views(Seq::<Token>::empty()) =~= Seq::empty());
            assert(views(Seq::<Token>::empty()) + lexed(source@, 0).tokens =~= lexed(source@, 0).tokens);
            assert(scanned_source(source@, toks));
        }
        self.error_reporter = scanner.take_error_reporter();
        if self.error_reporter.has_error() {
            proof {
                if !old(self).reporter().had_error {
                    assert(ran(source@, toks, old(self).reporter(), *old(interpreter), self.reporter(), *interpreter));
                }
            }
            return;
        }
        let ghost after_scan = self.error_reporter;
        let mut parser = Parser::new(tokens);
        parser.set_error_reporter(self.take_reporter());
        let statements = parser.parse();
        self.error_reporter = parser.take_error_reporter();
        if self.error_reporter.has_error() {
            proof {
                assert(self.error_reporter.log() =~= old(self).reporter().log() + program(toks, 0).notes);
                assert(ran(source@, toks, old(self).reporter(), *old(interpreter), self.reporter(), *interpreter));
            }
            return;
        }
        proof {
            assert(self.error_reporter.log() =~= old(self).reporter().log());
        }
        let ghost before = *interpreter;
        interpreter.set_error_reporter(self.take_reporter());
        let ghost s_in = *interpreter;
        interpreter.interpret(&statements);
        let ghost t = *interpreter;
        let ghost (w, stopped) = choose|w: Trace<N>, stopped: bool| #[trigger] interprets(s_in, stmt_trees(statements@), t, stopped, w);
        self.error_reporter = interpreter.take_error_reporter();
        proof {
            assert(interprets(s_in, program(toks, 0).statements, t, stopped, w));
            assert(same_but_reporter(s_in, *old(interpreter)));
            assert(same_but_reporter(*interpreter, t));
            assert(s_in.reporter.log() == old(self).reporter().log());
            assert(!s_in.reporter.had_error);
            assert(self.reporter() == t.reporter);
            assert(ran_program(program(toks, 0).statements, old(self).reporter(), *old(interpreter), self.reporter(), *interpreter));
            assert(ran(source@, toks, old(self).reporter(), *old(interpreter), self.reporter(), *interpreter));
        }
    }

    pub fn has_error(&self) -> (r: bool)
        ensures
            r == self.reporter().had_error,
    {
        self.error_reporter.has_error()
    }

    pub fn has_runtime_error(&self) -> (r: bool)
        ensures
            r == self.reporter().had_runtime_error,
    {
        self.error_reporter.has_runtime_error()
    }

    /// Clears the lexical and syntactic flag, as between lines of a session.
    pub fn reset(&mut self)
        ensures
            !final(self).reporter().had_error,
            final(self).reporter().had_runtime_error == old(self).reporter().had_runtime_error,
    {
        self.error_reporter.reset();
    }

    /// Hands out the diagnostics reported so far and forgets them.
    pub fn take_diagnostics(&mut self) -> (r: Vec<String>)
        ensures
            r@.map_values(|s: String| s@) == old(self).reporter().log(),
            final(self).reporter().log() == Seq::<Seq<char>>::empty(),
            final(self).reporter().had_error == old(self).reporter().had_error,
            final(self).reporter().had_runtime_error == old(self).reporter().had_runtime_error,
    {
        self.error_reporter.take_diagnostics()
    }
}

} // verus!
