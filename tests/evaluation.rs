use rlox::{Builtin, Function, Interpreter, Numeric, Object, Runner, Scopes, Token, TokenType};

/// Lox numbers as the host's 64-bit floats.
#[derive(Debug)]
struct F(f64);

impl Numeric for F {
    fn from_numeral(numeral: &str) -> Self {
        F(numeral.parse().expect("a numeral"))
    }
    fn duplicate(&self) -> Self {
        F(self.0)
    }
    fn plus(&self, other: &Self) -> Self {
        F(self.0 + other.0)
    }
    fn minus(&self, other: &Self) -> Self {
        F(self.0 - other.0)
    }
    fn times(&self, other: &Self) -> Self {
        F(self.0 * other.0)
    }
    fn divide(&self, other: &Self) -> Self {
        F(self.0 / other.0)
    }
    fn negate(&self) -> Self {
        F(-self.0)
    }
    fn less(&self, other: &Self) -> bool {
        self.0 < other.0
    }
    fn less_equal(&self, other: &Self) -> bool {
        self.0 <= other.0
    }
    fn greater(&self, other: &Self) -> bool {
        self.0 > other.0
    }
    fn greater_equal(&self, other: &Self) -> bool {
        self.0 >= other.0
    }
    fn equals(&self, other: &Self) -> bool {
        self.0 == other.0
    }
    fn render(&self) -> String {
        format!("{}", self.0)
    }
    fn clock() -> Self {
        F(1700000000.5)
    }
}

struct Outcome {
    printed: Vec<String>,
    diagnostics: Vec<String>,
    had_error: bool,
    had_runtime_error: bool,
}

fn run(source: &str) -> Outcome {
    let mut runner = Runner::new();
    let mut interpreter: Interpreter<F> = Interpreter::new();
    runner.run(source, &mut interpreter);
    Outcome {
        printed: interpreter.take_output(),
        diagnostics: runner.take_diagnostics(),
        had_error: runner.has_error(),
        had_runtime_error: runner.has_runtime_error(),
    }
}

fn printed(source: &str) -> Vec<String> {
    let o = run(source);
    assert!(o.diagnostics.is_empty(), "diagnostics: {:?}", o.diagnostics);
    o.printed
}

#[test]
fn print_sum() {
    assert_eq!(printed("print 1 + 2;"), vec!["3"]);
}

#[test]
fn block_shadows_outer_variable() {
    assert_eq!(printed("var a = 1; { var a = 2; print a; } print a;"), vec!["2", "1"]);
}

#[test]
fn closure_counter() {
    let source = "fun make() { var i = 0; fun inc() { i = i + 1; return i; } return inc; } \
                  var c = make(); print c(); print c(); print c();";
    assert_eq!(printed(source), vec!["1", "2", "3"]);
}

#[test]
fn for_loop_counts() {
    assert_eq!(printed("for (var i = 0; i < 3; i = i + 1) print i;"), vec!["0", "1", "2"]);
}

#[test]
fn plus_joins_string_and_number() {
    assert_eq!(printed("print \"hi\" + 1;"), vec!["hi1"]);
}

#[test]
fn plus_joins_other_kinds_as_text() {
    assert_eq!(printed("print \"a\" + true + nil;"), vec!["atruenil"]);
    assert_eq!(printed("print true + false;"), vec!["truefalse"]);
}

#[test]
fn uninitialized_variable_is_runtime_error() {
    let o = run("var x; print x;");
    assert!(o.printed.is_empty());
    assert!(o.had_runtime_error);
    assert!(!o.had_error);
    assert_eq!(o.diagnostics, vec!["[line 1] Error at 'x': Uninitialized variable 'x'."]);
}

#[test]
fn undefined_variable_is_runtime_error() {
    let o = run("print y;");
    assert!(o.had_runtime_error);
    assert_eq!(o.diagnostics, vec!["[line 1] Error at 'y': Undefined variable 'y'."]);
}

#[test]
fn function_call_with_arguments() {
    assert_eq!(printed("fun f(a, b) { return a - b; } print f(5, 2);"), vec!["3"]);
}

#[test]
fn wrong_arity_is_runtime_error() {
    let o = run("fun f(a, b) { return a - b; } f(1);");
    assert!(o.had_runtime_error);
    assert_eq!(o.diagnostics, vec!["[line 1] Error at ')': Expected 2 arguments but got 1."]);
}

#[test]
fn precedence_of_operators() {
    assert_eq!(printed("print 1 + 2 * 3;"), vec!["7"]);
    assert_eq!(printed("print (1 + 2) * 3;"), vec!["9"]);
    assert_eq!(printed("print 10 - 4 - 3;"), vec!["3"]);
    assert_eq!(printed("print 2 * 3 < 7 == true;"), vec!["true"]);
    assert_eq!(printed("print -2 * -3;"), vec!["6"]);
}

#[test]
fn or_skips_right_operand_when_left_is_truthy() {
    let source = "var x = 0; fun touch() { x = 1; return true; } \
                  print true or touch(); print x; print false or touch(); print x;";
    assert_eq!(printed(source), vec!["true", "0", "true", "1"]);
}

#[test]
fn and_skips_right_operand_when_left_is_falsy() {
    let source = "var x = 0; fun touch() { x = 1; return 2; } \
                  print nil and touch(); print x; print 1 and touch(); print x;";
    assert_eq!(printed(source), vec!["nil", "0", "2", "1"]);
}

#[test]
fn free_variables_resolve_in_defining_scope() {
    let source = "var a = \"global\"; fun show() { print a; } \
                  fun caller() { var a = \"local\"; show(); } caller();";
    assert_eq!(printed(source), vec!["global"]);
}

#[test]
fn block_variable_is_invisible_outside() {
    let o = run("{ var inner = 1; } print inner;");
    assert!(o.had_runtime_error);
    assert_eq!(o.diagnostics, vec!["[line 1] Error at 'inner': Undefined variable 'inner'."]);
}

#[test]
fn assignment_in_block_updates_outer_binding() {
    assert_eq!(printed("var a = 1; { a = 2; } print a;"), vec!["2"]);
}

#[test]
fn equality_of_values() {
    let source = "print nil == nil; print 1 == \"1\"; print \"a\" == \"a\"; \
                  print (0/0) == (0/0); print 1 == 1; print true != false; \
                  fun f() {} print f == f; print nil == false;";
    assert_eq!(
        printed(source),
        vec!["true", "false", "true", "false", "true", "true", "true", "false"]
    );
}

#[test]
fn division_by_zero_follows_floats() {
    assert_eq!(printed("print 1 / 0; print -1 / 0;"), vec!["inf", "-inf"]);
}

#[test]
fn printing_functions() {
    assert_eq!(printed("fun f() {} print f; print clock;"), vec!["<fn f>", "<native fn clock>"]);
}

#[test]
fn clock_is_callable() {
    assert_eq!(printed("print clock() > 0;"), vec!["true"]);
}

#[test]
fn function_without_return_gives_nil() {
    assert_eq!(printed("fun f() { 1; } print f(); fun g() { return; } print g();"), vec!["nil", "nil"]);
}

#[test]
fn return_leaves_only_the_inner_call() {
    let source = "fun inner() { return 1; } fun outer() { var v = inner(); return v + 1; } print outer();";
    assert_eq!(printed(source), vec!["2"]);
}

#[test]
fn recursion_works() {
    let source = "fun fib(n) { if (n < 2) return n; return fib(n - 1) + fib(n - 2); } print fib(15);";
    assert_eq!(printed(source), vec!["610"]);
}

#[test]
fn while_and_if_else() {
    let source = "var i = 0; while (i < 3) { if (i == 1) print \"one\"; else print i; i = i + 1; }";
    assert_eq!(printed(source), vec!["0", "one", "2"]);
}

#[test]
fn runtime_error_stops_remaining_statements() {
    let o = run("print 1; print -\"a\"; print 2;");
    assert_eq!(o.printed, vec!["1"]);
    assert_eq!(o.diagnostics, vec!["[line 1] Error at '-': operands must be numeric for operation"]);
}

#[test]
fn comparison_needs_numbers() {
    let o = run("print 1 < \"2\";");
    assert!(o.had_runtime_error);
    assert_eq!(o.diagnostics, vec!["[line 1] Error at '<': operands must be numeric for operation"]);
}

#[test]
fn calling_a_non_function_fails() {
    let o = run("\"text\"();");
    assert_eq!(o.diagnostics, vec!["[line 1] Error at ')': Can only call functions or classes."]);
}

#[test]
fn assigning_undeclared_variable_fails() {
    let o = run("z = 1;");
    assert_eq!(o.diagnostics, vec!["[line 1] Error at 'z': Undefined variable 'z'."]);
}

#[test]
fn top_level_return_is_reported() {
    let o = run("return 1; print 2;");
    assert!(o.printed.is_empty());
    assert_eq!(o.diagnostics, vec!["[line 1] Error at 'return': Can't return from top-level code."]);
}

#[test]
fn parse_error_prevents_evaluation() {
    let o = run("print 1; var = 2;");
    assert!(o.had_error);
    assert!(!o.had_runtime_error);
    assert!(o.printed.is_empty());
    assert_eq!(o.diagnostics, vec!["[line 1] Error at '=': Expect variable name."]);
}

#[test]
fn scan_error_prevents_evaluation() {
    let o = run("print 1; @");
    assert!(o.had_error);
    assert!(o.printed.is_empty());
    assert_eq!(o.diagnostics, vec!["[line 1] Error: Unexpected character: '@'"]);
}

#[test]
fn globals_persist_between_runs() {
    let mut runner = Runner::new();
    let mut interpreter: Interpreter<F> = Interpreter::new();
    runner.run("var a = 40;", &mut interpreter);
    runner.run("print a + 2;", &mut interpreter);
    assert_eq!(interpreter.take_output(), vec!["42"]);
    runner.run("print ;", &mut interpreter);
    assert!(runner.has_error());
    runner.reset();
    assert!(!runner.has_error());
    runner.run("print a;", &mut interpreter);
    assert_eq!(interpreter.take_output(), vec!["40"]);
}

#[test]
fn line_numbers_in_runtime_errors() {
    let o = run("var a = 1;\n\nprint b;");
    assert_eq!(o.diagnostics, vec!["[line 3] Error at 'b': Undefined variable 'b'."]);
}

#[test]
fn many_loop_iterations() {
    assert_eq!(printed("var s = 0; for (var i = 0; i < 10000; i = i + 1) s = s + i; print s;"), vec!["49995000"]);
}

fn name(text: &str) -> Token {
    Token::new(TokenType::Identifier, text, None, 1)
}

fn text_of(value: Result<Object<F>, rlox::RuntimeError>) -> String {
    match value {
        Ok(Object::String(s)) => s,
        Ok(other) => panic!("not a string: {:?}", std::mem::discriminant(&other)),
        Err(e) => panic!("error: {}", e.message),
    }
}

#[test]
fn scopes_define_get_and_shadow() {
    let mut scopes: Scopes<F> = Scopes::new();
    scopes.define(0, &name("a"), Some(Object::String("outer".to_string())));
    let inner = scopes.push(0);
    assert_eq!(inner, 1);
    assert_eq!(text_of(scopes.get(inner, &name("a"))), "outer");
    scopes.define(inner, &name("a"), Some(Object::String("inner".to_string())));
    assert_eq!(text_of(scopes.get(inner, &name("a"))), "inner");
    assert_eq!(text_of(scopes.get(0, &name("a"))), "outer");
}

#[test]
fn scopes_assign_reaches_enclosing_binding() {
    let mut scopes: Scopes<F> = Scopes::new();
    scopes.define(0, &name("a"), Some(Object::String("one".to_string())));
    let inner = scopes.push(0);
    assert!(scopes.assign(inner, &name("a"), Object::String("two".to_string())).is_ok());
    assert_eq!(text_of(scopes.get(0, &name("a"))), "two");
    let e = scopes.assign(inner, &name("missing"), Object::Nil).unwrap_err();
    assert_eq!(e.message, "Undefined variable 'missing'.");
}

#[test]
fn scopes_distinguish_uninitialized_from_undefined() {
    let mut scopes: Scopes<F> = Scopes::new();
    scopes.define(0, &name("x"), None);
    assert_eq!(scopes.get(0, &name("x")).unwrap_err().message, "Uninitialized variable 'x'.");
    assert_eq!(scopes.get(0, &name("y")).unwrap_err().message, "Undefined variable 'y'.");
}

#[test]
fn scopes_truncate_drops_later_scopes() {
    let mut scopes: Scopes<F> = Scopes::new();
    let inner = scopes.push(0);
    scopes.define(inner, &name("t"), Some(Object::Boolean(true)));
    scopes.truncate(1);
    assert_eq!(scopes.envs.len(), 1);
    assert!(scopes.get(0, &name("t")).is_err());
}

#[test]
fn print_value_writes_one_line() {
    let mut interpreter: Interpreter<F> = Interpreter::new();
    interpreter.print_value(&Object::Boolean(false));
    interpreter.print_value(&Object::Nil);
    interpreter.print_value(&Object::Number(F(2.5)));
    interpreter.print_value(&Object::Callable(Function::Native(Builtin::Clock)));
    assert_eq!(interpreter.take_output(), vec!["false", "nil", "2.5", "<native fn clock>"]);
}

#[test]
fn native_clock_takes_no_arguments() {
    let interpreter: Interpreter<F> = Interpreter::new();
    assert_eq!(Function::Native(Builtin::Clock).arity(&interpreter), 0);
    let o = run("clock(1);");
    assert_eq!(o.diagnostics, vec!["[line 1] Error at ')': Expected 0 arguments but got 1."]);
}

#[test]
fn nested_closures_keep_separate_state() {
    let source = "fun counter() { var n = 0; fun next() { n = n + 1; return n; } return next; } \
                  var a = counter(); var b = counter(); a(); a(); print a(); print b();";
    assert_eq!(printed(source), vec!["3", "1"]);
}

#[test]
fn shadowed_parameter_and_recursion_through_globals() {
    let source = "fun even(n) { if (n == 0) return true; return odd(n - 1); } \
                  fun odd(n) { if (n == 0) return false; return even(n - 1); } print even(10); print odd(7);";
    assert_eq!(printed(source), vec!["true", "true"]);
}
