use rlox::TokenType as T;
use rlox::{
    bexpr, estmt, gexpr, lexpr, lgexpr, pstmt, uexpr, vdstmt, vexpr, wstmt, AstPrinter, ErrorReporter,
    Expr, Literal, Parser, Scanner, Stmt, Token, TokenType,
};

fn scan(source: &str) -> (Vec<Token>, ErrorReporter) {
    let mut scanner = Scanner::new(source);
    let tokens = scanner.scan_tokens();
    (tokens, scanner.take_error_reporter())
}

fn kinds(source: &str) -> Vec<TokenType> {
    scan(source).0.iter().map(|t| t.token_type).collect()
}

fn parse(source: &str) -> (Vec<Stmt>, ErrorReporter) {
    let (tokens, _) = scan(source);
    let mut parser = Parser::new(tokens);
    let statements = parser.parse();
    (statements, parser.take_error_reporter())
}

fn token(t: TokenType, lexeme: &str) -> Token {
    Token::new(t, lexeme, None, 1)
}

#[test]
fn empty_source_gives_only_eof() {
    let (tokens, reporter) = scan("");
    assert_eq!(tokens.len(), 1);
    assert_eq!(tokens[0].token_type, TokenType::Eof);
    assert_eq!(tokens[0].line, 1);
    assert!(!reporter.has_error());
}

#[test]
fn eof_stands_on_last_line() {
    let (tokens, _) = scan("a\nb\n\nc");
    assert_eq!(tokens.last().unwrap().token_type, TokenType::Eof);
    assert_eq!(tokens.last().unwrap().line, 4);
}

#[test]
fn scanner_survives_garbage() {
    let (tokens, reporter) = scan("#@$ \"open");
    assert_eq!(tokens.len(), 1);
    assert_eq!(tokens[0].token_type, TokenType::Eof);
    assert!(reporter.has_error());
    assert_eq!(
        reporter.diagnostics,
        vec![
            "[line 1] Error: Unexpected character: '#'",
            "[line 1] Error: Unexpected character: '@'",
            "[line 1] Error: Unexpected character: '$'",
            "[line 1] Error: Unterminated string.",
        ]
    );
}

#[test]
fn single_and_double_character_tokens() {
    assert_eq!(
        kinds("(){},.-+;*/ ! != = == < <= > >="),
        vec![
            T::LeftParen, T::RightParen, T::LeftBrace, T::RightBrace, T::Comma, T::Dot, T::Minus, T::Plus, T::Semicolon, T::Star,
            T::Slash, T::Bang, T::BangEqual, T::Equal, T::EqualEqual, T::Less, T::LessEqual, T::Greater, T::GreaterEqual, T::Eof
        ]
    );
}

#[test]
fn every_token_records_its_lexeme() {
    let (tokens, _) = scan("!= foo 12.5");
    let lexemes: Vec<&str> = tokens.iter().map(|t| t.lexeme.as_str()).collect();
    assert_eq!(lexemes, vec!["!=", "foo", "12.5", ""]);
}

#[test]
fn keywords_and_identifiers() {
    assert_eq!(
        kinds("and class else false fun for if nil or print return super this true var while _x1 android"),
        vec![
            T::And, T::Class, T::Else, T::False, T::Fun, T::For, T::If, T::Nil, T::Or, T::Print, T::Return, T::Super, T::This, T::True, T::Var,
            T::While, T::Identifier, T::Identifier, T::Eof
        ]
    );
}

#[test]
fn comments_are_skipped() {
    let (tokens, _) = scan("1 // two three\n/ 4");
    assert_eq!(tokens.iter().map(|t| t.token_type).collect::<Vec<_>>(), vec![T::Number, T::Slash, T::Number, T::Eof]);
    assert_eq!(tokens[1].line, 2);
}

#[test]
fn strings_with_either_quote_and_newlines() {
    let (tokens, _) = scan("\"a\nb\" 'c'");
    assert_eq!(tokens[0].token_type, TokenType::String);
    assert_eq!(tokens[0].literal, Some(Literal::String("a\nb".to_string())));
    assert_eq!(tokens[0].line, 2);
    assert_eq!(tokens[1].literal, Some(Literal::String("c".to_string())));
}

#[test]
fn numbers_and_trailing_point() {
    let (tokens, _) = scan("123 4.5 6.");
    assert_eq!(tokens[0].literal, Some(Literal::Number("123".to_string())));
    assert_eq!(tokens[1].literal, Some(Literal::Number("4.5".to_string())));
    assert_eq!(tokens.iter().map(|t| t.token_type).collect::<Vec<_>>(), vec![T::Number, T::Number, T::Number, T::Dot, T::Eof]);
}

#[test]
fn keyword_spellings_are_exact() {
    assert_eq!(kinds("For"), vec![TokenType::Identifier, TokenType::Eof]);
    assert_eq!(kinds("fo"), vec![TokenType::Identifier, TokenType::Eof]);
}

#[test]
fn parse_twice_gives_equal_trees() {
    let source = "fun f(a) { return a * 2; } var x = f(3) + 1; if (x > 2) print x; else { x = 0; }";
    let (first, r1) = parse(source);
    let (second, r2) = parse(source);
    assert!(!r1.has_error() && !r2.has_error());
    assert_eq!(first, second);
    assert_eq!(first.len(), 3);
}

#[test]
fn multiplication_binds_tighter_than_addition() {
    let (stmts, _) = parse("1 + 2 * 3;");
    let one = lexpr(Literal::Number("1".to_string()));
    let two = lexpr(Literal::Number("2".to_string()));
    let three = lexpr(Literal::Number("3".to_string()));
    let plus = Token::new(TokenType::Plus, "+", None, 1);
    let star = Token::new(TokenType::Star, "*", None, 1);
    assert_eq!(stmts, vec![estmt(bexpr(one, plus, bexpr(two, star, three)))]);
}

#[test]
fn or_binds_looser_than_and() {
    let (stmts, _) = parse("a or b and c;");
    let expected = lgexpr(
        vexpr(token(TokenType::Identifier, "a")),
        token(TokenType::Or, "or"),
        lgexpr(
            vexpr(token(TokenType::Identifier, "b")),
            token(TokenType::And, "and"),
            vexpr(token(TokenType::Identifier, "c")),
        ),
    );
    assert_eq!(stmts, vec![estmt(expected)]);
}

#[test]
fn for_loop_is_desugared() {
    let (stmts, reporter) = parse("for (var i = 0; i < 1; i = i + 1) print i;");
    assert!(!reporter.has_error());
    let i = || token(TokenType::Identifier, "i");
    let zero = lexpr(Literal::Number("0".to_string()));
    let one = || lexpr(Literal::Number("1".to_string()));
    let cond = bexpr(vexpr(i()), token(TokenType::Less, "<"), one());
    let inc = Expr::AssignExpr(i(), Box::new(bexpr(vexpr(i()), token(TokenType::Plus, "+"), one())));
    let body = Stmt::Block(vec![pstmt(vexpr(i())), estmt(inc)]);
    let expected = Stmt::Block(vec![vdstmt(i(), Some(zero)), wstmt(cond, body)]);
    assert_eq!(stmts, vec![expected]);
}

#[test]
fn for_without_condition_loops_on_true() {
    let (stmts, _) = parse("for (;;) print 1;");
    let expected = wstmt(lexpr(Literal::Boolean(true)), pstmt(lexpr(Literal::Number("1".to_string()))));
    assert_eq!(stmts, vec![expected]);
}

#[test]
fn return_without_value_is_nil() {
    let (stmts, _) = parse("fun f() { return; }");
    match &stmts[0] {
        Stmt::Function(name, params, body) => {
            assert_eq!(name.lexeme, "f");
            assert!(params.is_empty());
            assert_eq!(body, &vec![Stmt::Return(token(TokenType::Return, "return"), lexpr(Literal::Nil))]);
        }
        other => panic!("not a function: {:?}", other),
    }
}

#[test]
fn invalid_assignment_target_reported_without_recovery() {
    let (stmts, reporter) = parse("a + b = c; print 1;");
    assert!(reporter.has_error());
    assert_eq!(reporter.diagnostics, vec!["[line 1] Error at '=': Invalid assignment target."]);
    assert_eq!(stmts.len(), 2);
}

#[test]
fn recovery_reports_several_errors() {
    let (stmts, reporter) = parse("var 1; print 2; var = 3; print 4;");
    assert_eq!(
        reporter.diagnostics,
        vec!["[line 1] Error at '1': Expect variable name.", "[line 1] Error at '=': Expect variable name."]
    );
    assert_eq!(stmts.len(), 2);
}

#[test]
fn error_at_end_of_input() {
    let (_, reporter) = parse("print 1");
    assert_eq!(reporter.diagnostics, vec!["[line 1] Error at end: Expect ';' after value."]);
}

#[test]
fn missing_closing_paren_is_a_parse_error() {
    let (_, reporter) = parse("print (1;");
    assert_eq!(reporter.diagnostics, vec!["[line 1] Error at ';': Expect ')' after expression."]);
}

#[test]
fn too_many_arguments() {
    let args = vec!["1"; 256].join(", ");
    let (_, reporter) = parse(&format!("f({});", args));
    assert!(reporter.has_error());
    assert_eq!(reporter.diagnostics[0], "[line 1] Error at '1': Can't have more than 255 arguments.");
    let args = vec!["1"; 255].join(", ");
    let (_, reporter) = parse(&format!("f({});", args));
    assert!(!reporter.has_error());
}

#[test]
fn too_many_parameters_reported_and_parsing_goes_on() {
    let params: Vec<String> = (0..256).map(|i| format!("p{}", i)).collect();
    let (stmts, reporter) = parse(&format!("fun f({}) {{}} print 1;", params.join(", ")));
    assert_eq!(reporter.diagnostics, vec!["[line 1] Error at 'p255': Can't have more than 255 parameters"]);
    assert_eq!(stmts.len(), 2);
}

#[test]
fn printer_shows_prefix_form() {
    let expression = bexpr(
        uexpr(Token::new(TokenType::Minus, "-", None, 1), lexpr(Literal::Number("123".to_string()))),
        Token::new(TokenType::Star, "*", None, 1),
        gexpr(lexpr(Literal::Number("45.67".to_string()))),
    );
    assert_eq!(AstPrinter.print(&expression), "(* (- 123) (group 45.67))");
}

#[test]
fn printer_shows_calls_and_assignments() {
    let (stmts, _) = parse("x = f(1, \"s\", nil);");
    match &stmts[0] {
        Stmt::Expression(e) => assert_eq!(AstPrinter.print(e), "(= x (call f 1 \"s\" nil))"),
        other => panic!("not an expression: {:?}", other),
    }
}

#[test]
fn reporter_flags() {
    let mut reporter = ErrorReporter::new();
    assert!(!reporter.has_error() && !reporter.has_runtime_error());
    reporter.report(3, "", "bad");
    reporter.runtime_error(&Token::new(TokenType::Identifier, "v", None, 4), "worse");
    assert!(reporter.has_error() && reporter.has_runtime_error());
    reporter.reset();
    assert!(!reporter.has_error());
    assert!(reporter.has_runtime_error());
    assert_eq!(reporter.take_diagnostics(), vec!["[line 3] Error: bad", "[line 4] Error at 'v': worse"]);
    assert!(reporter.take_diagnostics().is_empty());
}

#[test]
fn reporter_line_numbers_in_decimal() {
    let mut reporter = ErrorReporter::new();
    reporter.report(1207, "", "m");
    reporter.error(&Token::new(TokenType::Eof, "", None, 90), "n");
    assert_eq!(reporter.diagnostics, vec!["[line 1207] Error: m", "[line 90] Error at end: n"]);
}

#[test]
fn token_kinds_follow_lexemes() {
    let (tokens, reporter) = scan("x>=1.25!'q r'");
    assert!(!reporter.has_error());
    let kinds: Vec<TokenType> = tokens.iter().map(|t| t.token_type).collect();
    assert_eq!(kinds, vec![T::Identifier, T::GreaterEqual, T::Number, T::Bang, T::String, T::Eof]);
    assert_eq!(tokens[1].lexeme, ">=");
    assert_eq!(tokens[2].literal, Some(Literal::Number("1.25".to_string())));
    assert_eq!(tokens[4].lexeme, "'q r'");
    assert_eq!(tokens[4].literal, Some(Literal::String("q r".to_string())));
    assert_eq!(tokens[0].literal, None);
}

#[test]
fn non_ascii_letters_are_unexpected() {
    let (tokens, reporter) = scan("é");
    assert_eq!(tokens.len(), 1);
    assert_eq!(reporter.diagnostics, vec!["[line 1] Error: Unexpected character: 'é'"]);
}

#[test]
fn syntax_error_is_reported_and_parsing_resumes() {
    let (stmts, reporter) = parse("print ; print 1;");
    assert!(reporter.has_error());
    assert_eq!(reporter.diagnostics, vec!["[line 1] Error at ';': Expected expression."]);
    assert_eq!(stmts, vec![pstmt(lexpr(Literal::Number("1".to_string())))]);
}
