use gem::common::{Expr, NumValue, Operation, ParseError, Stmt, Token};
use gem::lexer::Lexer;
use gem::parser::Parser;

fn parse_src(src: &str) -> Result<Stmt, ParseError> {
    let lexer = Lexer::new(src);
    let mut parser = Parser::new(lexer);
    parser.parse()
}

fn num(mantissa: u64, scale: usize) -> Expr {
    Expr::LitNum(NumValue { mantissa, scale })
}

fn var(name: &str) -> Expr {
    Expr::Variable(name.to_string())
}

fn bin(op: Operation, l: Expr, r: Expr) -> Expr {
    Expr::OpBinary(op, Box::new(l), Box::new(r))
}

fn program_of(stmts: Vec<Stmt>) -> Stmt {
    Stmt::Program(stmts)
}

fn expr_program(e: Expr) -> Stmt {
    program_of(vec![Stmt::Expr(e)])
}

#[test]
fn empty_program() {
    assert_eq!(parse_src(""), Ok(program_of(vec![])));
    assert_eq!(parse_src("   \n\t "), Ok(program_of(vec![])));
}

#[test]
fn precedence_mul_binds_tighter() {
    let expected = expr_program(bin(
        Operation::Add,
        var("a"),
        bin(Operation::Mul, var("b"), var("c")),
    ));
    assert_eq!(parse_src("a + b * c"), Ok(expected));
}

#[test]
fn precedence_div_before_minus() {
    let expected = expr_program(bin(
        Operation::Sub,
        bin(Operation::Div, var("a"), var("b")),
        var("c"),
    ));
    assert_eq!(parse_src("a / b - c"), Ok(expected));
}

#[test]
fn subtraction_is_left_associative() {
    let expected = expr_program(bin(
        Operation::Sub,
        bin(Operation::Sub, var("a"), var("b")),
        var("c"),
    ));
    assert_eq!(parse_src("a - b - c"), Ok(expected));
}

#[test]
fn multiplication_is_left_associative() {
    let expected = expr_program(bin(
        Operation::Mul,
        bin(Operation::Mul, var("a"), var("b")),
        var("c"),
    ));
    assert_eq!(parse_src("a * b * c"), Ok(expected));
}

#[test]
fn parentheses_override_precedence() {
    let expected = expr_program(bin(
        Operation::Mul,
        bin(Operation::Add, var("a"), var("b")),
        var("c"),
    ));
    assert_eq!(parse_src("(a + b) * c"), Ok(expected));
}

#[test]
fn nested_parentheses() {
    let expected = expr_program(bin(
        Operation::Mul,
        var("a"),
        bin(Operation::Add, var("b"), num(1, 0)),
    ));
    assert_eq!(parse_src("(a * ((b + 1)))"), Ok(expected));
}

#[test]
fn function_declaration_round_trip() {
    let expected = program_of(vec![Stmt::FunctionDecl(
        Expr::Null,
        "add".to_string(),
        vec!["x".to_string(), "y".to_string()],
        Box::new(program_of(vec![Stmt::Expr(bin(Operation::Add, var("x"), var("y")))])),
    )]);
    assert_eq!(parse_src("func add(x, y) { x + y }"), Ok(expected));
}

#[test]
fn function_declaration_without_parameters() {
    let expected = program_of(vec![Stmt::FunctionDecl(
        Expr::Null,
        "main".to_string(),
        vec![],
        Box::new(program_of(vec![])),
    )]);
    assert_eq!(parse_src("func main() {}"), Ok(expected));
}

#[test]
fn parameters_without_commas_are_collected() {
    let expected = program_of(vec![Stmt::FunctionDecl(
        Expr::Null,
        "f".to_string(),
        vec!["x".to_string(), "y".to_string()],
        Box::new(program_of(vec![])),
    )]);
    assert_eq!(parse_src("func f(x y) {}"), Ok(expected));
}

#[test]
fn variable_declaration_defaults_to_zero_literal() {
    let expected = program_of(vec![Stmt::VariableDecl("z".to_string(), num(0, 0))]);
    assert_eq!(parse_src("var z;"), Ok(expected));
}

#[test]
fn variable_declaration_with_initializer() {
    let expected = program_of(vec![Stmt::VariableDecl(
        "y".to_string(),
        num(314, 2),
    )]);
    assert_eq!(parse_src("var y = 3.14;"), Ok(expected));
}

#[test]
fn variable_declaration_with_string() {
    let expected = program_of(vec![Stmt::VariableDecl(
        "x".to_string(),
        Expr::LitStr("Hello, From x!".to_string()),
    )]);
    assert_eq!(parse_src("var x = \"Hello, From x!\";"), Ok(expected));
}

#[test]
fn call_without_arguments() {
    let expected = expr_program(Expr::FunctionCall("f".to_string(), vec![]));
    assert_eq!(parse_src("f()"), Ok(expected));
}

#[test]
fn call_with_nested_call_argument() {
    let expected = expr_program(Expr::FunctionCall(
        "f".to_string(),
        vec![num(1, 0), Expr::FunctionCall("g".to_string(), vec![num(2, 0)])],
    ));
    assert_eq!(parse_src("f(1, g(2))"), Ok(expected));
}

#[test]
fn call_argument_may_be_full_expression() {
    let expected = expr_program(Expr::FunctionCall(
        "f".to_string(),
        vec![bin(Operation::Add, var("a"), bin(Operation::Mul, var("b"), var("c")))],
    ));
    assert_eq!(parse_src("f(a + b * c)"), Ok(expected));
}

#[test]
fn statements_separated_by_semicolons() {
    let expected = program_of(vec![
        Stmt::Expr(var("a")),
        Stmt::Expr(var("b")),
    ]);
    assert_eq!(parse_src("a; b;"), Ok(expected));
}

#[test]
fn whole_program_structure() {
    let src = "\n        var x = \"Hello, From x!\";\n        var y = 3.14;\n\n        func add(x, y) {\n            x + y;\n        }\n\n        func foo(z, x) {\n            var w = 12;\n\n            z * add(x, z);\n        }\n\n        func main() {\n            foo(bar, 12);\n        }\n    ";
    let parsed = parse_src(src).unwrap();
    match parsed {
        Stmt::Program(stmts) => {
            assert_eq!(stmts.len(), 5);
            assert!(matches!(&stmts[0], Stmt::VariableDecl(n, _) if n == "x"));
            assert!(matches!(&stmts[1], Stmt::VariableDecl(n, _) if n == "y"));
            assert!(matches!(&stmts[2], Stmt::FunctionDecl(_, n, _, _) if n == "add"));
            assert!(matches!(&stmts[3], Stmt::FunctionDecl(_, n, _, _) if n == "foo"));
            match &stmts[4] {
                Stmt::FunctionDecl(ret, name, params, body) => {
                    assert_eq!(*ret, Expr::Null);
                    assert_eq!(name, "main");
                    assert!(params.is_empty());
                    match &**body {
                        Stmt::Program(inner) => {
                            assert_eq!(inner.len(), 1);
                            let call = Expr::FunctionCall(
                                "foo".to_string(),
                                vec![var("bar"), num(12, 0)],
                            );
                            assert_eq!(inner[0], Stmt::Expr(call));
                        }
                        other => panic!("main body is not a program: {:?}", other),
                    }
                }
                other => panic!("not a function declaration: {:?}", other),
            }
        }
        other => panic!("root is not a program: {:?}", other),
    }
}

#[test]
fn missing_function_name_is_an_expectation_failure() {
    assert_eq!(
        parse_src("func (x) {}"),
        Err(ParseError::ExpectedFunctionName(Token::ParenL))
    );
}

#[test]
fn missing_variable_name() {
    assert_eq!(
        parse_src("var 1;"),
        Err(ParseError::ExpectedVariableName(Token::LitNum(NumValue {
            mantissa: 1,
            scale: 0,
        })))
    );
}

#[test]
fn missing_parameter_name() {
    assert_eq!(
        parse_src("func f(x {})"),
        Err(ParseError::ExpectedParameterName(Token::BraceL))
    );
}

#[test]
fn missing_closing_paren() {
    assert_eq!(
        parse_src("(a"),
        Err(ParseError::ExpectedToken(Token::ParenR, Token::Eof))
    );
}

#[test]
fn missing_semicolon_after_declaration() {
    assert_eq!(
        parse_src("var x = 1"),
        Err(ParseError::ExpectedToken(Token::Semicolon, Token::Eof))
    );
}

#[test]
fn statement_cannot_begin_with_operator() {
    assert_eq!(parse_src("+ 1"), Err(ParseError::UnexpectedToken(Token::Plus)));
}

#[test]
fn stray_closing_brace_is_rejected() {
    assert_eq!(parse_src("}"), Err(ParseError::UnexpectedToken(Token::BraceR)));
}

#[test]
fn trailing_comma_in_arguments_is_rejected() {
    assert_eq!(parse_src("f(a,)"), Err(ParseError::UnexpectedToken(Token::ParenR)));
}

#[test]
fn unterminated_block_is_rejected() {
    assert_eq!(
        parse_src("func f() { x"),
        Err(ParseError::ExpectedToken(Token::BraceR, Token::Eof))
    );
}

#[test]
fn missing_argument_list_close() {
    assert_eq!(
        parse_src("f(a b"),
        Err(ParseError::ExpectedToken(Token::ParenR, Token::Identifier("b".to_string())))
    );
}
