use monkey_interpreter::ast::{Expression, InfixOperator, PrefixOperator, Program, Statement};
use monkey_interpreter::lexer::Lexer;
use monkey_interpreter::parser::{
    Parser, ParserError, EXPECTED_EXPRESSION, INTEGER_OUT_OF_RANGE,
};
use monkey_interpreter::token::Token;

fn print_errors(parser: &Parser) {
    let errors = parser.errors();
    if errors.is_empty() {
        return;
    }
    println!("Parser has {} error(s):", errors.len());
    for (i, error) in errors.iter().enumerate() {
        println!("\t{i}: {error:?}");
    }
}

fn integer(v: i32) -> Expression<'static> {
    Expression::Integer(v)
}

fn ident(name: &str) -> Expression<'_> {
    Expression::Identifier(name)
}

fn infix<'a>(left: Expression<'a>, op: InfixOperator, right: Expression<'a>) -> Expression<'a> {
    Expression::Infix(Box::new(left), op, Box::new(right))
}

fn prefix(op: PrefixOperator, operand: Expression<'_>) -> Expression<'_> {
    Expression::Prefix(op, Box::new(operand))
}

fn parse(input: &str) -> (Program<'_>, Vec<ParserError<'_>>) {
    let mut parser = Parser::new(Lexer::new(input));
    let program = parser.parse_program();
    let errors = parser.errors().clone();
    (program, errors)
}

#[test]
fn visible_test_parser() {
    let input: &str = "let x = 5;
    let y = 10;
    let foobar = 838383;";
    let lexer: Lexer = Lexer::new(input);
    let mut parser: Parser = Parser::new(lexer);

    let program: Program = parser.parse_program();
    print_errors(&parser);

    program
        .statements
        .into_iter()
        .for_each(|statement: Statement| {
            println!("{:?}", statement);
        })
}

#[test]
fn test_let_statements() {
    let input: &str = "let x = 5;
    let y = 10;
    let foobar = 838383;";

    let lexer: Lexer = Lexer::new(input);
    let mut parser: Parser = Parser::new(lexer);

    let program: Program = parser.parse_program();
    print_errors(&parser);

    let tests: Vec<&str> = vec!["x", "y", "foobar"];

    tests
        .into_iter()
        .enumerate()
        .for_each(|statement: (usize, &str)| {
            if let Some(Statement::Let(x, _)) = Some(program.statements[statement.0].clone()) {
                assert_eq!(x, statement.1);
            }
        });
}

#[test]
fn test_errors() {
    let input: &str = "let x 5 5;";

    let lexer: Lexer = Lexer::new(input);
    let mut parser: Parser = Parser::new(lexer);

    parser.parse_program();
    print_errors(&parser);
    println!("{:?}", parser.errors())
}

#[test]
fn let_statements_carry_their_initializers() {
    let (program, errors) = parse("let x = 5;\nlet y = 10;\nlet foobar = 838383;\nlet z = y;");
    assert!(errors.is_empty());
    assert_eq!(
        program.statements,
        vec![
            Statement::Let("x", Expression::Integer(5)),
            Statement::Let("y", Expression::Integer(10)),
            Statement::Let("foobar", Expression::Integer(838383)),
            Statement::Let("z", Expression::Identifier("y")),
        ]
    );
}

#[test]
fn missing_assign_is_one_error() {
    let (program, errors) = parse("let x 5;");
    assert!(program.statements.is_empty());
    assert_eq!(errors, vec![ParserError::ExpectedAssign(Token::Integer("5"))]);
}

#[test]
fn parsing_resumes_after_a_bad_statement() {
    let (program, errors) = parse("let x 5; let y = 10;");
    assert_eq!(errors, vec![ParserError::ExpectedAssign(Token::Integer("5"))]);
    assert_eq!(program.statements, vec![Statement::Let("y", Expression::Integer(10))]);
}

#[test]
fn error_with_two_stray_tokens() {
    let (program, errors) = parse("let x 5 5;");
    assert!(program.statements.is_empty());
    assert_eq!(errors, vec![ParserError::ExpectedAssign(Token::Integer("5"))]);
}

#[test]
fn empty_input_parses_to_nothing() {
    let (program, errors) = parse("");
    assert!(program.statements.is_empty());
    assert!(errors.is_empty());
    let (program, errors) = parse("  \n ");
    assert!(program.statements.is_empty());
    assert!(errors.is_empty());
}

#[test]
fn statement_not_starting_with_let() {
    let (program, errors) = parse("5; return x; let a = b;");
    assert_eq!(
        errors,
        vec![
            ParserError::ExpectedLet(Token::Integer("5")),
            ParserError::ExpectedLet(Token::Return),
        ]
    );
    assert_eq!(program.statements, vec![Statement::Let("a", Expression::Identifier("b"))]);
}

#[test]
fn missing_identifier() {
    let (program, errors) = parse("let 5 = 1; let ok = 2;");
    assert_eq!(errors, vec![ParserError::ExpectedIdentifier(Token::Integer("5"))]);
    assert_eq!(program.statements, vec![Statement::Let("ok", Expression::Integer(2))]);
}

#[test]
fn error_token_that_is_a_semicolon_ends_the_statement() {
    let (program, errors) = parse("let ; let y = 1;");
    assert_eq!(errors, vec![ParserError::ExpectedIdentifier(Token::Semicolon)]);
    assert_eq!(program.statements, vec![Statement::Let("y", Expression::Integer(1))]);

    let (program, errors) = parse("let x = ; let y = 2;");
    assert_eq!(errors, vec![ParserError::Unknown(EXPECTED_EXPRESSION)]);
    assert_eq!(program.statements, vec![Statement::Let("y", Expression::Integer(2))]);
}

#[test]
fn missing_semicolon() {
    let (program, errors) = parse("let x = 5 6; let y = 4;");
    assert_eq!(errors, vec![ParserError::ExpectedSemiColon(Token::Integer("6"))]);
    assert_eq!(program.statements, vec![Statement::Let("y", integer(4))]);

    let (program, errors) = parse("let x = 5");
    assert!(program.statements.is_empty());
    assert_eq!(errors, vec![ParserError::ExpectedSemiColon(Token::EndOfFile)]);
}

#[test]
fn input_ending_inside_a_statement() {
    let (program, errors) = parse("let x");
    assert!(program.statements.is_empty());
    assert_eq!(errors, vec![ParserError::ExpectedAssign(Token::EndOfFile)]);

    let (_, errors) = parse("let");
    assert_eq!(errors, vec![ParserError::ExpectedIdentifier(Token::EndOfFile)]);

    let (_, errors) = parse("let x = 1 +");
    assert_eq!(errors, vec![ParserError::Unknown(EXPECTED_EXPRESSION)]);
}

#[test]
fn operator_initializers() {
    let (program, errors) = parse("let x = 5 + 3; let y = -5; let z = !ok;");
    assert!(errors.is_empty());
    assert_eq!(
        program.statements,
        vec![
            Statement::Let("x", infix(integer(5), InfixOperator::Add, integer(3))),
            Statement::Let("y", prefix(PrefixOperator::Negate, integer(5))),
            Statement::Let("z", prefix(PrefixOperator::Not, ident("ok"))),
        ]
    );
}

#[test]
fn precedence_and_associativity() {
    let (program, errors) = parse(
        "let a = 1 + 2 * 3; let b = a - b - c; let c = -a * b; let d = 1 < 2 == 3 > 4; let e = x / y + z != w;",
    );
    assert!(errors.is_empty());
    assert_eq!(
        program.statements,
        vec![
            Statement::Let(
                "a",
                infix(integer(1), InfixOperator::Add, infix(integer(2), InfixOperator::Multiply, integer(3)))
            ),
            Statement::Let(
                "b",
                infix(
                    infix(ident("a"), InfixOperator::Subtract, ident("b")),
                    InfixOperator::Subtract,
                    ident("c")
                )
            ),
            Statement::Let(
                "c",
                infix(prefix(PrefixOperator::Negate, ident("a")), InfixOperator::Multiply, ident("b"))
            ),
            Statement::Let(
                "d",
                infix(
                    infix(integer(1), InfixOperator::LessThan, integer(2)),
                    InfixOperator::Equal,
                    infix(integer(3), InfixOperator::GreaterThan, integer(4))
                )
            ),
            Statement::Let(
                "e",
                infix(
                    infix(
                        infix(ident("x"), InfixOperator::Divide, ident("y")),
                        InfixOperator::Add,
                        ident("z")
                    ),
                    InfixOperator::NotEqual,
                    ident("w")
                )
            ),
        ]
    );
}

#[test]
fn parentheses_group() {
    let (program, errors) = parse("let a = (1 + 2) * 3; let b = -(x); let c = ((y));");
    assert!(errors.is_empty());
    assert_eq!(
        program.statements,
        vec![
            Statement::Let(
                "a",
                infix(infix(integer(1), InfixOperator::Add, integer(2)), InfixOperator::Multiply, integer(3))
            ),
            Statement::Let("b", prefix(PrefixOperator::Negate, ident("x"))),
            Statement::Let("c", ident("y")),
        ]
    );
}

#[test]
fn unclosed_parenthesis() {
    let (program, errors) = parse("let a = (1 + 2; let b = 3;");
    assert_eq!(errors, vec![ParserError::ExpectedRParenthesis(Token::Semicolon)]);
    assert_eq!(program.statements, vec![Statement::Let("b", integer(3))]);

    let (_, errors) = parse("let a = (1 2); let b = 3;");
    assert_eq!(errors, vec![ParserError::ExpectedRParenthesis(Token::Integer("2"))]);
}

#[test]
fn unsupported_initializer_is_one_error() {
    let (program, errors) = parse("let add = fn(x, y) { x + y }; let r = 1;");
    assert_eq!(errors, vec![ParserError::Unknown(EXPECTED_EXPRESSION)]);
    assert_eq!(program.statements, vec![Statement::Let("r", integer(1))]);
}

#[test]
fn recovery_leaves_later_statements_alone() {
    let (program, errors) = parse("let x 5; let z = 5 + 3;");
    assert_eq!(errors, vec![ParserError::ExpectedAssign(Token::Integer("5"))]);
    assert_eq!(
        program.statements,
        vec![Statement::Let("z", infix(integer(5), InfixOperator::Add, integer(3)))]
    );
}

#[test]
fn a_failed_statement_consumes_only_up_to_the_offending_token() {
    let mut parser = Parser::new(Lexer::new("let 5 = x;"));
    assert_eq!(
        parser.parse_statement(),
        Err(ParserError::ExpectedIdentifier(Token::Integer("5")))
    );
    assert_eq!(parser.parse_statement(), Err(ParserError::ExpectedLet(Token::Assign)));

    let mut parser = Parser::new(Lexer::new("let x 5; y"));
    assert_eq!(
        parser.parse_statement(),
        Err(ParserError::ExpectedAssign(Token::Integer("5")))
    );
    assert_eq!(parser.parse_statement(), Err(ParserError::ExpectedLet(Token::Semicolon)));
}

#[test]
fn integer_initializer_range() {
    let (program, errors) = parse("let big = 2147483647;");
    assert!(errors.is_empty());
    assert_eq!(program.statements, vec![Statement::Let("big", Expression::Integer(2147483647))]);

    let (program, errors) = parse("let bigger = 2147483648; let z = 0;");
    assert_eq!(errors, vec![ParserError::Unknown(INTEGER_OUT_OF_RANGE)]);
    assert_eq!(program.statements, vec![Statement::Let("z", Expression::Integer(0))]);

    let (_, errors) = parse("let huge = 99999999999999999999999;");
    assert_eq!(errors, vec![ParserError::Unknown(INTEGER_OUT_OF_RANGE)]);
}

#[test]
fn statements_parse_one_at_a_time() {
    let mut parser = Parser::new(Lexer::new("let a = 1; oops; let b = c;"));
    assert_eq!(parser.parse_statement(), Ok(Statement::Let("a", Expression::Integer(1))));
    assert_eq!(
        parser.parse_statement(),
        Err(ParserError::ExpectedLet(Token::Identifier("oops")))
    );
    assert_eq!(parser.parse_statement(), Err(ParserError::ExpectedLet(Token::Semicolon)));
    assert_eq!(parser.parse_statement(), Ok(Statement::Let("b", Expression::Identifier("c"))));
    assert!(parser.errors().is_empty());
}

#[test]
fn new_program_is_empty() {
    assert!(Program::new().statements.is_empty());
    assert_eq!(Program::default(), Program::new());
}
