use minilang::ast::{Expression, Node, Statement};
use minilang::parser::Parser;

#[test]
fn test_let_statements() {
    let input = "
        let x = 5;
        let y = 10;
        let foobar = 3141259265;
        ";
    let mut parser = Parser::new(input);
    let program = parser.parse_program();
    assert!(
        parser.errors.is_empty(),
        "parser has {} errors:\n{}",
        parser.errors.len(),
        parser.errors.join("\n")
    );
    assert!(program.is_some(), "parser.parse_program returned None");
    assert_eq!(
        program.unwrap().statements.len(),
        3,
        "program.statements dows not contain three statements"
    );
}

#[test]
fn test_return_statement() {
    let input = "
        return 10;
        return 8 + 9;
        return double(5);
        ";
    let mut parser = Parser::new(input);
    let program = parser.parse_program();
    assert!(program.is_some(), "parser.parse_program returned None");
    assert!(
        program.unwrap().statements.len() == 3,
        "expected 3 statements"
    );
}

#[test]
fn test_identifier_statement() {
    let input = "foobar;";
    let mut parser = Parser::new(input);
    let program = parser.parse_program().unwrap();
    let stmt = program.statements.first().unwrap();
    assert_eq!(stmt.token_literal(), "foobar");
}

#[test]
fn test_let_statement_names_in_order() {
    let input = "let x = 5; let y = 10; let pi = 314159;";
    let mut parser = Parser::new(input);
    let program = parser.parse_program().expect("expected a program");
    assert!(parser.errors.is_empty());
    assert_eq!(program.statements.len(), 3);
    let expected_names = ["x", "y", "pi"];
    for (stmt, expected) in program.statements.iter().zip(expected_names) {
        match stmt {
            Statement::LetStmt(ls) => {
                assert_eq!(ls.name.value, expected);
                assert_eq!(ls.token_literal(), "let");
            }
            other => panic!("expected a let statement, got {other:?}"),
        }
    }
}

#[test]
fn test_let_missing_identifier_reports_error() {
    let input = "let x = 5; let = 314159;";
    let mut parser = Parser::new(input);
    let _ = parser.parse_program();
    assert!(
        parser
            .errors
            .iter()
            .any(|e| e == "expected next token to be Identifier, got Assign instead"),
        "errors were: {:?}",
        parser.errors
    );
}

#[test]
fn test_return_statements_token_literal() {
    let input = "return true; return 10; return 1 + 4;";
    let mut parser = Parser::new(input);
    let program = parser.parse_program().expect("expected a program");
    assert!(parser.errors.is_empty());
    assert_eq!(program.statements.len(), 3);
    for stmt in &program.statements {
        assert_eq!(stmt.token_literal(), "return");
    }
}

#[test]
fn test_operator_precedence_in_rendering() {
    let cases = [
        ("1 + 2 * 3;", "(1 + (2 * 3));"),
        ("1 - 2 + 3;", "((1 - 2) + 3);"),
        ("(1 + 2) * 3;", "((1 + 2) * 3);"),
        ("!true;", "(!true);"),
        ("-5 * 2;", "((-5) * 2);"),
        ("a + b == c;", "((a + b) == c);"),
        ("a != b / c;", "(a != (b / c));"),
        ("a < b == b > c;", "((a < b) == (b > c));"),
    ];
    for (input, expected) in cases {
        let mut parser = Parser::new(input);
        let program = parser.parse_program().expect("expected a program");
        assert!(parser.errors.is_empty(), "errors on {input}: {:?}", parser.errors);
        assert_eq!(program.to_string(), expected, "input was {input}");
    }
}

#[test]
fn test_call_expressions() {
    let input = "double(5); max(1, 2 + 3, twice(x));";
    let mut parser = Parser::new(input);
    let program = parser.parse_program().expect("expected a program");
    assert!(parser.errors.is_empty(), "errors: {:?}", parser.errors);
    assert_eq!(program.statements.len(), 2);
    assert_eq!(program.to_string(), "double(5);\nmax(1, (2 + 3), twice(x));");
    match &program.statements[1] {
        Statement::ExpressionStmt(es) => match &es.expression {
            Expression::CallExpression(call) => {
                assert_eq!(call.arguments.len(), 3);
            }
            other => panic!("expected a call expression, got {other:?}"),
        },
        other => panic!("expected an expression statement, got {other:?}"),
    }
}

#[test]
fn test_call_with_no_arguments() {
    let input = "nothing();";
    let mut parser = Parser::new(input);
    let program = parser.parse_program().expect("expected a program");
    assert!(parser.errors.is_empty());
    assert_eq!(program.to_string(), "nothing();");
}

#[test]
fn test_return_without_value() {
    let input = "return;";
    let mut parser = Parser::new(input);
    let program = parser.parse_program().expect("expected a program");
    assert!(parser.errors.is_empty());
    assert_eq!(program.statements.len(), 1);
    assert_eq!(program.to_string(), "return ;");
}

#[test]
fn test_no_prefix_rule_reports_error() {
    let input = "let x = ;";
    let mut parser = Parser::new(input);
    let _ = parser.parse_program();
    assert!(
        parser
            .errors
            .iter()
            .any(|e| e == "no prefix parse function for Semicolon found"),
        "errors were: {:?}",
        parser.errors
    );
}

#[test]
fn test_integer_overflow_reports_error() {
    let input = "let x = 99999999999999999999;";
    let mut parser = Parser::new(input);
    let _ = parser.parse_program();
    assert!(
        parser
            .errors
            .iter()
            .any(|e| e == "could not parse 99999999999999999999 as integer"),
        "errors were: {:?}",
        parser.errors
    );
}

#[test]
fn test_largest_integer_parses() {
    let input = "return 9223372036854775807;";
    let mut parser = Parser::new(input);
    let program = parser.parse_program().expect("expected a program");
    assert!(parser.errors.is_empty(), "errors: {:?}", parser.errors);
    assert_eq!(program.to_string(), "return 9223372036854775807;");
}

#[test]
fn test_empty_input_yields_no_program() {
    let input = "   \n  ";
    let mut parser = Parser::new(input);
    let program = parser.parse_program();
    assert!(program.is_none());
    assert!(parser.errors.is_empty());
}

#[test]
fn test_failed_statement_does_not_abort_the_rest() {
    let input = "let = 1; valid;";
    let mut parser = Parser::new(input);
    let program = parser.parse_program().expect("expected a program");
    assert!(!parser.errors.is_empty());
    assert!(program
        .statements
        .iter()
        .any(|s| matches!(s, Statement::ExpressionStmt(_))));
}

#[test]
fn test_missing_semicolon_after_let_reports_error() {
    let input = "let x = 5";
    let mut parser = Parser::new(input);
    let program = parser.parse_program();
    assert!(
        parser
            .errors
            .iter()
            .any(|e| e == "expected next token to be Semicolon, got Eof instead"),
        "errors were: {:?}",
        parser.errors
    );
    assert!(program.is_some());
    assert_eq!(program.unwrap().statements.len(), 0);
}
