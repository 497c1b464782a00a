use minilang::ast::{
    Boolean, Expression, Identifier, IntegerLiteral, LetStmt, Node, Program, ReturnStmt,
    Statement,
};
use minilang::parser::Parser;
use minilang::token::{Token, TokenType};

#[test]
fn test_to_string() {
    let program = Program {
        statements: vec![Statement::LetStmt(LetStmt::new(
            Identifier::new("myVar"),
            Some(Expression::Identifier(Identifier::new("anotherVar"))),
        ))],
    };
    assert_eq!(program.to_string(), "let myVar = anotherVar;");
}

#[test]
fn test_token_constructors() {
    let token = Token::new(TokenType::Identifier, "banana");
    assert_eq!(token.token_type, TokenType::Identifier);
    assert_eq!(token.literal, "banana");
    assert!(token.is_type(TokenType::Identifier));
    assert!(!token.is_type(TokenType::Int));
}

#[test]
fn test_integer_literal_node() {
    let token = Token::new(TokenType::Int, "314159");
    let lit = IntegerLiteral::new(&token);
    assert_eq!(lit.value, 314159);
    assert_eq!(lit.token_literal(), "314159");
    assert_eq!(lit.to_string(), "314159");
}

#[test]
fn test_boolean_node() {
    let token = Token::new(TokenType::True, "true");
    let b = Boolean::new(&token);
    assert!(b.value);
    assert_eq!(b.token_literal(), "true");
    let token = Token::new(TokenType::False, "false");
    let b = Boolean::new(&token);
    assert!(!b.value);
    assert_eq!(b.to_string(), "false");
}

#[test]
fn test_return_statement_rendering() {
    let stmt = ReturnStmt::new(Some(Expression::Identifier(Identifier::new("result"))));
    assert_eq!(stmt.to_string(), "return result;");
    assert_eq!(stmt.token_literal(), "return");
    let empty = ReturnStmt::new(None);
    assert_eq!(empty.to_string(), "return ;");
}

#[test]
fn test_program_token_literal() {
    let program = Program {
        statements: vec![Statement::ReturnStmt(ReturnStmt::new(None))],
    };
    assert_eq!(program.token_literal(), "return");
    let empty = Program { statements: vec![] };
    assert_eq!(empty.token_literal(), "");
}

#[test]
fn test_reparsing_rendered_text_is_stable() {
    // Re-lexing and re-parsing the canonical rendering of a parsed program
    // reproduces a structurally equivalent tree: rendering it again gives
    // the same text, and the statement shapes match one for one.
    let inputs = [
        "let x = 1 + 2 * 3; return !ok; double(x, -4);",
        "return;",
        "a < b == c;",
        "f(g(1), true)(x);",
    ];
    for input in inputs {
        let mut parser = Parser::new(input);
        let program = parser.parse_program().expect("first parse failed");
        assert!(parser.errors.is_empty(), "errors on {input}: {:?}", parser.errors);
        let rendered = program.to_string();

        let mut reparser = Parser::new(rendered.as_str());
        let reparsed = reparser.parse_program().expect("second parse failed");
        assert!(
            reparser.errors.is_empty(),
            "errors on rendering {rendered}: {:?}",
            reparser.errors
        );
        assert_eq!(program.statements.len(), reparsed.statements.len());
        assert_eq!(reparsed.to_string(), rendered);
    }
}

#[test]
fn test_integer_rendering_is_canonical() {
    // The rendering is the decimal text of the value, so a literal read
    // with leading zeroes renders canonically while token_literal still
    // reports the source text.
    let token = Token::new(TokenType::Int, "007");
    let lit = IntegerLiteral::new(&token);
    assert_eq!(lit.value, 7);
    assert_eq!(lit.token_literal(), "007");
    assert_eq!(lit.to_string(), "7");

    let zero = IntegerLiteral::new(&Token::new(TokenType::Int, "0"));
    assert_eq!(zero.to_string(), "0");
}

#[test]
fn test_integer_rendering_of_negative_values() {
    let negative = IntegerLiteral {
        token: Token::new(TokenType::Int, "5"),
        value: -5,
    };
    assert_eq!(negative.to_string(), "-5");
    let smallest = IntegerLiteral {
        token: Token::new(TokenType::Int, "0"),
        value: i64::MIN,
    };
    assert_eq!(smallest.to_string(), "-9223372036854775808");
}

#[test]
fn test_leading_zero_literal_parses_and_renders_canonically() {
    let mut parser = Parser::new("let x = 007;");
    let program = parser.parse_program().expect("expected a program");
    assert!(parser.errors.is_empty());
    assert_eq!(program.to_string(), "let x = 7;");
}
