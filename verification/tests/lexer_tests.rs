use minilang::lexer::Lexer;
use minilang::token::{Token, TokenType};

#[test]
fn test_punctuation() {
    let expected_tokens = [
        Token::new(TokenType::Assign, "="),
        Token::new(TokenType::Plus, "+"),
        Token::new(TokenType::LeftParen, "("),
        Token::new(TokenType::RightParen, ")"),
        Token::new(TokenType::LeftBrace, "{"),
        Token::new(TokenType::RightBrace, "}"),
        Token::new(TokenType::Comma, ","),
        Token::new(TokenType::Semicolon, ";"),
        Token::new(TokenType::Eof, ""),
    ];

    let input = "=+(){},;";
    let mut lexer = Lexer::new(input);
    for expected_token in expected_tokens {
        assert_eq!(lexer.next_token(), expected_token);
    }
}

#[test]
fn test_simple_function() {
    let expected_tokens = [
        Token::new(TokenType::Let, "let"),
        Token::new(TokenType::Identifier, "five"),
        Token::new(TokenType::Assign, "="),
        Token::new(TokenType::Int, "5"),
        Token::new(TokenType::Semicolon, ";"),
        Token::new(TokenType::Let, "let"),
        Token::new(TokenType::Identifier, "ten"),
        Token::new(TokenType::Assign, "="),
        Token::new(TokenType::Int, "10"),
        Token::new(TokenType::Semicolon, ";"),
        Token::new(TokenType::Let, "let"),
        Token::new(TokenType::Identifier, "add"),
        Token::new(TokenType::Assign, "="),
        Token::new(TokenType::Function, "fn"),
        Token::new(TokenType::LeftParen, "("),
        Token::new(TokenType::Identifier, "x"),
        Token::new(TokenType::Comma, ","),
        Token::new(TokenType::Identifier, "y"),
        Token::new(TokenType::RightParen, ")"),
        Token::new(TokenType::LeftBrace, "{"),
        Token::new(TokenType::Identifier, "x"),
        Token::new(TokenType::Plus, "+"),
        Token::new(TokenType::Identifier, "y"),
        Token::new(TokenType::Semicolon, ";"),
        Token::new(TokenType::RightBrace, "}"),
        Token::new(TokenType::Semicolon, ";"),
        Token::new(TokenType::Let, "let"),
        Token::new(TokenType::Identifier, "result"),
        Token::new(TokenType::Assign, "="),
        Token::new(TokenType::Identifier, "add"),
        Token::new(TokenType::LeftParen, "("),
        Token::new(TokenType::Identifier, "five"),
        Token::new(TokenType::Comma, ","),
        Token::new(TokenType::Identifier, "ten"),
        Token::new(TokenType::RightParen, ")"),
        Token::new(TokenType::Semicolon, ";"),
        Token::new(TokenType::Eof, ""),
    ];
    let input = r"let five = 5;
        let ten = 10;

        let add = fn(x, y) {
          x + y;
        };
        let result = add(five, ten);
        ";
    let mut lexer = Lexer::new(input);
    for expected_token in expected_tokens {
        assert_eq!(lexer.next_token(), expected_token);
        println!("Passed {expected_token:?}");
    }
}

#[test]
fn test_increment_decrement() {
    let input = r"let a = 10;
        a += 8;
        a -= 5;
        ";
    let expected_tokens = [
        Token::new(TokenType::Let, "let"),
        Token::new(TokenType::Identifier, "a"),
        Token::new(TokenType::Assign, "="),
        Token::new(TokenType::Int, "10"),
        Token::new(TokenType::Semicolon, ";"),
        Token::new(TokenType::Identifier, "a"),
        Token::new(TokenType::PlusEqual, "+="),
        Token::new(TokenType::Int, "8"),
        Token::new(TokenType::Semicolon, ";"),
        Token::new(TokenType::Identifier, "a"),
        Token::new(TokenType::MinusEqual, "-="),
        Token::new(TokenType::Int, "5"),
        Token::new(TokenType::Semicolon, ";"),
        Token::new(TokenType::Eof, ""),
    ];
    let mut lexer = Lexer::new(input);
    for expected_token in expected_tokens {
        assert_eq!(lexer.next_token(), expected_token);
        println!("Passed {expected_token:?}");
    }
}

#[test]
fn test_comparison() {
    let input = r"let a = 10;
        a >= 7 == true;
        a <= 4 == false;
        a != 5;
        a /= 2;
        a == 5;
        a *= 1;
        !(a == 5) == false;
        ";
    let expected_tokens = [
        Token::new(TokenType::Let, "let"),
        Token::new(TokenType::Identifier, "a"),
        Token::new(TokenType::Assign, "="),
        Token::new(TokenType::Int, "10"),
        Token::new(TokenType::Semicolon, ";"),
        Token::new(TokenType::Identifier, "a"),
        Token::new(TokenType::GreaterEqual, ">="),
        Token::new(TokenType::Int, "7"),
        Token::new(TokenType::EqualEqual, "=="),
        Token::new(TokenType::True, "true"),
        Token::new(TokenType::Semicolon, ";"),
        Token::new(TokenType::Identifier, "a"),
        Token::new(TokenType::LessEqual, "<="),
        Token::new(TokenType::Int, "4"),
        Token::new(TokenType::EqualEqual, "=="),
        Token::new(TokenType::False, "false"),
        Token::new(TokenType::Semicolon, ";"),
        Token::new(TokenType::Identifier, "a"),
        Token::new(TokenType::BangEqual, "!="),
        Token::new(TokenType::Int, "5"),
        Token::new(TokenType::Semicolon, ";"),
        Token::new(TokenType::Identifier, "a"),
        Token::new(TokenType::SlashEqual, "/="),
        Token::new(TokenType::Int, "2"),
        Token::new(TokenType::Semicolon, ";"),
        Token::new(TokenType::Identifier, "a"),
        Token::new(TokenType::EqualEqual, "=="),
        Token::new(TokenType::Int, "5"),
        Token::new(TokenType::Semicolon, ";"),
        Token::new(TokenType::Identifier, "a"),
        Token::new(TokenType::AsteriskEqual, "*="),
        Token::new(TokenType::Int, "1"),
        Token::new(TokenType::Semicolon, ";"),
        Token::new(TokenType::Bang, "!"),
        Token::new(TokenType::LeftParen, "("),
        Token::new(TokenType::Identifier, "a"),
        Token::new(TokenType::EqualEqual, "=="),
        Token::new(TokenType::Int, "5"),
        Token::new(TokenType::RightParen, ")"),
        Token::new(TokenType::EqualEqual, "=="),
        Token::new(TokenType::False, "false"),
        Token::new(TokenType::Semicolon, ";"),
        Token::new(TokenType::Eof, ""),
    ];
    let mut lexer = Lexer::new(input);
    for expected_token in expected_tokens {
        assert_eq!(lexer.next_token(), expected_token);
        println!("Passed {expected_token:?}");
    }
}

#[test]
fn test_conditionals() {
    let input = r"
        let num = rand(0, 10);
        if (num > 8) {
            return true;
        } else {
            return false;
        }
        ";
    let expected_tokens = [
        Token::new(TokenType::Let, "let"),
        Token::new(TokenType::Identifier, "num"),
        Token::new(TokenType::Assign, "="),
        Token::new(TokenType::Identifier, "rand"),
        Token::new(TokenType::LeftParen, "("),
        Token::new(TokenType::Int, "0"),
        Token::new(TokenType::Comma, ","),
        Token::new(TokenType::Int, "10"),
        Token::new(TokenType::RightParen, ")"),
        Token::new(TokenType::Semicolon, ";"),
        Token::new(TokenType::If, "if"),
        Token::new(TokenType::LeftParen, "("),
        Token::new(TokenType::Identifier, "num"),
        Token::new(TokenType::Greater, ">"),
        Token::new(TokenType::Int, "8"),
        Token::new(TokenType::RightParen, ")"),
        Token::new(TokenType::LeftBrace, "{"),
        Token::new(TokenType::Return, "return"),
        Token::new(TokenType::True, "true"),
        Token::new(TokenType::Semicolon, ";"),
        Token::new(TokenType::RightBrace, "}"),
        Token::new(TokenType::Else, "else"),
        Token::new(TokenType::LeftBrace, "{"),
        Token::new(TokenType::Return, "return"),
        Token::new(TokenType::False, "false"),
        Token::new(TokenType::Semicolon, ";"),
        Token::new(TokenType::RightBrace, "}"),
        Token::new(TokenType::Eof, ""),
    ];
    let mut lexer = Lexer::new(input);
    for expected_token in expected_tokens {
        assert_eq!(lexer.next_token(), expected_token);
        println!("Passed {expected_token:?}");
    }
}

#[test]
fn test_every_single_punctuation_alone() {
    let cases = [
        ("=", TokenType::Assign),
        ("<", TokenType::Less),
        (">", TokenType::Greater),
        ("+", TokenType::Plus),
        ("-", TokenType::Minus),
        ("*", TokenType::Asterisk),
        ("/", TokenType::Slash),
        ("!", TokenType::Bang),
        (";", TokenType::Semicolon),
        ("(", TokenType::LeftParen),
        (")", TokenType::RightParen),
        (",", TokenType::Comma),
        ("{", TokenType::LeftBrace),
        ("}", TokenType::RightBrace),
    ];
    for (text, kind) in cases {
        let mut lexer = Lexer::new(text);
        assert_eq!(lexer.next_token(), Token::new(kind, text));
        assert_eq!(lexer.next_token(), Token::new(TokenType::Eof, ""));
    }
}

#[test]
fn test_two_char_operators_never_split() {
    let cases = [
        ("==", TokenType::EqualEqual),
        ("!=", TokenType::BangEqual),
        ("<=", TokenType::LessEqual),
        (">=", TokenType::GreaterEqual),
        ("+=", TokenType::PlusEqual),
        ("-=", TokenType::MinusEqual),
        ("*=", TokenType::AsteriskEqual),
        ("/=", TokenType::SlashEqual),
    ];
    for (text, kind) in cases {
        let mut lexer = Lexer::new(text);
        assert_eq!(lexer.next_token(), Token::new(kind, text));
        assert_eq!(lexer.next_token(), Token::new(TokenType::Eof, ""));
    }
}

#[test]
fn test_illegal_character() {
    let mut lexer = Lexer::new("@ #");
    assert_eq!(lexer.next_token(), Token::new(TokenType::Illegal, "@"));
    assert_eq!(lexer.next_token(), Token::new(TokenType::Illegal, "#"));
    assert_eq!(lexer.next_token(), Token::new(TokenType::Eof, ""));
}

#[test]
fn test_end_of_input_is_sticky() {
    let mut lexer = Lexer::new("x");
    assert_eq!(lexer.next_token(), Token::new(TokenType::Identifier, "x"));
    for _ in 0..5 {
        assert_eq!(lexer.next_token(), Token::new(TokenType::Eof, ""));
    }
}

#[test]
fn test_termination_within_input_length() {
    // Any finite input reaches end of input in at most one call per
    // character, plus the final end-of-input report.
    let input = "let @@ while $$ 123abc!!!";
    let mut lexer = Lexer::new(input);
    let mut reached_eof = false;
    for _ in 0..(input.len() + 1) {
        if lexer.next_token().is_type(TokenType::Eof) {
            reached_eof = true;
            break;
        }
    }
    assert!(reached_eof);
}

#[test]
fn test_operator_at_end_of_input() {
    // A lone operator character just before the end must not look past
    // the input.
    let mut lexer = Lexer::new("a =");
    assert_eq!(lexer.next_token(), Token::new(TokenType::Identifier, "a"));
    assert_eq!(lexer.next_token(), Token::new(TokenType::Assign, "="));
    assert_eq!(lexer.next_token(), Token::new(TokenType::Eof, ""));
}

#[test]
fn test_non_ascii_character_is_illegal() {
    // Identifiers are ASCII-alphabetic runs; anything else is surfaced as
    // an Illegal token carrying that one character.
    let mut lexer = Lexer::new("å x");
    assert_eq!(lexer.next_token(), Token::new(TokenType::Illegal, "å"));
    assert_eq!(lexer.next_token(), Token::new(TokenType::Identifier, "x"));
    assert_eq!(lexer.next_token(), Token::new(TokenType::Eof, ""));
}

#[test]
fn test_whitespace_only_input() {
    let mut lexer = Lexer::new(" \t\n  ");
    assert_eq!(lexer.next_token(), Token::new(TokenType::Eof, ""));
}
