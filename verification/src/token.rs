//! The alphabet of lexical units: token kinds, tokens, and their
//! mathematical view.

use vstd::prelude::*;
use vstd::string::StringExecFns;

verus! {

/// The closed set of token kinds the lexer can produce.
#[derive(Clone, Copy, Debug, PartialEq, Eq, Hash, Structural)]
pub enum TokenType {
    Illegal,
    Eof,
    // Identifiers and literals
    Identifier,
    Int,
    // Operators
    Assign,
    Plus,
    Minus,
    Bang,
    Asterisk,
    Slash,
    PlusEqual,
    MinusEqual,
    AsteriskEqual,
    SlashEqual,
    Greater,
    GreaterEqual,
    Less,
    LessEqual,
    BangEqual,
    EqualEqual,
    // Delimiters
    Comma,
    Semicolon,
    LeftParen,
    RightParen,
    LeftBrace,
    RightBrace,
    // Keywords
    Function,
    Let,
    True,
    False,
    If,
    Else,
    Return,
}

/// The mathematical view of a token: its kind and the character sequence of
/// its literal text.
pub ghost struct TokenV {
    pub token_type: TokenType,
    pub literal: Seq<char>,
}

/// A lexical token: a kind together with the literal text it was read from.
#[derive(Clone, Debug)]
pub struct Token {
    pub token_type: TokenType,
    pub literal: String,
}

impl View for Token {
    type V = TokenV;

    open spec fn view(&self) -> TokenV {
        TokenV { token_type: self.token_type, literal: self.literal@ }
    }
}

impl PartialEq for Token {
    fn eq(&self, other: &Token) -> (r: bool) {
        self.token_type == other.token_type && self.literal == other.literal
    }
}

impl vstd::std_specs::cmp::PartialEqSpecImpl for Token {
    open spec fn obeys_eq_spec() -> bool {
        true
    }

    open spec fn eq_spec(&self, other: &Token) -> bool {
        self.token_type == other.token_type && self.literal@ == other.literal@
    }
}

impl Token {
    /// Structural comparison of this token's kind against a target kind.
    pub fn is_type(&self, target_type: TokenType) -> (r: bool)
        ensures
            r == (self.token_type == target_type),
    {
        self.token_type == target_type
    }

    /// Builds a token of the given kind owning the given literal text.
    pub fn new(token_type: TokenType, literal: &str) -> (t: Token)
        ensures
            t@ == (TokenV { token_type, literal: literal@ }),
    {
        Token { token_type, literal: String::from_str(literal) }
    }
}

/// The display name of a token kind, as used in parse error messages.
pub open spec fn spec_kind_name(k: TokenType) -> Seq<char> {
    match k {
        TokenType::Illegal => "Illegal"@,
        TokenType::Eof => "Eof"@,
        TokenType::Identifier => "Identifier"@,
        TokenType::Int => "Int"@,
        TokenType::Assign => "Assign"@,
        TokenType::Plus => "Plus"@,
        TokenType::Minus => "Minus"@,
        TokenType::Bang => "Bang"@,
        TokenType::Asterisk => "Asterisk"@,
        TokenType::Slash => "Slash"@,
        TokenType::PlusEqual => "PlusEqual"@,
        TokenType::MinusEqual => "MinusEqual"@,
        TokenType::AsteriskEqual => "AsteriskEqual"@,
        TokenType::SlashEqual => "SlashEqual"@,
        TokenType::Greater => "Greater"@,
        TokenType::GreaterEqual => "GreaterEqual"@,
        TokenType::Less => "Less"@,
        TokenType::LessEqual => "LessEqual"@,
        TokenType::BangEqual => "BangEqual"@,
        TokenType::EqualEqual => "EqualEqual"@,
        TokenType::Comma => "Comma"@,
        TokenType::Semicolon => "Semicolon"@,
        TokenType::LeftParen => "LeftParen"@,
        TokenType::RightParen => "RightParen"@,
        TokenType::LeftBrace => "LeftBrace"@,
        TokenType::RightBrace => "RightBrace"@,
        TokenType::Function => "Function"@,
        TokenType::Let => "Let"@,
        TokenType::True => "True"@,
        TokenType::False => "False"@,
        TokenType::If => "If"@,
        TokenType::Else => "Else"@,
        TokenType::Return => "Return"@,
    }
}

/// Executable counterpart of `spec_kind_name`.
pub fn kind_name(k: TokenType) -> (s: String)
    ensures
        s@ == spec_kind_name(k),
{
    match k {
        TokenType::Illegal => String::from_str("Illegal"),
        TokenType::Eof => String::from_str("Eof"),
        TokenType::Identifier => String::from_str("Identifier"),
        TokenType::Int => String::from_str("Int"),
        TokenType::Assign => String::from_str("Assign"),
        TokenType::Plus => String::from_str("Plus"),
        TokenType::Minus => String::from_str("Minus"),
        TokenType::Bang => String::from_str("Bang"),
        TokenType::Asterisk => String::from_str("Asterisk"),
        TokenType::Slash => String::from_str("Slash"),
        TokenType::PlusEqual => String::from_str("PlusEqual"),
        TokenType::MinusEqual => String::from_str("MinusEqual"),
        TokenType::AsteriskEqual => String::from_str("AsteriskEqual"),
        TokenType::SlashEqual => String::from_str("SlashEqual"),
        TokenType::Greater => String::from_str("Greater"),
        TokenType::GreaterEqual => String::from_str("GreaterEqual"),
        TokenType::Less => String::from_str("Less"),
        TokenType::LessEqual => String::from_str("LessEqual"),
        TokenType::BangEqual => String::from_str("BangEqual"),
        TokenType::EqualEqual => String::from_str("EqualEqual"),
        TokenType::Comma => String::from_str("Comma"),
        TokenType::Semicolon => String::from_str("Semicolon"),
        TokenType::LeftParen => String::from_str("LeftParen"),
        TokenType::RightParen => String::from_str("RightParen"),
        TokenType::LeftBrace => String::from_str("LeftBrace"),
        TokenType::RightBrace => String::from_str("RightBrace"),
        TokenType::Function => String::from_str("Function"),
        TokenType::Let => String::from_str("Let"),
        TokenType::True => String::from_str("True"),
        TokenType::False => String::from_str("False"),
        TokenType::If => String::from_str("If"),
        TokenType::Else => String::from_str("Else"),
        TokenType::Return => String::from_str("Return"),
    }
}

} // verus!
