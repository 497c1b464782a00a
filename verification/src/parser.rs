//! The parser: consumes the token stream two ahead (current + lookahead),
//! builds statements by dispatch on the leading token, and builds
//! expressions by precedence climbing with a prefix/infix handler table
//! keyed by token kind.
//!
//! The mathematical model is the family of `sp_*` functions, which run the
//! same algorithm over the token sequence `spec_tokens(src)`; each parsing
//! method is proved to return exactly what its model returns, to leave the
//! cursor where the model leaves it, and to append exactly the error
//! messages the model appends.

use vstd::prelude::*;
use vstd::string::{StrSliceExecFns, StringExecFns};
use crate::ast::{
    all_digits, digits_val, expr_view, exprs_view, int_from_digits, lemma_stmts_view, opt_expr_view, stmt_view, stmts_view,
    Boolean, CallExpression, Expression, ExpressionStmt, ExprV, Identifier, InfixExpression,
    IntegerLiteral, LetStmt, PrefixExpression, Program, ReturnStmt, Statement, StmtV,
};
use crate::lexer::{lemma_spec_tokens_no_eof, spec_tokens, Lexer};
use crate::token::{kind_name, spec_kind_name, Token, TokenType, TokenV};

verus! {

// ---------------------------------------------------------------------------
// Precedence ladder
// ---------------------------------------------------------------------------

/// The binding strengths, lowest to highest.
#[derive(Clone, Copy, Debug, PartialEq, Eq, Structural)]
enum Precedence {
    Lowest,
    Equals,
    LessGreater,
    Sum,
    Product,
    Prefix,
    Call,
}

/// The numeric value of a precedence level.
spec fn spec_prec(p: Precedence) -> int {
    match p {
        Precedence::Lowest => 1,
        Precedence::Equals => 2,
        Precedence::LessGreater => 3,
        Precedence::Sum => 4,
        Precedence::Product => 5,
        Precedence::Prefix => 6,
        Precedence::Call => 7,
    }
}

/// The infix binding strength of a token kind; `1` (lowest) for every kind
/// that has no infix rule.
pub open spec fn prec_of_kind(k: TokenType) -> int {
    match k {
        TokenType::EqualEqual => 2,
        TokenType::BangEqual => 2,
        TokenType::Less => 3,
        TokenType::Greater => 3,
        TokenType::Plus => 4,
        TokenType::Minus => 4,
        TokenType::Slash => 5,
        TokenType::Asterisk => 5,
        TokenType::LeftParen => 7,
        _ => 1,
    }
}

fn prec_value(p: Precedence) -> (v: u8)
    ensures
        v == spec_prec(p),
        1 <= v <= 7,
{
    match p {
        Precedence::Lowest => 1,
        Precedence::Equals => 2,
        Precedence::LessGreater => 3,
        Precedence::Sum => 4,
        Precedence::Product => 5,
        Precedence::Prefix => 6,
        Precedence::Call => 7,
    }
}

/// The precedence table as a pure function from token kind to level.
fn token_precedence(k: TokenType) -> (p: Precedence)
    ensures
        spec_prec(p) == prec_of_kind(k),
{
    match k {
        TokenType::EqualEqual => Precedence::Equals,
        TokenType::BangEqual => Precedence::Equals,
        TokenType::Less => Precedence::LessGreater,
        TokenType::Greater => Precedence::LessGreater,
        TokenType::Plus => Precedence::Sum,
        TokenType::Minus => Precedence::Sum,
        TokenType::Slash => Precedence::Product,
        TokenType::Asterisk => Precedence::Product,
        TokenType::LeftParen => Precedence::Call,
        _ => Precedence::Lowest,
    }
}

// ---------------------------------------------------------------------------
// Handler tables
// ---------------------------------------------------------------------------

/// Which prefix parsing routine applies to a token kind.
enum PrefixParser {
    Identifier,
    Integer,
    Boolean,
    Prefix,
    Grouped,
}

/// The token kinds that may begin an expression.
pub open spec fn has_prefix_rule(k: TokenType) -> bool {
    k == TokenType::Identifier || k == TokenType::Int || k == TokenType::True || k
        == TokenType::False || k == TokenType::Bang || k == TokenType::Minus || k
        == TokenType::LeftParen
}

fn prefix_rule_of(k: TokenType) -> (r: Option<PrefixParser>)
    ensures
        r is Some <==> has_prefix_rule(k),
        match r {
            Option::Some(PrefixParser::Identifier) => k == TokenType::Identifier,
            Option::Some(PrefixParser::Integer) => k == TokenType::Int,
            Option::Some(PrefixParser::Boolean) => k == TokenType::True || k == TokenType::False,
            Option::Some(PrefixParser::Prefix) => k == TokenType::Bang || k == TokenType::Minus,
            Option::Some(PrefixParser::Grouped) => k == TokenType::LeftParen,
            Option::None => !has_prefix_rule(k),
        },
{
    match k {
        TokenType::Identifier => Option::Some(PrefixParser::Identifier),
        TokenType::Int => Option::Some(PrefixParser::Integer),
        TokenType::True => Option::Some(PrefixParser::Boolean),
        TokenType::False => Option::Some(PrefixParser::Boolean),
        TokenType::Bang => Option::Some(PrefixParser::Prefix),
        TokenType::Minus => Option::Some(PrefixParser::Prefix),
        TokenType::LeftParen => Option::Some(PrefixParser::Grouped),
        _ => Option::None,
    }
}

// ---------------------------------------------------------------------------
// The token stream as the model sees it
// ---------------------------------------------------------------------------

/// The token at position `i`, or the end-of-input sentinel past the end.
pub open spec fn tok_at(ts: Seq<TokenV>, i: nat) -> TokenV {
    if i < ts.len() {
        ts[i as int]
    } else {
        TokenV { token_type: TokenType::Eof, literal: Seq::empty() }
    }
}

/// How many tokens remain at position `i`; the termination measure of the
/// model.
pub open spec fn rem_count(ts: Seq<TokenV>, i: nat) -> nat {
    if i < ts.len() {
        (ts.len() - i) as nat
    } else {
        0
    }
}

/// The tokens from position `i` on.
pub open spec fn suffix_toks(ts: Seq<TokenV>, i: nat) -> Seq<TokenV> {
    if i <= ts.len() {
        ts.skip(i as int)
    } else {
        Seq::empty()
    }
}

/// The view of an error list: each message as a character sequence.
pub open spec fn errs_view(es: Seq<String>) -> Seq<Seq<char>> {
    es.map_values(|s: String| s@)
}

// ---------------------------------------------------------------------------
// Error messages
// ---------------------------------------------------------------------------

/// The message recorded when the lookahead token has the wrong kind.
pub open spec fn peek_err_msg(expected: TokenType, got: TokenType) -> Seq<char> {
    "expected next token to be "@ + spec_kind_name(expected) + ", got "@ + spec_kind_name(got)
        + " instead"@
}

/// The message recorded when no prefix rule applies to the current token.
pub open spec fn no_prefix_msg(k: TokenType) -> Seq<char> {
    "no prefix parse function for "@ + spec_kind_name(k) + " found"@
}

/// The message recorded when an integer literal does not fit in 64 signed
/// bits.
pub open spec fn int_err_msg(lit: Seq<char>) -> Seq<char> {
    "could not parse "@ + lit + " as integer"@
}

// ---------------------------------------------------------------------------
// The model of parsing
// ---------------------------------------------------------------------------

/// What parsing an expression yields: the expression if one was built, the
/// position of its last token, and the error messages recorded.
pub ghost struct ExprRes {
    pub expr: Option<ExprV>,
    pub next: nat,
    pub errs: Seq<Seq<char>>,
}

/// What parsing a statement yields.
pub ghost struct StmtRes {
    pub stmt: Option<StmtV>,
    pub next: nat,
    pub errs: Seq<Seq<char>>,
}

/// What parsing a call argument list yields.
pub ghost struct ArgsRes {
    pub args: Option<Seq<ExprV>>,
    pub next: nat,
    pub errs: Seq<Seq<char>>,
}

/// What parsing a whole program yields.
pub ghost struct ProgRes {
    pub stmts: Seq<StmtV>,
    pub errs: Seq<Seq<char>>,
}

/// The prefix handler: builds the initial expression from the current
/// token (position `at`), leaving the cursor on the last token consumed.
pub open spec fn sp_prefix(ts: Seq<TokenV>, at: nat) -> ExprRes
    decreases rem_count(ts, at), 1nat,
{
    let cur = tok_at(ts, at);
    match cur.token_type {
        TokenType::Identifier => ExprRes {
            expr: Option::Some(ExprV::Identifier { name: cur.literal }),
            next: at,
            errs: Seq::empty(),
        },
        TokenType::Int => {
            if cur.literal.len() > 0 && all_digits(cur.literal) && digits_val(cur.literal)
                <= i64::MAX {
                ExprRes {
                    expr: Option::Some(ExprV::IntegerLiteral { value: digits_val(cur.literal) }),
                    next: at,
                    errs: Seq::empty(),
                }
            } else {
                ExprRes { expr: Option::None, next: at, errs: seq![int_err_msg(cur.literal)] }
            }
        },
        TokenType::True => ExprRes {
            expr: Option::Some(ExprV::Boolean { literal: cur.literal, value: true }),
            next: at,
            errs: Seq::empty(),
        },
        TokenType::False => ExprRes {
            expr: Option::Some(ExprV::Boolean { literal: cur.literal, value: false }),
            next: at,
            errs: Seq::empty(),
        },
        TokenType::Bang => sp_prefix_operand(ts, at),
        TokenType::Minus => sp_prefix_operand(ts, at),
        TokenType::LeftParen => {
            let r = sp_expression(ts, (at + 1) as nat, 1);
            match r.expr {
                Option::Some(e) => {
                    if tok_at(ts, (r.next + 1) as nat).token_type == TokenType::RightParen {
                        ExprRes { expr: Option::Some(e), next: (r.next + 1) as nat, errs: r.errs }
                    } else {
                        ExprRes {
                            expr: Option::None,
                            next: r.next,
                            errs: r.errs + seq![
                                peek_err_msg(
                                    TokenType::RightParen,
                                    tok_at(ts, (r.next + 1) as nat).token_type,
                                ),
                            ],
                        }
                    }
                },
                Option::None => ExprRes { expr: Option::None, next: r.next, errs: r.errs },
            }
        },
        _ => ExprRes { expr: Option::None, next: at, errs: seq![no_prefix_msg(cur.token_type)] },
    }
}

/// A unary operator at `at` applied to an operand parsed at `Prefix`
/// binding strength.
pub open spec fn sp_prefix_operand(ts: Seq<TokenV>, at: nat) -> ExprRes
    decreases rem_count(ts, at), 0nat,
{
    let cur = tok_at(ts, at);
    if cur.token_type == TokenType::Bang || cur.token_type == TokenType::Minus {
        let r = sp_expression(ts, (at + 1) as nat, 6);
        match r.expr {
            Option::Some(e) => ExprRes {
                expr: Option::Some(ExprV::Prefix { op: cur.literal, right: Box::new(e) }),
                next: r.next,
                errs: r.errs,
            },
            Option::None => ExprRes { expr: Option::None, next: r.next, errs: r.errs },
        }
    } else {
        ExprRes { expr: Option::None, next: at, errs: Seq::empty() }
    }
}

/// The call handler: `at` is the opening parenthesis extending `left`.
pub open spec fn sp_call(ts: Seq<TokenV>, left: ExprV, at: nat) -> ExprRes
    decreases rem_count(ts, at), 3nat,
{
    if tok_at(ts, at).token_type != TokenType::LeftParen {
        ExprRes { expr: Option::None, next: at, errs: Seq::empty() }
    } else if tok_at(ts, (at + 1) as nat).token_type == TokenType::RightParen {
        ExprRes {
            expr: Option::Some(ExprV::Call { func: Box::new(left), args: Seq::empty() }),
            next: (at + 1) as nat,
            errs: Seq::empty(),
        }
    } else {
        let r = sp_expression(ts, (at + 1) as nat, 1);
        match r.expr {
            Option::None => ExprRes { expr: Option::None, next: r.next, errs: r.errs },
            Option::Some(a) => {
                // Never taken: parsing only moves forward.  The guard keeps
                // the recursion measure self-evident.
                if r.next <= at {
                    ExprRes { expr: Option::None, next: r.next, errs: r.errs }
                } else {
                    let ra = sp_call_args(ts, seq![a], r.next);
                    match ra.args {
                        Option::Some(args) => ExprRes {
                            expr: Option::Some(ExprV::Call { func: Box::new(left), args }),
                            next: ra.next,
                            errs: r.errs + ra.errs,
                        },
                        Option::None => ExprRes {
                            expr: Option::None,
                            next: ra.next,
                            errs: r.errs + ra.errs,
                        },
                    }
                }
            },
        }
    }
}

/// Further call arguments: `at` is the last token of the previous
/// argument; a comma continues the list, a closing parenthesis ends it.
pub open spec fn sp_call_args(ts: Seq<TokenV>, args: Seq<ExprV>, at: nat) -> ArgsRes
    decreases rem_count(ts, at), 3nat,
{
    if tok_at(ts, (at + 1) as nat).token_type == TokenType::Comma {
        let r = sp_expression(ts, (at + 2) as nat, 1);
        match r.expr {
            Option::None => ArgsRes { args: Option::None, next: r.next, errs: r.errs },
            Option::Some(a) => {
                // Never taken: parsing only moves forward.
                if r.next <= at + 1 {
                    ArgsRes { args: Option::None, next: r.next, errs: r.errs }
                } else {
                    let rest = sp_call_args(ts, args.push(a), r.next);
                    ArgsRes { args: rest.args, next: rest.next, errs: r.errs + rest.errs }
                }
            },
        }
    } else if tok_at(ts, (at + 1) as nat).token_type == TokenType::RightParen {
        ArgsRes { args: Option::Some(args), next: (at + 1) as nat, errs: Seq::empty() }
    } else {
        ArgsRes {
            args: Option::None,
            next: at,
            errs: seq![
                peek_err_msg(TokenType::RightParen, tok_at(ts, (at + 1) as nat).token_type),
            ],
        }
    }
}

/// The infix loop: while the lookahead token is not a statement terminator
/// and binds strictly tighter than `minp`, fold `left` with the next
/// operator.  `at` is the last token of `left`.
pub open spec fn sp_infix_loop(ts: Seq<TokenV>, left: ExprV, at: nat, minp: int) -> ExprRes
    decreases rem_count(ts, at), 0nat,
{
    let pk = tok_at(ts, (at + 1) as nat);
    if pk.token_type != TokenType::Semicolon && prec_of_kind(pk.token_type) > minp && prec_of_kind(
        pk.token_type,
    ) > 1 {
        if pk.token_type == TokenType::LeftParen {
            let r = sp_call(ts, left, (at + 1) as nat);
            match r.expr {
                Option::None => ExprRes { expr: Option::None, next: r.next, errs: r.errs },
                Option::Some(e) => {
                    // Never taken: parsing only moves forward.
                    if r.next <= at {
                        ExprRes { expr: Option::None, next: r.next, errs: r.errs }
                    } else {
                        let l2 = sp_infix_loop(ts, e, r.next, minp);
                        ExprRes { expr: l2.expr, next: l2.next, errs: r.errs + l2.errs }
                    }
                },
            }
        } else {
            let r = sp_expression(ts, (at + 2) as nat, prec_of_kind(pk.token_type));
            match r.expr {
                Option::None => ExprRes { expr: Option::None, next: r.next, errs: r.errs },
                Option::Some(rhs) => {
                    // Never taken: parsing only moves forward.
                    if r.next <= at + 1 {
                        ExprRes { expr: Option::None, next: r.next, errs: r.errs }
                    } else {
                        let e = ExprV::Infix {
                            op: pk.literal,
                            left: Box::new(left),
                            right: Box::new(rhs),
                        };
                        let l2 = sp_infix_loop(ts, e, r.next, minp);
                        ExprRes { expr: l2.expr, next: l2.next, errs: r.errs + l2.errs }
                    }
                },
            }
        }
    } else {
        ExprRes { expr: Option::Some(left), next: at, errs: Seq::empty() }
    }
}

/// Precedence-climbing expression parsing from position `at` with binding
/// threshold `minp`.
pub open spec fn sp_expression(ts: Seq<TokenV>, at: nat, minp: int) -> ExprRes
    decreases rem_count(ts, at), 2nat,
{
    let cur = tok_at(ts, at);
    if !has_prefix_rule(cur.token_type) {
        ExprRes { expr: Option::None, next: at, errs: seq![no_prefix_msg(cur.token_type)] }
    } else {
        let u = sp_prefix(ts, at);
        match u.expr {
            Option::None => ExprRes { expr: Option::None, next: u.next, errs: u.errs },
            Option::Some(l) => {
                // Never taken: parsing only moves forward.
                if u.next < at {
                    ExprRes { expr: Option::Some(l), next: u.next, errs: u.errs }
                } else {
                    let lr = sp_infix_loop(ts, l, u.next, minp);
                    ExprRes { expr: lr.expr, next: lr.next, errs: u.errs + lr.errs }
                }
            },
        }
    }
}

/// `let <name> = <value>;`, with `at` on the `let` keyword.
pub open spec fn sp_let(ts: Seq<TokenV>, at: nat) -> StmtRes {
    let pk1 = tok_at(ts, (at + 1) as nat);
    if pk1.token_type != TokenType::Identifier {
        StmtRes {
            stmt: Option::None,
            next: at,
            errs: seq![peek_err_msg(TokenType::Identifier, pk1.token_type)],
        }
    } else {
        let pk2 = tok_at(ts, (at + 2) as nat);
        if pk2.token_type != TokenType::Assign {
            StmtRes {
                stmt: Option::None,
                next: (at + 1) as nat,
                errs: seq![peek_err_msg(TokenType::Assign, pk2.token_type)],
            }
        } else {
            let r = sp_expression(ts, (at + 3) as nat, 1);
            match r.expr {
                Option::None => StmtRes { stmt: Option::None, next: r.next, errs: r.errs },
                Option::Some(e) => {
                    if tok_at(ts, (r.next + 1) as nat).token_type == TokenType::Semicolon {
                        StmtRes {
                            stmt: Option::Some(StmtV::LetStmt {
                                name: pk1.literal,
                                value: Option::Some(e),
                            }),
                            next: (r.next + 1) as nat,
                            errs: r.errs,
                        }
                    } else {
                        StmtRes {
                            stmt: Option::None,
                            next: r.next,
                            errs: r.errs + seq![
                                peek_err_msg(
                                    TokenType::Semicolon,
                                    tok_at(ts, (r.next + 1) as nat).token_type,
                                ),
                            ],
                        }
                    }
                },
            }
        }
    }
}

/// `return;` or `return <value>;`, with `at` on the `return` keyword.
pub open spec fn sp_return(ts: Seq<TokenV>, at: nat) -> StmtRes {
    if tok_at(ts, (at + 1) as nat).token_type == TokenType::Semicolon {
        StmtRes {
            stmt: Option::Some(StmtV::ReturnStmt { value: Option::None }),
            next: (at + 1) as nat,
            errs: Seq::empty(),
        }
    } else {
        let r = sp_expression(ts, (at + 1) as nat, 1);
        match r.expr {
            Option::None => StmtRes { stmt: Option::None, next: r.next, errs: r.errs },
            Option::Some(e) => {
                if tok_at(ts, (r.next + 1) as nat).token_type == TokenType::Semicolon {
                    StmtRes {
                        stmt: Option::Some(StmtV::ReturnStmt { value: Option::Some(e) }),
                        next: (r.next + 1) as nat,
                        errs: r.errs,
                    }
                } else {
                    StmtRes {
                        stmt: Option::None,
                        next: r.next,
                        errs: r.errs + seq![
                            peek_err_msg(
                                TokenType::Semicolon,
                                tok_at(ts, (r.next + 1) as nat).token_type,
                            ),
                        ],
                    }
                }
            },
        }
    }
}

/// A bare expression as a statement; a trailing semicolon is consumed when
/// present but is not required.
pub open spec fn sp_expr_stmt(ts: Seq<TokenV>, at: nat) -> StmtRes {
    let r = sp_expression(ts, at, 1);
    match r.expr {
        Option::None => StmtRes { stmt: Option::None, next: r.next, errs: r.errs },
        Option::Some(e) => {
            if tok_at(ts, (r.next + 1) as nat).token_type == TokenType::Semicolon {
                StmtRes {
                    stmt: Option::Some(StmtV::ExpressionStmt { expr: e }),
                    next: (r.next + 1) as nat,
                    errs: r.errs,
                }
            } else {
                StmtRes {
                    stmt: Option::Some(StmtV::ExpressionStmt { expr: e }),
                    next: r.next,
                    errs: r.errs,
                }
            }
        },
    }
}

/// Statement dispatch on the kind of the current token.
pub open spec fn sp_statement(ts: Seq<TokenV>, at: nat) -> StmtRes {
    match tok_at(ts, at).token_type {
        TokenType::Let => sp_let(ts, at),
        TokenType::Return => sp_return(ts, at),
        _ => sp_expr_stmt(ts, at),
    }
}

/// Appending a message to an error list appends its text to the view.
proof fn lemma_errs_push(es: Seq<String>, m: String)
    ensures
        errs_view(es.push(m)) == errs_view(es).push(m@),
{
    assert(errs_view(es.push(m)) =~= errs_view(es).push(m@));
}

/// The whole program: statements parsed one after another until the end of
/// the tokens; a failed statement contributes its errors and is skipped.
pub open spec fn sp_program(ts: Seq<TokenV>, at: nat) -> ProgRes
    decreases rem_count(ts, at),
{
    if at >= ts.len() {
        ProgRes { stmts: Seq::empty(), errs: Seq::empty() }
    } else {
        let r = sp_statement(ts, at);
        // The clamp is never active: parsing only moves forward.  It keeps
        // the recursion measure self-evident.
        let n2 = if r.next < at {
            at
        } else {
            r.next
        };
        let rest = sp_program(ts, (n2 + 1) as nat);
        match r.stmt {
            Option::Some(st) => ProgRes {
                stmts: seq![st] + rest.stmts,
                errs: r.errs + rest.errs,
            },
            Option::None => ProgRes { stmts: rest.stmts, errs: r.errs + rest.errs },
        }
    }
}

/// The token a statement node reports it was introduced by.
pub open spec fn stmt_intro_token(st: Statement) -> TokenV {
    match st {
        Statement::LetStmt(x) => x.token@,
        Statement::ReturnStmt(x) => x.token@,
        Statement::ExpressionStmt(x) => x.token@,
    }
}

/// The introducing token the parser stores on a statement begun at `at`:
/// the fixed keyword token for a let or return statement, the source token
/// itself for an expression statement.
pub open spec fn sp_stmt_intro(ts: Seq<TokenV>, at: nat) -> TokenV {
    match tok_at(ts, at).token_type {
        TokenType::Let => TokenV { token_type: TokenType::Let, literal: "let"@ },
        TokenType::Return => TokenV { token_type: TokenType::Return, literal: "return"@ },
        _ => tok_at(ts, at),
    }
}

/// The introducing tokens of the statements a whole parse produces, in
/// order: one per produced statement.
pub open spec fn sp_program_intros(ts: Seq<TokenV>, at: nat) -> Seq<TokenV>
    decreases rem_count(ts, at),
{
    if at >= ts.len() {
        Seq::empty()
    } else {
        let r = sp_statement(ts, at);
        let n2 = if r.next < at {
            at
        } else {
            r.next
        };
        let rest = sp_program_intros(ts, (n2 + 1) as nat);
        match r.stmt {
            Option::Some(st) => seq![sp_stmt_intro(ts, at)] + rest,
            Option::None => rest,
        }
    }
}

/// One introducing token is recorded for each produced statement.
pub proof fn lemma_sp_program_intros_len(ts: Seq<TokenV>, at: nat)
    ensures
        sp_program_intros(ts, at).len() == sp_program(ts, at).stmts.len(),
    decreases rem_count(ts, at),
{
    if at < ts.len() {
        let r = sp_statement(ts, at);
        let n2 = if r.next < at {
            at
        } else {
            r.next
        };
        lemma_sp_program_intros_len(ts, (n2 + 1) as nat);
    }
}

// ---------------------------------------------------------------------------
// The parser state
// ---------------------------------------------------------------------------

/// The parser: a lexer, one token of lookahead beyond the current token,
/// and an ordered list of error messages.  The ghost cursor records which
/// position of `spec_tokens(src)` the current token stands at.
pub struct Parser<'a> {
    pub lexer: Lexer<'a>,
    pub current_token: Token,
    pub peek_token: Token,
    pub errors: Vec<String>,
    pub cursor: Ghost<nat>,
}

/// Pulling the head of a nonempty token suffix: the head is the token at
/// that position and the tail is the next suffix.
proof fn lemma_stream_shift(ts: Seq<TokenV>, i: nat, t: TokenV, rest: Seq<TokenV>)
    requires
        i < ts.len(),
        suffix_toks(ts, i) == seq![t] + rest,
    ensures
        t == ts[i as int],
        rest == suffix_toks(ts, (i + 1) as nat),
{
    assert(ts.skip(i as int)[0] == ts[i as int]);
    assert((seq![t] + rest)[0] == t);
    assert(rest =~= (seq![t] + rest).skip(1));
    assert(ts.skip(i as int).skip(1) =~= ts.skip(i as int + 1));
}

impl<'a> Parser<'a> {
    /// The source text being parsed.
    pub open spec fn src(&self) -> Seq<char> {
        self.lexer.src()
    }

    /// The full token sequence of the source text.
    pub open spec fn toks(&self) -> Seq<TokenV> {
        spec_tokens(self.src())
    }

    /// The position of the current token in `toks()`; at or past the end,
    /// the current token is the end-of-input sentinel.
    pub open spec fn at(&self) -> nat {
        self.cursor@
    }

    /// The parser state is consistent: current token, lookahead token and
    /// the lexer's leftover text all line up with the token sequence at the
    /// cursor.
    pub open spec fn wf(&self) -> bool {
        &&& self.current_token@ == tok_at(self.toks(), self.at())
        &&& self.peek_token@ == tok_at(self.toks(), (self.at() + 1) as nat)
        &&& spec_tokens(self.lexer.remaining()) == suffix_toks(self.toks(), (self.at() + 2) as nat)
    }

    /// A parser over `input`, with the first two tokens already pulled.
    pub fn new(input: &'a str) -> (p: Parser<'a>)
        ensures
            p.wf(),
            p.src() == input@,
            p.at() == 0,
            p.errors@.len() == 0,
    {
        let mut lexer = Lexer::new(input);
        let ghost ts = spec_tokens(input@);
        proof {
            assert(lexer.remaining() =~= input@);
            if ts.len() > 0 {
                assert(suffix_toks(ts, 0) =~= ts);
            }
        }
        let current_token = lexer.next_token();
        proof {
            if ts.len() == 0 {
            } else {
                lemma_stream_shift(ts, 0, current_token@, spec_tokens(lexer.remaining()));
            }
        }
        let peek_token = lexer.next_token();
        proof {
            if ts.len() == 0 {
                assert(suffix_toks(ts, 2) =~= Seq::<TokenV>::empty());
            } else if ts.len() == 1 {
                assert(spec_tokens(lexer.remaining()) =~= Seq::<TokenV>::empty());
                assert(suffix_toks(ts, 2) =~= Seq::<TokenV>::empty());
            } else {
                lemma_stream_shift(ts, 1, peek_token@, spec_tokens(lexer.remaining()));
            }
        }
        Parser {
            lexer,
            current_token,
            peek_token,
            errors: Vec::new(),
            cursor: Ghost(0nat),
        }
    }

    /// Moves one token forward: the lookahead token becomes current and a
    /// fresh token is pulled from the lexer.
    fn advance(&mut self)
        requires
            old(self).wf(),
        ensures
            final(self).wf(),
            final(self).src() == old(self).src(),
            final(self).at() == old(self).at() + 1,
            final(self).current_token == old(self).peek_token,
            final(self).errors == old(self).errors,
    {
        let ghost ts = old(self).toks();
        let ghost k = old(self).at();
        let mut t = self.lexer.next_token();
        core::mem::swap(&mut self.peek_token, &mut t);
        self.current_token = t;
        self.cursor = Ghost((k + 1) as nat);
        proof {
            if (k + 2) as nat >= ts.len() {
                assert(suffix_toks(ts, (k + 2) as nat).len() == 0);
                assert(suffix_toks(ts, (k + 3) as nat) =~= Seq::<TokenV>::empty());
            } else {
                lemma_stream_shift(
                    ts,
                    (k + 2) as nat,
                    self.peek_token@,
                    spec_tokens(self.lexer.remaining()),
                );
            }
        }
    }

    /// Records that the lookahead token had the wrong kind.
    fn peek_error(&mut self, token_type: TokenType)
        requires
            old(self).wf(),
        ensures
            final(self).wf(),
            final(self).src() == old(self).src(),
            final(self).at() == old(self).at(),
            final(self).current_token == old(self).current_token,
            final(self).peek_token == old(self).peek_token,
            errs_view(final(self).errors@) == errs_view(old(self).errors@).push(
                peek_err_msg(token_type, old(self).peek_token@.token_type),
            ),
    {
        let mut message = String::from_str("expected next token to be ");
        let en = kind_name(token_type);
        message.append(en.as_str());
        message.append(", got ");
        let gn = kind_name(self.peek_token.token_type);
        message.append(gn.as_str());
        message.append(" instead");
        proof {
            assert(message@ =~= peek_err_msg(token_type, self.peek_token@.token_type));
            lemma_errs_push(self.errors@, message);
        }
        self.errors.push(message);
    }

    /// Checks the lookahead token's kind; on a match the parser advances,
    /// on a mismatch an error is recorded and the parser stays put.
    fn expect_peek(&mut self, token_type: TokenType) -> (r: bool)
        requires
            old(self).wf(),
        ensures
            final(self).wf(),
            final(self).src() == old(self).src(),
            r == (tok_at(old(self).toks(), (old(self).at() + 1) as nat).token_type == token_type),
            r ==> final(self).at() == old(self).at() + 1 && final(self).errors == old(self).errors,
            !r ==> final(self).at() == old(self).at() && final(self).current_token == old(
                self,
            ).current_token && errs_view(final(self).errors@) == errs_view(old(self).errors@).push(
                peek_err_msg(
                    token_type,
                    tok_at(old(self).toks(), (old(self).at() + 1) as nat).token_type,
                ),
            ),
    {
        if self.peek_token.is_type(token_type) {
            self.advance();
            true
        } else {
            self.peek_error(token_type);
            false
        }
    }

    /// Records that no prefix rule applies to the current token.
    fn no_prefix_error(&mut self)
        requires
            old(self).wf(),
        ensures
            final(self).wf(),
            final(self).src() == old(self).src(),
            final(self).at() == old(self).at(),
            final(self).current_token == old(self).current_token,
            final(self).peek_token == old(self).peek_token,
            errs_view(final(self).errors@) == errs_view(old(self).errors@).push(
                no_prefix_msg(tok_at(old(self).toks(), old(self).at()).token_type),
            ),
    {
        let mut message = String::from_str("no prefix parse function for ");
        let n = kind_name(self.current_token.token_type);
        message.append(n.as_str());
        message.append(" found");
        proof {
            assert(message@ =~= no_prefix_msg(self.current_token@.token_type));
            lemma_errs_push(self.errors@, message);
        }
        self.errors.push(message);
    }
}

// ---------------------------------------------------------------------------
// Expression parsing
// ---------------------------------------------------------------------------

/// The common postcondition of the expression parsers, against a model
/// result `r`: the parser is left where the model says, the built
/// expression views as the model's expression, and exactly the model's
/// errors were appended.
spec fn expr_post<'a>(
    pre: Parser<'a>,
    post: Parser<'a>,
    result: Option<Expression>,
    r: ExprRes,
) -> bool {
    &&& post.wf()
    &&& post.src() == pre.src()
    &&& post.at() == r.next
    &&& post.at() >= pre.at()
    &&& opt_expr_view(result) == r.expr
    &&& errs_view(post.errors@) == errs_view(pre.errors@) + r.errs
}

proof fn lemma_errs_id(es: Seq<Seq<char>>)
    ensures
        es + Seq::<Seq<char>>::empty() == es,
{
    assert(es + Seq::<Seq<char>>::empty() =~= es);
}

proof fn lemma_push_is_add(es: Seq<Seq<char>>, m: Seq<char>)
    ensures
        es.push(m) == es + seq![m],
{
    assert(es.push(m) =~= es + seq![m]);
}

proof fn lemma_errs_assoc(a: Seq<Seq<char>>, b: Seq<Seq<char>>, c: Seq<Seq<char>>)
    ensures
        (a + b) + c == a + (b + c),
{
    assert((a + b) + c =~= a + (b + c));
}

impl<'a> Parser<'a> {
    /// The current identifier token as an identifier expression.
    fn parse_identifier(&self) -> (e: Expression)
        requires
            self.wf(),
            tok_at(self.toks(), self.at()).token_type == TokenType::Identifier,
        ensures
            expr_view(e) == (ExprV::Identifier {
                name: tok_at(self.toks(), self.at()).literal,
            }),
    {
        Expression::Identifier(Identifier::new(self.current_token.literal.as_str()))
    }

    /// The current boolean keyword as a boolean literal expression.
    fn parse_boolean(&self) -> (e: Expression)
        requires
            self.wf(),
            tok_at(self.toks(), self.at()).token_type == TokenType::True || tok_at(
                self.toks(),
                self.at(),
            ).token_type == TokenType::False,
        ensures
            expr_view(e) == (ExprV::Boolean {
                literal: tok_at(self.toks(), self.at()).literal,
                value: tok_at(self.toks(), self.at()).token_type == TokenType::True,
            }),
    {
        Expression::Boolean(Boolean::new(&self.current_token))
    }

    /// The current integer token as an integer literal expression; a value
    /// that does not fit in 64 signed bits is recorded as an error.
    fn parse_integer(&mut self) -> (e: Option<Expression>)
        requires
            old(self).wf(),
            tok_at(old(self).toks(), old(self).at()).token_type == TokenType::Int,
        ensures
            expr_post(*old(self), *final(self), e, sp_prefix(old(self).toks(), old(self).at())),
    {
        let r = int_from_digits(self.current_token.literal.as_str());
        match r {
            Option::Some(_) => {
                let lit = IntegerLiteral::new(&self.current_token);
                proof {
                    lemma_errs_id(errs_view(self.errors@));
                }
                Option::Some(Expression::IntegerLiteral(lit))
            },
            Option::None => {
                let mut message = String::from_str("could not parse ");
                message.append(self.current_token.literal.as_str());
                message.append(" as integer");
                proof {
                    assert(message@ =~= int_err_msg(self.current_token@.literal));
                    lemma_errs_push(self.errors@, message);
                    lemma_push_is_add(errs_view(self.errors@), message@);
                }
                self.errors.push(message);
                Option::None
            },
        }
    }

    /// A unary operator and its operand, parsed at `Prefix` strength.
    fn parse_prefix_expression(&mut self) -> (e: Option<Expression>)
        requires
            old(self).wf(),
            tok_at(old(self).toks(), old(self).at()).token_type == TokenType::Bang || tok_at(
                old(self).toks(),
                old(self).at(),
            ).token_type == TokenType::Minus,
        ensures
            expr_post(*old(self), *final(self), e, sp_prefix_operand(old(self).toks(), old(self).at())),
        decreases rem_count(self.toks(), self.at()), 0nat,
    {
        let token = Token::new(self.current_token.token_type, self.current_token.literal.as_str());
        self.advance();
        let operand = self.parse_expression(Precedence::Prefix);
        match operand {
            Option::Some(e) => Option::Some(
                Expression::PrefixExpression(PrefixExpression::new(token, Box::new(e))),
            ),
            Option::None => Option::None,
        }
    }

    /// A parenthesized expression: the inner expression is returned
    /// unchanged, and the closing parenthesis is required.
    fn parse_grouped_expression(&mut self) -> (e: Option<Expression>)
        requires
            old(self).wf(),
            tok_at(old(self).toks(), old(self).at()).token_type == TokenType::LeftParen,
        ensures
            expr_post(*old(self), *final(self), e, sp_prefix(old(self).toks(), old(self).at())),
        decreases rem_count(self.toks(), self.at()), 0nat,
    {
        self.advance();
        let inner = self.parse_expression(Precedence::Lowest);
        match inner {
            Option::None => Option::None,
            Option::Some(e) => {
                if self.expect_peek(TokenType::RightParen) {
                    Option::Some(e)
                } else {
                    proof {
                        let r = sp_expression(
                            old(self).toks(),
                            (old(self).at() + 1) as nat,
                            1,
                        );
                        lemma_push_is_add(
                            errs_view(old(self).errors@) + r.errs,
                            peek_err_msg(
                                TokenType::RightParen,
                                tok_at(old(self).toks(), (r.next + 1) as nat).token_type,
                            ),
                        );
                        lemma_errs_assoc(
                            errs_view(old(self).errors@),
                            r.errs,
                            seq![
                                peek_err_msg(
                                    TokenType::RightParen,
                                    tok_at(old(self).toks(), (r.next + 1) as nat).token_type,
                                ),
                            ],
                        );
                    }
                    Option::None
                }
            },
        }
    }

    /// Dispatch to the prefix parsing routine selected for the current
    /// token's kind.
    fn parse_prefix(&mut self, parser_type: PrefixParser) -> (e: Option<Expression>)
        requires
            old(self).wf(),
            match parser_type {
                PrefixParser::Identifier => tok_at(old(self).toks(), old(self).at()).token_type
                    == TokenType::Identifier,
                PrefixParser::Integer => tok_at(old(self).toks(), old(self).at()).token_type
                    == TokenType::Int,
                PrefixParser::Boolean => tok_at(old(self).toks(), old(self).at()).token_type
                    == TokenType::True || tok_at(old(self).toks(), old(self).at()).token_type
                    == TokenType::False,
                PrefixParser::Prefix => tok_at(old(self).toks(), old(self).at()).token_type
                    == TokenType::Bang || tok_at(old(self).toks(), old(self).at()).token_type
                    == TokenType::Minus,
                PrefixParser::Grouped => tok_at(old(self).toks(), old(self).at()).token_type
                    == TokenType::LeftParen,
            },
        ensures
            expr_post(*old(self), *final(self), e, sp_prefix(old(self).toks(), old(self).at())),
        decreases rem_count(self.toks(), self.at()), 1nat,
    {
        match parser_type {
            PrefixParser::Identifier => {
                let e = self.parse_identifier();
                proof {
                    lemma_errs_id(errs_view(self.errors@));
                }
                Option::Some(e)
            },
            PrefixParser::Integer => self.parse_integer(),
            PrefixParser::Boolean => {
                let e = self.parse_boolean();
                proof {
                    lemma_errs_id(errs_view(self.errors@));
                }
                Option::Some(e)
            },
            PrefixParser::Prefix => self.parse_prefix_expression(),
            PrefixParser::Grouped => self.parse_grouped_expression(),
        }
    }

    /// A binary operator (the current token) folding `left` with a right
    /// operand parsed at the operator's own strength.
    fn parse_infix_expression(&mut self, left: Expression) -> (e: Option<Expression>)
        requires
            old(self).wf(),
            prec_of_kind(tok_at(old(self).toks(), old(self).at()).token_type) > 1,
            tok_at(old(self).toks(), old(self).at()).token_type != TokenType::LeftParen,
        ensures
            ({
                let r = sp_expression(
                    old(self).toks(),
                    (old(self).at() + 1) as nat,
                    prec_of_kind(tok_at(old(self).toks(), old(self).at()).token_type),
                );
                &&& final(self).wf()
                &&& final(self).src() == old(self).src()
                &&& final(self).at() == r.next
                &&& final(self).at() >= old(self).at() + 1
                &&& errs_view(final(self).errors@) == errs_view(old(self).errors@) + r.errs
                &&& match e {
                    Option::Some(x) => r.expr is Some && expr_view(x) == (ExprV::Infix {
                        op: tok_at(old(self).toks(), old(self).at()).literal,
                        left: Box::new(expr_view(left)),
                        right: Box::new(r.expr->0),
                    }),
                    Option::None => r.expr is None,
                }
            }),
        decreases rem_count(self.toks(), self.at()), 0nat,
    {
        let token = Token::new(self.current_token.token_type, self.current_token.literal.as_str());
        let p = token_precedence(self.current_token.token_type);
        self.advance();
        let rhs = self.parse_expression(p);
        match rhs {
            Option::None => Option::None,
            Option::Some(r) => Option::Some(
                Expression::InfixExpression(InfixExpression::new(token, Box::new(left), Box::new(r))),
            ),
        }
    }

    /// A call expression: the current token is the opening parenthesis
    /// extending `function`.
    fn parse_call_expression(&mut self, function: Expression) -> (e: Option<Expression>)
        requires
            old(self).wf(),
            tok_at(old(self).toks(), old(self).at()).token_type == TokenType::LeftParen,
        ensures
            expr_post(
                *old(self),
                *final(self),
                e,
                sp_call(old(self).toks(), expr_view(function), old(self).at()),
            ),
        decreases rem_count(self.toks(), self.at()), 2nat,
    {
        let token = Token::new(self.current_token.token_type, self.current_token.literal.as_str());
        if self.peek_token.is_type(TokenType::RightParen) {
            self.advance();
            let arguments: Vec<Expression> = Vec::new();
            proof {
                assert(exprs_view(arguments@) =~= Seq::<ExprV>::empty());
                lemma_errs_id(errs_view(self.errors@));
            }
            return Option::Some(
                Expression::CallExpression(CallExpression::new(token, Box::new(function), arguments)),
            );
        }
        self.advance();
        let first = self.parse_expression(Precedence::Lowest);
        match first {
            Option::None => Option::None,
            Option::Some(a0) => {
                let mut arguments: Vec<Expression> = Vec::new();
                proof {
                    assert(exprs_view(arguments@) =~= Seq::<ExprV>::empty());
                }
                arguments.push(a0);
                proof {
                    assert(arguments@.drop_last() =~= Seq::<Expression>::empty());
                    assert(exprs_view(arguments@) =~= seq![expr_view(a0)]);
                }
                let rest = self.parse_call_arguments(arguments);
                match rest {
                    Option::None => {
                        proof {
                            lemma_errs_assoc_post(old(self), self);
                        }
                        Option::None
                    },
                    Option::Some(args) => {
                        proof {
                            lemma_errs_assoc_post(old(self), self);
                        }
                        Option::Some(
                            Expression::CallExpression(
                                CallExpression::new(token, Box::new(function), args),
                            ),
                        )
                    },
                }
            },
        }
    }

    /// Further comma-separated call arguments, ended by the closing
    /// parenthesis.
    fn parse_call_arguments(&mut self, args: Vec<Expression>) -> (r: Option<Vec<Expression>>)
        requires
            old(self).wf(),
        ensures
            ({
                let m = sp_call_args(old(self).toks(), exprs_view(args@), old(self).at());
                &&& final(self).wf()
                &&& final(self).src() == old(self).src()
                &&& final(self).at() == m.next
                &&& final(self).at() >= old(self).at()
                &&& errs_view(final(self).errors@) == errs_view(old(self).errors@) + m.errs
                &&& match r {
                    Option::Some(v) => m.args == Option::Some(exprs_view(v@)),
                    Option::None => m.args is None,
                }
            }),
        decreases rem_count(self.toks(), self.at()), 2nat,
    {
        if self.peek_token.is_type(TokenType::Comma) {
            self.advance();
            self.advance();
            let next_arg = self.parse_expression(Precedence::Lowest);
            match next_arg {
                Option::None => Option::None,
                Option::Some(a) => {
                    let mut args2 = args;
                    let ghost prior = args2@;
                    args2.push(a);
                    proof {
                        assert(args2@.drop_last() =~= prior);
                        assert(exprs_view(args2@) =~= exprs_view(prior).push(expr_view(a)));
                    }
                    let rest = self.parse_call_arguments(args2);
                    proof {
                        lemma_errs_assoc_post(old(self), self);
                    }
                    rest
                },
            }
        } else if self.expect_peek(TokenType::RightParen) {
            proof {
                lemma_errs_id(errs_view(self.errors@));
            }
            Option::Some(args)
        } else {
            proof {
                lemma_push_is_add(
                    errs_view(old(self).errors@),
                    peek_err_msg(
                        TokenType::RightParen,
                        tok_at(old(self).toks(), (old(self).at() + 1) as nat).token_type,
                    ),
                );
            }
            Option::None
        }
    }

    /// The infix loop: while the lookahead token is not a semicolon and
    /// binds strictly tighter than `precedence`, extend `left` by one
    /// operator.
    fn parse_infix_loop(&mut self, left: Expression, precedence: Precedence) -> (e: Option<
        Expression,
    >)
        requires
            old(self).wf(),
        ensures
            expr_post(
                *old(self),
                *final(self),
                e,
                sp_infix_loop(
                    old(self).toks(),
                    expr_view(left),
                    old(self).at(),
                    spec_prec(precedence),
                ),
            ),
        decreases rem_count(self.toks(), self.at()), 3nat,
    {
        let pv = prec_value(precedence);
        let ppv = {
            let p = token_precedence(self.peek_token.token_type);
            prec_value(p)
        };
        if !self.peek_token.is_type(TokenType::Semicolon) && pv < ppv {
            if self.peek_token.is_type(TokenType::LeftParen) {
                self.advance();
                let folded = self.parse_call_expression(left);
                match folded {
                    Option::None => {
                        proof {
                            lemma_errs_assoc_post(old(self), self);
                        }
                        Option::None
                    },
                    Option::Some(e) => {
                        let out = self.parse_infix_loop(e, precedence);
                        proof {
                            lemma_errs_assoc_post(old(self), self);
                        }
                        out
                    },
                }
            } else {
                self.advance();
                let folded = self.parse_infix_expression(left);
                match folded {
                    Option::None => {
                        proof {
                            lemma_errs_assoc_post(old(self), self);
                        }
                        Option::None
                    },
                    Option::Some(e) => {
                        let out = self.parse_infix_loop(e, precedence);
                        proof {
                            lemma_errs_assoc_post(old(self), self);
                        }
                        out
                    },
                }
            }
        } else {
            proof {
                lemma_errs_id(errs_view(self.errors@));
            }
            Option::Some(left)
        }
    }

    /// Precedence-climbing expression parsing: find a prefix rule for the
    /// current token (an error if none applies), build the initial
    /// expression, then fold in operators that bind tighter than
    /// `precedence`.
    fn parse_expression(&mut self, precedence: Precedence) -> (e: Option<Expression>)
        requires
            old(self).wf(),
        ensures
            expr_post(
                *old(self),
                *final(self),
                e,
                sp_expression(old(self).toks(), old(self).at(), spec_prec(precedence)),
            ),
        decreases rem_count(self.toks(), self.at()), 4nat,
    {
        let rule = prefix_rule_of(self.current_token.token_type);
        match rule {
            Option::None => {
                self.no_prefix_error();
                proof {
                    lemma_push_is_add(
                        errs_view(old(self).errors@),
                        no_prefix_msg(tok_at(old(self).toks(), old(self).at()).token_type),
                    );
                }
                Option::None
            },
            Option::Some(pp) => {
                let prefix = self.parse_prefix(pp);
                match prefix {
                    Option::None => {
                        proof {
                            lemma_errs_id(errs_view(self.errors@));
                            lemma_errs_assoc_post(old(self), self);
                        }
                        Option::None
                    },
                    Option::Some(left) => {
                        let out = self.parse_infix_loop(left, precedence);
                        proof {
                            lemma_errs_assoc_post(old(self), self);
                        }
                        out
                    },
                }
            },
        }
    }
}

// ---------------------------------------------------------------------------
// Statement parsing
// ---------------------------------------------------------------------------

impl<'a> Parser<'a> {
    /// `let <name> = <value>;` — requires an identifier, then `=`, then a
    /// value expression, then a semicolon; each failure records an error
    /// and aborts the statement.
    fn parse_let_statement(&mut self) -> (r: Option<LetStmt>)
        requires
            old(self).wf(),
        ensures
            ({
                let m = sp_let(old(self).toks(), old(self).at());
                &&& final(self).wf()
                &&& final(self).src() == old(self).src()
                &&& final(self).at() == m.next
                &&& final(self).at() >= old(self).at()
                &&& errs_view(final(self).errors@) == errs_view(old(self).errors@) + m.errs
                &&& match r {
                    Option::Some(st) => m.stmt == Option::Some(st@) && st.token@ == (TokenV {
                        token_type: TokenType::Let,
                        literal: "let"@,
                    }),
                    Option::None => m.stmt is None,
                }
            }),
    {
        if !self.expect_peek(TokenType::Identifier) {
            proof {
                lemma_push_is_add(
                    errs_view(old(self).errors@),
                    peek_err_msg(
                        TokenType::Identifier,
                        tok_at(old(self).toks(), (old(self).at() + 1) as nat).token_type,
                    ),
                );
            }
            return Option::None;
        }
        let name = Identifier::new(self.current_token.literal.as_str());
        if !self.expect_peek(TokenType::Assign) {
            proof {
                lemma_push_is_add(
                    errs_view(old(self).errors@),
                    peek_err_msg(
                        TokenType::Assign,
                        tok_at(old(self).toks(), (old(self).at() + 2) as nat).token_type,
                    ),
                );
            }
            return Option::None;
        }
        self.advance();
        let value = self.parse_expression(Precedence::Lowest);
        match value {
            Option::None => Option::None,
            Option::Some(e) => {
                if self.expect_peek(TokenType::Semicolon) {
                    Option::Some(LetStmt::new(name, Option::Some(e)))
                } else {
                    proof {
                        let m = sp_expression(
                            old(self).toks(),
                            (old(self).at() + 3) as nat,
                            1,
                        );
                        lemma_push_is_add(
                            errs_view(old(self).errors@) + m.errs,
                            peek_err_msg(
                                TokenType::Semicolon,
                                tok_at(old(self).toks(), (m.next + 1) as nat).token_type,
                            ),
                        );
                        lemma_errs_assoc_post(old(self), self);
                    }
                    Option::None
                }
            },
        }
    }

    /// `return;` or `return <value>;` — the value is optional, the
    /// semicolon is not.
    fn parse_return_statement(&mut self) -> (r: Option<ReturnStmt>)
        requires
            old(self).wf(),
        ensures
            ({
                let m = sp_return(old(self).toks(), old(self).at());
                &&& final(self).wf()
                &&& final(self).src() == old(self).src()
                &&& final(self).at() == m.next
                &&& final(self).at() >= old(self).at()
                &&& errs_view(final(self).errors@) == errs_view(old(self).errors@) + m.errs
                &&& match r {
                    Option::Some(st) => m.stmt == Option::Some(st@) && st.token@ == (TokenV {
                        token_type: TokenType::Return,
                        literal: "return"@,
                    }),
                    Option::None => m.stmt is None,
                }
            }),
    {
        if self.peek_token.is_type(TokenType::Semicolon) {
            self.advance();
            proof {
                lemma_errs_id(errs_view(self.errors@));
            }
            return Option::Some(ReturnStmt::new(Option::None));
        }
        self.advance();
        let value = self.parse_expression(Precedence::Lowest);
        match value {
            Option::None => Option::None,
            Option::Some(e) => {
                if self.expect_peek(TokenType::Semicolon) {
                    Option::Some(ReturnStmt::new(Option::Some(e)))
                } else {
                    proof {
                        let m = sp_expression(
                            old(self).toks(),
                            (old(self).at() + 1) as nat,
                            1,
                        );
                        lemma_push_is_add(
                            errs_view(old(self).errors@) + m.errs,
                            peek_err_msg(
                                TokenType::Semicolon,
                                tok_at(old(self).toks(), (m.next + 1) as nat).token_type,
                            ),
                        );
                        lemma_errs_assoc_post(old(self), self);
                    }
                    Option::None
                }
            },
        }
    }

    /// A bare expression as a statement; a trailing semicolon is consumed
    /// when present.
    fn parse_expression_statement(&mut self) -> (r: Option<ExpressionStmt>)
        requires
            old(self).wf(),
        ensures
            ({
                let m = sp_expr_stmt(old(self).toks(), old(self).at());
                &&& final(self).wf()
                &&& final(self).src() == old(self).src()
                &&& final(self).at() == m.next
                &&& final(self).at() >= old(self).at()
                &&& errs_view(final(self).errors@) == errs_view(old(self).errors@) + m.errs
                &&& match r {
                    Option::Some(st) => m.stmt == Option::Some(st@) && st.token@ == tok_at(
                        old(self).toks(),
                        old(self).at(),
                    ),
                    Option::None => m.stmt is None,
                }
            }),
    {
        let token = Token::new(self.current_token.token_type, self.current_token.literal.as_str());
        let e = self.parse_expression(Precedence::Lowest);
        match e {
            Option::None => Option::None,
            Option::Some(expr) => {
                if self.peek_token.is_type(TokenType::Semicolon) {
                    self.advance();
                }
                Option::Some(ExpressionStmt { token, expression: expr })
            },
        }
    }

    /// Statement dispatch on the current token's kind: `let`, `return`, or
    /// the expression-statement fallback.
    fn parse_statement(&mut self) -> (r: Option<Statement>)
        requires
            old(self).wf(),
        ensures
            ({
                let m = sp_statement(old(self).toks(), old(self).at());
                &&& final(self).wf()
                &&& final(self).src() == old(self).src()
                &&& final(self).at() == m.next
                &&& final(self).at() >= old(self).at()
                &&& errs_view(final(self).errors@) == errs_view(old(self).errors@) + m.errs
                &&& match r {
                    Option::Some(st) => m.stmt == Option::Some(st@) && stmt_intro_token(st)
                        == sp_stmt_intro(old(self).toks(), old(self).at()),
                    Option::None => m.stmt is None,
                }
            }),
    {
        if self.current_token.is_type(TokenType::Let) {
            let r = self.parse_let_statement();
            match r {
                Option::Some(st) => Option::Some(Statement::LetStmt(st)),
                Option::None => Option::None,
            }
        } else if self.current_token.is_type(TokenType::Return) {
            let r = self.parse_return_statement();
            match r {
                Option::Some(st) => Option::Some(Statement::ReturnStmt(st)),
                Option::None => Option::None,
            }
        } else {
            let r = self.parse_expression_statement();
            match r {
                Option::Some(st) => Option::Some(Statement::ExpressionStmt(st)),
                Option::None => Option::None,
            }
        }
    }

    /// Parses statements until the end of the input.  A statement that
    /// fails to parse contributes its error messages and is skipped; it
    /// never aborts the rest of the program.  Returns no program only when
    /// nothing at all was parsed and no error was recorded, so a caller
    /// can tell an empty input from a failed one.
    pub fn parse_program(&mut self) -> (r: Option<Program>)
        requires
            old(self).wf(),
        ensures
            final(self).wf(),
            final(self).src() == old(self).src(),
            ({
                let m = sp_program(old(self).toks(), old(self).at());
                &&& errs_view(final(self).errors@) == errs_view(old(self).errors@) + m.errs
                &&& ((r is None) <==> (m.stmts.len() == 0 && final(self).errors@.len() == 0))
                &&& (r matches Option::Some(p) ==> p@ == m.stmts)
            }),
            (r matches Option::Some(p) ==> {
                let intros = sp_program_intros(old(self).toks(), old(self).at());
                &&& p.statements@.len() == intros.len()
                &&& forall|i: int|
                    0 <= i < p.statements@.len() ==> stmt_intro_token(#[trigger] p.statements@[i])
                        == intros[i]
            }),
    {
        let ghost ts = self.toks();
        let ghost at0 = self.at();
        let mut statements: Vec<Statement> = Vec::new();
        let ghost mut done: Seq<Seq<char>> = Seq::empty();
        let ghost mut intros: Seq<TokenV> = Seq::empty();
        proof {
            assert(errs_view(self.errors@) + done =~= errs_view(self.errors@));
            assert(stmts_view(statements@) + sp_program(ts, at0).stmts =~= sp_program(
                ts,
                at0,
            ).stmts);
            assert(done + sp_program(ts, at0).errs =~= sp_program(ts, at0).errs);
            assert(intros + sp_program_intros(ts, at0) =~= sp_program_intros(ts, at0));
        }
        while !self.current_token.is_type(TokenType::Eof)
            invariant
                self.wf(),
                self.src() == old(self).src(),
                ts == self.toks(),
                at0 == old(self).at(),
                errs_view(self.errors@) == errs_view(old(self).errors@) + done,
                sp_program(ts, at0).stmts == stmts_view(statements@) + sp_program(
                    ts,
                    self.at(),
                ).stmts,
                sp_program(ts, at0).errs == done + sp_program(ts, self.at()).errs,
                intros.len() == statements@.len(),
                forall|i: int|
                    0 <= i < statements@.len() ==> stmt_intro_token(#[trigger] statements@[i])
                        == intros[i],
                sp_program_intros(ts, at0) == intros + sp_program_intros(ts, self.at()),
            decreases rem_count(ts, self.at()),
        {
            proof {
                lemma_spec_tokens_no_eof(self.src());
                assert(self.at() < ts.len());
            }
            let ghost atk = self.at();
            let ghost done_prior = done;
            let ghost stmts_prior = statements@;
            let ghost intros_prior = intros;
            let stmt = self.parse_statement();
            self.advance();
            let ghost m = sp_statement(ts, atk);
            match stmt {
                Option::Some(s) => {
                    statements.push(s);
                    proof {
                        intros = intros_prior.push(sp_stmt_intro(ts, atk));
                        assert(statements@.drop_last() =~= stmts_prior);
                        assert(stmts_view(statements@) =~= stmts_view(stmts_prior).push(
                            stmt_view(s),
                        ));
                        assert forall|i: int|
                            0 <= i < statements@.len() implies stmt_intro_token(
                            #[trigger] statements@[i],
                        ) == intros[i] by {
                            if i < statements@.len() - 1 {
                                assert(statements@[i] == stmts_prior[i]);
                            } else {
                                assert(statements@[i] == s);
                            }
                        }
                    }
                },
                Option::None => {},
            }
            proof {
                done = done_prior + m.errs;
                assert(errs_view(self.errors@) =~= errs_view(old(self).errors@) + done);
                let rest = sp_program(ts, (m.next + 1) as nat);
                let rest_intros = sp_program_intros(ts, (m.next + 1) as nat);
                assert(sp_program(ts, atk).errs == m.errs + rest.errs);
                assert(done + rest.errs =~= done_prior + (m.errs + rest.errs));
                match m.stmt {
                    Option::Some(st) => {
                        assert(sp_program(ts, atk).stmts == seq![st] + rest.stmts);
                        assert(stmts_view(statements@) + rest.stmts =~= stmts_view(stmts_prior) + (
                        seq![st] + rest.stmts));
                        assert(sp_program_intros(ts, atk) == seq![sp_stmt_intro(ts, atk)]
                            + rest_intros);
                        assert(intros + rest_intros =~= intros_prior + (seq![
                            sp_stmt_intro(ts, atk),
                        ] + rest_intros));
                    },
                    Option::None => {
                        assert(sp_program(ts, atk).stmts == rest.stmts);
                        assert(sp_program_intros(ts, atk) == rest_intros);
                    },
                }
            }
        }
        proof {
            lemma_spec_tokens_no_eof(self.src());
            assert(self.at() >= ts.len());
            assert(sp_program(ts, self.at()).stmts.len() == 0);
            assert(sp_program(ts, self.at()).errs.len() == 0);
            assert(sp_program_intros(ts, self.at()).len() == 0);
            assert(stmts_view(statements@) + sp_program(ts, self.at()).stmts =~= stmts_view(
                statements@,
            ));
            assert(done + sp_program(ts, self.at()).errs =~= done);
            assert(intros + sp_program_intros(ts, self.at()) =~= intros);
            lemma_stmts_view(statements@);
        }
        if statements.len() == 0 && self.errors.len() == 0 {
            proof {
                assert(errs_view(self.errors@).len() == 0);
            }
            Option::None
        } else {
            Option::Some(Program { statements })
        }
    }
}

/// Error lists compose: appending `b` then `c` to `a` is appending
/// `b + c`.  Stated over the two parser states around a pair of calls.
proof fn lemma_errs_assoc_post<'a>(pre: &Parser<'a>, post: &Parser<'a>)
    ensures
        forall|b: Seq<Seq<char>>, c: Seq<Seq<char>>|
            (errs_view(pre.errors@) + b) + c == errs_view(pre.errors@) + (b + c),
{
    assert forall|b: Seq<Seq<char>>, c: Seq<Seq<char>>|
        (errs_view(pre.errors@) + b) + c == errs_view(pre.errors@) + (b + c) by {
        assert((errs_view(pre.errors@) + b) + c =~= errs_view(pre.errors@) + (b + c));
    }
}

} // verus!
