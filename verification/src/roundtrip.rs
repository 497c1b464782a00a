//! The round-trip law: re-lexing the canonical rendering of a well-formed
//! tree and re-parsing it rebuilds the same tree, with no errors.
//!
//! The proof goes through an intermediate model: `expr_tokens` /
//! `stmt_tokens` give the token sequence of a rendered node.  One family
//! of lemmas shows that lexing the rendered text yields exactly those
//! tokens; a second family shows that the parser, run on those tokens,
//! rebuilds that same node.

use vstd::prelude::*;
use crate::ast::{
    all_digits, dec_of, digits_val, lemma_dec_digits_digits, lemma_digits_val_bounds,
    lemma_digits_val_dec_digits, render_args, render_expr,
    render_opt_expr, render_program, render_stmt, wf_args, wf_expr, wf_name, wf_program,
    wf_stmt, ExprV, StmtV,
};
use crate::lexer::{
    is_digit, is_letter, is_op_char, is_ws, lemma_digit_run, lemma_word_run,
    lookup_keyword, scan_len, scan_tok, single_char_kind, spec_tokens, two_char_kind, word_len,
    ws_len,
};
use crate::parser::{
    has_prefix_rule, prec_of_kind, rem_count, sp_call, sp_call_args, sp_expression,
    sp_infix_loop, sp_prefix, sp_prefix_operand, sp_program, sp_statement, tok_at, ArgsRes,
    ExprRes, ProgRes, StmtRes,
};
use crate::token::{TokenType, TokenV};

verus! {

// ---------------------------------------------------------------------------
// The token sequence of a rendered node
// ---------------------------------------------------------------------------

/// The kind of a rendered infix operator's token.
pub open spec fn infix_kind(op: Seq<char>) -> TokenType {
    if op == "+"@ {
        TokenType::Plus
    } else if op == "-"@ {
        TokenType::Minus
    } else if op == "*"@ {
        TokenType::Asterisk
    } else if op == "/"@ {
        TokenType::Slash
    } else if op == "=="@ {
        TokenType::EqualEqual
    } else if op == "!="@ {
        TokenType::BangEqual
    } else if op == "<"@ {
        TokenType::Less
    } else {
        TokenType::Greater
    }
}

/// The kind of a rendered unary operator's token.
pub open spec fn prefix_kind(op: Seq<char>) -> TokenType {
    if op == "!"@ {
        TokenType::Bang
    } else {
        TokenType::Minus
    }
}

pub open spec fn lp_tok() -> TokenV {
    TokenV { token_type: TokenType::LeftParen, literal: "("@ }
}

pub open spec fn rp_tok() -> TokenV {
    TokenV { token_type: TokenType::RightParen, literal: ")"@ }
}

pub open spec fn comma_tok() -> TokenV {
    TokenV { token_type: TokenType::Comma, literal: ","@ }
}

pub open spec fn semi_tok() -> TokenV {
    TokenV { token_type: TokenType::Semicolon, literal: ";"@ }
}

/// The tokens of a rendered expression.
pub open spec fn expr_tokens(e: ExprV) -> Seq<TokenV>
    decreases e,
{
    match e {
        ExprV::Identifier { name } => seq![
            TokenV { token_type: TokenType::Identifier, literal: name },
        ],
        ExprV::IntegerLiteral { value } => seq![
            TokenV { token_type: TokenType::Int, literal: dec_of(value) },
        ],
        ExprV::Boolean { literal, value } => seq![
            TokenV {
                token_type: if value {
                    TokenType::True
                } else {
                    TokenType::False
                },
                literal,
            },
        ],
        ExprV::Prefix { op, right } => seq![
            lp_tok(),
            TokenV { token_type: prefix_kind(op), literal: op },
        ] + expr_tokens(*right) + seq![rp_tok()],
        ExprV::Infix { op, left, right } => seq![lp_tok()] + expr_tokens(*left) + seq![
            TokenV { token_type: infix_kind(op), literal: op },
        ] + expr_tokens(*right) + seq![rp_tok()],
        ExprV::Call { func, args } => expr_tokens(*func) + seq![lp_tok()] + args_tokens(args)
            + seq![rp_tok()],
    }
}

/// The tokens of a rendered argument list.
pub open spec fn args_tokens(args: Seq<ExprV>) -> Seq<TokenV>
    decreases args, 1nat,
{
    if args.len() == 0 {
        Seq::empty()
    } else {
        expr_tokens(args[0]) + rest_args_tokens(args.drop_first())
    }
}

/// The tokens of the second and later rendered arguments, each preceded
/// by a comma.
pub open spec fn rest_args_tokens(rest: Seq<ExprV>) -> Seq<TokenV>
    decreases rest, 2nat,
{
    if rest.len() == 0 {
        Seq::empty()
    } else {
        seq![comma_tok()] + expr_tokens(rest[0]) + rest_args_tokens(rest.drop_first())
    }
}

pub open spec fn opt_expr_tokens(v: Option<ExprV>) -> Seq<TokenV> {
    match v {
        Option::Some(e) => expr_tokens(e),
        Option::None => Seq::empty(),
    }
}

/// The tokens of a rendered statement.
pub open spec fn stmt_tokens(s: StmtV) -> Seq<TokenV> {
    match s {
        StmtV::LetStmt { name, value } => seq![
            TokenV { token_type: TokenType::Let, literal: "let"@ },
            TokenV { token_type: TokenType::Identifier, literal: name },
            TokenV { token_type: TokenType::Assign, literal: "="@ },
        ] + opt_expr_tokens(value) + seq![semi_tok()],
        StmtV::ReturnStmt { value } => seq![
            TokenV { token_type: TokenType::Return, literal: "return"@ },
        ] + opt_expr_tokens(value) + seq![semi_tok()],
        StmtV::ExpressionStmt { expr } => expr_tokens(expr) + seq![semi_tok()],
    }
}

/// The tokens of a rendered program.
pub open spec fn stmts_tokens(stmts: Seq<StmtV>) -> Seq<TokenV>
    decreases stmts,
{
    if stmts.len() == 0 {
        Seq::empty()
    } else {
        stmt_tokens(stmts[0]) + stmts_tokens(stmts.drop_first())
    }
}

// ---------------------------------------------------------------------------
// Lexing one fragment at the head of a text
// ---------------------------------------------------------------------------

/// A character that cannot extend a just-rendered expression: not a letter
/// and not a digit.
pub open spec fn ok_boundary(rest: Seq<char>) -> bool {
    rest.len() > 0 ==> (!is_letter(rest[0]) && !is_digit(rest[0]))
}

/// Skipping one leading whitespace character does not change the tokens.
proof fn lemma_lex_ws(s: Seq<char>)
    requires
        s.len() > 0,
        is_ws(s[0]),
    ensures
        spec_tokens(s) == spec_tokens(s.skip(1)),
{
    let s1 = s.skip(1);
    assert(ws_len(s) == 1 + ws_len(s1));
    crate::lexer::lemma_ws_len(s1);
    assert(ws_len(s1) <= s1.len());
    assert(s.skip(ws_len(s) as int) =~= s1.skip(ws_len(s1) as int));
}

/// A maximal alphabetic run at the head lexes to one keyword-or-identifier
/// token.
proof fn lemma_lex_word(w: Seq<char>, rest: Seq<char>)
    requires
        w.len() > 0,
        forall|i: int| 0 <= i < w.len() ==> is_letter(#[trigger] w[i]),
        rest.len() > 0 ==> !is_letter(rest[0]),
    ensures
        spec_tokens(w + rest) == seq![
            TokenV { token_type: lookup_keyword(w), literal: w },
        ] + spec_tokens(rest),
{
    let s = w + rest;
    assert(s[0] == w[0]);
    assert(!is_ws(s[0]));
    assert(ws_len(s) == 0);
    assert(s.skip(0) =~= s);
    assert forall|i: int| 0 <= i < w.len() implies is_letter(s[i]) by {
        assert(s[i] == w[i]);
    }
    if w.len() < s.len() {
        assert(s[w.len() as int] == rest[0]);
    }
    lemma_word_run(s, w.len() as nat);
    assert(scan_len(s) == w.len());
    assert(s.take(w.len() as int) =~= w);
    assert(s.skip(w.len() as int) =~= rest);
    assert(scan_tok(s) == (TokenV { token_type: lookup_keyword(w), literal: w }));
    assert(spec_tokens(s) =~= seq![scan_tok(s)] + spec_tokens(rest));
}

/// A maximal digit run at the head lexes to one integer token.
proof fn lemma_lex_digits(w: Seq<char>, rest: Seq<char>)
    requires
        w.len() > 0,
        forall|i: int| 0 <= i < w.len() ==> is_digit(#[trigger] w[i]),
        rest.len() > 0 ==> !is_digit(rest[0]),
    ensures
        spec_tokens(w + rest) == seq![
            TokenV { token_type: TokenType::Int, literal: w },
        ] + spec_tokens(rest),
{
    let s = w + rest;
    assert(s[0] == w[0]);
    assert(!is_ws(s[0]));
    assert(!is_letter(s[0]));
    assert(ws_len(s) == 0);
    assert(s.skip(0) =~= s);
    assert forall|i: int| 0 <= i < w.len() implies is_digit(s[i]) by {
        assert(s[i] == w[i]);
    }
    if w.len() < s.len() {
        assert(s[w.len() as int] == rest[0]);
    }
    lemma_digit_run(s, w.len() as nat);
    assert(scan_len(s) == w.len());
    assert(s.take(w.len() as int) =~= w);
    assert(s.skip(w.len() as int) =~= rest);
    assert(scan_tok(s) == (TokenV { token_type: TokenType::Int, literal: w }));
    assert(spec_tokens(s) =~= seq![scan_tok(s)] + spec_tokens(rest));
}

/// A punctuation character at the head lexes to its own token, provided an
/// operator character is not followed by `=`.
proof fn lemma_lex_punct(c: char, rest: Seq<char>)
    requires
        crate::laws::is_punct_char(c),
        is_op_char(c) ==> (rest.len() > 0 ==> rest[0] != '='),
    ensures
        spec_tokens(seq![c] + rest) == seq![
            TokenV { token_type: single_char_kind(c), literal: seq![c] },
        ] + spec_tokens(rest),
{
    let s = seq![c] + rest;
    assert(s[0] == c);
    assert(!is_ws(c));
    assert(!is_letter(c));
    assert(!is_digit(c));
    assert(ws_len(s) == 0);
    assert(s.skip(0) =~= s);
    if s.len() > 1 {
        assert(s[1] == rest[0]);
    }
    assert(scan_len(s) == 1);
    assert(s.skip(1) =~= rest);
    assert(scan_tok(s) == (TokenV { token_type: single_char_kind(c), literal: seq![c] }));
    assert(spec_tokens(s) =~= seq![scan_tok(s)] + spec_tokens(rest));
}

/// An operator character followed by `=` lexes to one two-character token.
proof fn lemma_lex_two_op(c: char, rest: Seq<char>)
    requires
        is_op_char(c),
    ensures
        spec_tokens(seq![c, '='] + rest) == seq![
            TokenV { token_type: two_char_kind(c), literal: seq![c, '='] },
        ] + spec_tokens(rest),
{
    let s = seq![c, '='] + rest;
    assert(s[0] == c);
    assert(s[1] == '=');
    assert(!is_ws(c));
    assert(!is_letter(c));
    assert(!is_digit(c));
    assert(ws_len(s) == 0);
    assert(s.skip(0) =~= s);
    assert(scan_len(s) == 2);
    assert(s.skip(2) =~= rest);
    assert(scan_tok(s) == (TokenV { token_type: two_char_kind(c), literal: seq![c, '='] }));
    assert(spec_tokens(s) =~= seq![scan_tok(s)] + spec_tokens(rest));
}

/// An empty text lexes to no tokens.
proof fn lemma_lex_empty()
    ensures
        spec_tokens(Seq::<char>::empty()) == Seq::<TokenV>::empty(),
{
    let s = Seq::<char>::empty();
    assert(ws_len(s) == 0);
    assert(s.skip(0) =~= s);
}

// ---------------------------------------------------------------------------
// Lexing a rendered node
// ---------------------------------------------------------------------------

/// A well-formed argument list is a list of well-formed expressions.
proof fn lemma_wf_args_iff(args: Seq<ExprV>)
    ensures
        wf_args(args) <==> (forall|i: int| 0 <= i < args.len() ==> wf_expr(#[trigger] args[i])),
    decreases args,
{
    if args.len() > 0 {
        lemma_wf_args_iff(args.drop_last());
        if wf_args(args) {
            assert forall|i: int| 0 <= i < args.len() implies wf_expr(#[trigger] args[i]) by {
                if i < args.len() - 1 {
                    assert(args.drop_last()[i] == args[i]);
                }
            }
        }
        if forall|i: int| 0 <= i < args.len() ==> wf_expr(#[trigger] args[i]) {
            assert forall|i: int|
                0 <= i < args.drop_last().len() implies wf_expr(
                #[trigger] args.drop_last()[i],
            ) by {
                assert(args.drop_last()[i] == args[i]);
            }
        }
    }
}

/// The rendering of a well-formed expression is nonempty and begins with a
/// letter, a digit, or an opening parenthesis.
proof fn lemma_render_expr_head(e: ExprV)
    requires
        wf_expr(e),
    ensures
        render_expr(e).len() > 0,
        is_letter(render_expr(e)[0]) || is_digit(render_expr(e)[0]) || render_expr(e)[0] == '(',
    decreases e,
{
    reveal_strlit("(");
    reveal_strlit("true");
    reveal_strlit("false");
    match e {
        ExprV::Identifier { name } => {
            assert(is_letter(name[0]));
        },
        ExprV::IntegerLiteral { value } => {
            lemma_dec_digits_digits(value as nat);
            assert(is_digit(render_expr(e)[0]));
        },
        ExprV::Boolean { literal, value } => {
            assert(is_letter(literal[0]));
        },
        ExprV::Prefix { op, right } => {
            assert(render_expr(e)[0] == '(');
        },
        ExprV::Infix { op, left, right } => {
            assert(render_expr(e)[0] == '(');
        },
        ExprV::Call { func, args } => {
            lemma_render_expr_head(*func);
            assert(render_expr(e)[0] == render_expr(*func)[0]);
        },
    }
}

/// Front decomposition of a rendered argument list: the first argument,
/// then a comma and a space, then the rest.
proof fn lemma_render_args_front(args: Seq<ExprV>)
    requires
        args.len() >= 2,
    ensures
        render_args(args) == render_expr(args[0]) + ", "@ + render_args(args.drop_first()),
    decreases args.len(),
{
    let dl = args.drop_last();
    let df = args.drop_first();
    if args.len() == 2 {
        assert(dl.len() == 1);
        assert(dl[0] == args[0]);
        assert(df.len() == 1);
        assert(df[0] == args[1]);
        assert(render_args(dl) == render_expr(args[0]));
        assert(render_args(df) == render_expr(args[1]));
        assert(args.last() == args[1]);
    } else {
        lemma_render_args_front(dl);
        assert(dl[0] == args[0]);
        assert(dl.drop_first() =~= df.drop_last());
        assert(df.len() >= 2);
        assert(df[0] == args[1]);
        assert(df.last() == args.last());
        // render_args(args) = render_args(dl) + ", " + render(last)
        //                   = (render(args[0]) + ", " + render_args(dl.drop_first())) + ", " + render(last)
        // render_args(df)   = render_args(df.drop_last()) + ", " + render(df.last())
        assert(render_args(args) =~= render_expr(args[0]) + ", "@ + render_args(df));
    }
}

/// Lexing the rendering of a well-formed expression yields exactly its
/// token sequence, for any following text that cannot extend its last
/// token.
#[verifier::rlimit(100)]
proof fn lemma_render_expr_lex(e: ExprV, rest: Seq<char>)
    requires
        wf_expr(e),
        ok_boundary(rest),
    ensures
        spec_tokens(render_expr(e) + rest) == expr_tokens(e) + spec_tokens(rest),
    decreases e,
{
    reveal_strlit("(");
    reveal_strlit(")");
    reveal_strlit("!");
    reveal_strlit("-");
    reveal_strlit("fn");
    reveal_strlit("let");
    reveal_strlit("true");
    reveal_strlit("false");
    reveal_strlit("if");
    reveal_strlit("else");
    reveal_strlit("return");
    match e {
        ExprV::Identifier { name } => {
            lemma_lex_word(name, rest);
        },
        ExprV::IntegerLiteral { value } => {
            lemma_dec_digits_digits(value as nat);
            lemma_lex_digits(dec_of(value), rest);
        },
        ExprV::Boolean { literal, value } => {
            assert(forall|i: int| 0 <= i < literal.len() ==> is_letter(#[trigger] literal[i]));
            lemma_lex_word(literal, rest);
            assert(lookup_keyword(literal) == (if value {
                TokenType::True
            } else {
                TokenType::False
            }));
        },
        ExprV::Prefix { op, right } => {
            let rr = render_expr(*right);
            let c = op[0];
            assert(op =~= seq![c]);
            let rest3 = ")"@ + rest;
            let rest2 = rr + rest3;
            let rest1 = op + rest2;
            assert(render_expr(e) + rest =~= seq!['('] + rest1);
            lemma_lex_punct('(', rest1);
            lemma_render_expr_head(*right);
            assert(rest2[0] == rr[0]);
            assert(rest2[0] != '=');
            assert(rest1 =~= seq![c] + rest2);
            lemma_lex_punct(c, rest2);
            assert(single_char_kind(c) == prefix_kind(op));
            assert(ok_boundary(rest3));
            lemma_render_expr_lex(*right, rest3);
            assert(rest3 =~= seq![')'] + rest);
            lemma_lex_punct(')', rest);
            assert("("@ =~= seq!['(']);
            assert(")"@ =~= seq![')']);
            assert(lp_tok() == (TokenV { token_type: TokenType::LeftParen, literal: seq!['('] }));
            assert(rp_tok() == (TokenV { token_type: TokenType::RightParen, literal: seq![')'] }));
            assert(spec_tokens(render_expr(e) + rest) =~= expr_tokens(e) + spec_tokens(rest));
        },
        ExprV::Infix { op, left, right } => {
            reveal_strlit(" ");
            reveal_strlit("+");
            reveal_strlit("*");
            reveal_strlit("/");
            reveal_strlit("<");
            reveal_strlit(">");
            reveal_strlit("==");
            reveal_strlit("!=");
            let rl = render_expr(*left);
            let rr = render_expr(*right);
            let rest6 = ")"@ + rest;
            let rest5 = rr + rest6;
            let rest4 = " "@ + rest5;
            let rest3 = op + rest4;
            let rest2 = " "@ + rest3;
            let rest1 = rl + rest2;
            assert(render_expr(e) + rest =~= seq!['('] + rest1);
            lemma_lex_punct('(', rest1);
            assert(ok_boundary(rest2));
            lemma_render_expr_lex(*left, rest2);
            assert(rest2 =~= seq![' '] + rest3);
            lemma_lex_ws(rest2);
            assert(rest2.skip(1) =~= rest3);
            if op == "=="@ || op == "!="@ {
                let c = op[0];
                assert(op =~= seq![c, '=']);
                assert(rest3 =~= seq![c, '='] + rest4);
                lemma_lex_two_op(c, rest4);
                assert(two_char_kind(c) == infix_kind(op));
            } else {
                let c = op[0];
                assert(op =~= seq![c]);
                assert(rest3 =~= seq![c] + rest4);
                assert(rest4[0] == ' ');
                lemma_lex_punct(c, rest4);
                assert(single_char_kind(c) == infix_kind(op));
            }
            assert(rest4 =~= seq![' '] + rest5);
            lemma_lex_ws(rest4);
            assert(rest4.skip(1) =~= rest5);
            assert(ok_boundary(rest6));
            lemma_render_expr_lex(*right, rest6);
            assert(rest6 =~= seq![')'] + rest);
            lemma_lex_punct(')', rest);
            assert("("@ =~= seq!['(']);
            assert(")"@ =~= seq![')']);
            assert(lp_tok() == (TokenV { token_type: TokenType::LeftParen, literal: seq!['('] }));
            assert(rp_tok() == (TokenV { token_type: TokenType::RightParen, literal: seq![')'] }));
            assert(spec_tokens(render_expr(e) + rest) =~= expr_tokens(e) + spec_tokens(rest));
        },
        ExprV::Call { func, args } => {
            let rf = render_expr(*func);
            let ra = render_args(args);
            let rest3 = ")"@ + rest;
            let rest2 = ra + rest3;
            let rest1 = "("@ + rest2;
            assert(render_expr(e) + rest =~= rf + rest1);
            assert(rest1[0] == '(');
            assert(ok_boundary(rest1));
            lemma_render_expr_lex(*func, rest1);
            assert(rest1 =~= seq!['('] + rest2);
            lemma_lex_punct('(', rest2);
            lemma_wf_args_iff(args);
            lemma_render_args_lex(args, rest3);
            assert(rest3 =~= seq![')'] + rest);
            lemma_lex_punct(')', rest);
            assert("("@ =~= seq!['(']);
            assert(")"@ =~= seq![')']);
            assert(lp_tok() == (TokenV { token_type: TokenType::LeftParen, literal: seq!['('] }));
            assert(rp_tok() == (TokenV { token_type: TokenType::RightParen, literal: seq![')'] }));
            assert(spec_tokens(render_expr(e) + rest) =~= expr_tokens(e) + spec_tokens(rest));
        },
    }
}

/// Lexing a rendered argument list yields its token sequence.
#[verifier::rlimit(100)]
proof fn lemma_render_args_lex(args: Seq<ExprV>, rest: Seq<char>)
    requires
        wf_args(args),
        ok_boundary(rest),
    ensures
        spec_tokens(render_args(args) + rest) == args_tokens(args) + spec_tokens(rest),
    decreases args,
{
    reveal_strlit(",");
    reveal_strlit(", ");
    reveal_strlit(" ");
    lemma_wf_args_iff(args);
    if args.len() == 0 {
        assert(render_args(args) + rest =~= rest);
        assert(args_tokens(args) + spec_tokens(rest) =~= spec_tokens(rest));
    } else if args.len() == 1 {
        lemma_render_expr_lex(args[0], rest);
        assert(args[0] == args.last());
        assert(args.drop_first().len() == 0);
        assert(args_tokens(args) =~= expr_tokens(args[0]));
        assert(spec_tokens(render_args(args) + rest) =~= args_tokens(args) + spec_tokens(rest));
    } else {
        let df = args.drop_first();
        lemma_render_args_front(args);
        let rest3 = render_args(df) + rest;
        let rest2 = " "@ + rest3;
        let rest1 = ", "@ + rest3;
        assert(render_args(args) + rest =~= render_expr(args[0]) + rest1);
        assert(rest1[0] == ',');
        assert(ok_boundary(rest1));
        lemma_render_expr_lex(args[0], rest1);
        assert(rest1 =~= seq![','] + rest2);
        lemma_lex_punct(',', rest2);
        assert(rest2 =~= seq![' '] + rest3);
        lemma_lex_ws(rest2);
        assert(rest2.skip(1) =~= rest3);
        assert(wf_args(df)) by {
            lemma_wf_args_iff(df);
            assert forall|i: int| 0 <= i < df.len() implies wf_expr(#[trigger] df[i]) by {
                assert(df[i] == args[i + 1]);
            }
        }
        lemma_render_args_lex(df, rest);
        assert(","@ =~= seq![',']);
        assert(comma_tok() == (TokenV { token_type: TokenType::Comma, literal: seq![','] }));
        // args_tokens(args) = expr_tokens(args[0]) + rest_args_tokens(df)
        // rest_args_tokens(df) = [comma] + expr_tokens(df[0]) + rest_args_tokens(df.drop_first())
        //                      = [comma] + args_tokens(df)
        assert(rest_args_tokens(df) =~= seq![comma_tok()] + args_tokens(df));
        assert(spec_tokens(render_args(args) + rest) =~= args_tokens(args) + spec_tokens(rest));
    }
}

/// Lexing the rendering of a well-formed statement yields its token
/// sequence, whatever text follows: a statement always ends in its own
/// semicolon.
#[verifier::rlimit(100)]
proof fn lemma_render_stmt_lex(s: StmtV, rest: Seq<char>)
    requires
        wf_stmt(s),
    ensures
        spec_tokens(render_stmt(s) + rest) == stmt_tokens(s) + spec_tokens(rest),
{
    reveal_strlit("let");
    reveal_strlit("let ");
    reveal_strlit("return");
    reveal_strlit("return ");
    reveal_strlit(" = ");
    reveal_strlit("=");
    reveal_strlit(";");
    reveal_strlit("fn");
    reveal_strlit("true");
    reveal_strlit("false");
    reveal_strlit("if");
    reveal_strlit("else");
    match s {
        StmtV::LetStmt { name, value } => {
            let rv = render_opt_expr(value);
            let w7 = seq![';'] + rest;
            let w6 = rv + w7;
            let w5 = seq![' '] + w6;
            let w4 = seq!['='] + w5;
            let w3 = seq![' '] + w4;
            let w2 = name + w3;
            let w1 = seq![' '] + w2;
            assert(render_stmt(s) + rest =~= "let"@ + w1);
            lemma_lex_word("let"@, w1);
            assert(lookup_keyword("let"@) == TokenType::Let);
            lemma_lex_ws(w1);
            assert(w1.skip(1) =~= w2);
            lemma_lex_word(name, w3);
            assert(lookup_keyword(name) == TokenType::Identifier);
            lemma_lex_ws(w3);
            assert(w3.skip(1) =~= w4);
            lemma_lex_punct('=', w5);
            lemma_lex_ws(w5);
            assert(w5.skip(1) =~= w6);
            match value {
                Option::Some(e) => {
                    assert(ok_boundary(w7));
                    lemma_render_expr_lex(e, w7);
                },
                Option::None => {
                    assert(w6 =~= w7);
                },
            }
            lemma_lex_punct(';', rest);
            assert("="@ =~= seq!['=']);
            assert(";"@ =~= seq![';']);
            assert(semi_tok() == (TokenV { token_type: TokenType::Semicolon, literal: seq![';'] }));
            assert(spec_tokens(render_stmt(s) + rest) =~= stmt_tokens(s) + spec_tokens(rest));
        },
        StmtV::ReturnStmt { value } => {
            let rv = render_opt_expr(value);
            let w3 = seq![';'] + rest;
            let w2 = rv + w3;
            let w1 = seq![' '] + w2;
            assert(render_stmt(s) + rest =~= "return"@ + w1);
            lemma_lex_word("return"@, w1);
            assert(lookup_keyword("return"@) == TokenType::Return);
            lemma_lex_ws(w1);
            assert(w1.skip(1) =~= w2);
            match value {
                Option::Some(e) => {
                    assert(ok_boundary(w3));
                    lemma_render_expr_lex(e, w3);
                },
                Option::None => {
                    assert(w2 =~= w3);
                },
            }
            lemma_lex_punct(';', rest);
            assert(";"@ =~= seq![';']);
            assert(semi_tok() == (TokenV { token_type: TokenType::Semicolon, literal: seq![';'] }));
            assert(spec_tokens(render_stmt(s) + rest) =~= stmt_tokens(s) + spec_tokens(rest));
        },
        StmtV::ExpressionStmt { expr } => {
            let w1 = seq![';'] + rest;
            assert(render_stmt(s) + rest =~= render_expr(expr) + w1);
            assert(ok_boundary(w1));
            lemma_render_expr_lex(expr, w1);
            lemma_lex_punct(';', rest);
            assert(";"@ =~= seq![';']);
            assert(semi_tok() == (TokenV { token_type: TokenType::Semicolon, literal: seq![';'] }));
            assert(spec_tokens(render_stmt(s) + rest) =~= stmt_tokens(s) + spec_tokens(rest));
        },
    }
}

/// Front decomposition of a rendered program: the first statement, a
/// newline, then the rest.
proof fn lemma_render_program_front(stmts: Seq<StmtV>)
    requires
        stmts.len() >= 2,
    ensures
        render_program(stmts) == render_stmt(stmts[0]) + "\n"@ + render_program(
            stmts.drop_first(),
        ),
    decreases stmts.len(),
{
    let dl = stmts.drop_last();
    let df = stmts.drop_first();
    if stmts.len() == 2 {
        assert(dl.len() == 1);
        assert(dl[0] == stmts[0]);
        assert(df.len() == 1);
        assert(df[0] == stmts[1]);
        assert(stmts.last() == stmts[1]);
        assert(render_program(dl) == render_stmt(stmts[0]));
        assert(render_program(df) == render_stmt(stmts[1]));
    } else {
        lemma_render_program_front(dl);
        assert(dl[0] == stmts[0]);
        assert(dl.drop_first() =~= df.drop_last());
        assert(df.len() >= 2);
        assert(df.last() == stmts.last());
        assert(render_program(stmts) =~= render_stmt(stmts[0]) + "\n"@ + render_program(df));
    }
}

/// Lexing the rendering of a well-formed program yields the concatenated
/// token sequences of its statements.
proof fn lemma_render_program_lex(stmts: Seq<StmtV>)
    requires
        wf_program(stmts),
    ensures
        spec_tokens(render_program(stmts)) == stmts_tokens(stmts),
    decreases stmts.len(),
{
    reveal_strlit("\n");
    if stmts.len() == 0 {
        lemma_lex_empty();
    } else if stmts.len() == 1 {
        lemma_render_stmt_lex(stmts[0], Seq::empty());
        assert(render_stmt(stmts[0]) + Seq::<char>::empty() =~= render_program(stmts));
        lemma_lex_empty();
        assert(stmts.drop_first().len() == 0);
        assert(stmts_tokens(stmts.drop_first()) =~= Seq::<TokenV>::empty());
        assert(stmts_tokens(stmts) =~= stmt_tokens(stmts[0]) + Seq::<TokenV>::empty());
    } else {
        let df = stmts.drop_first();
        lemma_render_program_front(stmts);
        let w1 = "\n"@ + render_program(df);
        assert(render_program(stmts) =~= render_stmt(stmts[0]) + w1);
        lemma_render_stmt_lex(stmts[0], w1);
        assert(w1[0] == '\n');
        lemma_lex_ws(w1);
        assert(w1.skip(1) =~= render_program(df));
        assert(wf_program(df)) by {
            assert forall|i: int| 0 <= i < df.len() implies wf_stmt(#[trigger] df[i]) by {
                assert(df[i] == stmts[i + 1]);
            }
        }
        lemma_render_program_lex(df);
        assert(spec_tokens(render_program(stmts)) =~= stmts_tokens(stmts));
    }
}

// ---------------------------------------------------------------------------
// Parsing the token sequence of a rendered node
// ---------------------------------------------------------------------------

/// `seg` stands at position `p` of `ts`.
pub open spec fn seg_at(ts: Seq<TokenV>, p: int, seg: Seq<TokenV>) -> bool {
    &&& 0 <= p
    &&& p + seg.len() <= ts.len()
    &&& ts.subrange(p, p + seg.len()) == seg
}

proof fn lemma_seg_index(ts: Seq<TokenV>, p: int, seg: Seq<TokenV>)
    requires
        seg_at(ts, p, seg),
    ensures
        forall|i: int| 0 <= i < seg.len() ==> ts[p + i] == #[trigger] seg[i],
{
    assert forall|i: int| 0 <= i < seg.len() implies ts[p + i] == #[trigger] seg[i] by {
        assert(ts.subrange(p, p + seg.len())[i] == ts[p + i]);
    }
}

proof fn lemma_seg_split(ts: Seq<TokenV>, p: int, a: Seq<TokenV>, b: Seq<TokenV>)
    requires
        seg_at(ts, p, a + b),
    ensures
        seg_at(ts, p, a),
        seg_at(ts, p + a.len(), b),
{
    lemma_seg_index(ts, p, a + b);
    assert(ts.subrange(p, p + a.len()) =~= a) by {
        assert forall|i: int| 0 <= i < a.len() implies ts.subrange(p, p + a.len())[i]
            == a[i] by {
            assert(ts[p + i] == (a + b)[i]);
        }
    }
    assert(ts.subrange(p + a.len(), p + a.len() + b.len()) =~= b) by {
        assert forall|i: int|
            0 <= i < b.len() implies ts.subrange(p + a.len(), p + a.len() + b.len())[i]
            == b[i] by {
            assert(ts[p + (a.len() + i)] == (a + b)[a.len() + i]);
        }
    }
}

/// The head of an expression: the part its prefix handler builds, before
/// any call-argument lists are attached.
pub open spec fn head_expr(e: ExprV) -> ExprV
    decreases e,
{
    match e {
        ExprV::Call { func, args } => head_expr(*func),
        _ => e,
    }
}

/// The head of a well-formed expression is well-formed, its tokens are
/// nonempty and stand at the front of the expression's tokens.
proof fn lemma_head_facts(e: ExprV)
    requires
        wf_expr(e),
    ensures
        wf_expr(head_expr(e)),
        1 <= expr_tokens(head_expr(e)).len() <= expr_tokens(e).len(),
        expr_tokens(e).subrange(0, expr_tokens(head_expr(e)).len() as int) == expr_tokens(
            head_expr(e),
        ),
        expr_tokens(e).len() >= 1,
        has_prefix_rule(expr_tokens(e)[0].token_type),
    decreases e,
{
    match e {
        ExprV::Call { func, args } => {
            lemma_head_facts(*func);
            let ft = expr_tokens(*func);
            let ht = expr_tokens(head_expr(*func));
            assert(expr_tokens(e).subrange(0, ht.len() as int) =~= ht) by {
                assert(ft.subrange(0, ht.len() as int) =~= ht);
                assert forall|i: int| 0 <= i < ht.len() implies expr_tokens(e)[i] == ht[i] by {
                    assert(expr_tokens(e)[i] == ft[i]);
                    assert(ft.subrange(0, ht.len() as int)[i] == ft[i]);
                }
            }
            assert(expr_tokens(e)[0] == ft[0]);
        },
        ExprV::Prefix { op, right } => {
            assert(expr_tokens(e)[0] == lp_tok());
        },
        ExprV::Infix { op, left, right } => {
            assert(expr_tokens(e)[0] == lp_tok());
        },
        _ => {},
    }
}


/// The prefix handler, run at the front of a well-formed expression's
/// tokens, builds exactly the expression's head and stops on its last
/// token.
#[verifier::rlimit(100)]
proof fn lemma_parse_prefix_at(ts: Seq<TokenV>, p: int, e: ExprV)
    requires
        wf_expr(e),
        seg_at(ts, p, expr_tokens(e)),
    ensures
        sp_prefix(ts, p as nat) == (ExprRes {
            expr: Option::Some(head_expr(e)),
            next: (p + expr_tokens(head_expr(e)).len() - 1) as nat,
            errs: Seq::empty(),
        }),
    decreases e, 0nat,
{
    lemma_head_facts(e);
    lemma_seg_index(ts, p, expr_tokens(e));
    reveal_strlit("!");
    reveal_strlit("-");
    match e {
        ExprV::Identifier { name } => {
            assert(tok_at(ts, p as nat) == expr_tokens(e)[0]);
        },
        ExprV::IntegerLiteral { value } => {
            assert(tok_at(ts, p as nat) == expr_tokens(e)[0]);
            lemma_dec_digits_digits(value as nat);
            lemma_digits_val_dec_digits(value as nat);
        },
        ExprV::Boolean { literal, value } => {
            assert(tok_at(ts, p as nat) == expr_tokens(e)[0]);
        },
        ExprV::Prefix { op, right } => {
            let rt = expr_tokens(*right);
            let nr = rt.len() as int;
            let n = expr_tokens(e).len() as int;
            assert(n == nr + 3);
            lemma_head_facts(*right);
            assert(tok_at(ts, p as nat) == lp_tok());
            assert(tok_at(ts, (p + 1) as nat) == expr_tokens(e)[1]);
            // the operand segment
            assert(seg_at(ts, p + 2, rt)) by {
                assert(ts.subrange(p + 2, p + 2 + nr) =~= rt) by {
                    assert forall|i: int| 0 <= i < nr implies ts.subrange(p + 2, p + 2 + nr)[i]
                        == rt[i] by {
                        assert(ts[p + 2 + i] == expr_tokens(e)[2 + i]);
                        assert(expr_tokens(e)[2 + i] == rt[i]);
                    }
                }
            }
            assert(tok_at(ts, (p + 2 + nr) as nat) == expr_tokens(e)[n - 1]);
            assert(prec_of_kind(tok_at(ts, (p + 2 + nr) as nat).token_type) == 1);
            lemma_parse_expr_at(ts, p + 2, *right, 6);
            // inner expression: the unary operator applied at `Prefix`
            let inner = sp_expression(ts, (p + 1) as nat, 1);
            assert(inner == (ExprRes {
                expr: Option::Some(e),
                next: (p + n - 2) as nat,
                errs: Seq::<Seq<char>>::empty(),
            })) by {
                let u = sp_prefix(ts, (p + 1) as nat);
                assert(sp_prefix_operand(ts, (p + 1) as nat) == (ExprRes {
                    expr: Option::Some(e),
                    next: (p + n - 2) as nat,
                    errs: Seq::<Seq<char>>::empty(),
                }));
                assert(u == sp_prefix_operand(ts, (p + 1) as nat));
                assert(tok_at(ts, (p + n - 1) as nat).token_type == TokenType::RightParen);
                assert(prec_of_kind(TokenType::RightParen) == 1);
                let lr = sp_infix_loop(ts, e, (p + n - 2) as nat, 1);
                assert(lr == (ExprRes {
                    expr: Option::Some(e),
                    next: (p + n - 2) as nat,
                    errs: Seq::<Seq<char>>::empty(),
                }));
                assert(Seq::<Seq<char>>::empty() + Seq::<Seq<char>>::empty() =~= Seq::<
                    Seq<char>,
                >::empty());
            }
            assert(tok_at(ts, (p + n - 1) as nat).token_type == TokenType::RightParen);
        },
        ExprV::Infix { op, left, right } => {
            let lt = expr_tokens(*left);
            let rt = expr_tokens(*right);
            let nl = lt.len() as int;
            let nr = rt.len() as int;
            let n = expr_tokens(e).len() as int;
            assert(n == nl + nr + 3);
            lemma_head_facts(*left);
            lemma_head_facts(*right);
            assert(tok_at(ts, p as nat) == lp_tok());
            // the left operand's segment
            assert(seg_at(ts, p + 1, lt)) by {
                assert(ts.subrange(p + 1, p + 1 + nl) =~= lt) by {
                    assert forall|i: int| 0 <= i < nl implies ts.subrange(p + 1, p + 1 + nl)[i]
                        == lt[i] by {
                        assert(ts[p + 1 + i] == expr_tokens(e)[1 + i]);
                        assert(expr_tokens(e)[1 + i] == lt[i]);
                    }
                }
            }
            // the operator token
            let op_tok = TokenV { token_type: infix_kind(op), literal: op };
            assert(ts[p + 1 + nl] == expr_tokens(e)[1 + nl]);
            assert(expr_tokens(e)[1 + nl] == op_tok);
            // the right operand's segment
            assert(seg_at(ts, p + 2 + nl, rt)) by {
                assert(ts.subrange(p + 2 + nl, p + 2 + nl + nr) =~= rt) by {
                    assert forall|i: int|
                        0 <= i < nr implies ts.subrange(p + 2 + nl, p + 2 + nl + nr)[i] == rt[i] by {
                        assert(ts[p + 2 + nl + i] == expr_tokens(e)[2 + nl + i]);
                        assert(expr_tokens(e)[2 + nl + i] == rt[i]);
                    }
                }
            }
            assert(ts[p + n - 1] == expr_tokens(e)[n - 1]);
            assert(expr_tokens(e)[n - 1] == rp_tok());
            let q = prec_of_kind(infix_kind(op));
            assert(2 <= q <= 5);
            // parse the right operand at the operator's strength
            assert(tok_at(ts, (p + 2 + nl + nr) as nat).token_type == TokenType::RightParen);
            lemma_parse_expr_at(ts, p + 2 + nl, *right, q);
            // the left operand's head, then the loop folds in the operator
            lemma_parse_prefix_at(ts, p + 1, *left);
            lemma_loop_extends(ts, p + 1, *left, 1);
            let inner = sp_expression(ts, (p + 1) as nat, 1);
            assert(inner == (ExprRes {
                expr: Option::Some(e),
                next: (p + n - 2) as nat,
                errs: Seq::<Seq<char>>::empty(),
            })) by {
                let hl = expr_tokens(head_expr(*left)).len() as int;
                let u = sp_prefix(ts, (p + 1) as nat);
                assert(u.next == (p + hl) as nat);
                let loop0 = sp_infix_loop(ts, head_expr(*left), (p + hl) as nat, 1);
                let loop1 = sp_infix_loop(ts, *left, (p + nl) as nat, 1);
                assert(loop0 == loop1);
                // one iteration: the operator extends the left operand
                assert(tok_at(ts, (p + nl + 1) as nat) == op_tok);
                assert(op_tok.token_type != TokenType::Semicolon);
                assert(op_tok.token_type != TokenType::LeftParen);
                let r1 = sp_expression(ts, (p + nl + 2) as nat, q);
                assert(r1 == (ExprRes {
                    expr: Option::Some(*right),
                    next: (p + n - 2) as nat,
                    errs: Seq::<Seq<char>>::empty(),
                }));
                assert(r1.next > (p + nl + 1) as nat);
                let folded = ExprV::Infix {
                    op: op_tok.literal,
                    left: Box::new(*left),
                    right: Box::new(*right),
                };
                assert(folded == e);
                let loop2 = sp_infix_loop(ts, e, (p + n - 2) as nat, 1);
                assert(tok_at(ts, (p + n - 1) as nat).token_type == TokenType::RightParen);
                assert(loop2 == (ExprRes {
                    expr: Option::Some(e),
                    next: (p + n - 2) as nat,
                    errs: Seq::<Seq<char>>::empty(),
                }));
                assert(Seq::<Seq<char>>::empty() + Seq::<Seq<char>>::empty() =~= Seq::<
                    Seq<char>,
                >::empty());
            }
            assert(tok_at(ts, (p + n - 1) as nat).token_type == TokenType::RightParen);
        },
        ExprV::Call { func, args } => {
            let ft = expr_tokens(*func);
            assert(seg_at(ts, p, ft)) by {
                assert(ts.subrange(p, p + ft.len()) =~= ft) by {
                    lemma_head_facts(*func);
                    assert forall|i: int| 0 <= i < ft.len() implies ts.subrange(
                        p,
                        p + ft.len(),
                    )[i] == ft[i] by {
                        assert(ts[p + i] == expr_tokens(e)[i]);
                        assert(expr_tokens(e)[i] == ft[i]);
                    }
                }
            }
            lemma_parse_prefix_at(ts, p, *func);
        },
    }
}

/// From the head of a well-formed expression, the infix loop attaches the
/// expression's call-argument lists one by one, arriving at the whole
/// expression on its last token.
#[verifier::rlimit(100)]
proof fn lemma_loop_extends(ts: Seq<TokenV>, p: int, e: ExprV, minp: int)
    requires
        wf_expr(e),
        seg_at(ts, p, expr_tokens(e)),
        1 <= minp < 7,
    ensures
        sp_infix_loop(
            ts,
            head_expr(e),
            (p + expr_tokens(head_expr(e)).len() - 1) as nat,
            minp,
        ) == sp_infix_loop(ts, e, (p + expr_tokens(e).len() - 1) as nat, minp),
    decreases e, 1nat,
{
    lemma_head_facts(e);
    match e {
        ExprV::Call { func, args } => {
            let ft = expr_tokens(*func);
            let at_ = args_tokens(args);
            let nf = ft.len() as int;
            let na = at_.len() as int;
            let n = expr_tokens(e).len() as int;
            assert(n == nf + na + 2);
            lemma_head_facts(*func);
            assert(seg_at(ts, p, ft)) by {
                assert(ts.subrange(p, p + nf) =~= ft) by {
                    lemma_seg_index(ts, p, expr_tokens(e));
                    assert forall|i: int| 0 <= i < nf implies ts.subrange(p, p + nf)[i]
                        == ft[i] by {
                        assert(ts[p + i] == expr_tokens(e)[i]);
                        assert(expr_tokens(e)[i] == ft[i]);
                    }
                }
            }
            lemma_loop_extends(ts, p, *func, minp);
            // the call segment: `(`, the arguments, `)`
            assert(seg_at(ts, p + nf, seq![lp_tok()] + at_ + seq![rp_tok()])) by {
                let cseg = seq![lp_tok()] + at_ + seq![rp_tok()];
                assert(ts.subrange(p + nf, p + nf + na + 2) =~= cseg) by {
                    lemma_seg_index(ts, p, expr_tokens(e));
                    assert forall|i: int| 0 <= i < na + 2 implies ts.subrange(
                        p + nf,
                        p + nf + na + 2,
                    )[i] == cseg[i] by {
                        assert(ts[p + nf + i] == expr_tokens(e)[nf + i]);
                        assert(expr_tokens(e)[nf + i] == cseg[i]);
                    }
                }
            }
            assert(wf_args(args));
            lemma_parse_call_at(ts, p + nf, *func, args);
            let loop_f = sp_infix_loop(ts, *func, (p + nf - 1) as nat, minp);
            let pk = tok_at(ts, (p + nf) as nat);
            assert(pk == lp_tok()) by {
                lemma_seg_index(ts, p, expr_tokens(e));
                assert(ts[p + nf] == expr_tokens(e)[nf]);
                assert(expr_tokens(e)[nf] == lp_tok());
            }
            assert(prec_of_kind(pk.token_type) == 7);
            let r = sp_call(ts, *func, (p + nf) as nat);
            assert(r == (ExprRes {
                expr: Option::Some(e),
                next: (p + nf + na + 1) as nat,
                errs: Seq::<Seq<char>>::empty(),
            }));
            assert(r.next > (p + nf - 1) as nat);
            let l2 = sp_infix_loop(ts, e, (p + n - 1) as nat, minp);
            assert(loop_f == (ExprRes {
                expr: l2.expr,
                next: l2.next,
                errs: Seq::<Seq<char>>::empty() + l2.errs,
            }));
            assert(Seq::<Seq<char>>::empty() + l2.errs =~= l2.errs);
        },
        _ => {
            assert(head_expr(e) == e);
        },
    }
}

/// Expression parsing, run at the front of a well-formed expression's
/// tokens with any threshold the renderer can give it, rebuilds exactly
/// that expression with no errors, provided the following token binds no
/// tighter than the threshold.
#[verifier::rlimit(100)]
proof fn lemma_parse_expr_at(ts: Seq<TokenV>, p: int, e: ExprV, minp: int)
    requires
        wf_expr(e),
        seg_at(ts, p, expr_tokens(e)),
        1 <= minp < 7,
        prec_of_kind(tok_at(ts, (p + expr_tokens(e).len()) as nat).token_type) <= minp,
    ensures
        sp_expression(ts, p as nat, minp) == (ExprRes {
            expr: Option::Some(e),
            next: (p + expr_tokens(e).len() - 1) as nat,
            errs: Seq::empty(),
        }),
    decreases e, 2nat,
{
    lemma_head_facts(e);
    lemma_seg_index(ts, p, expr_tokens(e));
    assert(tok_at(ts, p as nat) == expr_tokens(e)[0]);
    assert(has_prefix_rule(tok_at(ts, p as nat).token_type));
    lemma_parse_prefix_at(ts, p, e);
    lemma_loop_extends(ts, p, e, minp);
    let n = expr_tokens(e).len() as int;
    let stop = sp_infix_loop(ts, e, (p + n - 1) as nat, minp);
    assert(stop == (ExprRes {
        expr: Option::Some(e),
        next: (p + n - 1) as nat,
        errs: Seq::<Seq<char>>::empty(),
    })) by {
        assert(prec_of_kind(tok_at(ts, (p + n) as nat).token_type) <= minp);
    }
    assert(Seq::<Seq<char>>::empty() + Seq::<Seq<char>>::empty() =~= Seq::<Seq<char>>::empty());
}

/// The call handler, run on `(`, well-formed rendered arguments, `)`,
/// builds the call of `f` on exactly those arguments.
#[verifier::rlimit(100)]
proof fn lemma_parse_call_at(ts: Seq<TokenV>, p: int, f: ExprV, args: Seq<ExprV>)
    requires
        wf_args(args),
        seg_at(ts, p, seq![lp_tok()] + args_tokens(args) + seq![rp_tok()]),
    ensures
        sp_call(ts, f, p as nat) == (ExprRes {
            expr: Option::Some(ExprV::Call { func: Box::new(f), args }),
            next: (p + args_tokens(args).len() + 1) as nat,
            errs: Seq::empty(),
        }),
    decreases args, 0nat,
{
    let seg = seq![lp_tok()] + args_tokens(args) + seq![rp_tok()];
    let na = args_tokens(args).len() as int;
    lemma_seg_index(ts, p, seg);
    assert(tok_at(ts, p as nat) == lp_tok()) by {
        assert(ts[p + 0] == seg[0]);
    }
    lemma_wf_args_iff(args);
    if args.len() == 0 {
        assert(na == 0);
        assert(tok_at(ts, (p + 1) as nat) == rp_tok()) by {
            assert(ts[p + 1] == seg[1]);
        }
        assert(args =~= Seq::<ExprV>::empty());
    } else {
        let a0 = args[0];
        let df = args.drop_first();
        let t0 = expr_tokens(a0);
        let n0 = t0.len() as int;
        assert(args_tokens(args) == t0 + rest_args_tokens(df));
        lemma_head_facts(a0);
        // the first argument's segment
        assert(seg_at(ts, p + 1, t0)) by {
            assert(ts.subrange(p + 1, p + 1 + n0) =~= t0) by {
                assert forall|i: int| 0 <= i < n0 implies ts.subrange(p + 1, p + 1 + n0)[i]
                    == t0[i] by {
                    assert(ts[p + 1 + i] == seg[1 + i]);
                    assert(seg[1 + i] == args_tokens(args)[i]);
                    assert(args_tokens(args)[i] == t0[i]);
                }
            }
        }
        // the token after the first argument: a comma or the closing paren
        assert(tok_at(ts, (p + 1) as nat) == t0[0]) by {
            assert(ts[p + 1] == seg[1]);
        }
        assert(tok_at(ts, (p + 1) as nat).token_type != TokenType::RightParen);
        if df.len() == 0 {
            assert(ts[p + 1 + n0] == seg[1 + n0]);
            assert(rest_args_tokens(df).len() == 0);
            assert(seg[1 + na] == rp_tok());
            assert(na == n0);
            assert(prec_of_kind(tok_at(ts, (p + 1 + n0) as nat).token_type) == 1);
        } else {
            assert(ts[p + 1 + n0] == seg[1 + n0]);
            assert(seg[1 + n0] == args_tokens(args)[n0]);
            assert(args_tokens(args)[n0] == rest_args_tokens(df)[0]);
            assert(rest_args_tokens(df)[0] == comma_tok());
            assert(prec_of_kind(tok_at(ts, (p + 1 + n0) as nat).token_type) == 1);
        }
        lemma_parse_expr_at(ts, p + 1, a0, 1);
        // the remaining arguments
        assert(seg_at(ts, p + 1 + n0, rest_args_tokens(df) + seq![rp_tok()])) by {
            let rseg = rest_args_tokens(df) + seq![rp_tok()];
            assert(ts.subrange(p + 1 + n0, p + 1 + n0 + rseg.len()) =~= rseg) by {
                assert forall|i: int| 0 <= i < rseg.len() implies ts.subrange(
                    p + 1 + n0,
                    p + 1 + n0 + rseg.len(),
                )[i] == rseg[i] by {
                    assert(ts[p + 1 + n0 + i] == seg[1 + n0 + i]);
                    if i < rest_args_tokens(df).len() {
                        assert(seg[1 + n0 + i] == args_tokens(args)[n0 + i]);
                        assert(args_tokens(args)[n0 + i] == rest_args_tokens(df)[i]);
                    } else {
                        assert(seg[1 + na] == rp_tok());
                    }
                }
            }
        }
        assert(forall|i: int| 0 <= i < df.len() ==> wf_expr(#[trigger] df[i])) by {
            assert forall|i: int| 0 <= i < df.len() implies wf_expr(#[trigger] df[i]) by {
                assert(df[i] == args[i + 1]);
            }
        }
        lemma_parse_call_args_at(ts, p + n0, seq![a0], df);
        assert(seq![a0] + df =~= args);
        assert(Seq::<Seq<char>>::empty() + Seq::<Seq<char>>::empty() =~= Seq::<Seq<char>>::empty());
        assert(na == n0 + rest_args_tokens(df).len());
    }
}

/// The argument-list continuation: from the last token of a previous
/// argument, commas introduce further arguments until the closing paren.
#[verifier::rlimit(100)]
proof fn lemma_parse_call_args_at(ts: Seq<TokenV>, p: int, acc: Seq<ExprV>, rest: Seq<ExprV>)
    requires
        0 <= p,
        forall|i: int| 0 <= i < rest.len() ==> wf_expr(#[trigger] rest[i]),
        seg_at(ts, p + 1, rest_args_tokens(rest) + seq![rp_tok()]),
    ensures
        sp_call_args(ts, acc, p as nat) == (ArgsRes {
            args: Option::Some(acc + rest),
            next: (p + rest_args_tokens(rest).len() + 1) as nat,
            errs: Seq::empty(),
        }),
    decreases rest, 0nat,
{
    let rseg = rest_args_tokens(rest) + seq![rp_tok()];
    let nr = rest_args_tokens(rest).len() as int;
    lemma_seg_index(ts, p + 1, rseg);
    if rest.len() == 0 {
        assert(nr == 0);
        assert(tok_at(ts, (p + 1) as nat) == rp_tok()) by {
            assert(ts[p + 1 + 0] == rseg[0]);
        }
        assert(acc + rest =~= acc);
    } else {
        let b0 = rest[0];
        let df = rest.drop_first();
        let t0 = expr_tokens(b0);
        let n0 = t0.len() as int;
        assert(rest_args_tokens(rest) == seq![comma_tok()] + t0 + rest_args_tokens(df));
        assert(wf_expr(b0));
        lemma_head_facts(b0);
        assert(tok_at(ts, (p + 1) as nat) == comma_tok()) by {
            assert(ts[p + 1 + 0] == rseg[0]);
            assert(rseg[0] == comma_tok());
        }
        // the next argument's segment
        assert(seg_at(ts, p + 2, t0)) by {
            assert(ts.subrange(p + 2, p + 2 + n0) =~= t0) by {
                assert forall|i: int| 0 <= i < n0 implies ts.subrange(p + 2, p + 2 + n0)[i]
                    == t0[i] by {
                    assert(ts[p + 1 + (1 + i)] == rseg[1 + i]);
                    assert(rseg[1 + i] == rest_args_tokens(rest)[1 + i]);
                    assert(rest_args_tokens(rest)[1 + i] == t0[i]);
                }
            }
        }
        // the token after it: a comma or the closing paren
        assert(ts[p + 2 + n0] == rseg[1 + n0]);
        if df.len() == 0 {
            assert(rseg[1 + n0] == rp_tok());
            assert(prec_of_kind(tok_at(ts, (p + 2 + n0) as nat).token_type) == 1);
        } else {
            assert(rseg[1 + n0] == rest_args_tokens(rest)[1 + n0]);
            assert(rest_args_tokens(rest)[1 + n0] == rest_args_tokens(df)[0]);
            assert(rest_args_tokens(df)[0] == comma_tok());
            assert(prec_of_kind(tok_at(ts, (p + 2 + n0) as nat).token_type) == 1);
        }
        lemma_parse_expr_at(ts, p + 2, b0, 1);
        // the remaining arguments after this one
        assert(seg_at(ts, p + 2 + n0, rest_args_tokens(df) + seq![rp_tok()])) by {
            let dseg = rest_args_tokens(df) + seq![rp_tok()];
            assert(ts.subrange(p + 2 + n0, p + 2 + n0 + dseg.len()) =~= dseg) by {
                assert forall|i: int| 0 <= i < dseg.len() implies ts.subrange(
                    p + 2 + n0,
                    p + 2 + n0 + dseg.len(),
                )[i] == dseg[i] by {
                    assert(ts[p + 1 + (1 + n0 + i)] == rseg[1 + n0 + i]);
                    if i < rest_args_tokens(df).len() {
                        assert(rseg[1 + n0 + i] == rest_args_tokens(rest)[1 + n0 + i]);
                        assert(rest_args_tokens(rest)[1 + n0 + i] == rest_args_tokens(df)[i]);
                    } else {
                        assert(rseg[nr] == rp_tok());
                    }
                }
            }
        }
        assert(forall|i: int| 0 <= i < df.len() ==> wf_expr(#[trigger] df[i])) by {
            assert forall|i: int| 0 <= i < df.len() implies wf_expr(#[trigger] df[i]) by {
                assert(df[i] == rest[i + 1]);
            }
        }
        lemma_parse_call_args_at(ts, p + 1 + n0, acc.push(b0), df);
        assert(acc.push(b0) + df =~= acc + rest);
        assert(Seq::<Seq<char>>::empty() + Seq::<Seq<char>>::empty() =~= Seq::<Seq<char>>::empty());
        assert(nr == 1 + n0 + rest_args_tokens(df).len());
    }
}

// ---------------------------------------------------------------------------
// Statements and programs
// ---------------------------------------------------------------------------

/// A statement whose rendering can be parsed back: a let statement must
/// carry a value, since its rendering otherwise reads `let x = ;`.
pub open spec fn stmt_value_present(s: StmtV) -> bool {
    match s {
        StmtV::LetStmt { name, value } => value is Some,
        _ => true,
    }
}

pub open spec fn values_present(stmts: Seq<StmtV>) -> bool {
    forall|i: int| 0 <= i < stmts.len() ==> stmt_value_present(#[trigger] stmts[i])
}

/// Statement parsing, run at the front of a well-formed statement's
/// tokens, rebuilds exactly that statement with no errors.
#[verifier::rlimit(100)]
proof fn lemma_parse_stmt_at(ts: Seq<TokenV>, p: int, s: StmtV)
    requires
        wf_stmt(s),
        stmt_value_present(s),
        seg_at(ts, p, stmt_tokens(s)),
    ensures
        sp_statement(ts, p as nat) == (StmtRes {
            stmt: Option::Some(s),
            next: (p + stmt_tokens(s).len() - 1) as nat,
            errs: Seq::empty(),
        }),
{
    lemma_seg_index(ts, p, stmt_tokens(s));
    let n = stmt_tokens(s).len() as int;
    match s {
        StmtV::LetStmt { name, value } => {
            let e = value->0;
            let et = expr_tokens(e);
            let ne = et.len() as int;
            assert(n == ne + 4);
            assert(tok_at(ts, p as nat) == stmt_tokens(s)[0]);
            assert(tok_at(ts, (p + 1) as nat) == stmt_tokens(s)[1]);
            assert(tok_at(ts, (p + 2) as nat) == stmt_tokens(s)[2]);
            assert(seg_at(ts, p + 3, et)) by {
                assert(ts.subrange(p + 3, p + 3 + ne) =~= et) by {
                    assert forall|i: int| 0 <= i < ne implies ts.subrange(p + 3, p + 3 + ne)[i]
                        == et[i] by {
                        assert(ts[p + 3 + i] == stmt_tokens(s)[3 + i]);
                        assert(stmt_tokens(s)[3 + i] == et[i]);
                    }
                }
            }
            assert(tok_at(ts, (p + 3 + ne) as nat) == stmt_tokens(s)[n - 1]);
            assert(stmt_tokens(s)[n - 1] == semi_tok());
            assert(prec_of_kind(TokenType::Semicolon) == 1);
            lemma_parse_expr_at(ts, p + 3, e, 1);
        },
        StmtV::ReturnStmt { value } => {
            assert(tok_at(ts, p as nat) == stmt_tokens(s)[0]);
            match value {
                Option::Some(e) => {
                    let et = expr_tokens(e);
                    let ne = et.len() as int;
                    assert(n == ne + 2);
                    lemma_head_facts(e);
                    assert(seg_at(ts, p + 1, et)) by {
                        assert(ts.subrange(p + 1, p + 1 + ne) =~= et) by {
                            assert forall|i: int|
                                0 <= i < ne implies ts.subrange(p + 1, p + 1 + ne)[i] == et[i] by {
                                assert(ts[p + 1 + i] == stmt_tokens(s)[1 + i]);
                                assert(stmt_tokens(s)[1 + i] == et[i]);
                            }
                        }
                    }
                    assert(tok_at(ts, (p + 1) as nat) == et[0]) by {
                        assert(ts[p + 1] == stmt_tokens(s)[1]);
                        assert(stmt_tokens(s)[1] == et[0]);
                    }
                    assert(tok_at(ts, (p + 1) as nat).token_type != TokenType::Semicolon);
                    assert(tok_at(ts, (p + 1 + ne) as nat) == stmt_tokens(s)[n - 1]);
                    assert(stmt_tokens(s)[n - 1] == semi_tok());
                    lemma_parse_expr_at(ts, p + 1, e, 1);
                },
                Option::None => {
                    assert(n == 2);
                    assert(tok_at(ts, (p + 1) as nat) == stmt_tokens(s)[1]);
                    assert(stmt_tokens(s)[1] == semi_tok());
                },
            }
        },
        StmtV::ExpressionStmt { expr } => {
            let et = expr_tokens(expr);
            let ne = et.len() as int;
            assert(n == ne + 1);
            lemma_head_facts(expr);
            assert(seg_at(ts, p, et)) by {
                assert(ts.subrange(p, p + ne) =~= et) by {
                    assert forall|i: int| 0 <= i < ne implies ts.subrange(p, p + ne)[i]
                        == et[i] by {
                        assert(ts[p + i] == stmt_tokens(s)[i]);
                        assert(stmt_tokens(s)[i] == et[i]);
                    }
                }
            }
            assert(tok_at(ts, p as nat) == et[0]) by {
                assert(ts[p + 0] == stmt_tokens(s)[0]);
                assert(stmt_tokens(s)[0] == et[0]);
            }
            assert(has_prefix_rule(tok_at(ts, p as nat).token_type));
            assert(tok_at(ts, p as nat).token_type != TokenType::Let);
            assert(tok_at(ts, p as nat).token_type != TokenType::Return);
            assert(tok_at(ts, (p + ne) as nat) == stmt_tokens(s)[n - 1]);
            assert(stmt_tokens(s)[n - 1] == semi_tok());
            lemma_parse_expr_at(ts, p, expr, 1);
        },
    }
}

/// Program parsing, run on exactly the tokens of a sequence of rendered
/// statements, rebuilds the statements in order with no errors.
#[verifier::rlimit(100)]
proof fn lemma_parse_program_at(ts: Seq<TokenV>, p: int, stmts: Seq<StmtV>)
    requires
        wf_program(stmts),
        values_present(stmts),
        seg_at(ts, p, stmts_tokens(stmts)),
        p + stmts_tokens(stmts).len() == ts.len(),
    ensures
        sp_program(ts, p as nat) == (ProgRes { stmts, errs: Seq::empty() }),
    decreases stmts.len(),
{
    if stmts.len() == 0 {
        assert(p == ts.len());
        assert(stmts =~= Seq::<StmtV>::empty());
    } else {
        let s0 = stmts[0];
        let df = stmts.drop_first();
        let t0 = stmt_tokens(s0);
        let n0 = t0.len() as int;
        assert(stmts_tokens(stmts) == t0 + stmts_tokens(df));
        lemma_seg_split(ts, p, t0, stmts_tokens(df));
        assert(wf_stmt(s0));
        assert(stmt_value_present(s0));
        lemma_parse_stmt_at(ts, p, s0);
        assert(n0 >= 1) by {
            match s0 {
                StmtV::LetStmt { name, value } => {},
                StmtV::ReturnStmt { value } => {},
                StmtV::ExpressionStmt { expr } => {},
            }
        }
        assert(p < ts.len());
        assert(wf_program(df) && values_present(df)) by {
            assert forall|i: int| 0 <= i < df.len() implies wf_stmt(#[trigger] df[i])
                && stmt_value_present(df[i]) by {
                assert(df[i] == stmts[i + 1]);
            }
        }
        lemma_parse_program_at(ts, p + n0, df);
        let r = sp_statement(ts, p as nat);
        assert(r.next == (p + n0 - 1) as nat);
        let rest = sp_program(ts, (p + n0) as nat);
        assert(rest == (ProgRes { stmts: df, errs: Seq::<Seq<char>>::empty() }));
        assert(seq![s0] + df =~= stmts);
        assert(Seq::<Seq<char>>::empty() + Seq::<Seq<char>>::empty() =~= Seq::<Seq<char>>::empty());
    }
}

// ---------------------------------------------------------------------------
// The round-trip laws
// ---------------------------------------------------------------------------

/// Re-lexing and re-parsing the canonical rendering of any well-formed
/// expression rebuilds exactly that expression, with no errors, consuming
/// every token.
pub proof fn theorem_expr_roundtrip(e: ExprV)
    requires
        wf_expr(e),
    ensures
        spec_tokens(render_expr(e)) == expr_tokens(e),
        sp_expression(spec_tokens(render_expr(e)), 0, 1) == (ExprRes {
            expr: Option::Some(e),
            next: (expr_tokens(e).len() - 1) as nat,
            errs: Seq::empty(),
        }),
{
    lemma_render_expr_lex(e, Seq::empty());
    lemma_lex_empty();
    assert(render_expr(e) + Seq::<char>::empty() =~= render_expr(e));
    assert(expr_tokens(e) + Seq::<TokenV>::empty() =~= expr_tokens(e));
    let ts = expr_tokens(e);
    lemma_head_facts(e);
    assert(seg_at(ts, 0, ts)) by {
        assert(ts.subrange(0, ts.len() as int) =~= ts);
    }
    assert(tok_at(ts, ts.len()).token_type == TokenType::Eof);
    assert(prec_of_kind(TokenType::Eof) == 1);
    lemma_parse_expr_at(ts, 0, e, 1);
}

/// Re-lexing and re-parsing the canonical rendering of any well-formed
/// statement rebuilds exactly that statement, with no errors.  A let
/// statement must carry a value: `let x = ;` does not parse back.
pub proof fn theorem_stmt_roundtrip(s: StmtV)
    requires
        wf_stmt(s),
        stmt_value_present(s),
    ensures
        spec_tokens(render_stmt(s)) == stmt_tokens(s),
        sp_statement(spec_tokens(render_stmt(s)), 0) == (StmtRes {
            stmt: Option::Some(s),
            next: (stmt_tokens(s).len() - 1) as nat,
            errs: Seq::empty(),
        }),
{
    lemma_render_stmt_lex(s, Seq::empty());
    lemma_lex_empty();
    assert(render_stmt(s) + Seq::<char>::empty() =~= render_stmt(s));
    assert(stmt_tokens(s) + Seq::<TokenV>::empty() =~= stmt_tokens(s));
    let ts = stmt_tokens(s);
    assert(seg_at(ts, 0, ts)) by {
        assert(ts.subrange(0, ts.len() as int) =~= ts);
    }
    lemma_parse_stmt_at(ts, 0, s);
}

/// Re-lexing and re-parsing the canonical rendering of any well-formed
/// program rebuilds exactly its statements, in order, with an empty error
/// list.  Through `Parser::parse_program`'s contract this is the law of
/// the executable pipeline: parsing the rendering of such a program
/// returns an equal tree.
pub proof fn theorem_program_roundtrip(stmts: Seq<StmtV>)
    requires
        wf_program(stmts),
        values_present(stmts),
    ensures
        sp_program(spec_tokens(render_program(stmts)), 0) == (ProgRes {
            stmts,
            errs: Seq::empty(),
        }),
{
    lemma_render_program_lex(stmts);
    let ts = stmts_tokens(stmts);
    assert(seg_at(ts, 0, ts)) by {
        assert(ts.subrange(0, ts.len() as int) =~= ts);
    }
    lemma_parse_program_at(ts, 0, stmts);
}

// ---------------------------------------------------------------------------
// What the parser builds is well formed
// ---------------------------------------------------------------------------

/// What lexing guarantees of a single token: its literal matches its kind.
pub open spec fn tok_wf(t: TokenV) -> bool {
    match t.token_type {
        TokenType::Identifier => wf_name(t.literal),
        TokenType::True => t.literal == "true"@,
        TokenType::False => t.literal == "false"@,
        TokenType::Bang => t.literal == "!"@,
        TokenType::Minus => t.literal == "-"@,
        TokenType::Plus => t.literal == "+"@,
        TokenType::Asterisk => t.literal == "*"@,
        TokenType::Slash => t.literal == "/"@,
        TokenType::EqualEqual => t.literal == "=="@,
        TokenType::BangEqual => t.literal == "!="@,
        TokenType::Less => t.literal == "<"@,
        TokenType::Greater => t.literal == ">"@,
        _ => true,
    }
}

/// Every token of a token sequence matches its kind.
pub open spec fn toks_wf(ts: Seq<TokenV>) -> bool {
    forall|i: int| 0 <= i < ts.len() ==> tok_wf(#[trigger] ts[i])
}

/// One scanned token matches its kind.
#[verifier::rlimit(100)]
proof fn lemma_scan_tok_wf(u: Seq<char>)
    requires
        u.len() > 0,
    ensures
        tok_wf(scan_tok(u)),
{
    reveal_strlit("fn");
    reveal_strlit("let");
    reveal_strlit("true");
    reveal_strlit("false");
    reveal_strlit("if");
    reveal_strlit("else");
    reveal_strlit("return");
    reveal_strlit("!");
    reveal_strlit("-");
    reveal_strlit("+");
    reveal_strlit("*");
    reveal_strlit("/");
    reveal_strlit("<");
    reveal_strlit(">");
    reveal_strlit("==");
    reveal_strlit("!=");
    if is_letter(u[0]) {
        let w = u.take(word_len(u) as int);
        crate::lexer::lemma_word_len(u);
        assert(w.len() >= 1) by {
            assert(word_len(u) >= 1);
        }
        assert(forall|i: int| 0 <= i < w.len() ==> is_letter(#[trigger] w[i]));
        if lookup_keyword(w) == TokenType::Identifier {
            assert(wf_name(w));
        } else if lookup_keyword(w) == TokenType::True {
            assert(w == "true"@);
        } else if lookup_keyword(w) == TokenType::False {
            assert(w == "false"@);
        }
    } else if is_digit(u[0]) {
    } else if is_op_char(u[0]) && u.len() > 1 && u[1] == '=' {
        let c = u[0];
        if c == '=' {
            assert(seq![c, '='] =~= "=="@);
        } else if c == '!' {
            assert(seq![c, '='] =~= "!="@);
        }
    } else {
        let c = u[0];
        if c == '!' {
            assert(seq![c] =~= "!"@);
        } else if c == '-' {
            assert(seq![c] =~= "-"@);
        } else if c == '+' {
            assert(seq![c] =~= "+"@);
        } else if c == '*' {
            assert(seq![c] =~= "*"@);
        } else if c == '/' {
            assert(seq![c] =~= "/"@);
        } else if c == '<' {
            assert(seq![c] =~= "<"@);
        } else if c == '>' {
            assert(seq![c] =~= ">"@);
        }
    }
}

/// Every token the lexer produces matches its kind.
proof fn lemma_spec_tokens_wf(s: Seq<char>)
    ensures
        toks_wf(spec_tokens(s)),
    decreases s.len(),
{
    crate::lexer::lemma_ws_len(s);
    let u = s.skip(ws_len(s) as int);
    if u.len() > 0 {
        crate::lexer::lemma_scan_len(u);
        lemma_scan_tok_wf(u);
        lemma_spec_tokens_wf(u.skip(scan_len(u) as int));
        assert forall|i: int| 0 <= i < spec_tokens(s).len() implies tok_wf(
            #[trigger] spec_tokens(s)[i],
        ) by {
            if i > 0 {
                assert(spec_tokens(s)[i] == spec_tokens(u.skip(scan_len(u) as int))[i - 1]);
            }
        }
    }
}

/// A token with a kind other than the end-of-input sentinel lies inside
/// the sequence, so a well-formed sequence constrains it.
proof fn lemma_tok_at_wf(ts: Seq<TokenV>, i: nat)
    requires
        toks_wf(ts),
        tok_at(ts, i).token_type != TokenType::Eof,
    ensures
        tok_wf(tok_at(ts, i)),
{
}

/// The expressions the prefix handler builds are well formed.
#[verifier::rlimit(100)]
proof fn lemma_sp_prefix_wf(ts: Seq<TokenV>, at: nat)
    requires
        toks_wf(ts),
    ensures
        sp_prefix(ts, at).expr matches Option::Some(e) ==> wf_expr(e),
    decreases rem_count(ts, at), 1nat,
{
    let cur = tok_at(ts, at);
    match cur.token_type {
        TokenType::Identifier => {
            lemma_tok_at_wf(ts, at);
        },
        TokenType::Int => {
            if cur.literal.len() > 0 && all_digits(cur.literal) && digits_val(cur.literal)
                <= i64::MAX {
                lemma_digits_val_bounds(cur.literal);
            }
        },
        TokenType::True => {
            lemma_tok_at_wf(ts, at);
        },
        TokenType::False => {
            lemma_tok_at_wf(ts, at);
        },
        TokenType::Bang => {
            lemma_sp_prefix_operand_wf(ts, at);
        },
        TokenType::Minus => {
            lemma_sp_prefix_operand_wf(ts, at);
        },
        TokenType::LeftParen => {
            lemma_sp_expression_wf(ts, (at + 1) as nat, 1);
        },
        _ => {},
    }
}

/// The unary expressions the prefix-operator handler builds are well
/// formed.
proof fn lemma_sp_prefix_operand_wf(ts: Seq<TokenV>, at: nat)
    requires
        toks_wf(ts),
    ensures
        sp_prefix_operand(ts, at).expr matches Option::Some(e) ==> wf_expr(e),
    decreases rem_count(ts, at), 0nat,
{
    let cur = tok_at(ts, at);
    if cur.token_type == TokenType::Bang || cur.token_type == TokenType::Minus {
        lemma_tok_at_wf(ts, at);
        lemma_sp_expression_wf(ts, (at + 1) as nat, 6);
    }
}

/// The expressions the infix loop builds from a well-formed left operand
/// are well formed.
#[verifier::rlimit(100)]
proof fn lemma_sp_infix_loop_wf(ts: Seq<TokenV>, left: ExprV, at: nat, minp: int)
    requires
        toks_wf(ts),
        wf_expr(left),
    ensures
        sp_infix_loop(ts, left, at, minp).expr matches Option::Some(e) ==> wf_expr(e),
    decreases rem_count(ts, at), 0nat,
{
    reveal_strlit("+");
    reveal_strlit("-");
    reveal_strlit("*");
    reveal_strlit("/");
    reveal_strlit("==");
    reveal_strlit("!=");
    reveal_strlit("<");
    reveal_strlit(">");
    let pk = tok_at(ts, (at + 1) as nat);
    if pk.token_type != TokenType::Semicolon && prec_of_kind(pk.token_type) > minp && prec_of_kind(
        pk.token_type,
    ) > 1 {
        lemma_tok_at_wf(ts, (at + 1) as nat);
        if pk.token_type == TokenType::LeftParen {
            lemma_sp_call_wf(ts, left, (at + 1) as nat);
            let r = sp_call(ts, left, (at + 1) as nat);
            match r.expr {
                Option::Some(e) => {
                    if r.next > at {
                        lemma_sp_infix_loop_wf(ts, e, r.next, minp);
                    }
                },
                Option::None => {},
            }
        } else {
            assert(crate::ast::is_infix_op(pk.literal));
            lemma_sp_expression_wf(ts, (at + 2) as nat, prec_of_kind(pk.token_type));
            let r = sp_expression(ts, (at + 2) as nat, prec_of_kind(pk.token_type));
            match r.expr {
                Option::Some(rhs) => {
                    if r.next > at + 1 {
                        let e = ExprV::Infix {
                            op: pk.literal,
                            left: Box::new(left),
                            right: Box::new(rhs),
                        };
                        lemma_sp_infix_loop_wf(ts, e, r.next, minp);
                    }
                },
                Option::None => {},
            }
        }
    }
}

/// The expressions built by expression parsing are well formed.
proof fn lemma_sp_expression_wf(ts: Seq<TokenV>, at: nat, minp: int)
    requires
        toks_wf(ts),
    ensures
        sp_expression(ts, at, minp).expr matches Option::Some(e) ==> wf_expr(e),
    decreases rem_count(ts, at), 2nat,
{
    let cur = tok_at(ts, at);
    if has_prefix_rule(cur.token_type) {
        lemma_sp_prefix_wf(ts, at);
        let u = sp_prefix(ts, at);
        match u.expr {
            Option::Some(l) => {
                if u.next >= at {
                    lemma_sp_infix_loop_wf(ts, l, u.next, minp);
                }
            },
            Option::None => {},
        }
    }
}

/// The call expressions the call handler builds from a well-formed callee
/// are well formed.
proof fn lemma_sp_call_wf(ts: Seq<TokenV>, left: ExprV, at: nat)
    requires
        toks_wf(ts),
        wf_expr(left),
    ensures
        sp_call(ts, left, at).expr matches Option::Some(e) ==> wf_expr(e),
    decreases rem_count(ts, at), 3nat,
{
    if tok_at(ts, at).token_type == TokenType::LeftParen {
        if tok_at(ts, (at + 1) as nat).token_type == TokenType::RightParen {
            assert(wf_args(Seq::<ExprV>::empty()));
        } else {
            lemma_sp_expression_wf(ts, (at + 1) as nat, 1);
            let r = sp_expression(ts, (at + 1) as nat, 1);
            match r.expr {
                Option::Some(a) => {
                    if r.next > at {
                        assert(wf_args(seq![a])) by {
                            assert(wf_args(Seq::<ExprV>::empty()));
                            assert(seq![a].drop_last() =~= Seq::<ExprV>::empty());
                            assert(seq![a].last() == a);
                        }
                        lemma_sp_call_args_wf(ts, seq![a], r.next);
                    }
                },
                Option::None => {},
            }
        }
    }
}

/// The argument lists the argument handler builds, extending a
/// well-formed accumulator, are well formed.
proof fn lemma_sp_call_args_wf(ts: Seq<TokenV>, args: Seq<ExprV>, at: nat)
    requires
        toks_wf(ts),
        wf_args(args),
    ensures
        sp_call_args(ts, args, at).args matches Option::Some(v) ==> wf_args(v),
    decreases rem_count(ts, at), 3nat,
{
    if tok_at(ts, (at + 1) as nat).token_type == TokenType::Comma {
        lemma_sp_expression_wf(ts, (at + 2) as nat, 1);
        let r = sp_expression(ts, (at + 2) as nat, 1);
        match r.expr {
            Option::Some(a) => {
                if r.next > at + 1 {
                    assert(wf_args(args.push(a))) by {
                        assert(args.push(a).drop_last() =~= args);
                    }
                    lemma_sp_call_args_wf(ts, args.push(a), r.next);
                }
            },
            Option::None => {},
        }
    }
}

/// The statements the parser builds are well formed and always carry a
/// value in a let statement.
#[verifier::rlimit(100)]
proof fn lemma_sp_statement_wf(ts: Seq<TokenV>, at: nat)
    requires
        toks_wf(ts),
    ensures
        sp_statement(ts, at).stmt matches Option::Some(st) ==> wf_stmt(st) && stmt_value_present(
            st,
        ),
{
    match tok_at(ts, at).token_type {
        TokenType::Let => {
            let pk1 = tok_at(ts, (at + 1) as nat);
            if pk1.token_type == TokenType::Identifier {
                lemma_tok_at_wf(ts, (at + 1) as nat);
                lemma_sp_expression_wf(ts, (at + 3) as nat, 1);
            }
        },
        TokenType::Return => {
            lemma_sp_expression_wf(ts, (at + 1) as nat, 1);
        },
        _ => {
            lemma_sp_expression_wf(ts, at, 1);
        },
    }
}

/// The programs the parser builds are well formed, statement by
/// statement, with every let statement carrying a value.
proof fn lemma_sp_program_wf(ts: Seq<TokenV>, at: nat)
    requires
        toks_wf(ts),
    ensures
        wf_program(sp_program(ts, at).stmts),
        values_present(sp_program(ts, at).stmts),
    decreases rem_count(ts, at),
{
    if at < ts.len() {
        lemma_sp_statement_wf(ts, at);
        let r = sp_statement(ts, at);
        let n2 = if r.next < at {
            at
        } else {
            r.next
        };
        lemma_sp_program_wf(ts, (n2 + 1) as nat);
        let rest = sp_program(ts, (n2 + 1) as nat);
        match r.stmt {
            Option::Some(st) => {
                assert forall|i: int|
                    0 <= i < sp_program(ts, at).stmts.len() implies wf_stmt(
                    #[trigger] sp_program(ts, at).stmts[i],
                ) && stmt_value_present(sp_program(ts, at).stmts[i]) by {
                    if i > 0 {
                        assert(sp_program(ts, at).stmts[i] == rest.stmts[i - 1]);
                    }
                }
            },
            Option::None => {},
        }
    }
}

/// Parsing is idempotent through rendering: whatever program the parser
/// produced from any source text, parsing the canonical rendering of that
/// program reproduces it exactly, with no errors.
pub proof fn theorem_parse_render_parse(src: Seq<char>)
    ensures
        ({
            let first = sp_program(spec_tokens(src), 0);
            sp_program(spec_tokens(render_program(first.stmts)), 0) == (ProgRes {
                stmts: first.stmts,
                errs: Seq::empty(),
            })
        }),
{
    lemma_spec_tokens_wf(src);
    lemma_sp_program_wf(spec_tokens(src), 0);
    theorem_program_roundtrip(sp_program(spec_tokens(src), 0).stmts);
}

} // verus!
