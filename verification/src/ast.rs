//! The abstract syntax tree: tagged variants for statements and
//! expressions, each able to reconstruct the literal text of the token that
//! introduced it and to render a canonical textual form.
//!
//! Every node type has a mathematical view (`ExprV`, `StmtV`) that forgets
//! ownership and token bookkeeping; contracts about parsing and rendering
//! are stated over those views.

use vstd::prelude::*;
use vstd::string::{StrSliceExecFns, StringExecFns};
use crate::lexer::{is_digit, is_letter, lookup_keyword};
use crate::token::{Token, TokenType};

verus! {

broadcast use vstd::std_specs::vec::group_vec_axioms;

// ---------------------------------------------------------------------------
// Integer literals as numbers
// ---------------------------------------------------------------------------

/// Every character of `s` is an ASCII decimal digit.
pub open spec fn all_digits(s: Seq<char>) -> bool {
    forall|i: int| 0 <= i < s.len() ==> is_digit(#[trigger] s[i])
}

/// The numeric value of a digit sequence, most significant digit first.
pub open spec fn digits_val(s: Seq<char>) -> int
    decreases s.len(),
{
    if s.len() == 0 {
        0
    } else {
        digits_val(s.drop_last()) * 10 + (s.last() as u32 - '0' as u32)
    }
}

pub proof fn lemma_digits_val_bounds(s: Seq<char>)
    requires
        all_digits(s),
    ensures
        digits_val(s) >= 0,
        s.len() > 0 ==> digits_val(s) >= digits_val(s.drop_last()),
    decreases s.len(),
{
    if s.len() > 0 {
        assert(all_digits(s.drop_last()));
        lemma_digits_val_bounds(s.drop_last());
        assert(is_digit(s.last()));
    }
}

/// The value of a proper prefix never exceeds the value of the whole digit
/// sequence.
pub proof fn lemma_digits_val_prefix(s: Seq<char>, k: int)
    requires
        all_digits(s),
        0 <= k <= s.len(),
    ensures
        0 <= digits_val(s.take(k)) <= digits_val(s),
    decreases s.len(),
{
    if k == s.len() {
        assert(s.take(k) =~= s);
        lemma_digits_val_bounds(s);
    } else {
        assert(all_digits(s.drop_last()));
        assert(s.drop_last().take(k) =~= s.take(k));
        lemma_digits_val_prefix(s.drop_last(), k);
        lemma_digits_val_bounds(s);
    }
}

/// Reads a digit string as a 64-bit signed integer.  Returns the value
/// exactly when the string is a nonempty digit run whose value fits;
/// returns nothing on an empty string, a stray character, or overflow.
pub fn int_from_digits(lit: &str) -> (r: Option<i64>)
    ensures
        r is Some <==> (lit@.len() > 0 && all_digits(lit@) && digits_val(lit@) <= i64::MAX),
        r is Some ==> r->0 == digits_val(lit@),
{
    let n = lit.unicode_len();
    if n == 0 {
        return None;
    }
    let mut value: i64 = 0;
    let mut i: usize = 0;
    while i < n
        invariant
            0 <= i <= n,
            n as nat == lit@.len(),
            forall|j: int| 0 <= j < i ==> is_digit(#[trigger] lit@[j]),
            0 <= value <= i64::MAX,
            value == digits_val(lit@.take(i as int)),
        decreases n - i,
    {
        let c = lit.get_char(i);
        let u = c as u32;
        if !('0' as u32 <= u && u <= '9' as u32) {
            proof {
                assert(!is_digit(lit@[i as int]));
            }
            return None;
        }
        let d = (u - '0' as u32) as i64;
        proof {
            assert(lit@.take(i + 1).drop_last() =~= lit@.take(i as int));
            assert(lit@.take(i + 1).last() == lit@[i as int]);
        }
        if value > (i64::MAX - d) / 10 {
            proof {
                assert(digits_val(lit@.take(i + 1)) == value * 10 + d);
                assert(value * 10 + d > i64::MAX) by {
                    assert(value >= (i64::MAX - d) / 10 + 1);
                    assert(((i64::MAX - d) / 10 + 1) * 10 >= i64::MAX - d + 1) by (nonlinear_arith);
                    assert(value * 10 >= ((i64::MAX - d) / 10 + 1) * 10) by (nonlinear_arith)
                        requires
                            value >= (i64::MAX - d) / 10 + 1,
                    ;
                }
                if all_digits(lit@) && digits_val(lit@) <= i64::MAX {
                    lemma_digits_val_prefix(lit@, i + 1);
                }
            }
            return None;
        }
        proof {
            assert(value * 10 + d <= i64::MAX) by {
                assert(value <= (i64::MAX - d) / 10);
                assert(value * 10 <= ((i64::MAX - d) / 10) * 10) by (nonlinear_arith)
                    requires
                        value <= (i64::MAX - d) / 10,
                ;
                assert(((i64::MAX - d) / 10) * 10 <= i64::MAX - d) by (nonlinear_arith);
            }
        }
        value = value * 10 + d;
        i = i + 1;
    }
    proof {
        assert(lit@.take(n as int) =~= lit@);
    }
    Some(value)
}

/// The decimal digit character of a value below ten.
pub open spec fn digit_char(d: int) -> char {
    if d == 0 {
        '0'
    } else if d == 1 {
        '1'
    } else if d == 2 {
        '2'
    } else if d == 3 {
        '3'
    } else if d == 4 {
        '4'
    } else if d == 5 {
        '5'
    } else if d == 6 {
        '6'
    } else if d == 7 {
        '7'
    } else if d == 8 {
        '8'
    } else {
        '9'
    }
}

/// The canonical decimal digits of a nonnegative number: no leading
/// zeroes, except for the single digit of zero itself.
pub open spec fn dec_digits(n: nat) -> Seq<char>
    decreases n,
{
    if n < 10 {
        seq![digit_char(n as int)]
    } else {
        dec_digits(n / 10).push(digit_char((n % 10) as int))
    }
}

/// The canonical decimal text of an integer: a minus sign before the
/// digits of the magnitude when it is negative.
pub open spec fn dec_of(v: int) -> Seq<char> {
    if v < 0 {
        seq!['-'] + dec_digits((-v) as nat)
    } else {
        dec_digits(v as nat)
    }
}

pub proof fn lemma_dec_digits_digits(n: nat)
    ensures
        dec_digits(n).len() >= 1,
        all_digits(dec_digits(n)),
    decreases n,
{
    if n < 10 {
        assert(is_digit(digit_char(n as int)));
    } else {
        lemma_dec_digits_digits(n / 10);
        assert(is_digit(digit_char((n % 10) as int)));
        assert forall|i: int| 0 <= i < dec_digits(n).len() implies is_digit(
            #[trigger] dec_digits(n)[i],
        ) by {
            if i < dec_digits(n).len() - 1 {
                assert(dec_digits(n)[i] == dec_digits(n / 10)[i]);
            }
        }
    }
}

/// Reading the canonical decimal digits back as a number gives the number:
/// `dec_digits` and `digits_val` are inverse.
pub proof fn lemma_digits_val_dec_digits(n: nat)
    ensures
        digits_val(dec_digits(n)) == n,
    decreases n,
{
    if n < 10 {
        assert(digit_char(n as int) as u32 - '0' as u32 == n);
        assert(dec_digits(n).drop_last() =~= Seq::<char>::empty());
        assert(dec_digits(n).last() == digit_char(n as int));
        assert(digits_val(Seq::<char>::empty()) == 0);
    } else {
        lemma_digits_val_dec_digits(n / 10);
        assert(digit_char((n % 10) as int) as u32 - '0' as u32 == n % 10);
        assert(dec_digits(n).drop_last() =~= dec_digits(n / 10));
        assert(dec_digits(n).last() == digit_char((n % 10) as int));
    }
}

/// The digit character of a value below ten, as a string slice.
fn digit_str(d: u32) -> (s: &'static str)
    requires
        d < 10,
    ensures
        s@ == seq![digit_char(d as int)],
{
    proof {
        reveal_strlit("0");
        reveal_strlit("1");
        reveal_strlit("2");
        reveal_strlit("3");
        reveal_strlit("4");
        reveal_strlit("5");
        reveal_strlit("6");
        reveal_strlit("7");
        reveal_strlit("8");
        reveal_strlit("9");
    }
    let s = match d {
        0 => "0",
        1 => "1",
        2 => "2",
        3 => "3",
        4 => "4",
        5 => "5",
        6 => "6",
        7 => "7",
        8 => "8",
        _ => "9",
    };
    proof {
        assert(s@ =~= seq![digit_char(d as int)]);
    }
    s
}

/// Writes a nonnegative number as its canonical decimal digits.
fn dec_string_nonneg(v: i64) -> (s: String)
    requires
        v >= 0,
    ensures
        s@ == dec_digits(v as nat),
    decreases v,
{
    let d = (v % 10) as u32;
    let q = v / 10;
    if q == 0 {
        String::from_str(digit_str(d))
    } else {
        let mut s = dec_string_nonneg(q);
        s.append(digit_str(d));
        proof {
            assert(s@ =~= dec_digits((v / 10) as nat).push(digit_char((v % 10) as int)));
        }
        s
    }
}

// ---------------------------------------------------------------------------
// Mathematical views of the tree
// ---------------------------------------------------------------------------

/// The view of an expression: the tree shape with literal texts and values,
/// free of token bookkeeping.
pub ghost enum ExprV {
    Identifier { name: Seq<char> },
    IntegerLiteral { value: int },
    Boolean { literal: Seq<char>, value: bool },
    Prefix { op: Seq<char>, right: Box<ExprV> },
    Infix { op: Seq<char>, left: Box<ExprV>, right: Box<ExprV> },
    Call { func: Box<ExprV>, args: Seq<ExprV> },
}

/// The view of a statement.
pub ghost enum StmtV {
    LetStmt { name: Seq<char>, value: Option<ExprV> },
    ReturnStmt { value: Option<ExprV> },
    ExpressionStmt { expr: ExprV },
}

// ---------------------------------------------------------------------------
// Well-formedness of views
// ---------------------------------------------------------------------------

/// A legal identifier name: a nonempty alphabetic run that is not a keyword.
pub open spec fn wf_name(n: Seq<char>) -> bool {
    &&& n.len() > 0
    &&& forall|i: int| 0 <= i < n.len() ==> is_letter(#[trigger] n[i])
    &&& lookup_keyword(n) == TokenType::Identifier
}

/// The operator strings the parser can produce for an infix expression.
pub open spec fn is_infix_op(op: Seq<char>) -> bool {
    op == "+"@ || op == "-"@ || op == "*"@ || op == "/"@ || op == "=="@ || op == "!="@ || op
        == "<"@ || op == ">"@
}

/// Well-formed expression views: the shapes the parser can build.
pub open spec fn wf_expr(e: ExprV) -> bool
    decreases e,
{
    match e {
        ExprV::Identifier { name } => wf_name(name),
        ExprV::IntegerLiteral { value } => 0 <= value <= i64::MAX,
        ExprV::Boolean { literal, value } => (value && literal == "true"@) || (!value && literal
            == "false"@),
        ExprV::Prefix { op, right } => (op == "!"@ || op == "-"@) && wf_expr(*right),
        ExprV::Infix { op, left, right } => is_infix_op(op) && wf_expr(*left) && wf_expr(*right),
        ExprV::Call { func, args } => wf_expr(*func) && wf_args(args),
    }
}

pub open spec fn wf_args(args: Seq<ExprV>) -> bool
    decreases args,
{
    if args.len() == 0 {
        true
    } else {
        wf_args(args.drop_last()) && wf_expr(args.last())
    }
}

pub open spec fn wf_opt_expr(v: Option<ExprV>) -> bool {
    match v {
        Option::Some(e) => wf_expr(e),
        Option::None => true,
    }
}

pub open spec fn wf_stmt(s: StmtV) -> bool {
    match s {
        StmtV::LetStmt { name, value } => wf_name(name) && wf_opt_expr(value),
        StmtV::ReturnStmt { value } => wf_opt_expr(value),
        StmtV::ExpressionStmt { expr } => wf_expr(expr),
    }
}

pub open spec fn wf_program(stmts: Seq<StmtV>) -> bool {
    forall|i: int| 0 <= i < stmts.len() ==> wf_stmt(#[trigger] stmts[i])
}

// ---------------------------------------------------------------------------
// Canonical rendering of views
// ---------------------------------------------------------------------------

/// The canonical text of an expression.  Prefix and infix expressions are
/// fully parenthesized, so re-lexing and re-parsing the text rebuilds the
/// same tree shape.
pub open spec fn render_expr(e: ExprV) -> Seq<char>
    decreases e,
{
    match e {
        ExprV::Identifier { name } => name,
        ExprV::IntegerLiteral { value } => dec_of(value),
        ExprV::Boolean { literal, value } => literal,
        ExprV::Prefix { op, right } => "("@ + op + render_expr(*right) + ")"@,
        ExprV::Infix { op, left, right } => "("@ + render_expr(*left) + " "@ + op + " "@
            + render_expr(*right) + ")"@,
        ExprV::Call { func, args } => render_expr(*func) + "("@ + render_args(args) + ")"@,
    }
}

/// Call arguments joined by a comma and a space.
pub open spec fn render_args(args: Seq<ExprV>) -> Seq<char>
    decreases args,
{
    if args.len() == 0 {
        Seq::empty()
    } else if args.len() == 1 {
        render_expr(args[0])
    } else {
        render_args(args.drop_last()) + ", "@ + render_expr(args.last())
    }
}

pub open spec fn render_opt_expr(v: Option<ExprV>) -> Seq<char> {
    match v {
        Option::Some(e) => render_expr(e),
        Option::None => Seq::empty(),
    }
}

/// The canonical text of a statement, always terminated by a semicolon.
pub open spec fn render_stmt(s: StmtV) -> Seq<char> {
    match s {
        StmtV::LetStmt { name, value } => "let "@ + name + " = "@ + render_opt_expr(value) + ";"@,
        StmtV::ReturnStmt { value } => "return "@ + render_opt_expr(value) + ";"@,
        StmtV::ExpressionStmt { expr } => render_expr(expr) + ";"@,
    }
}

/// The canonical text of a program: its statements joined by newlines.
pub open spec fn render_program(stmts: Seq<StmtV>) -> Seq<char>
    decreases stmts,
{
    if stmts.len() == 0 {
        Seq::empty()
    } else if stmts.len() == 1 {
        render_stmt(stmts[0])
    } else {
        render_program(stmts.drop_last()) + "\n"@ + render_stmt(stmts.last())
    }
}

// ---------------------------------------------------------------------------
// The executable tree
// ---------------------------------------------------------------------------

/// A node of the tree: it can reconstruct the literal text of the token
/// that introduced it.
pub trait Node {
    /// The literal text this node will report.
    spec fn spec_token_literal(&self) -> Seq<char>;

    /// The literal text of the token that introduced this node.
    fn token_literal(&self) -> (s: String)
        ensures
            s@ == self.spec_token_literal(),
    ;
}

/// An expression: a tagged union over the closed set of expression kinds.
#[derive(Debug)]
pub enum Expression {
    Identifier(Identifier),
    IntegerLiteral(IntegerLiteral),
    Boolean(Boolean),
    PrefixExpression(PrefixExpression),
    InfixExpression(InfixExpression),
    CallExpression(CallExpression),
}

/// A statement: a tagged union over the three statement kinds.
#[derive(Debug)]
pub enum Statement {
    LetStmt(LetStmt),
    ReturnStmt(ReturnStmt),
    ExpressionStmt(ExpressionStmt),
}

/// A name standing for a value.
#[derive(Debug)]
pub struct Identifier {
    pub token: Token,
    pub value: String,
}

/// A 64-bit signed integer literal, remembering its source text.
#[derive(Debug)]
pub struct IntegerLiteral {
    pub token: Token,
    pub value: i64,
}

/// A boolean literal.
#[derive(Debug)]
pub struct Boolean {
    pub token: Token,
    pub value: bool,
}

/// A unary operator applied to an operand.
#[derive(Debug)]
pub struct PrefixExpression {
    pub token: Token,
    pub operator: String,
    pub right: Box<Expression>,
}

/// A binary operator applied to two operands.
#[derive(Debug)]
pub struct InfixExpression {
    pub token: Token,
    pub operator: String,
    pub left: Box<Expression>,
    pub right: Box<Expression>,
}

/// A callee applied to an argument list.
#[derive(Debug)]
pub struct CallExpression {
    pub token: Token,
    pub function: Box<Expression>,
    pub arguments: Vec<Expression>,
}

/// `let <name> = <value>;`
#[derive(Debug)]
pub struct LetStmt {
    pub token: Token,
    pub name: Identifier,
    pub value: Option<Expression>,
}

/// `return <value>;`
#[derive(Debug)]
pub struct ReturnStmt {
    pub token: Token,
    pub return_value: Option<Expression>,
}

/// A bare expression standing as a statement.
#[derive(Debug)]
pub struct ExpressionStmt {
    pub token: Token,
    pub expression: Expression,
}

/// The parse root: an ordered sequence of top-level statements.
#[derive(Debug)]
pub struct Program {
    pub statements: Vec<Statement>,
}

// ---------------------------------------------------------------------------
// Views of the executable tree
// ---------------------------------------------------------------------------

pub open spec fn expr_view(e: Expression) -> ExprV
    decreases e,
{
    match e {
        Expression::Identifier(x) => ExprV::Identifier { name: x.value@ },
        Expression::IntegerLiteral(x) => ExprV::IntegerLiteral { value: x.value as int },
        Expression::Boolean(x) => ExprV::Boolean { literal: x.token.literal@, value: x.value },
        Expression::PrefixExpression(x) => ExprV::Prefix {
            op: x.operator@,
            right: Box::new(expr_view(*x.right)),
        },
        Expression::InfixExpression(x) => ExprV::Infix {
            op: x.operator@,
            left: Box::new(expr_view(*x.left)),
            right: Box::new(expr_view(*x.right)),
        },
        Expression::CallExpression(x) => ExprV::Call {
            func: Box::new(expr_view(*x.function)),
            args: exprs_view(x.arguments@),
        },
    }
}

pub open spec fn exprs_view(s: Seq<Expression>) -> Seq<ExprV>
    decreases s,
{
    if s.len() == 0 {
        Seq::empty()
    } else {
        exprs_view(s.drop_last()).push(expr_view(s.last()))
    }
}

pub open spec fn opt_expr_view(v: Option<Expression>) -> Option<ExprV> {
    match v {
        Option::Some(e) => Option::Some(expr_view(e)),
        Option::None => Option::None,
    }
}

pub open spec fn stmt_view(s: Statement) -> StmtV {
    match s {
        Statement::LetStmt(x) => StmtV::LetStmt {
            name: x.name.value@,
            value: opt_expr_view(x.value),
        },
        Statement::ReturnStmt(x) => StmtV::ReturnStmt { value: opt_expr_view(x.return_value) },
        Statement::ExpressionStmt(x) => StmtV::ExpressionStmt { expr: expr_view(x.expression) },
    }
}

pub open spec fn stmts_view(s: Seq<Statement>) -> Seq<StmtV>
    decreases s,
{
    if s.len() == 0 {
        Seq::empty()
    } else {
        stmts_view(s.drop_last()).push(stmt_view(s.last()))
    }
}

pub proof fn lemma_exprs_view(s: Seq<Expression>)
    ensures
        exprs_view(s).len() == s.len(),
        forall|i: int| 0 <= i < s.len() ==> exprs_view(s)[i] == expr_view(#[trigger] s[i]),
    decreases s,
{
    if s.len() > 0 {
        lemma_exprs_view(s.drop_last());
        assert forall|i: int| 0 <= i < s.len() implies exprs_view(s)[i] == expr_view(
            #[trigger] s[i],
        ) by {
            if i < s.len() - 1 {
                assert(s.drop_last()[i] == s[i]);
            }
        }
    }
}

pub proof fn lemma_stmts_view(s: Seq<Statement>)
    ensures
        stmts_view(s).len() == s.len(),
        forall|i: int| 0 <= i < s.len() ==> stmts_view(s)[i] == stmt_view(#[trigger] s[i]),
    decreases s,
{
    if s.len() > 0 {
        lemma_stmts_view(s.drop_last());
        assert forall|i: int| 0 <= i < s.len() implies stmts_view(s)[i] == stmt_view(
            #[trigger] s[i],
        ) by {
            if i < s.len() - 1 {
                assert(s.drop_last()[i] == s[i]);
            }
        }
    }
}

impl View for Expression {
    type V = ExprV;

    open spec fn view(&self) -> ExprV {
        expr_view(*self)
    }
}

impl View for Identifier {
    type V = Seq<char>;

    open spec fn view(&self) -> Seq<char> {
        self.value@
    }
}

impl View for IntegerLiteral {
    type V = ExprV;

    open spec fn view(&self) -> ExprV {
        ExprV::IntegerLiteral { value: self.value as int }
    }
}

impl View for Boolean {
    type V = ExprV;

    open spec fn view(&self) -> ExprV {
        ExprV::Boolean { literal: self.token.literal@, value: self.value }
    }
}

impl View for PrefixExpression {
    type V = ExprV;

    open spec fn view(&self) -> ExprV {
        ExprV::Prefix { op: self.operator@, right: Box::new(expr_view(*self.right)) }
    }
}

impl View for InfixExpression {
    type V = ExprV;

    open spec fn view(&self) -> ExprV {
        ExprV::Infix {
            op: self.operator@,
            left: Box::new(expr_view(*self.left)),
            right: Box::new(expr_view(*self.right)),
        }
    }
}

impl View for CallExpression {
    type V = ExprV;

    open spec fn view(&self) -> ExprV {
        ExprV::Call { func: Box::new(expr_view(*self.function)), args: exprs_view(self.arguments@) }
    }
}

impl View for LetStmt {
    type V = StmtV;

    open spec fn view(&self) -> StmtV {
        StmtV::LetStmt { name: self.name.value@, value: opt_expr_view(self.value) }
    }
}

impl View for ReturnStmt {
    type V = StmtV;

    open spec fn view(&self) -> StmtV {
        StmtV::ReturnStmt { value: opt_expr_view(self.return_value) }
    }
}

impl View for ExpressionStmt {
    type V = StmtV;

    open spec fn view(&self) -> StmtV {
        StmtV::ExpressionStmt { expr: expr_view(self.expression) }
    }
}

impl View for Statement {
    type V = StmtV;

    open spec fn view(&self) -> StmtV {
        stmt_view(*self)
    }
}

impl View for Program {
    type V = Seq<StmtV>;

    open spec fn view(&self) -> Seq<StmtV> {
        stmts_view(self.statements@)
    }
}

// ---------------------------------------------------------------------------
// Constructors
// ---------------------------------------------------------------------------

impl Identifier {
    /// An identifier node for the given name, introduced by an identifier
    /// token carrying the same text.
    pub fn new(value: &str) -> (r: Identifier)
        ensures
            r.token@.token_type == TokenType::Identifier,
            r.token@.literal == value@,
            r.value@ == value@,
    {
        Identifier { token: Token::new(TokenType::Identifier, value), value: String::from_str(value) }
    }
}

impl IntegerLiteral {
    /// An integer literal node for the given token; the token's text must
    /// be a digit run whose value fits in 64 signed bits.
    pub fn new(token: &Token) -> (r: IntegerLiteral)
        requires
            token.literal@.len() > 0,
            all_digits(token.literal@),
            digits_val(token.literal@) <= i64::MAX,
        ensures
            r.token@ == token@,
            r.value == digits_val(token.literal@),
    {
        let value = match int_from_digits(token.literal.as_str()) {
            Option::Some(v) => v,
            Option::None => vstd::pervasive::unreached(),
        };
        IntegerLiteral { token: Token::new(token.token_type, token.literal.as_str()), value }
    }
}

impl Boolean {
    /// A boolean literal node; the token must be `true` or `false`.
    pub fn new(token: &Token) -> (r: Boolean)
        requires
            token.token_type == TokenType::True || token.token_type == TokenType::False,
        ensures
            r.token@ == token@,
            r.value == (token.token_type == TokenType::True),
    {
        let value = token.token_type == TokenType::True;
        Boolean { token: Token::new(token.token_type, token.literal.as_str()), value }
    }
}

impl PrefixExpression {
    /// A unary expression whose operator is the literal of the given token.
    pub fn new(token: Token, expression: Box<Expression>) -> (r: PrefixExpression)
        ensures
            r@ == (ExprV::Prefix {
                op: token@.literal,
                right: Box::new(expr_view(*expression)),
            }),
            r.spec_token_literal() == token@.literal,
    {
        let operator = String::from_str(token.literal.as_str());
        PrefixExpression { token, operator, right: expression }
    }
}

impl InfixExpression {
    /// A binary expression whose operator is the literal of the given token.
    pub fn new(token: Token, left: Box<Expression>, right: Box<Expression>) -> (r: InfixExpression)
        ensures
            r@ == (ExprV::Infix {
                op: token@.literal,
                left: Box::new(expr_view(*left)),
                right: Box::new(expr_view(*right)),
            }),
            r.spec_token_literal() == token@.literal,
    {
        let operator = String::from_str(token.literal.as_str());
        InfixExpression { token, operator, left, right }
    }
}

impl CallExpression {
    /// A call expression; the token is the opening parenthesis.
    pub fn new(token: Token, function: Box<Expression>, arguments: Vec<Expression>) -> (r:
        CallExpression)
        ensures
            r@ == (ExprV::Call {
                func: Box::new(expr_view(*function)),
                args: exprs_view(arguments@),
            }),
            r.spec_token_literal() == token@.literal,
    {
        CallExpression { token, function, arguments }
    }
}

impl LetStmt {
    /// A let statement binding `value` to `identifier`, introduced by the
    /// `let` keyword.
    pub fn new(identifier: Identifier, value: Option<Expression>) -> (r: LetStmt)
        ensures
            r@ == (StmtV::LetStmt { name: identifier.value@, value: opt_expr_view(value) }),
            r.token@.token_type == TokenType::Let,
            r.token@.literal == "let"@,
            r.name == identifier,
    {
        LetStmt { token: Token::new(TokenType::Let, "let"), name: identifier, value }
    }
}

impl ReturnStmt {
    /// A return statement, introduced by the `return` keyword.
    pub fn new(return_value: Option<Expression>) -> (r: ReturnStmt)
        ensures
            r@ == (StmtV::ReturnStmt { value: opt_expr_view(return_value) }),
            r.token@.token_type == TokenType::Return,
            r.token@.literal == "return"@,
    {
        ReturnStmt { token: Token::new(TokenType::Return, "return"), return_value }
    }
}

impl Default for Program {
    /// An empty program.
    fn default() -> (r: Program)
        ensures
            r@ == Seq::<StmtV>::empty(),
    {
        Program { statements: Vec::new() }
    }
}

// ---------------------------------------------------------------------------
// Rendering
// ---------------------------------------------------------------------------

impl Identifier {
    /// The canonical text of this node.
    pub fn to_string(&self) -> (s: String)
        ensures
            s@ == self.value@,
    {
        String::from_str(self.value.as_str())
    }
}

impl IntegerLiteral {
    /// The canonical text of this node: the decimal rendering of its
    /// value.
    pub fn to_string(&self) -> (s: String)
        ensures
            s@ == render_expr(self@),
    {
        if self.value >= 0 {
            dec_string_nonneg(self.value)
        } else if self.value == i64::MIN {
            let s = String::from_str("-9223372036854775808");
            proof {
                reveal_strlit("-9223372036854775808");
                reveal_with_fuel(dec_digits, 25);
                assert(s@ =~= dec_of(self.value as int));
            }
            s
        } else {
            let mut s = String::from_str("-");
            let rendered = dec_string_nonneg(-self.value);
            s.append(rendered.as_str());
            proof {
                reveal_strlit("-");
                assert(s@ =~= dec_of(self.value as int));
            }
            s
        }
    }
}

impl Boolean {
    /// The canonical text of this node.
    pub fn to_string(&self) -> (s: String)
        ensures
            s@ == self.token.literal@,
    {
        String::from_str(self.token.literal.as_str())
    }
}

impl PrefixExpression {
    /// The canonical text of this node, parenthesized.
    pub fn to_string(&self) -> (s: String)
        ensures
            s@ == render_expr(self@),
        decreases *self,
    {
        let mut s = String::new();
        s.append("(");
        s.append(self.operator.as_str());
        let inner = self.right.to_string();
        s.append(inner.as_str());
        s.append(")");
        proof {
            assert(s@ =~= render_expr(self@));
        }
        s
    }
}

impl InfixExpression {
    /// The canonical text of this node, parenthesized.
    pub fn to_string(&self) -> (s: String)
        ensures
            s@ == render_expr(self@),
        decreases *self,
    {
        let mut s = String::new();
        s.append("(");
        let lhs = self.left.to_string();
        s.append(lhs.as_str());
        s.append(" ");
        s.append(self.operator.as_str());
        s.append(" ");
        let rhs = self.right.to_string();
        s.append(rhs.as_str());
        s.append(")");
        proof {
            assert(s@ =~= render_expr(self@));
        }
        s
    }
}

impl CallExpression {
    /// The canonical text of this node: the callee followed by the
    /// argument list.
    pub fn to_string(&self) -> (s: String)
        ensures
            s@ == render_expr(self@),
        decreases *self,
    {
        let ghost av = exprs_view(self.arguments@);
        proof {
            lemma_exprs_view(self.arguments@);
        }
        let mut s = self.function.to_string();
        s.append("(");
        let mut i: usize = 0;
        while i < self.arguments.len()
            invariant
                i <= self.arguments@.len(),
                av == exprs_view(self.arguments@),
                av.len() == self.arguments@.len(),
                forall|j: int|
                    0 <= j < av.len() ==> av[j] == expr_view(#[trigger] self.arguments@[j]),
                s@ == render_expr(expr_view(*self.function)) + "("@ + render_args(
                    av.take(i as int),
                ),
            decreases self.arguments@.len() - i,
        {
            if i > 0 {
                s.append(", ");
            }
            let arg = &self.arguments[i];
            let at = arg.to_string();
            s.append(at.as_str());
            proof {
                if i == 0 {
                    assert(av.take(1)[0] == av[0]);
                    assert(s@ =~= render_expr(expr_view(*self.function)) + "("@ + render_args(
                        av.take(1),
                    ));
                } else {
                    assert(av.take(i + 1).drop_last() =~= av.take(i as int));
                    assert(av.take(i + 1).last() == av[i as int]);
                    assert(s@ =~= render_expr(expr_view(*self.function)) + "("@ + render_args(
                        av.take(i + 1),
                    ));
                }
            }
            i = i + 1;
        }
        s.append(")");
        proof {
            assert(av.take(av.len() as int) =~= av);
            assert(s@ =~= render_expr(self@));
        }
        s
    }
}

impl Expression {
    /// The canonical text of this expression.
    pub fn to_string(&self) -> (s: String)
        ensures
            s@ == render_expr(self@),
        decreases *self,
    {
        match self {
            Expression::Identifier(x) => x.to_string(),
            Expression::IntegerLiteral(x) => x.to_string(),
            Expression::Boolean(x) => x.to_string(),
            Expression::PrefixExpression(x) => x.to_string(),
            Expression::InfixExpression(x) => x.to_string(),
            Expression::CallExpression(x) => x.to_string(),
        }
    }
}

impl LetStmt {
    /// The canonical text of this statement: `let <name> = <value>;`.
    pub fn to_string(&self) -> (s: String)
        ensures
            s@ == render_stmt(self@),
    {
        let mut s = String::new();
        s.append("let ");
        s.append(self.name.value.as_str());
        s.append(" = ");
        match &self.value {
            Option::Some(e) => {
                let et = e.to_string();
                s.append(et.as_str());
            },
            Option::None => {},
        }
        s.append(";");
        proof {
            assert(s@ =~= render_stmt(self@));
        }
        s
    }
}

impl ReturnStmt {
    /// The canonical text of this statement: `return <value>;`.
    pub fn to_string(&self) -> (s: String)
        ensures
            s@ == render_stmt(self@),
    {
        let mut s = String::new();
        s.append("return ");
        match &self.return_value {
            Option::Some(e) => {
                let et = e.to_string();
                s.append(et.as_str());
            },
            Option::None => {},
        }
        s.append(";");
        proof {
            assert(s@ =~= render_stmt(self@));
        }
        s
    }
}

impl ExpressionStmt {
    /// The canonical text of this statement: the expression followed by a
    /// semicolon.
    pub fn to_string(&self) -> (s: String)
        ensures
            s@ == render_stmt(self@),
    {
        let mut s = self.expression.to_string();
        s.append(";");
        proof {
            assert(s@ =~= render_stmt(self@));
        }
        s
    }
}

impl Statement {
    /// The canonical text of this statement.
    pub fn to_string(&self) -> (s: String)
        ensures
            s@ == render_stmt(self@),
    {
        match self {
            Statement::LetStmt(x) => x.to_string(),
            Statement::ReturnStmt(x) => x.to_string(),
            Statement::ExpressionStmt(x) => x.to_string(),
        }
    }
}

impl Program {
    /// The canonical text of the program: its statements joined by
    /// newlines.
    pub fn to_string(&self) -> (s: String)
        ensures
            s@ == render_program(self@),
    {
        let ghost sv = stmts_view(self.statements@);
        proof {
            lemma_stmts_view(self.statements@);
        }
        let mut s = String::new();
        let mut i: usize = 0;
        while i < self.statements.len()
            invariant
                i <= self.statements@.len(),
                sv == stmts_view(self.statements@),
                sv.len() == self.statements@.len(),
                forall|j: int|
                    0 <= j < sv.len() ==> sv[j] == stmt_view(#[trigger] self.statements@[j]),
                s@ == render_program(sv.take(i as int)),
            decreases self.statements@.len() - i,
        {
            if i > 0 {
                s.append("\n");
            }
            let stmt = &self.statements[i];
            let st = stmt.to_string();
            s.append(st.as_str());
            proof {
                if i == 0 {
                    assert(sv.take(1)[0] == sv[0]);
                    assert(s@ =~= render_program(sv.take(1)));
                } else {
                    assert(sv.take(i + 1).drop_last() =~= sv.take(i as int));
                    assert(sv.take(i + 1).last() == sv[i as int]);
                    assert(s@ =~= render_program(sv.take(i + 1)));
                }
            }
            i = i + 1;
        }
        proof {
            assert(sv.take(sv.len() as int) =~= sv);
        }
        s
    }
}

// ---------------------------------------------------------------------------
// Token literals
// ---------------------------------------------------------------------------

impl Node for Identifier {
    open spec fn spec_token_literal(&self) -> Seq<char> {
        self.value@
    }

    fn token_literal(&self) -> (s: String) {
        String::from_str(self.value.as_str())
    }
}

impl Node for IntegerLiteral {
    open spec fn spec_token_literal(&self) -> Seq<char> {
        self.token.literal@
    }

    fn token_literal(&self) -> (s: String) {
        String::from_str(self.token.literal.as_str())
    }
}

impl Node for Boolean {
    open spec fn spec_token_literal(&self) -> Seq<char> {
        self.token.literal@
    }

    fn token_literal(&self) -> (s: String) {
        String::from_str(self.token.literal.as_str())
    }
}

impl Node for PrefixExpression {
    open spec fn spec_token_literal(&self) -> Seq<char> {
        self.token.literal@
    }

    fn token_literal(&self) -> (s: String) {
        String::from_str(self.token.literal.as_str())
    }
}

impl Node for InfixExpression {
    open spec fn spec_token_literal(&self) -> Seq<char> {
        self.token.literal@
    }

    fn token_literal(&self) -> (s: String) {
        String::from_str(self.token.literal.as_str())
    }
}

impl Node for CallExpression {
    open spec fn spec_token_literal(&self) -> Seq<char> {
        self.token.literal@
    }

    fn token_literal(&self) -> (s: String) {
        String::from_str(self.token.literal.as_str())
    }
}

impl Node for LetStmt {
    open spec fn spec_token_literal(&self) -> Seq<char> {
        self.token.literal@
    }

    fn token_literal(&self) -> (s: String) {
        String::from_str(self.token.literal.as_str())
    }
}

impl Node for ReturnStmt {
    open spec fn spec_token_literal(&self) -> Seq<char> {
        self.token.literal@
    }

    fn token_literal(&self) -> (s: String) {
        String::from_str(self.token.literal.as_str())
    }
}

impl Node for ExpressionStmt {
    open spec fn spec_token_literal(&self) -> Seq<char> {
        self.token.literal@
    }

    fn token_literal(&self) -> (s: String) {
        String::from_str(self.token.literal.as_str())
    }
}

impl Node for Expression {
    open spec fn spec_token_literal(&self) -> Seq<char> {
        match *self {
            Expression::Identifier(ref x) => x.spec_token_literal(),
            Expression::IntegerLiteral(ref x) => x.spec_token_literal(),
            Expression::Boolean(ref x) => x.spec_token_literal(),
            Expression::PrefixExpression(ref x) => x.spec_token_literal(),
            Expression::InfixExpression(ref x) => x.spec_token_literal(),
            Expression::CallExpression(ref x) => x.spec_token_literal(),
        }
    }

    fn token_literal(&self) -> (s: String) {
        match self {
            Expression::Identifier(x) => x.token_literal(),
            Expression::IntegerLiteral(x) => x.token_literal(),
            Expression::Boolean(x) => x.token_literal(),
            Expression::PrefixExpression(x) => x.token_literal(),
            Expression::InfixExpression(x) => x.token_literal(),
            Expression::CallExpression(x) => x.token_literal(),
        }
    }
}

impl Node for Statement {
    open spec fn spec_token_literal(&self) -> Seq<char> {
        match *self {
            Statement::LetStmt(ref x) => x.spec_token_literal(),
            Statement::ReturnStmt(ref x) => x.spec_token_literal(),
            Statement::ExpressionStmt(ref x) => x.spec_token_literal(),
        }
    }

    fn token_literal(&self) -> (s: String) {
        match self {
            Statement::LetStmt(x) => x.token_literal(),
            Statement::ReturnStmt(x) => x.token_literal(),
            Statement::ExpressionStmt(x) => x.token_literal(),
        }
    }
}

impl Node for Program {
    open spec fn spec_token_literal(&self) -> Seq<char> {
        if self.statements@.len() > 0 {
            self.statements@[0].spec_token_literal()
        } else {
            Seq::empty()
        }
    }

    fn token_literal(&self) -> (s: String) {
        if self.statements.len() > 0 {
            let first = &self.statements[0];
            first.token_literal()
        } else {
            proof {
                reveal_strlit("");
                assert(""@ =~= Seq::<char>::empty());
            }
            String::from_str("")
        }
    }
}

} // verus!
