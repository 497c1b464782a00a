//! The lexer: turns source text into a stream of tokens.
//!
//! The mathematical model is `spec_tokens`, which maps a character sequence
//! to the full sequence of tokens the lexer will produce before reporting
//! end of input.  `Lexer::next_token` is proved to walk exactly that
//! sequence.

use vstd::prelude::*;
use vstd::string::StrSliceExecFns;
use crate::token::{Token, TokenType, TokenV};

verus! {

// ---------------------------------------------------------------------------
// Character classes
// ---------------------------------------------------------------------------

/// Whitespace skipped between tokens: space, tab, newline.
pub open spec fn is_ws(c: char) -> bool {
    c == ' ' || c == '\t' || c == '\n'
}

/// ASCII alphabetic characters, the only characters of identifiers and
/// keywords.
pub open spec fn is_letter(c: char) -> bool {
    ('a' as u32 <= c as u32 && c as u32 <= 'z' as u32) || ('A' as u32 <= c as u32 && c as u32
        <= 'Z' as u32)
}

/// ASCII decimal digits, the only characters of integer literals.
pub open spec fn is_digit(c: char) -> bool {
    '0' as u32 <= c as u32 && c as u32 <= '9' as u32
}

/// Characters that may begin a one- or two-character operator, where a
/// following `=` selects the two-character form.
pub open spec fn is_op_char(c: char) -> bool {
    c == '=' || c == '<' || c == '>' || c == '+' || c == '-' || c == '*' || c == '/' || c == '!'
}

/// The token kind of a single punctuation character; `Illegal` for any
/// character outside the fixed table.
pub open spec fn single_char_kind(c: char) -> TokenType {
    if c == '=' {
        TokenType::Assign
    } else if c == '<' {
        TokenType::Less
    } else if c == '>' {
        TokenType::Greater
    } else if c == '+' {
        TokenType::Plus
    } else if c == '-' {
        TokenType::Minus
    } else if c == '*' {
        TokenType::Asterisk
    } else if c == '/' {
        TokenType::Slash
    } else if c == '!' {
        TokenType::Bang
    } else if c == ';' {
        TokenType::Semicolon
    } else if c == '(' {
        TokenType::LeftParen
    } else if c == ')' {
        TokenType::RightParen
    } else if c == ',' {
        TokenType::Comma
    } else if c == '{' {
        TokenType::LeftBrace
    } else if c == '}' {
        TokenType::RightBrace
    } else {
        TokenType::Illegal
    }
}

/// The token kind of an operator character followed by `=`.
pub open spec fn two_char_kind(c: char) -> TokenType {
    if c == '=' {
        TokenType::EqualEqual
    } else if c == '<' {
        TokenType::LessEqual
    } else if c == '>' {
        TokenType::GreaterEqual
    } else if c == '+' {
        TokenType::PlusEqual
    } else if c == '-' {
        TokenType::MinusEqual
    } else if c == '*' {
        TokenType::AsteriskEqual
    } else if c == '/' {
        TokenType::SlashEqual
    } else {
        TokenType::BangEqual
    }
}

/// The fixed keyword table: every keyword literal maps to exactly one kind,
/// and every other alphabetic run is an identifier.
pub open spec fn lookup_keyword(lit: Seq<char>) -> TokenType {
    if lit == "fn"@ {
        TokenType::Function
    } else if lit == "let"@ {
        TokenType::Let
    } else if lit == "true"@ {
        TokenType::True
    } else if lit == "false"@ {
        TokenType::False
    } else if lit == "if"@ {
        TokenType::If
    } else if lit == "else"@ {
        TokenType::Else
    } else if lit == "return"@ {
        TokenType::Return
    } else {
        TokenType::Identifier
    }
}

// ---------------------------------------------------------------------------
// Maximal runs
// ---------------------------------------------------------------------------

/// Length of the maximal whitespace run at the head of `s`.
pub open spec fn ws_len(s: Seq<char>) -> nat
    decreases s.len(),
{
    if s.len() > 0 && is_ws(s[0]) {
        (1 + ws_len(s.skip(1))) as nat
    } else {
        0
    }
}

/// Length of the maximal alphabetic run at the head of `s`.
pub open spec fn word_len(s: Seq<char>) -> nat
    decreases s.len(),
{
    if s.len() > 0 && is_letter(s[0]) {
        (1 + word_len(s.skip(1))) as nat
    } else {
        0
    }
}

/// Length of the maximal digit run at the head of `s`.
pub open spec fn digit_len(s: Seq<char>) -> nat
    decreases s.len(),
{
    if s.len() > 0 && is_digit(s[0]) {
        (1 + digit_len(s.skip(1))) as nat
    } else {
        0
    }
}

pub proof fn lemma_ws_len(s: Seq<char>)
    ensures
        ws_len(s) <= s.len(),
        forall|i: int| 0 <= i < ws_len(s) ==> is_ws(s[i]),
        ws_len(s) < s.len() ==> !is_ws(s[ws_len(s) as int]),
    decreases s.len(),
{
    if s.len() > 0 && is_ws(s[0]) {
        lemma_ws_len(s.skip(1));
        assert forall|i: int| 0 <= i < ws_len(s) implies is_ws(s[i]) by {
            if i > 0 {
                assert(is_ws(s.skip(1)[i - 1]));
            }
        }
    }
}

pub proof fn lemma_word_len(s: Seq<char>)
    ensures
        word_len(s) <= s.len(),
        forall|i: int| 0 <= i < word_len(s) ==> is_letter(s[i]),
        word_len(s) < s.len() ==> !is_letter(s[word_len(s) as int]),
    decreases s.len(),
{
    if s.len() > 0 && is_letter(s[0]) {
        lemma_word_len(s.skip(1));
        assert forall|i: int| 0 <= i < word_len(s) implies is_letter(s[i]) by {
            if i > 0 {
                assert(is_letter(s.skip(1)[i - 1]));
            }
        }
    }
}

pub proof fn lemma_digit_len(s: Seq<char>)
    ensures
        digit_len(s) <= s.len(),
        forall|i: int| 0 <= i < digit_len(s) ==> is_digit(s[i]),
        digit_len(s) < s.len() ==> !is_digit(s[digit_len(s) as int]),
    decreases s.len(),
{
    if s.len() > 0 && is_digit(s[0]) {
        lemma_digit_len(s.skip(1));
        assert forall|i: int| 0 <= i < digit_len(s) implies is_digit(s[i]) by {
            if i > 0 {
                assert(is_digit(s.skip(1)[i - 1]));
            }
        }
    }
}

/// A run length is determined by its endpoints: if the first `n` characters
/// are whitespace and the run stops there, the maximal run has length `n`.
pub proof fn lemma_ws_run(s: Seq<char>, n: nat)
    requires
        n <= s.len(),
        forall|i: int| 0 <= i < n ==> is_ws(s[i]),
        n < s.len() ==> !is_ws(s[n as int]),
    ensures
        ws_len(s) == n,
{
    lemma_ws_len(s);
    if ws_len(s) < n {
        assert(is_ws(s[ws_len(s) as int]));
    }
    if ws_len(s) > n {
        assert(is_ws(s[n as int]));
    }
}

pub proof fn lemma_word_run(s: Seq<char>, n: nat)
    requires
        n <= s.len(),
        forall|i: int| 0 <= i < n ==> is_letter(s[i]),
        n < s.len() ==> !is_letter(s[n as int]),
    ensures
        word_len(s) == n,
{
    lemma_word_len(s);
    if word_len(s) < n {
        assert(is_letter(s[word_len(s) as int]));
    }
    if word_len(s) > n {
        assert(is_letter(s[n as int]));
    }
}

pub proof fn lemma_digit_run(s: Seq<char>, n: nat)
    requires
        n <= s.len(),
        forall|i: int| 0 <= i < n ==> is_digit(s[i]),
        n < s.len() ==> !is_digit(s[n as int]),
    ensures
        digit_len(s) == n,
{
    lemma_digit_len(s);
    if digit_len(s) < n {
        assert(is_digit(s[digit_len(s) as int]));
    }
    if digit_len(s) > n {
        assert(is_digit(s[n as int]));
    }
}

// ---------------------------------------------------------------------------
// Scanning one token
// ---------------------------------------------------------------------------

/// The number of characters the next token occupies, for a sequence whose
/// head is not whitespace.
pub open spec fn scan_len(s: Seq<char>) -> nat {
    if s.len() == 0 {
        0
    } else if is_letter(s[0]) {
        word_len(s)
    } else if is_digit(s[0]) {
        digit_len(s)
    } else if is_op_char(s[0]) && s.len() > 1 && s[1] == '=' {
        2
    } else {
        1
    }
}

/// The next token itself, for a sequence whose head is not whitespace.
pub open spec fn scan_tok(s: Seq<char>) -> TokenV {
    if s.len() == 0 {
        TokenV { token_type: TokenType::Eof, literal: Seq::empty() }
    } else if is_letter(s[0]) {
        TokenV {
            token_type: lookup_keyword(s.take(word_len(s) as int)),
            literal: s.take(word_len(s) as int),
        }
    } else if is_digit(s[0]) {
        TokenV { token_type: TokenType::Int, literal: s.take(digit_len(s) as int) }
    } else if is_op_char(s[0]) && s.len() > 1 && s[1] == '=' {
        TokenV { token_type: two_char_kind(s[0]), literal: seq![s[0], '='] }
    } else {
        TokenV { token_type: single_char_kind(s[0]), literal: seq![s[0]] }
    }
}

pub proof fn lemma_scan_len(s: Seq<char>)
    requires
        s.len() > 0,
    ensures
        1 <= scan_len(s) <= s.len(),
{
    if is_letter(s[0]) {
        lemma_word_len(s);
    } else if is_digit(s[0]) {
        lemma_digit_len(s);
    }
}

/// A scanned token is never the end-of-input sentinel.
pub proof fn lemma_scan_tok_not_eof(s: Seq<char>)
    requires
        s.len() > 0,
    ensures
        scan_tok(s).token_type != TokenType::Eof,
{
}

// ---------------------------------------------------------------------------
// The full token sequence of a source text
// ---------------------------------------------------------------------------

/// All tokens of `s`, in order, excluding the final end-of-input sentinel.
pub open spec fn spec_tokens(s: Seq<char>) -> Seq<TokenV>
    decreases s.len(),
    via spec_tokens_dec
{
    let u = s.skip(ws_len(s) as int);
    if u.len() == 0 {
        Seq::empty()
    } else {
        seq![scan_tok(u)] + spec_tokens(u.skip(scan_len(u) as int))
    }
}

#[via_fn]
proof fn spec_tokens_dec(s: Seq<char>) {
    lemma_ws_len(s);
    let u = s.skip(ws_len(s) as int);
    if u.len() > 0 {
        lemma_scan_len(u);
    }
}

/// No token of a source text carries the end-of-input kind; that kind is
/// reserved for the sentinel that follows the sequence.
pub proof fn lemma_spec_tokens_no_eof(s: Seq<char>)
    ensures
        forall|i: int|
            0 <= i < spec_tokens(s).len() ==> #[trigger] spec_tokens(s)[i].token_type
                != TokenType::Eof,
    decreases s.len(),
{
    lemma_ws_len(s);
    let u = s.skip(ws_len(s) as int);
    if u.len() > 0 {
        lemma_scan_len(u);
        lemma_scan_tok_not_eof(u);
        lemma_spec_tokens_no_eof(u.skip(scan_len(u) as int));
    }
}

/// The number of tokens is bounded by the number of characters: every token
/// consumes at least one character.
pub proof fn lemma_spec_tokens_bounded(s: Seq<char>)
    ensures
        spec_tokens(s).len() <= s.len(),
    decreases s.len(),
{
    lemma_ws_len(s);
    let u = s.skip(ws_len(s) as int);
    if u.len() > 0 {
        lemma_scan_len(u);
        lemma_spec_tokens_bounded(u.skip(scan_len(u) as int));
    }
}

// ---------------------------------------------------------------------------
// Executable character classes
// ---------------------------------------------------------------------------

fn is_ws_char(c: char) -> (r: bool)
    ensures
        r == is_ws(c),
{
    c == ' ' || c == '\t' || c == '\n'
}

fn is_letter_char(c: char) -> (r: bool)
    ensures
        r == is_letter(c),
{
    let u = c as u32;
    ('a' as u32 <= u && u <= 'z' as u32) || ('A' as u32 <= u && u <= 'Z' as u32)
}

fn is_digit_char(c: char) -> (r: bool)
    ensures
        r == is_digit(c),
{
    let u = c as u32;
    '0' as u32 <= u && u <= '9' as u32
}

/// Content comparison of two string slices.
fn str_eq(a: &str, b: &str) -> (r: bool)
    ensures
        r == (a@ == b@),
{
    let alen = a.unicode_len();
    let blen = b.unicode_len();
    if alen != blen {
        return false;
    }
    let mut i: usize = 0;
    while i < alen
        invariant
            alen == blen,
            alen as nat == a@.len(),
            blen as nat == b@.len(),
            i <= alen,
            forall|j: int| 0 <= j < i ==> a@[j] == b@[j],
        decreases alen - i,
    {
        if a.get_char(i) != b.get_char(i) {
            return false;
        }
        i = i + 1;
    }
    proof {
        assert(a@ =~= b@);
    }
    true
}

/// Classification of an alphabetic run against the fixed keyword table.
fn classify_word(w: &str) -> (k: TokenType)
    ensures
        k == lookup_keyword(w@),
{
    if str_eq(w, "fn") {
        TokenType::Function
    } else if str_eq(w, "let") {
        TokenType::Let
    } else if str_eq(w, "true") {
        TokenType::True
    } else if str_eq(w, "false") {
        TokenType::False
    } else if str_eq(w, "if") {
        TokenType::If
    } else if str_eq(w, "else") {
        TokenType::Else
    } else if str_eq(w, "return") {
        TokenType::Return
    } else {
        TokenType::Identifier
    }
}

// ---------------------------------------------------------------------------
// The lexer
// ---------------------------------------------------------------------------

/// A cursor over a source text.  `next_token` yields the tokens of
/// `spec_tokens(self.src())` in order, then yields the end-of-input token
/// forever.
pub struct Lexer<'a> {
    input: &'a str,
    position: usize,
}

impl<'a> Lexer<'a> {
    /// The full source text, as a character sequence.
    pub closed spec fn src(&self) -> Seq<char> {
        self.input@
    }

    /// The index of the read cursor, in characters.
    pub closed spec fn pos(&self) -> nat {
        self.position as nat
    }

    /// The characters not yet consumed: empty once the cursor has reached
    /// or passed the end of the input.
    pub open spec fn remaining(&self) -> Seq<char> {
        if self.pos() <= self.src().len() {
            self.src().skip(self.pos() as int)
        } else {
            Seq::empty()
        }
    }

    /// A lexer positioned at the start of `input`.
    pub fn new(input: &'a str) -> (l: Lexer<'a>)
        ensures
            l.src() == input@,
            l.pos() == 0,
    {
        Lexer { input, position: 0 }
    }

    /// Moves the cursor one character forward, unconditionally; past the
    /// end of the input the current character is the sentinel.  Only the
    /// machine's word size bounds the cursor.
    pub fn advance(&mut self)
        requires
            old(self).pos() < usize::MAX,
        ensures
            final(self).src() == old(self).src(),
            final(self).pos() == old(self).pos() + 1,
    {
        self.position = self.position + 1;
    }

    /// The character under the cursor.
    fn ch(&self) -> (c: char)
        requires
            self.pos() < self.src().len(),
        ensures
            c == self.src()[self.pos() as int],
    {
        self.input.get_char(self.position)
    }

    /// The character immediately after the cursor, or the null sentinel when
    /// the cursor is on the last character.
    fn peek(&self) -> (c: char)
        requires
            self.pos() < self.src().len(),
        ensures
            c == (if self.pos() + 1 < self.src().len() {
                self.src()[self.pos() as int + 1]
            } else {
                '\0'
            }),
    {
        let l = self.input.unicode_len();
        if self.position + 1 < l {
            self.input.get_char(self.position + 1)
        } else {
            '\0'
        }
    }

    /// Consumes the maximal alphabetic run under the cursor and classifies
    /// it against the keyword table.
    fn read_identifier(&mut self) -> (t: Token)
        requires
            old(self).pos() < old(self).src().len(),
            is_letter(old(self).remaining()[0]),
        ensures
            final(self).pos() <= final(self).src().len(),
            final(self).src() == old(self).src(),
            t@ == scan_tok(old(self).remaining()),
            final(self).pos() == old(self).pos() + word_len(old(self).remaining()),
    {
        let ghost rem = old(self).remaining();
        let start = self.position;
        let l = self.input.unicode_len();
        while self.position < l && is_letter_char(self.ch())
            invariant
                self.pos() <= self.src().len(),
                self.src() == old(self).src(),
                l as nat == self.src().len(),
                start == old(self).position,
                old(self).pos() <= self.pos(),
                forall|i: int| old(self).pos() <= i < self.pos() ==> is_letter(self.src()[i]),
            decreases l - self.position,
        {
            self.advance();
        }
        proof {
            let n = (self.pos() - old(self).pos()) as nat;
            assert forall|i: int| 0 <= i < n implies is_letter(rem[i]) by {
                assert(rem[i] == self.src()[old(self).pos() + i]);
            }
            if n < rem.len() {
                assert(rem[n as int] == self.src()[self.pos() as int]);
            }
            lemma_word_run(rem, n);
        }
        let literal = self.input.substring_char(start, self.position);
        proof {
            assert(literal@ =~= rem.take(word_len(rem) as int));
        }
        let token_type = classify_word(literal);
        Token::new(token_type, literal)
    }

    /// Consumes the maximal digit run under the cursor as an integer
    /// literal.
    fn read_number(&mut self) -> (t: Token)
        requires
            old(self).pos() < old(self).src().len(),
            is_digit(old(self).remaining()[0]),
        ensures
            final(self).pos() <= final(self).src().len(),
            final(self).src() == old(self).src(),
            t@ == scan_tok(old(self).remaining()),
            final(self).pos() == old(self).pos() + digit_len(old(self).remaining()),
    {
        let ghost rem = old(self).remaining();
        let start = self.position;
        let l = self.input.unicode_len();
        while self.position < l && is_digit_char(self.ch())
            invariant
                self.pos() <= self.src().len(),
                self.src() == old(self).src(),
                l as nat == self.src().len(),
                start == old(self).position,
                old(self).pos() <= self.pos(),
                forall|i: int| old(self).pos() <= i < self.pos() ==> is_digit(self.src()[i]),
            decreases l - self.position,
        {
            self.advance();
        }
        proof {
            let n = (self.pos() - old(self).pos()) as nat;
            assert forall|i: int| 0 <= i < n implies is_digit(rem[i]) by {
                assert(rem[i] == self.src()[old(self).pos() + i]);
            }
            if n < rem.len() {
                assert(rem[n as int] == self.src()[self.pos() as int]);
            }
            lemma_digit_run(rem, n);
        }
        let literal = self.input.substring_char(start, self.position);
        proof {
            assert(literal@ =~= rem.take(digit_len(rem) as int));
        }
        Token::new(TokenType::Int, literal)
    }

    /// Skips whitespace, then consumes and returns the next token; at the
    /// end of the input, returns the end-of-input token and keeps returning
    /// it on every later call.
    pub fn next_token(&mut self) -> (t: Token)
        ensures
            final(self).src() == old(self).src(),
            final(self).pos() >= old(self).pos(),
            ({
                let u = old(self).remaining().skip(ws_len(old(self).remaining()) as int);
                if u.len() == 0 {
                    &&& t@ == (TokenV { token_type: TokenType::Eof, literal: Seq::empty() })
                    &&& final(self).remaining().len() == 0
                    &&& spec_tokens(old(self).remaining()) == Seq::<TokenV>::empty()
                    &&& spec_tokens(final(self).remaining()) == Seq::<TokenV>::empty()
                } else {
                    &&& t@ == scan_tok(u)
                    &&& t@.token_type != TokenType::Eof
                    &&& final(self).remaining() == u.skip(scan_len(u) as int)
                    &&& final(self).pos() > old(self).pos()
                    &&& spec_tokens(old(self).remaining()) == seq![t@] + spec_tokens(
                        final(self).remaining(),
                    )
                }
            }),
    {
        let ghost rem0 = old(self).remaining();
        let l = self.input.unicode_len();
        while self.position < l && is_ws_char(self.ch())
            invariant
                self.src() == old(self).src(),
                l as nat == self.src().len(),
                old(self).pos() <= self.pos(),
                self.pos() <= self.src().len() || self.pos() == old(self).pos(),
                forall|i: int| old(self).pos() <= i < self.pos() ==> is_ws(self.src()[i]),
            decreases l - self.position,
        {
            self.advance();
        }
        proof {
            if old(self).pos() <= old(self).src().len() {
                let n = (self.pos() - old(self).pos()) as nat;
                assert forall|i: int| 0 <= i < n implies is_ws(rem0[i]) by {
                    assert(rem0[i] == self.src()[old(self).pos() + i]);
                }
                if n < rem0.len() {
                    assert(rem0[n as int] == self.src()[self.pos() as int]);
                }
                lemma_ws_run(rem0, n);
                assert(self.remaining() =~= rem0.skip(ws_len(rem0) as int));
            } else {
                assert(rem0.len() == 0);
                assert(ws_len(rem0) == 0);
                assert(self.remaining() =~= rem0.skip(ws_len(rem0) as int));
            }
        }
        let ghost u = rem0.skip(ws_len(rem0) as int);
        if self.position >= l {
            let t = Token::new(TokenType::Eof, "");
            proof {
                reveal_strlit("");
                assert(t@.literal =~= Seq::<char>::empty());
                assert(u.len() == 0);
                assert(self.remaining().len() == 0);
                assert(self.remaining().skip(ws_len(self.remaining()) as int) =~= Seq::<
                    char,
                >::empty());
            }
            return t;
        }
        proof {
            assert(u.len() > 0);
            assert(u[0] == self.src()[self.pos() as int]);
            lemma_scan_len(u);
            lemma_scan_tok_not_eof(u);
        }
        let c = self.ch();
        if is_letter_char(c) {
            let t = self.read_identifier();
            proof {
                assert(self.remaining() =~= u.skip(scan_len(u) as int));
            }
            return t;
        }
        if is_digit_char(c) {
            let t = self.read_number();
            proof {
                assert(self.remaining() =~= u.skip(scan_len(u) as int));
            }
            return t;
        }
        let ghost two = u.len() > 1 && u[1] == '=';
        proof {
            if self.pos() + 1 < self.src().len() {
                assert(u[1] == self.src()[self.pos() as int + 1]);
            }
        }
        let token = if c == '=' {
            if self.peek() == '=' {
                self.advance();
                Token::new(TokenType::EqualEqual, "==")
            } else {
                Token::new(TokenType::Assign, "=")
            }
        } else if c == '<' {
            if self.peek() == '=' {
                self.advance();
                Token::new(TokenType::LessEqual, "<=")
            } else {
                Token::new(TokenType::Less, "<")
            }
        } else if c == '>' {
            if self.peek() == '=' {
                self.advance();
                Token::new(TokenType::GreaterEqual, ">=")
            } else {
                Token::new(TokenType::Greater, ">")
            }
        } else if c == '+' {
            if self.peek() == '=' {
                self.advance();
                Token::new(TokenType::PlusEqual, "+=")
            } else {
                Token::new(TokenType::Plus, "+")
            }
        } else if c == '-' {
            if self.peek() == '=' {
                self.advance();
                Token::new(TokenType::MinusEqual, "-=")
            } else {
                Token::new(TokenType::Minus, "-")
            }
        } else if c == '*' {
            if self.peek() == '=' {
                self.advance();
                Token::new(TokenType::AsteriskEqual, "*=")
            } else {
                Token::new(TokenType::Asterisk, "*")
            }
        } else if c == '/' {
            if self.peek() == '=' {
                self.advance();
                Token::new(TokenType::SlashEqual, "/=")
            } else {
                Token::new(TokenType::Slash, "/")
            }
        } else if c == '!' {
            if self.peek() == '=' {
                self.advance();
                Token::new(TokenType::BangEqual, "!=")
            } else {
                Token::new(TokenType::Bang, "!")
            }
        } else if c == ';' {
            Token::new(TokenType::Semicolon, ";")
        } else if c == '(' {
            Token::new(TokenType::LeftParen, "(")
        } else if c == ')' {
            Token::new(TokenType::RightParen, ")")
        } else if c == ',' {
            Token::new(TokenType::Comma, ",")
        } else if c == '{' {
            Token::new(TokenType::LeftBrace, "{")
        } else if c == '}' {
            Token::new(TokenType::RightBrace, "}")
        } else {
            let lit = self.input.substring_char(self.position, self.position + 1);
            Token::new(TokenType::Illegal, lit)
        };
        self.advance();
        proof {
            reveal_strlit("==");
            reveal_strlit("=");
            reveal_strlit("<=");
            reveal_strlit("<");
            reveal_strlit(">=");
            reveal_strlit(">");
            reveal_strlit("+=");
            reveal_strlit("+");
            reveal_strlit("-=");
            reveal_strlit("-");
            reveal_strlit("*=");
            reveal_strlit("*");
            reveal_strlit("/=");
            reveal_strlit("/");
            reveal_strlit("!=");
            reveal_strlit("!");
            reveal_strlit(";");
            reveal_strlit("(");
            reveal_strlit(")");
            reveal_strlit(",");
            reveal_strlit("{");
            reveal_strlit("}");
            assert(token@.literal =~= scan_tok(u).literal);
            assert(self.remaining() =~= u.skip(scan_len(u) as int));
        }
        token
    }
}

} // verus!
