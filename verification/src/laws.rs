//! Laws of the lexer, stated over the token-stream model `spec_tokens`.
//!
//! `Lexer::next_token` is proved against `spec_tokens`, so each law here
//! about the model is a statement about what the lexer does.

use vstd::prelude::*;
use crate::lexer::{
    is_op_char, is_ws, lemma_spec_tokens_bounded, scan_len, scan_tok, single_char_kind,
    spec_tokens, two_char_kind, ws_len,
};
use crate::token::{TokenType, TokenV};

verus! {

/// The characters of the fixed punctuation table.
pub open spec fn is_punct_char(c: char) -> bool {
    is_op_char(c) || c == ';' || c == '(' || c == ')' || c == ',' || c == '{' || c == '}'
}

/// For every single character of the punctuation table, tokenizing a
/// string holding only that character yields exactly one token, of the
/// matching kind, carrying that character as its literal; the lexer then
/// reports end of input.
pub proof fn lemma_single_punctuation(c: char)
    requires
        is_punct_char(c),
    ensures
        spec_tokens(seq![c]) == seq![
            TokenV { token_type: single_char_kind(c), literal: seq![c] },
        ],
{
    let s = seq![c];
    assert(!is_ws(c));
    assert(ws_len(s) == 0);
    assert(s.skip(0) =~= s);
    assert(scan_len(s) == 1);
    assert(s.skip(1).len() == 0);
    assert(s.skip(1).skip(0) =~= s.skip(1));
    assert(spec_tokens(s.skip(1)) =~= Seq::<TokenV>::empty());
    assert(scan_tok(s) == (TokenV { token_type: single_char_kind(c), literal: seq![c] }));
    assert(spec_tokens(s) =~= seq![scan_tok(s)]);
}

/// For every two-character operator (an operator character followed by
/// `=`), the lexer consumes both characters as one token and never splits
/// them into two single-character tokens.
pub proof fn lemma_two_char_operator(c: char)
    requires
        is_op_char(c),
    ensures
        spec_tokens(seq![c, '=']) == seq![
            TokenV { token_type: two_char_kind(c), literal: seq![c, '='] },
        ],
{
    let s = seq![c, '='];
    assert(!is_ws(c));
    assert(ws_len(s) == 0);
    assert(s.skip(0) =~= s);
    assert(scan_len(s) == 2);
    assert(s.skip(2).len() == 0);
    assert(s.skip(2).skip(0) =~= s.skip(2));
    assert(spec_tokens(s.skip(2)) =~= Seq::<TokenV>::empty());
    assert(scan_tok(s) == (TokenV { token_type: two_char_kind(c), literal: seq![c, '='] }));
    assert(spec_tokens(s) =~= seq![scan_tok(s)]);
}

/// Termination of lexing: a finite input yields finitely many tokens, at
/// most one per character.  Together with `Lexer::next_token`'s contract —
/// every call that does not report end of input strictly advances the
/// cursor — repeated calls reach end of input within the input's length.
pub proof fn lemma_token_count_bounded(s: Seq<char>)
    ensures
        spec_tokens(s).len() <= s.len(),
{
    lemma_spec_tokens_bounded(s);
}

} // verus!
