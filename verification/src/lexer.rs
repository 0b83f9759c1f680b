//! The tokenizer: turns query text into a flat token sequence terminated by
//! exactly one end marker. Tokenizing never fails; malformed input merely
//! produces tokens the parser will reject.
use vstd::prelude::*;

use crate::chars::{
    alphabetic_char, alphanumeric_char, ascii_ieq, ascii_ieq_text, decimal_digit_char,
    is_decimal_digit, is_unicode_alphabetic, is_unicode_alphanumeric, is_unicode_whitespace,
    push_char, whitespace_char,
};
use crate::parser::{Token, TokenModel};

verus! {

/// Length of the maximal run of alphanumeric characters starting at `p`.
pub open spec fn alnum_run_len(s: Seq<char>, p: int) -> int
    decreases s.len() - p,
{
    if 0 <= p && p < s.len() && is_unicode_alphanumeric(s[p]) {
        1 + alnum_run_len(s, p + 1)
    } else {
        0
    }
}

/// Length of the maximal run of decimal digits starting at `p`.
pub open spec fn digit_run_len(s: Seq<char>, p: int) -> int
    decreases s.len() - p,
{
    if 0 <= p && p < s.len() && is_decimal_digit(s[p]) {
        1 + digit_run_len(s, p + 1)
    } else {
        0
    }
}

proof fn lemma_alnum_run_end(s: Seq<char>, p: int, q: int)
    requires
        0 <= p <= q <= s.len(),
        forall|k: int| p <= k < q ==> is_unicode_alphanumeric(#[trigger] s[k]),
        q == s.len() || !is_unicode_alphanumeric(s[q]),
    ensures
        alnum_run_len(s, p) == q - p,
    decreases q - p,
{
    if p < q {
        lemma_alnum_run_end(s, p + 1, q);
    }
}

proof fn lemma_digit_run_end(s: Seq<char>, p: int, q: int)
    requires
        0 <= p <= q <= s.len(),
        forall|k: int| p <= k < q ==> is_decimal_digit(#[trigger] s[k]),
        q == s.len() || !is_decimal_digit(s[q]),
    ensures
        digit_run_len(s, p) == q - p,
    decreases q - p,
{
    if p < q {
        lemma_digit_run_end(s, p + 1, q);
    }
}

/// The token starting at position `p`, with the count of characters it
/// consumes. Each character yields one token, except that an alphabetic
/// start extends over the following alphanumeric run and a digit start over
/// the following digit run. Only `SELECT` is special-cased lexically.
pub open spec fn spec_next_token_at(s: Seq<char>, p: int) -> (TokenModel, int)
    recommends
        0 <= p < s.len(),
{
    let c = s[p];
    if is_unicode_whitespace(c) {
        (TokenModel::Whitespace, 1)
    } else if c == ',' {
        (TokenModel::Comma, 1)
    } else if c == '(' {
        (TokenModel::LeftParenthesis, 1)
    } else if c == ')' {
        (TokenModel::RightParenthesis, 1)
    } else if is_unicode_alphabetic(c) {
        let n = 1 + alnum_run_len(s, p + 1);
        let text = s.subrange(p, p + n);
        if ascii_ieq_text(text, "SELECT"@) {
            (TokenModel::Keyword(text), n)
        } else {
            (TokenModel::Identifier(text), n)
        }
    } else if is_decimal_digit(c) {
        let n = 1 + digit_run_len(s, p + 1);
        (TokenModel::Literal(s.subrange(p, p + n)), n)
    } else {
        (TokenModel::Operator(c), 1)
    }
}

/// The token sequence of the text from position `p` on: the tokens consumed
/// one after the other, closed by a single end marker.
pub open spec fn spec_tokenize_from(s: Seq<char>, p: int) -> Seq<TokenModel>
    decreases s.len() - p,
{
    if !(0 <= p < s.len()) {
        seq![TokenModel::Eof]
    } else {
        let (t, n0) = spec_next_token_at(s, p);
        let n = if n0 < 1 {
            1
        } else {
            n0
        };
        let next = if p + n > s.len() {
            s.len() as int
        } else {
            p + n
        };
        seq![t] + spec_tokenize_from(s, next)
    }
}

/// The token sequence of a whole text.
pub open spec fn spec_tokenize(s: Seq<char>) -> Seq<TokenModel> {
    spec_tokenize_from(s, 0)
}

/// Reads query text character by character, with single-character lookahead.
#[derive(Debug)]
pub struct Lexer<'a> {
    input: &'a str,
    pos: usize,
}

impl<'a> Lexer<'a> {
    pub closed spec fn input_text(&self) -> Seq<char> {
        self.input@
    }

    pub closed spec fn position(&self) -> int {
        self.pos as int
    }

    pub open spec fn wf(&self) -> bool {
        0 <= self.position() <= self.input_text().len()
    }

    pub fn new(input: &'a str) -> (l: Self)
        ensures
            l.input_text() == input@,
            l.position() == 0,
            l.wf(),
    {
        Lexer { input, pos: 0 }
    }

    /// Tokenizes the rest of the input: the tokens in order, ending with
    /// exactly one `Eof`.
    pub fn lex(&mut self) -> (tokens: Vec<Token>)
        requires
            old(self).wf(),
        ensures
            tokens.deep_view() == spec_tokenize_from(old(self).input_text(), old(self).position()),
            final(self).input_text() == old(self).input_text(),
            final(self).wf(),
    {
        let ghost s = self.input@;
        let ghost p0 = self.pos as int;
        let mut tokens: Vec<Token> = Vec::new();
        let len = self.input.unicode_len();
        while self.pos < len
            invariant
                self.wf(),
                self.input@ == s,
                len == s.len(),
                spec_tokenize_from(s, p0) == tokens.deep_view() + spec_tokenize_from(
                    s,
                    self.pos as int,
                ),
            decreases s.len() - self.pos,
        {
            let ghost before = self.pos as int;
            let ghost pair = spec_next_token_at(s, before);
            let t = match self.next_token() {
                Some(t) => t,
                None => {
                    proof {
                        assert(false);
                    }
                    Token::Eof
                },
            };
            tokens.push(t);
            proof {
                let rest = spec_tokenize_from(s, self.pos as int);
                assert(spec_tokenize_from(s, before) == seq![pair.0] + rest);
                assert(tokens.deep_view() =~= tokens.deep_view().take(
                    tokens.deep_view().len() - 1,
                ) + seq![pair.0]);
                assert((tokens.deep_view().take(tokens.deep_view().len() - 1) + seq![pair.0])
                    + rest =~= tokens.deep_view().take(tokens.deep_view().len() - 1) + (
                seq![pair.0] + rest));
            }
        }
        tokens.push(Token::Eof);
        proof {
            assert(spec_tokenize_from(s, self.pos as int) =~= seq![TokenModel::Eof]);
            assert(tokens.deep_view() =~= tokens.deep_view().take(tokens.deep_view().len() - 1)
                + seq![TokenModel::Eof]);
        }
        tokens
    }

    /// Consumes one token, or nothing at the end of the input.
    fn next_token(&mut self) -> (r: Option<Token>)
        requires
            old(self).wf(),
        ensures
            final(self).input_text() == old(self).input_text(),
            final(self).wf(),
            old(self).position() == old(self).input_text().len() ==> r is None
                && final(self).position() == old(self).position(),
            old(self).position() < old(self).input_text().len() ==> ({
                let (tm, n) = spec_next_token_at(old(self).input_text(), old(self).position());
                &&& n >= 1
                &&& old(self).position() + n <= old(self).input_text().len()
                &&& r matches Some(t) && t@ == tm
                &&& final(self).position() == old(self).position() + n
            }),
    {
        let ghost s = self.input@;
        let len = self.input.unicode_len();
        if self.pos == len {
            return None;
        }
        let start = self.pos;
        let c = self.input.get_char(self.pos);
        if whitespace_char(c) {
            self.pos = self.pos + 1;
            return Some(Token::Whitespace);
        }
        if c == ',' {
            self.pos = self.pos + 1;
            return Some(Token::Comma);
        }
        if c == '(' {
            self.pos = self.pos + 1;
            return Some(Token::LeftParenthesis);
        }
        if c == ')' {
            self.pos = self.pos + 1;
            return Some(Token::RightParenthesis);
        }
        if alphabetic_char(c) {
            let mut text = String::new();
            push_char(&mut text, c);
            self.pos = self.pos + 1;
            while self.pos < len && alphanumeric_char(self.input.get_char(self.pos))
                invariant
                    self.input@ == s,
                    len == s.len(),
                    start < self.pos <= len,
                    text@ == s.subrange(start as int, self.pos as int),
                    forall|k: int|
                        start + 1 <= k < self.pos ==> is_unicode_alphanumeric(#[trigger] s[k]),
                decreases s.len() - self.pos,
            {
                let ch = self.input.get_char(self.pos);
                push_char(&mut text, ch);
                proof {
                    assert(text@ =~= s.subrange(start as int, self.pos as int + 1));
                }
                self.pos = self.pos + 1;
            }
            proof {
                lemma_alnum_run_end(s, start as int + 1, self.pos as int);
            }
            let tok = if ascii_ieq(text.as_str(), "SELECT") {
                Token::Keyword(text)
            } else {
                Token::Identifier(text)
            };
            return Some(tok);
        }
        if decimal_digit_char(c) {
            let mut text = String::new();
            push_char(&mut text, c);
            self.pos = self.pos + 1;
            while self.pos < len && decimal_digit_char(self.input.get_char(self.pos))
                invariant
                    self.input@ == s,
                    len == s.len(),
                    start < self.pos <= len,
                    text@ == s.subrange(start as int, self.pos as int),
                    forall|k: int| start + 1 <= k < self.pos ==> is_decimal_digit(#[trigger] s[k]),
                decreases s.len() - self.pos,
            {
                let ch = self.input.get_char(self.pos);
                push_char(&mut text, ch);
                proof {
                    assert(text@ =~= s.subrange(start as int, self.pos as int + 1));
                }
                self.pos = self.pos + 1;
            }
            proof {
                lemma_digit_run_end(s, start as int + 1, self.pos as int);
            }
            return Some(Token::Literal(text));
        }
        self.pos = self.pos + 1;
        Some(Token::Operator(c))
    }
}

} // verus!
