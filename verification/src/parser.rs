//! Tokens, the abstract syntax tree, and the parser for the one supported
//! statement form:
//!
//! ```text
//! select_stmt := "SELECT" projection "FROM" table_identifier
//! projection  := "*" | identifier ("," identifier)*
//! ```
//!
//! Keywords are case-insensitive. `FROM` is lexed as a plain identifier and
//! recognized contextually here. Whitespace tokens are skipped implicitly at
//! every decision point. Parsing is strict: an unexpected token at a required
//! position is an error, and so is trailing input after a complete statement.
use vstd::prelude::*;

use crate::chars::{ascii_ieq, ascii_ieq_text};
use crate::lexer::{spec_tokenize, Lexer};
use crate::query::Identifier;

verus! {

/// A lexical token.
#[derive(Debug, PartialEq, Eq)]
pub enum Token {
    Keyword(String),
    Identifier(String),
    Literal(String),
    Operator(char),
    Whitespace,
    Comma,
    LeftParenthesis,
    RightParenthesis,
    Eof,
}

/// The mathematical value of a token.
pub ghost enum TokenModel {
    Keyword(Seq<char>),
    Identifier(Seq<char>),
    Literal(Seq<char>),
    Operator(char),
    Whitespace,
    Comma,
    LeftParenthesis,
    RightParenthesis,
    Eof,
}

impl View for Token {
    type V = TokenModel;

    open spec fn view(&self) -> TokenModel {
        match self {
            Token::Keyword(s) => TokenModel::Keyword(s@),
            Token::Identifier(s) => TokenModel::Identifier(s@),
            Token::Literal(s) => TokenModel::Literal(s@),
            Token::Operator(c) => TokenModel::Operator(*c),
            Token::Whitespace => TokenModel::Whitespace,
            Token::Comma => TokenModel::Comma,
            Token::LeftParenthesis => TokenModel::LeftParenthesis,
            Token::RightParenthesis => TokenModel::RightParenthesis,
            Token::Eof => TokenModel::Eof,
        }
    }
}

impl DeepView for Token {
    type V = TokenModel;

    open spec fn deep_view(&self) -> TokenModel {
        self.view()
    }
}

impl Clone for Token {
    fn clone(&self) -> (r: Self)
        ensures
            r == *self,
    {
        match self {
            Token::Keyword(s) => Token::Keyword(s.clone()),
            Token::Identifier(s) => Token::Identifier(s.clone()),
            Token::Literal(s) => Token::Literal(s.clone()),
            Token::Operator(c) => Token::Operator(*c),
            Token::Whitespace => Token::Whitespace,
            Token::Comma => Token::Comma,
            Token::LeftParenthesis => Token::LeftParenthesis,
            Token::RightParenthesis => Token::RightParenthesis,
            Token::Eof => Token::Eof,
        }
    }
}

/// An abstract syntax tree. The grammar produces only the select form; the
/// bare identifier variant is a sub-expression placeholder.
#[derive(Debug)]
pub enum ASTNode {
    SelectStatement { projection: Vec<Identifier>, table: Identifier },
    Identifier(String),
}

/// The mathematical value of a parsed select statement.
pub ghost struct SelectModel {
    pub projection: Seq<Seq<char>>,
    pub table: Seq<char>,
}

/// A parse failure: the offending token and its position in the token
/// stream. Parse failures are recoverable and never abort the process.
#[derive(Debug, PartialEq, Eq)]
pub enum ParseError {
    UnexpectedToken { position: usize, found: Token },
    UnexpectedTrailingInput { position: usize, found: Token },
}

/// The token at a position, with the end marker standing in for any
/// position past the stream.
pub open spec fn tok_at(ts: Seq<TokenModel>, p: int) -> TokenModel {
    if 0 <= p < ts.len() {
        ts[p]
    } else {
        TokenModel::Eof
    }
}

pub open spec fn is_select_text(s: Seq<char>) -> bool {
    ascii_ieq_text(s, "SELECT"@)
}

pub open spec fn is_from_text(s: Seq<char>) -> bool {
    ascii_ieq_text(s, "FROM"@)
}

/// The projection sentinel that stands for all declared columns.
pub open spec fn star_text() -> Seq<char> {
    "*"@
}

/// The first position at or after `p` holding no whitespace token.
pub open spec fn skip_ws(ts: Seq<TokenModel>, p: int) -> int
    decreases ts.len() - p,
{
    if 0 <= p < ts.len() && ts[p] is Whitespace {
        skip_ws(ts, p + 1)
    } else {
        p
    }
}

pub proof fn lemma_skip_ws(ts: Seq<TokenModel>, p: int)
    requires
        0 <= p <= ts.len(),
    ensures
        p <= skip_ws(ts, p) <= ts.len(),
        !(tok_at(ts, skip_ws(ts, p)) is Whitespace),
    decreases ts.len() - p,
{
    if p < ts.len() && ts[p] is Whitespace {
        lemma_skip_ws(ts, p + 1);
    }
}

/// The identifiers after the first projection item: a possibly empty list of
/// comma-separated identifiers, with the position that follows them.
/// An identifier spelling `FROM` ends the list implicitly only where no comma
/// demands another item.
pub open spec fn spec_parse_proj_tail(ts: Seq<TokenModel>, p: int) -> Result<
    (Seq<Seq<char>>, int),
    int,
>
    decreases ts.len() - p,
    via spec_parse_proj_tail_decreases
{
    let q = skip_ws(ts, p);
    match tok_at(ts, q) {
        TokenModel::Comma => {
            let r = skip_ws(ts, q + 1);
            match tok_at(ts, r) {
                TokenModel::Identifier(s) => if is_from_text(s) {
                    Err(r)
                } else {
                    match spec_parse_proj_tail(ts, r + 1) {
                        Ok((rest, end)) => Ok((seq![s] + rest, end)),
                        Err(e) => Err(e),
                    }
                },
                _ => Err(r),
            }
        },
        _ => Ok((Seq::empty(), q)),
    }
}

#[via_fn]
proof fn spec_parse_proj_tail_decreases(ts: Seq<TokenModel>, p: int) {
    if 0 <= p && p <= ts.len() {
        lemma_skip_ws(ts, p);
        let q = skip_ws(ts, p);
        if q + 1 <= ts.len() {
            lemma_skip_ws(ts, q + 1);
        }
    }
}

/// The `FROM` keyword and the table identifier that close a statement, given
/// the projection already read.
pub open spec fn spec_parse_from(ts: Seq<TokenModel>, p: int, projection: Seq<Seq<char>>) -> Result<
    (SelectModel, int),
    int,
> {
    let q = skip_ws(ts, p);
    match tok_at(ts, q) {
        TokenModel::Identifier(s) => if is_from_text(s) {
            let r = skip_ws(ts, q + 1);
            match tok_at(ts, r) {
                TokenModel::Identifier(t) => Ok((SelectModel { projection, table: t }, r + 1)),
                _ => Err(r),
            }
        } else {
            Err(q)
        },
        _ => Err(q),
    }
}

/// One select statement read from position `start`: the statement's value
/// and the position just past it, or the position of the offending token.
pub open spec fn spec_parse_stmt(ts: Seq<TokenModel>, start: int) -> Result<
    (SelectModel, int),
    int,
> {
    let p0 = skip_ws(ts, start);
    match tok_at(ts, p0) {
        TokenModel::Keyword(kw) => if !is_select_text(kw) {
            Err(p0)
        } else {
            let p1 = skip_ws(ts, p0 + 1);
            match tok_at(ts, p1) {
                TokenModel::Operator(c) => if c == '*' {
                    spec_parse_from(ts, p1 + 1, seq![star_text()])
                } else {
                    Err(p1)
                },
                TokenModel::Identifier(s) => if is_from_text(s) {
                    Err(p1)
                } else {
                    match spec_parse_proj_tail(ts, p1 + 1) {
                        Ok((rest, after)) => spec_parse_from(ts, after, seq![s] + rest),
                        Err(e) => Err(e),
                    }
                },
                _ => Err(p1),
            }
        },
        _ => Err(p0),
    }
}

/// The whole pipeline on raw text: tokenize, parse one statement, and demand
/// that nothing but whitespace and the end marker follows. An error is the
/// offending token's position, marked `true` when it is trailing input after
/// a complete statement.
pub open spec fn spec_parse_text(s: Seq<char>) -> Result<SelectModel, (bool, int)> {
    let ts = spec_tokenize(s);
    match spec_parse_stmt(ts, 0) {
        Err(p) => Err((false, p)),
        Ok((m, end)) => {
            let q = skip_ws(ts, end);
            if tok_at(ts, q) is Eof {
                Ok(m)
            } else {
                Err((true, q))
            }
        },
    }
}

/// The syntax tree is the select statement the model describes.
pub open spec fn ast_is_select(ast: ASTNode, m: SelectModel) -> bool {
    &&& ast matches ASTNode::SelectStatement { projection, table }
    &&& projection.deep_view() == m.projection
    &&& table@ == m.table
}

/// A recursive-descent parser over a token stream.
pub struct Parser {
    tokens: Vec<Token>,
    current: usize,
}

impl Parser {
    pub closed spec fn toks(&self) -> Seq<TokenModel> {
        self.tokens.deep_view()
    }

    pub closed spec fn pos(&self) -> int {
        self.current as int
    }

    pub open spec fn wf(&self) -> bool {
        0 <= self.pos() <= self.toks().len()
    }

    pub fn new(tokens: Vec<Token>) -> (p: Self)
        ensures
            p.toks() == tokens.deep_view(),
            p.pos() == 0,
            p.wf(),
    {
        Parser { tokens, current: 0 }
    }

    /// A copy of the token under the cursor, with the end marker past the
    /// stream.
    fn current_token(&self) -> (t: Token)
        ensures
            t@ == tok_at(self.toks(), self.pos()),
    {
        if self.current < self.tokens.len() {
            self.tokens[self.current].clone()
        } else {
            Token::Eof
        }
    }

    fn advance(&mut self)
        requires
            old(self).pos() < old(self).toks().len(),
    ensures
            final(self).toks() == old(self).toks(),
            final(self).pos() == old(self).pos() + 1,
            final(self).wf(),
    {
        if self.current < self.tokens.len() {
            self.current = self.current + 1;
        }
    }

    fn skip_whitespace(&mut self)
        requires
            old(self).wf(),
        ensures
            final(self).toks() == old(self).toks(),
            final(self).pos() == skip_ws(old(self).toks(), old(self).pos()),
            final(self).wf(),
            old(self).pos() <= final(self).pos(),
            !(tok_at(final(self).toks(), final(self).pos()) is Whitespace),
    {
        loop
            invariant
                self.wf(),
                self.toks() == old(self).toks(),
                old(self).pos() <= self.pos(),
                skip_ws(self.toks(), self.pos()) == skip_ws(old(self).toks(), old(self).pos()),
            ensures
                self.wf(),
                self.toks() == old(self).toks(),
                old(self).pos() <= self.pos(),
                self.pos() == skip_ws(old(self).toks(), old(self).pos()),
                !(tok_at(self.toks(), self.pos()) is Whitespace),
            decreases self.toks().len() - self.pos(),
        {
            if self.current >= self.tokens.len() {
                break;
            }
            let is_ws = matches!(&self.tokens[self.current], Token::Whitespace);
            proof {
                assert(self.toks()[self.pos()] == self.tokens@[self.current as int].deep_view());
            }
            if !is_ws {
                break;
            }
            self.current = self.current + 1;
        }
    }

    /// Parses one select statement from the cursor on. On success the cursor
    /// stands just past the table identifier; trailing input is the caller's
    /// concern (`parse` rejects it).
    pub fn parse_select_statement(&mut self) -> (r: Result<ASTNode, ParseError>)
        requires
            old(self).wf(),
        ensures
            final(self).toks() == old(self).toks(),
            final(self).wf(),
            ({
                let ts = old(self).toks();
                match spec_parse_stmt(ts, old(self).pos()) {
                    Ok((m, end)) => r matches Ok(ast) && ast_is_select(ast, m) && final(self).pos()
                        == end,
                    Err(p) => r matches Err(e) && (e matches ParseError::UnexpectedToken {
                        position,
                        found,
                    } && position as int == p && found@ == tok_at(ts, p)),
                }
            }),
    {
        let ghost ts = self.toks();
        self.skip_whitespace();
        let t = self.current_token();
        let select_ok = match &t {
            Token::Keyword(kw) => ascii_ieq(kw.as_str(), "SELECT"),
            _ => false,
        };
        if !select_ok {
            return Err(ParseError::UnexpectedToken { position: self.current, found: t });
        }
        self.advance();
        self.skip_whitespace();
        let t1 = self.current_token();
        let mut projection: Vec<Identifier> = Vec::new();
        match t1 {
            Token::Operator(c) if c == '*' => {
                projection.push(Identifier(String::from_str("*")));
                self.advance();
                proof {
                    assert(projection.deep_view() =~= seq![star_text()]);
                }
            },
            Token::Identifier(s) => {
                if ascii_ieq(s.as_str(), "FROM") {
                    return Err(
                        ParseError::UnexpectedToken {
                            position: self.current,
                            found: Token::Identifier(s),
                        },
                    );
                }
                let ghost first = s@;
                projection.push(Identifier(s));
                self.advance();
                let ghost tail_start = self.pos();
                loop
                    invariant
                        self.wf(),
                        self.toks() == ts,
                        ts == old(self).toks(),
                        projection.deep_view().len() >= 1,
                        projection.deep_view()[0] == first,
                        spec_parse_stmt(ts, old(self).pos()) == (match spec_parse_proj_tail(
                            ts,
                            tail_start,
                        ) {
                            Ok((rest, after)) => spec_parse_from(ts, after, seq![first] + rest),
                            Err(e) => Err::<(SelectModel, int), int>(e),
                        }),
                        spec_parse_proj_tail(ts, tail_start) == (match spec_parse_proj_tail(
                            ts,
                            self.pos(),
                        ) {
                            Ok((rest, end)) => Ok::<(Seq<Seq<char>>, int), int>(
                                (projection.deep_view().skip(1) + rest, end),
                            ),
                            Err(e) => Err(e),
                        }),
                    ensures
                        self.wf(),
                        self.toks() == ts,
                        projection.deep_view().len() >= 1,
                        projection.deep_view()[0] == first,
                        spec_parse_proj_tail(ts, tail_start) == Ok::<(Seq<Seq<char>>, int), int>(
                            (projection.deep_view().skip(1), self.pos()),
                        ),
                    decreases ts.len() - self.pos(),
                {
                    let ghost iter_start = self.pos();
                    self.skip_whitespace();
                    let ghost q = self.pos();
                    proof {
                        assert(skip_ws(ts, q) == q);
                    }
                    let tc = self.current_token();
                    if !matches!(tc, Token::Comma) {
                        proof {
                            assert(spec_parse_proj_tail(ts, q) == Ok::<(Seq<Seq<char>>, int), int>(
                                (Seq::empty(), q),
                            ));
                            assert(projection.deep_view().skip(1) + Seq::<Seq<char>>::empty()
                                =~= projection.deep_view().skip(1));
                        }
                        break;
                    }
                    self.advance();
                    self.skip_whitespace();
                    let ghost r = self.pos();
                    let t2 = self.current_token();
                    proof {
                        assert(spec_parse_proj_tail(ts, iter_start) == (match tok_at(ts, r) {
                            TokenModel::Identifier(s) => if is_from_text(s) {
                                Err::<(Seq<Seq<char>>, int), int>(r)
                            } else {
                                match spec_parse_proj_tail(ts, r + 1) {
                                    Ok((rest, end)) => Ok((seq![s] + rest, end)),
                                    Err(e) => Err(e),
                                }
                            },
                            _ => Err(r),
                        }));
                    }
                    match t2 {
                        Token::Identifier(s2) => {
                            if ascii_ieq(s2.as_str(), "FROM") {
                                return Err(
                                    ParseError::UnexpectedToken {
                                        position: self.current,
                                        found: Token::Identifier(s2),
                                    },
                                );
                            }
                            let ghost before = projection.deep_view();
                            let ghost s2v = s2@;
                            projection.push(Identifier(s2));
                            self.advance();
                            proof {
                                assert(projection.deep_view() =~= before.push(s2v));
                                assert(projection.deep_view().skip(1) =~= before.skip(1).push(
                                    s2v,
                                ));
                                if spec_parse_proj_tail(ts, self.pos()) is Ok {
                                    let rest = spec_parse_proj_tail(ts, self.pos())->Ok_0.0;
                                    assert(before.skip(1) + (seq![s2v] + rest)
                                        =~= projection.deep_view().skip(1) + rest);
                                }
                            }
                        },
                        _ => {
                            return Err(
                                ParseError::UnexpectedToken {
                                    position: self.current,
                                    found: t2,
                                },
                            );
                        },
                    }
                }
                proof {
                    assert(projection.deep_view() =~= seq![first] + projection.deep_view().skip(
                        1,
                    ));
                }
            },
            _ => {
                return Err(ParseError::UnexpectedToken { position: self.current, found: t1 });
            },
        }
        self.parse_from_and_table(projection)
    }

    /// Reads the closing `FROM table` of a statement, given the projection
    /// already read.
    fn parse_from_and_table(&mut self, projection: Vec<Identifier>) -> (r: Result<
        ASTNode,
        ParseError,
    >)
        requires
            old(self).wf(),
        ensures
            final(self).toks() == old(self).toks(),
            final(self).wf(),
            ({
                let ts = old(self).toks();
                match spec_parse_from(ts, old(self).pos(), projection.deep_view()) {
                    Ok((m, end)) => r matches Ok(ast) && ast_is_select(ast, m) && final(self).pos()
                        == end,
                    Err(p) => r matches Err(e) && (e matches ParseError::UnexpectedToken {
                        position,
                        found,
                    } && position as int == p && found@ == tok_at(ts, p)),
                }
            }),
    {
        self.skip_whitespace();
        let t = self.current_token();
        let from_ok = match &t {
            Token::Identifier(s) => ascii_ieq(s.as_str(), "FROM"),
            _ => false,
        };
        if !from_ok {
            return Err(ParseError::UnexpectedToken { position: self.current, found: t });
        }
        self.advance();
        self.skip_whitespace();
        let t2 = self.current_token();
        match t2 {
            Token::Identifier(name) => {
                self.advance();
                Ok(ASTNode::SelectStatement { projection, table: Identifier(name) })
            },
            _ => Err(ParseError::UnexpectedToken { position: self.current, found: t2 }),
        }
    }

    /// Same contract as `parse_select_statement`.
    pub fn parse_v2(&mut self) -> (r: Result<ASTNode, ParseError>)
        requires
            old(self).wf(),
        ensures
            final(self).toks() == old(self).toks(),
            final(self).wf(),
            ({
                let ts = old(self).toks();
                match spec_parse_stmt(ts, old(self).pos()) {
                    Ok((m, end)) => r matches Ok(ast) && ast_is_select(ast, m) && final(self).pos()
                        == end,
                    Err(p) => r matches Err(e) && (e matches ParseError::UnexpectedToken {
                        position,
                        found,
                    } && position as int == p && found@ == tok_at(ts, p)),
                }
            }),
    {
        self.parse_select_statement()
    }

    /// The canonical entry point: tokenizes the text and parses exactly one
    /// select statement, rejecting trailing input.
    pub fn parse(input: &str) -> (r: Result<ASTNode, ParseError>)
        ensures
            ({
                let ts = spec_tokenize(input@);
                match spec_parse_text(input@) {
                    Ok(m) => r matches Ok(ast) && ast_is_select(ast, m),
                    Err((trailing, p)) => r matches Err(e) && (if trailing {
                        e matches ParseError::UnexpectedTrailingInput { position, found }
                            && position as int == p && found@ == tok_at(ts, p)
                    } else {
                        e matches ParseError::UnexpectedToken { position, found } && position as int
                            == p && found@ == tok_at(ts, p)
                    }),
                }
            }),
    {
        let mut lexer = Lexer::new(input);
        let tokens = lexer.lex();
        let mut parser = Parser::new(tokens);
        match parser.parse_select_statement() {
            Err(e) => Err(e),
            Ok(ast) => {
                parser.skip_whitespace();
                let t = parser.current_token();
                if matches!(t, Token::Eof) {
                    Ok(ast)
                } else {
                    Err(
                        ParseError::UnexpectedTrailingInput {
                            position: parser.current,
                            found: t,
                        },
                    )
                }
            },
        }
    }
}

} // verus!
