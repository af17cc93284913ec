//! The recursive-descent parser: from a token sequence to one expression tree,
//! with explicit precedence layering and left-associative folding.
//!
//! The whole parse is specified by the mutually recursive `spec_*` functions,
//! pure functions of the token sequence; each parser method is proved to
//! return exactly what its specification function says, result and new cursor
//! position alike.

use vstd::prelude::*;

use crate::expr::Binary;
use crate::expr::Expression;
use crate::expr::Grouping;
use crate::expr::Literal;
use crate::expr::Unary;
use crate::token::Token;
use crate::token::TokenType;

verus! {

/// What the parser was looking for when it failed.
#[derive(Clone, Copy, PartialEq, Eq, Structural, Debug)]
pub enum Expected {
    Expression,
    RightParen,
}

/// A fatal parse failure: the expected construct, the offending token (`None`
/// when the token sequence ran out), and the source line of the failure.
#[derive(Clone, PartialEq, Debug)]
pub struct ParseError {
    pub expected: Expected,
    pub found: Option<Token>,
    pub line: usize,
}

/// The offending token at position `p`, if any.
pub open spec fn err_found(t: Seq<Token>, p: int) -> Option<Token> {
    if 0 <= p < t.len() {
        Some(t[p])
    } else {
        None
    }
}

/// The line reported for a failure at position `p`: the offending token's
/// line, or the last token's line when the sequence ran out.
pub open spec fn err_line(t: Seq<Token>, p: int) -> usize {
    if 0 <= p < t.len() {
        t[p].line
    } else if t.len() > 0 {
        t[t.len() - 1].line
    } else {
        1
    }
}

/// The failure record for position `p`.
pub open spec fn parse_error(t: Seq<Token>, p: int, expected: Expected) -> ParseError {
    ParseError { expected, found: err_found(t, p), line: err_line(t, p) }
}

pub open spec fn is_equality_op(tt: TokenType) -> bool {
    tt == TokenType::EqualEqual || tt == TokenType::BangEqual
}

pub open spec fn is_comparison_op(tt: TokenType) -> bool {
    tt == TokenType::Greater || tt == TokenType::GreaterEqual || tt == TokenType::Less || tt
        == TokenType::LessEqual
}

pub open spec fn is_term_op(tt: TokenType) -> bool {
    tt == TokenType::Minus || tt == TokenType::Plus
}

pub open spec fn is_factor_op(tt: TokenType) -> bool {
    tt == TokenType::Slash || tt == TokenType::Star
}

// ---------------------------------------------------------------------------
// The grammar, as functions of the token sequence
// ---------------------------------------------------------------------------
// Each function returns the parsed expression and the position just past it,
// or the failure record together with the position of the offending token:
// parsing stops there, and nothing past it is consumed. A successful parse
// always consumes at least one token, so positions grow strictly; the guards
// `p < p2 <= t.len()` restate that growth where a result is folded into a
// left operand, and are never false on any reachable path.

pub open spec fn spec_expression(t: Seq<Token>, p: int) -> Result<(Expression, int), (ParseError, int)>
    decreases t.len() - p, 6int, 0int,
{
    spec_equality(t, p)
}

pub open spec fn spec_equality(t: Seq<Token>, p: int) -> Result<(Expression, int), (ParseError, int)>
    decreases t.len() - p, 5int, 0int,
{
    match spec_comparison(t, p) {
        Err(e) => Err(e),
        Ok((first, p2)) => if p < p2 <= t.len() {
            spec_equality_rest(t, p2, first)
        } else {
            Err((parse_error(t, p, Expected::Expression), p))
        },
    }
}

pub open spec fn spec_equality_rest(t: Seq<Token>, p: int, left: Expression) -> Result<
    (Expression, int),
    (ParseError, int),
>
    decreases t.len() - p, 5int, 1int,
{
    if p < t.len() && is_equality_op(t[p].token_type) {
        match spec_comparison(t, p + 1) {
            Err(e) => Err(e),
            Ok((right, p2)) => if p + 1 < p2 <= t.len() {
                spec_equality_rest(
                    t,
                    p2,
                    Expression::Binary(
                        Binary { left: Box::new(left), op: t[p], right: Box::new(right) },
                    ),
                )
            } else {
                Err((parse_error(t, p + 1, Expected::Expression), p + 1))
            },
        }
    } else {
        Ok((left, p))
    }
}

pub open spec fn spec_comparison(t: Seq<Token>, p: int) -> Result<(Expression, int), (ParseError, int)>
    decreases t.len() - p, 4int, 0int,
{
    match spec_term(t, p) {
        Err(e) => Err(e),
        Ok((first, p2)) => if p < p2 <= t.len() {
            spec_comparison_rest(t, p2, first)
        } else {
            Err((parse_error(t, p, Expected::Expression), p))
        },
    }
}

pub open spec fn spec_comparison_rest(t: Seq<Token>, p: int, left: Expression) -> Result<
    (Expression, int),
    (ParseError, int),
>
    decreases t.len() - p, 4int, 1int,
{
    if p < t.len() && is_comparison_op(t[p].token_type) {
        match spec_term(t, p + 1) {
            Err(e) => Err(e),
            Ok((right, p2)) => if p + 1 < p2 <= t.len() {
                spec_comparison_rest(
                    t,
                    p2,
                    Expression::Binary(
                        Binary { left: Box::new(left), op: t[p], right: Box::new(right) },
                    ),
                )
            } else {
                Err((parse_error(t, p + 1, Expected::Expression), p + 1))
            },
        }
    } else {
        Ok((left, p))
    }
}

pub open spec fn spec_term(t: Seq<Token>, p: int) -> Result<(Expression, int), (ParseError, int)>
    decreases t.len() - p, 3int, 0int,
{
    match spec_factor(t, p) {
        Err(e) => Err(e),
        Ok((first, p2)) => if p < p2 <= t.len() {
            spec_term_rest(t, p2, first)
        } else {
            Err((parse_error(t, p, Expected::Expression), p))
        },
    }
}

pub open spec fn spec_term_rest(t: Seq<Token>, p: int, left: Expression) -> Result<
    (Expression, int),
    (ParseError, int),
>
    decreases t.len() - p, 3int, 1int,
{
    if p < t.len() && is_term_op(t[p].token_type) {
        match spec_factor(t, p + 1) {
            Err(e) => Err(e),
            Ok((right, p2)) => if p + 1 < p2 <= t.len() {
                spec_term_rest(
                    t,
                    p2,
                    Expression::Binary(
                        Binary { left: Box::new(left), op: t[p], right: Box::new(right) },
                    ),
                )
            } else {
                Err((parse_error(t, p + 1, Expected::Expression), p + 1))
            },
        }
    } else {
        Ok((left, p))
    }
}

pub open spec fn spec_factor(t: Seq<Token>, p: int) -> Result<(Expression, int), (ParseError, int)>
    decreases t.len() - p, 2int, 0int,
{
    match spec_unary(t, p) {
        Err(e) => Err(e),
        Ok((first, p2)) => if p < p2 <= t.len() {
            spec_factor_rest(t, p2, first)
        } else {
            Err((parse_error(t, p, Expected::Expression), p))
        },
    }
}

pub open spec fn spec_factor_rest(t: Seq<Token>, p: int, left: Expression) -> Result<
    (Expression, int),
    (ParseError, int),
>
    decreases t.len() - p, 2int, 1int,
{
    if p < t.len() && is_factor_op(t[p].token_type) {
        match spec_unary(t, p + 1) {
            Err(e) => Err(e),
            Ok((right, p2)) => if p + 1 < p2 <= t.len() {
                spec_factor_rest(
                    t,
                    p2,
                    Expression::Binary(
                        Binary { left: Box::new(left), op: t[p], right: Box::new(right) },
                    ),
                )
            } else {
                Err((parse_error(t, p + 1, Expected::Expression), p + 1))
            },
        }
    } else {
        Ok((left, p))
    }
}

pub open spec fn spec_unary(t: Seq<Token>, p: int) -> Result<(Expression, int), (ParseError, int)>
    decreases t.len() - p, 1int, 0int,
{
    if p < t.len() && t[p].token_type == TokenType::Minus {
        match spec_unary(t, p + 1) {
            Err(e) => Err(e),
            Ok((right, p2)) => Ok(
                (Expression::Unary(Unary { op: t[p], right: Box::new(right) }), p2),
            ),
        }
    } else {
        spec_primary(t, p)
    }
}

pub open spec fn spec_primary(t: Seq<Token>, p: int) -> Result<(Expression, int), (ParseError, int)>
    decreases t.len() - p, 0int, 0int,
{
    if p < t.len() && t[p].token_type == TokenType::LeftParen {
        match spec_expression(t, p + 1) {
            Err(e) => Err(e),
            Ok((inner, p2)) => if p2 < t.len() && t[p2].token_type == TokenType::RightParen {
                Ok((Expression::Grouping(Grouping { expr: Box::new(inner) }), p2 + 1))
            } else {
                Err((parse_error(t, p2, Expected::RightParen), p2))
            },
        }
    } else if p < t.len() && (t[p].token_type == TokenType::Number || t[p].token_type
        == TokenType::Str) {
        match t[p].value {
            Some(v) => Ok((Expression::Literal(Literal { value: v }), p + 1)),
            None => Err((parse_error(t, p, Expected::Expression), p)),
        }
    } else {
        Err((parse_error(t, p, Expected::Expression), p))
    }
}


// ---------------------------------------------------------------------------
// The parser
// ---------------------------------------------------------------------------

/// Read-only positional access into a token sequence, folding expressions
/// bottom-up.
pub struct Parser {
    tokens: Vec<Token>,
    current: usize,
}

impl Parser {
    /// The token sequence being parsed.
    pub closed spec fn toks(&self) -> Seq<Token> {
        self.tokens@
    }

    /// The cursor position.
    pub closed spec fn pos(&self) -> int {
        self.current as int
    }

    pub closed spec fn wf(&self) -> bool {
        self.current <= self.tokens@.len()
    }

    pub fn new(tokens: Vec<Token>) -> (p: Parser)
        ensures
            p.toks() == tokens@,
            p.pos() == 0,
            p.wf(),
    {
        Parser { tokens, current: 0 }
    }

    fn peek_type(&self) -> (r: Option<TokenType>)
        requires
            self.wf(),
        ensures
            r == (if self.pos() < self.toks().len() {
                Some(self.toks()[self.pos()].token_type)
            } else {
                None::<TokenType>
            }),
    {
        if self.current < self.tokens.len() {
            Some(self.tokens[self.current].token_type)
        } else {
            None
        }
    }

    fn match_token(&self, type1: TokenType, type2: TokenType) -> (r: bool)
        requires
            self.wf(),
        ensures
            r == (self.pos() < self.toks().len() && (self.toks()[self.pos()].token_type == type1
                || self.toks()[self.pos()].token_type == type2)),
    {
        match self.peek_type() {
            Some(tt) => tt == type1 || tt == type2,
            None => false,
        }
    }

    fn next(&mut self) -> (r: Token)
        requires
            old(self).wf(),
            old(self).pos() < old(self).toks().len(),
        ensures
            final(self).wf(),
            final(self).toks() == old(self).toks(),
            final(self).pos() == old(self).pos() + 1,
            r == old(self).toks()[old(self).pos()],
    {
        let _len = self.tokens.len();
        let t = self.tokens[self.current].clone();
        self.current = self.current + 1;
        t
    }

    /// The failure record for the current position.
    fn error_here(&self, expected: Expected) -> (r: ParseError)
        requires
            self.wf(),
        ensures
            r == parse_error(self.toks(), self.pos(), expected),
    {
        if self.current < self.tokens.len() {
            let tok = self.tokens[self.current].clone();
            let line = tok.line;
            ParseError { expected, found: Some(tok), line }
        } else if self.tokens.len() > 0 {
            let line = self.tokens[self.tokens.len() - 1].line;
            ParseError { expected, found: None, line }
        } else {
            ParseError { expected, found: None, line: 1 }
        }
    }

    /// Parses one expression: the loosest-binding level of the grammar.
    pub fn expression(&mut self) -> (r: Result<Expression, ParseError>)
        requires
            old(self).wf(),
        ensures
            final(self).wf(),
            final(self).toks() == old(self).toks(),
            old(self).pos() <= final(self).pos(),
            (match spec_expression(old(self).toks(), old(self).pos()) {
                Ok(ep) => r == Ok::<Expression, ParseError>(ep.0) && final(self).pos() == ep.1
                    && old(self).pos() < ep.1 <= old(self).toks().len(),
                Err(ep) => r == Err::<Expression, ParseError>(ep.0) && final(self).pos() == ep.1
                    && old(self).pos() <= ep.1 <= old(self).toks().len() && ep.0 == parse_error(
                    old(self).toks(),
                    ep.1,
                    ep.0.expected,
                ),
            }),
        decreases old(self).toks().len() - old(self).pos(), 6int, 0int,
    {
        self.equality()
    }

    fn equality(&mut self) -> (r: Result<Expression, ParseError>)
        requires
            old(self).wf(),
        ensures
            final(self).wf(),
            final(self).toks() == old(self).toks(),
            old(self).pos() <= final(self).pos(),
            (match spec_equality(old(self).toks(), old(self).pos()) {
                Ok(ep) => r == Ok::<Expression, ParseError>(ep.0) && final(self).pos() == ep.1
                    && old(self).pos() < ep.1 <= old(self).toks().len(),
                Err(ep) => r == Err::<Expression, ParseError>(ep.0) && final(self).pos() == ep.1
                    && old(self).pos() <= ep.1 <= old(self).toks().len() && ep.0 == parse_error(
                    old(self).toks(),
                    ep.1,
                    ep.0.expected,
                ),
            }),
        decreases old(self).toks().len() - old(self).pos(), 5int, 0int,
    {
        let ghost t = old(self).toks();
        let ghost p0 = old(self).pos();
        let mut expr = match self.comparison() {
            Ok(e) => e,
            Err(e) => {
                return Err(e);
            },
        };
        while self.match_token(TokenType::EqualEqual, TokenType::BangEqual)
            invariant
                self.wf(),
                t == old(self).toks(),
                p0 == old(self).pos(),
                self.toks() == t,
                p0 < self.pos() <= t.len(),
                spec_equality(t, p0) == spec_equality_rest(t, self.pos(), expr),
            decreases t.len() - self.pos(),
        {
            let op = self.next();
            let right = match self.comparison() {
                Ok(e) => e,
                Err(e) => {
                    return Err(e);
                },
            };
            expr = Expression::Binary(Binary::new(Box::new(expr), op, Box::new(right)));
        }
        Ok(expr)
    }

    fn comparison(&mut self) -> (r: Result<Expression, ParseError>)
        requires
            old(self).wf(),
        ensures
            final(self).wf(),
            final(self).toks() == old(self).toks(),
            old(self).pos() <= final(self).pos(),
            (match spec_comparison(old(self).toks(), old(self).pos()) {
                Ok(ep) => r == Ok::<Expression, ParseError>(ep.0) && final(self).pos() == ep.1
                    && old(self).pos() < ep.1 <= old(self).toks().len(),
                Err(ep) => r == Err::<Expression, ParseError>(ep.0) && final(self).pos() == ep.1
                    && old(self).pos() <= ep.1 <= old(self).toks().len() && ep.0 == parse_error(
                    old(self).toks(),
                    ep.1,
                    ep.0.expected,
                ),
            }),
        decreases old(self).toks().len() - old(self).pos(), 4int, 0int,
    {
        let ghost t = old(self).toks();
        let ghost p0 = old(self).pos();
        let mut expr = match self.term() {
            Ok(e) => e,
            Err(e) => {
                return Err(e);
            },
        };
        while self.match_token(TokenType::Greater, TokenType::GreaterEqual) || self.match_token(
            TokenType::Less,
            TokenType::LessEqual,
        )
            invariant
                self.wf(),
                t == old(self).toks(),
                p0 == old(self).pos(),
                self.toks() == t,
                p0 < self.pos() <= t.len(),
                spec_comparison(t, p0) == spec_comparison_rest(t, self.pos(), expr),
            decreases t.len() - self.pos(),
        {
            let op = self.next();
            let right = match self.term() {
                Ok(e) => e,
                Err(e) => {
                    return Err(e);
                },
            };
            expr = Expression::Binary(Binary::new(Box::new(expr), op, Box::new(right)));
        }
        Ok(expr)
    }

    fn term(&mut self) -> (r: Result<Expression, ParseError>)
        requires
            old(self).wf(),
        ensures
            final(self).wf(),
            final(self).toks() == old(self).toks(),
            old(self).pos() <= final(self).pos(),
            (match spec_term(old(self).toks(), old(self).pos()) {
                Ok(ep) => r == Ok::<Expression, ParseError>(ep.0) && final(self).pos() == ep.1
                    && old(self).pos() < ep.1 <= old(self).toks().len(),
                Err(ep) => r == Err::<Expression, ParseError>(ep.0) && final(self).pos() == ep.1
                    && old(self).pos() <= ep.1 <= old(self).toks().len() && ep.0 == parse_error(
                    old(self).toks(),
                    ep.1,
                    ep.0.expected,
                ),
            }),
        decreases old(self).toks().len() - old(self).pos(), 3int, 0int,
    {
        let ghost t = old(self).toks();
        let ghost p0 = old(self).pos();
        let mut expr = match self.factor() {
            Ok(e) => e,
            Err(e) => {
                return Err(e);
            },
        };
        while self.match_token(TokenType::Minus, TokenType::Plus)
            invariant
                self.wf(),
                t == old(self).toks(),
                p0 == old(self).pos(),
                self.toks() == t,
                p0 < self.pos() <= t.len(),
                spec_term(t, p0) == spec_term_rest(t, self.pos(), expr),
            decreases t.len() - self.pos(),
        {
            let op = self.next();
            let right = match self.factor() {
                Ok(e) => e,
                Err(e) => {
                    return Err(e);
                },
            };
            expr = Expression::Binary(Binary::new(Box::new(expr), op, Box::new(right)));
        }
        Ok(expr)
    }

    fn factor(&mut self) -> (r: Result<Expression, ParseError>)
        requires
            old(self).wf(),
        ensures
            final(self).wf(),
            final(self).toks() == old(self).toks(),
            old(self).pos() <= final(self).pos(),
            (match spec_factor(old(self).toks(), old(self).pos()) {
                Ok(ep) => r == Ok::<Expression, ParseError>(ep.0) && final(self).pos() == ep.1
                    && old(self).pos() < ep.1 <= old(self).toks().len(),
                Err(ep) => r == Err::<Expression, ParseError>(ep.0) && final(self).pos() == ep.1
                    && old(self).pos() <= ep.1 <= old(self).toks().len() && ep.0 == parse_error(
                    old(self).toks(),
                    ep.1,
                    ep.0.expected,
                ),
            }),
        decreases old(self).toks().len() - old(self).pos(), 2int, 0int,
    {
        let ghost t = old(self).toks();
        let ghost p0 = old(self).pos();
        let mut expr = match self.unary() {
            Ok(e) => e,
            Err(e) => {
                return Err(e);
            },
        };
        while self.match_token(TokenType::Slash, TokenType::Star)
            invariant
                self.wf(),
                t == old(self).toks(),
                p0 == old(self).pos(),
                self.toks() == t,
                p0 < self.pos() <= t.len(),
                spec_factor(t, p0) == spec_factor_rest(t, self.pos(), expr),
            decreases t.len() - self.pos(),
        {
            let op = self.next();
            let right = match self.unary() {
                Ok(e) => e,
                Err(e) => {
                    return Err(e);
                },
            };
            expr = Expression::Binary(Binary::new(Box::new(expr), op, Box::new(right)));
        }
        Ok(expr)
    }

    fn unary(&mut self) -> (r: Result<Expression, ParseError>)
        requires
            old(self).wf(),
        ensures
            final(self).wf(),
            final(self).toks() == old(self).toks(),
            old(self).pos() <= final(self).pos(),
            (match spec_unary(old(self).toks(), old(self).pos()) {
                Ok(ep) => r == Ok::<Expression, ParseError>(ep.0) && final(self).pos() == ep.1
                    && old(self).pos() < ep.1 <= old(self).toks().len(),
                Err(ep) => r == Err::<Expression, ParseError>(ep.0) && final(self).pos() == ep.1
                    && old(self).pos() <= ep.1 <= old(self).toks().len() && ep.0 == parse_error(
                    old(self).toks(),
                    ep.1,
                    ep.0.expected,
                ),
            }),
        decreases old(self).toks().len() - old(self).pos(), 1int, 0int,
    {
        if self.match_token(TokenType::Minus, TokenType::Minus) {
            let op = self.next();
            match self.unary() {
                Ok(right) => Ok(Expression::Unary(Unary::new(op, Box::new(right)))),
                Err(e) => Err(e),
            }
        } else {
            self.primary()
        }
    }

    fn primary(&mut self) -> (r: Result<Expression, ParseError>)
        requires
            old(self).wf(),
        ensures
            final(self).wf(),
            final(self).toks() == old(self).toks(),
            old(self).pos() <= final(self).pos(),
            (match spec_primary(old(self).toks(), old(self).pos()) {
                Ok(ep) => r == Ok::<Expression, ParseError>(ep.0) && final(self).pos() == ep.1
                    && old(self).pos() < ep.1 <= old(self).toks().len(),
                Err(ep) => r == Err::<Expression, ParseError>(ep.0) && final(self).pos() == ep.1
                    && old(self).pos() <= ep.1 <= old(self).toks().len() && ep.0 == parse_error(
                    old(self).toks(),
                    ep.1,
                    ep.0.expected,
                ),
            }),
        decreases old(self).toks().len() - old(self).pos(), 0int, 0int,
    {
        if self.match_token(TokenType::LeftParen, TokenType::LeftParen) {
            let _ = self.next();
            let inner = match self.expression() {
                Ok(e) => e,
                Err(e) => {
                    return Err(e);
                },
            };
            if self.match_token(TokenType::RightParen, TokenType::RightParen) {
                let _ = self.next();
                Ok(Expression::Grouping(Grouping { expr: Box::new(inner) }))
            } else {
                Err(self.error_here(Expected::RightParen))
            }
        } else if self.match_token(TokenType::Number, TokenType::Str) {
            let tok = self.tokens[self.current].clone();
            match tok.value {
                Some(v) => {
                    let _len = self.tokens.len();
                    self.current = self.current + 1;
                    Ok(Expression::Literal(Literal::new(v)))
                },
                None => {
                    let line = tok.line;
                    Err(
                        ParseError {
                            expected: Expected::Expression,
                            found: Some(
                                Token {
                                    token_type: tok.token_type,
                                    lexeme: tok.lexeme,
                                    line: tok.line,
                                    value: None,
                                },
                            ),
                            line,
                        },
                    )
                },
            }
        } else {
            Err(self.error_here(Expected::Expression))
        }
    }
}


// ---------------------------------------------------------------------------
// Laws of the grammar
// ---------------------------------------------------------------------------

/// A literal token parses to its literal node, one token consumed.
proof fn lemma_literal_level(t: Seq<Token>, p: int)
    requires
        0 <= p < t.len(),
        t[p].token_type == TokenType::Number,
        t[p].value is Some,
    ensures
        spec_primary(t, p) == Ok::<(Expression, int), (ParseError, int)>((
            Expression::Literal(Literal { value: t[p].value->0 }),
            p + 1,
        )),
        spec_unary(t, p) == spec_primary(t, p),
{
}

/// Operator precedence is respected: for any number literals `a`, `b`, `c`,
/// the tokens of `a + b * c` parse with the product as the right operand of
/// the sum, the same tree that `a + (b * c)` describes.
pub proof fn lemma_precedence(t: Seq<Token>, a: Token, plus: Token, b: Token, star: Token, c: Token)
    requires
        t == seq![a, plus, b, star, c],
        a.token_type == TokenType::Number,
        a.value is Some,
        b.token_type == TokenType::Number,
        b.value is Some,
        c.token_type == TokenType::Number,
        c.value is Some,
        plus.token_type == TokenType::Plus,
        star.token_type == TokenType::Star,
    ensures
        spec_expression(t, 0) == Ok::<(Expression, int), (ParseError, int)>((
            Expression::Binary(
                Binary {
                    left: Box::new(Expression::Literal(Literal { value: a.value->0 })),
                    op: plus,
                    right: Box::new(
                        Expression::Binary(
                            Binary {
                                left: Box::new(Expression::Literal(Literal { value: b.value->0 })),
                                op: star,
                                right: Box::new(
                                    Expression::Literal(Literal { value: c.value->0 }),
                                ),
                            },
                        ),
                    ),
                },
            ),
            5,
        )),
{
    let la = Expression::Literal(Literal { value: a.value->0 });
    let lb = Expression::Literal(Literal { value: b.value->0 });
    let lc = Expression::Literal(Literal { value: c.value->0 });
    let prod = Expression::Binary(Binary { left: Box::new(lb), op: star, right: Box::new(lc) });
    let sum = Expression::Binary(Binary { left: Box::new(la), op: plus, right: Box::new(prod) });
    lemma_literal_level(t, 0);
    lemma_literal_level(t, 2);
    lemma_literal_level(t, 4);
    assert(spec_factor(t, 0) == Ok::<(Expression, int), (ParseError, int)>((la, 1)));
    assert(spec_factor(t, 2) == Ok::<(Expression, int), (ParseError, int)>((prod, 5)));
    assert(spec_term_rest(t, 5, sum) == Ok::<(Expression, int), (ParseError, int)>((sum, 5)));
    assert(spec_term(t, 0) == Ok::<(Expression, int), (ParseError, int)>((sum, 5)));
    assert(spec_comparison(t, 0) == Ok::<(Expression, int), (ParseError, int)>((sum, 5)));
    assert(spec_equality(t, 0) == Ok::<(Expression, int), (ParseError, int)>((sum, 5)));
}

/// Binary operators of one level fold to the left: for any number literals,
/// the tokens of `a - b - c` parse as `(a - b) - c`, not `a - (b - c)`.
pub proof fn lemma_left_associative(
    t: Seq<Token>,
    a: Token,
    m1: Token,
    b: Token,
    m2: Token,
    c: Token,
)
    requires
        t == seq![a, m1, b, m2, c],
        a.token_type == TokenType::Number,
        a.value is Some,
        b.token_type == TokenType::Number,
        b.value is Some,
        c.token_type == TokenType::Number,
        c.value is Some,
        m1.token_type == TokenType::Minus,
        m2.token_type == TokenType::Minus,
    ensures
        spec_expression(t, 0) == Ok::<(Expression, int), (ParseError, int)>((
            Expression::Binary(
                Binary {
                    left: Box::new(
                        Expression::Binary(
                            Binary {
                                left: Box::new(Expression::Literal(Literal { value: a.value->0 })),
                                op: m1,
                                right: Box::new(
                                    Expression::Literal(Literal { value: b.value->0 }),
                                ),
                            },
                        ),
                    ),
                    op: m2,
                    right: Box::new(Expression::Literal(Literal { value: c.value->0 })),
                },
            ),
            5,
        )),
{
    let la = Expression::Literal(Literal { value: a.value->0 });
    let lb = Expression::Literal(Literal { value: b.value->0 });
    let lc = Expression::Literal(Literal { value: c.value->0 });
    let left = Expression::Binary(Binary { left: Box::new(la), op: m1, right: Box::new(lb) });
    let whole = Expression::Binary(Binary { left: Box::new(left), op: m2, right: Box::new(lc) });
    lemma_literal_level(t, 0);
    lemma_literal_level(t, 2);
    lemma_literal_level(t, 4);
    assert(spec_factor(t, 0) == Ok::<(Expression, int), (ParseError, int)>((la, 1)));
    assert(spec_factor(t, 2) == Ok::<(Expression, int), (ParseError, int)>((lb, 3)));
    assert(spec_factor(t, 4) == Ok::<(Expression, int), (ParseError, int)>((lc, 5)));
    assert(spec_term_rest(t, 5, whole) == Ok::<(Expression, int), (ParseError, int)>((whole, 5)));
    assert(spec_term_rest(t, 3, left) == Ok::<(Expression, int), (ParseError, int)>((whole, 5)));
    assert(spec_term(t, 0) == Ok::<(Expression, int), (ParseError, int)>((whole, 5)));
    assert(spec_comparison(t, 0) == Ok::<(Expression, int), (ParseError, int)>((whole, 5)));
    assert(spec_equality(t, 0) == Ok::<(Expression, int), (ParseError, int)>((whole, 5)));
}

/// Explicit parentheses survive as a distinct node: for any number literals,
/// the tokens of `(a + b) * c` parse as the product of a grouping node and
/// `c`, with the sum inside the grouping.
/// The sum inside the parentheses of `(a + b) * c`, parsed from position 1.
#[verifier::rlimit(50)]
proof fn lemma_grouping_inner(t: Seq<Token>, lp: Token, a: Token, plus: Token, b: Token, rp: Token, star: Token, c: Token)
    requires
        t == seq![lp, a, plus, b, rp, star, c],
        lp.token_type == TokenType::LeftParen,
        rp.token_type == TokenType::RightParen,
        a.token_type == TokenType::Number,
        a.value is Some,
        b.token_type == TokenType::Number,
        b.value is Some,
        c.token_type == TokenType::Number,
        c.value is Some,
        plus.token_type == TokenType::Plus,
        star.token_type == TokenType::Star,
    ensures
        spec_expression(t, 1) == Ok::<(Expression, int), (ParseError, int)>((
            Expression::Binary(
                Binary {
                    left: Box::new(Expression::Literal(Literal { value: a.value->0 })),
                    op: plus,
                    right: Box::new(Expression::Literal(Literal { value: b.value->0 })),
                },
            ),
            4,
        )),
{
    let la = Expression::Literal(Literal { value: a.value->0 });
    let lb = Expression::Literal(Literal { value: b.value->0 });
    let sum = Expression::Binary(Binary { left: Box::new(la), op: plus, right: Box::new(lb) });
    lemma_literal_level(t, 1);
    lemma_literal_level(t, 3);
    assert(spec_factor(t, 1) == Ok::<(Expression, int), (ParseError, int)>((la, 2)));
    assert(spec_factor(t, 3) == Ok::<(Expression, int), (ParseError, int)>((lb, 4)));
    assert(spec_term_rest(t, 4, sum) == Ok::<(Expression, int), (ParseError, int)>((sum, 4)));
    assert(spec_term(t, 1) == Ok::<(Expression, int), (ParseError, int)>((sum, 4)));
    assert(spec_comparison(t, 1) == Ok::<(Expression, int), (ParseError, int)>((sum, 4)));
    assert(spec_equality(t, 1) == Ok::<(Expression, int), (ParseError, int)>((sum, 4)));
}

/// The whole product `(a + b) * c`, parsed at the factor level.
#[verifier::rlimit(50)]
proof fn lemma_grouping_factor(t: Seq<Token>, lp: Token, a: Token, plus: Token, b: Token, rp: Token, star: Token, c: Token)
    requires
        t == seq![lp, a, plus, b, rp, star, c],
        lp.token_type == TokenType::LeftParen,
        rp.token_type == TokenType::RightParen,
        a.token_type == TokenType::Number,
        a.value is Some,
        b.token_type == TokenType::Number,
        b.value is Some,
        c.token_type == TokenType::Number,
        c.value is Some,
        plus.token_type == TokenType::Plus,
        star.token_type == TokenType::Star,
    ensures
        spec_factor(t, 0) == Ok::<(Expression, int), (ParseError, int)>((
            Expression::Binary(
                Binary {
                    left: Box::new(
                        Expression::Grouping(
                            Grouping {
                                expr: Box::new(
                                    Expression::Binary(
                                        Binary {
                                            left: Box::new(
                                                Expression::Literal(Literal { value: a.value->0 }),
                                            ),
                                            op: plus,
                                            right: Box::new(
                                                Expression::Literal(Literal { value: b.value->0 }),
                                            ),
                                        },
                                    ),
                                ),
                            },
                        ),
                    ),
                    op: star,
                    right: Box::new(Expression::Literal(Literal { value: c.value->0 })),
                },
            ),
            7,
        )),
{
    let la = Expression::Literal(Literal { value: a.value->0 });
    let lb = Expression::Literal(Literal { value: b.value->0 });
    let lc = Expression::Literal(Literal { value: c.value->0 });
    let sum = Expression::Binary(Binary { left: Box::new(la), op: plus, right: Box::new(lb) });
    let grp = Expression::Grouping(Grouping { expr: Box::new(sum) });
    let whole = Expression::Binary(Binary { left: Box::new(grp), op: star, right: Box::new(lc) });
    lemma_grouping_inner(t, lp, a, plus, b, rp, star, c);
    lemma_literal_level(t, 6);
    assert(spec_primary(t, 0) == Ok::<(Expression, int), (ParseError, int)>((grp, 5)));
    assert(spec_unary(t, 0) == Ok::<(Expression, int), (ParseError, int)>((grp, 5)));
    assert(spec_unary(t, 6) == Ok::<(Expression, int), (ParseError, int)>((lc, 7)));
    assert(spec_factor_rest(t, 7, whole) == Ok::<(Expression, int), (ParseError, int)>((whole, 7)));
    assert(spec_factor_rest(t, 5, grp) == Ok::<(Expression, int), (ParseError, int)>((whole, 7)));
    assert(spec_factor(t, 0) == Ok::<(Expression, int), (ParseError, int)>((whole, 7)));
}

#[verifier::rlimit(50)]
pub proof fn lemma_grouping_preserved(
    t: Seq<Token>,
    lp: Token,
    a: Token,
    plus: Token,
    b: Token,
    rp: Token,
    star: Token,
    c: Token,
)
    requires
        t == seq![lp, a, plus, b, rp, star, c],
        lp.token_type == TokenType::LeftParen,
        rp.token_type == TokenType::RightParen,
        a.token_type == TokenType::Number,
        a.value is Some,
        b.token_type == TokenType::Number,
        b.value is Some,
        c.token_type == TokenType::Number,
        c.value is Some,
        plus.token_type == TokenType::Plus,
        star.token_type == TokenType::Star,
    ensures
        spec_expression(t, 0) == Ok::<(Expression, int), (ParseError, int)>((
            Expression::Binary(
                Binary {
                    left: Box::new(
                        Expression::Grouping(
                            Grouping {
                                expr: Box::new(
                                    Expression::Binary(
                                        Binary {
                                            left: Box::new(
                                                Expression::Literal(
                                                    Literal { value: a.value->0 },
                                                ),
                                            ),
                                            op: plus,
                                            right: Box::new(
                                                Expression::Literal(
                                                    Literal { value: b.value->0 },
                                                ),
                                            ),
                                        },
                                    ),
                                ),
                            },
                        ),
                    ),
                    op: star,
                    right: Box::new(Expression::Literal(Literal { value: c.value->0 })),
                },
            ),
            7,
        )),
{
    let la = Expression::Literal(Literal { value: a.value->0 });
    let lb = Expression::Literal(Literal { value: b.value->0 });
    let lc = Expression::Literal(Literal { value: c.value->0 });
    let sum = Expression::Binary(Binary { left: Box::new(la), op: plus, right: Box::new(lb) });
    let grp = Expression::Grouping(Grouping { expr: Box::new(sum) });
    let whole = Expression::Binary(Binary { left: Box::new(grp), op: star, right: Box::new(lc) });
    lemma_grouping_factor(t, lp, a, plus, b, rp, star, c);
    assert(spec_term_rest(t, 7, whole) == Ok::<(Expression, int), (ParseError, int)>((whole, 7)));
    assert(spec_term(t, 0) == Ok::<(Expression, int), (ParseError, int)>((whole, 7)));
    assert(spec_comparison_rest(t, 7, whole) == Ok::<(Expression, int), (ParseError, int)>((whole, 7)));
    assert(spec_comparison(t, 0) == Ok::<(Expression, int), (ParseError, int)>((whole, 7)));
    assert(spec_equality_rest(t, 7, whole) == Ok::<(Expression, int), (ParseError, int)>((whole, 7)));
    assert(spec_equality(t, 0) == Ok::<(Expression, int), (ParseError, int)>((whole, 7)));
}

/// The prefix operator is right-associative by recursion: for any number
/// literal, the tokens of `- - n` parse without error into a double negation.
pub proof fn lemma_unary_right_associative(t: Seq<Token>, m1: Token, m2: Token, n: Token)
    requires
        t == seq![m1, m2, n],
        m1.token_type == TokenType::Minus,
        m2.token_type == TokenType::Minus,
        n.token_type == TokenType::Number,
        n.value is Some,
    ensures
        spec_expression(t, 0) == Ok::<(Expression, int), (ParseError, int)>((
            Expression::Unary(
                Unary {
                    op: m1,
                    right: Box::new(
                        Expression::Unary(
                            Unary {
                                op: m2,
                                right: Box::new(Expression::Literal(Literal { value: n.value->0 })),
                            },
                        ),
                    ),
                },
            ),
            3,
        )),
{
    let ln = Expression::Literal(Literal { value: n.value->0 });
    let inner = Expression::Unary(Unary { op: m2, right: Box::new(ln) });
    let outer = Expression::Unary(Unary { op: m1, right: Box::new(inner) });
    lemma_literal_level(t, 2);
    assert(spec_unary(t, 1) == Ok::<(Expression, int), (ParseError, int)>((inner, 3)));
    assert(spec_unary(t, 0) == Ok::<(Expression, int), (ParseError, int)>((outer, 3)));
    assert(spec_factor(t, 0) == Ok::<(Expression, int), (ParseError, int)>((outer, 3)));
    assert(spec_term(t, 0) == Ok::<(Expression, int), (ParseError, int)>((outer, 3)));
    assert(spec_comparison(t, 0) == Ok::<(Expression, int), (ParseError, int)>((outer, 3)));
    assert(spec_equality(t, 0) == Ok::<(Expression, int), (ParseError, int)>((outer, 3)));
}

} // verus!
