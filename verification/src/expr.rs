//! The expression tree: a closed set of node kinds, a visitor contract for
//! adding tree consumers without touching the node definitions, and the
//! canonical fully-parenthesized printer.

use vstd::prelude::*;
use vstd::string::StringExecFns;

use crate::token::LiteralValue;
use crate::token::Token;

verus! {

/// An expression node. Every tree is finite and acyclic: each node exclusively
/// owns its children.
#[derive(PartialEq, Debug)]
pub enum Expression {
    Binary(Binary),
    Grouping(Grouping),
    Literal(Literal),
    Unary(Unary),
}

/// A binary application: `left operator right`.
#[derive(PartialEq, Debug)]
pub struct Binary {
    pub left: Box<Expression>,
    pub op: Token,
    pub right: Box<Expression>,
}

/// A parenthesized expression, kept as a distinct node so that explicit
/// grouping stays visible to every consumer of the tree.
#[derive(PartialEq, Debug)]
pub struct Grouping {
    pub expr: Box<Expression>,
}

/// A terminal node holding a scanned literal value.
#[derive(PartialEq, Debug)]
pub struct Literal {
    pub value: LiteralValue,
}

/// A prefix application: `operator right`.
#[derive(PartialEq, Debug)]
pub struct Unary {
    pub op: Token,
    pub right: Box<Expression>,
}

impl Binary {
    pub fn new(left: Box<Expression>, op: Token, right: Box<Expression>) -> (e: Binary)
        ensures
            e.left == left,
            e.op == op,
            e.right == right,
    {
        Binary { left, op, right }
    }
}

impl Literal {
    pub fn new(value: LiteralValue) -> (e: Literal)
        ensures
            e.value == value,
    {
        Literal { value }
    }
}

impl Unary {
    pub fn new(op: Token, right: Box<Expression>) -> (e: Unary)
        ensures
            e.op == op,
            e.right == right,
    {
        Unary { op, right }
    }
}

/// One operation per node kind, returning a value of the visitor's own output
/// type; the sole mechanism for adding new tree consumers.
pub trait ExprVisitor {
    type Output;

    fn visit_binary(&mut self, expr: &Binary) -> Self::Output;

    fn visit_grouping(&mut self, expr: &Grouping) -> Self::Output;

    fn visit_literal(&mut self, expr: &Literal) -> Self::Output;

    fn visit_unary(&mut self, expr: &Unary) -> Self::Output;
}

impl Expression {
    /// Dispatches to the single visitor operation matching this node's kind.
    pub fn accept<V: ExprVisitor>(&self, visitor: &mut V) -> V::Output {
        match self {
            Expression::Binary(expr) => visitor.visit_binary(expr),
            Expression::Grouping(expr) => visitor.visit_grouping(expr),
            Expression::Literal(expr) => visitor.visit_literal(expr),
            Expression::Unary(expr) => visitor.visit_unary(expr),
        }
    }
}

/// The canonical rendering of an expression tree: prefix operators, fully
/// parenthesized, `group` marking explicit parentheses, literals as their
/// stored text.
pub open spec fn print_expr(e: Expression) -> Seq<char>
    decreases e,
{
    match e {
        Expression::Binary(b) => "("@ + b.op.lexeme@ + " "@ + print_expr(*b.left) + " "@
            + print_expr(*b.right) + ")"@,
        Expression::Grouping(g) => "(group "@ + print_expr(*g.expr) + ")"@,
        Expression::Literal(l) => match l.value {
            LiteralValue::Number(s) => s@,
            LiteralValue::Text(s) => s@,
        },
        Expression::Unary(u) => "("@ + u.op.lexeme@ + " "@ + print_expr(*u.right) + ")"@,
    }
}

fn render_binary(b: &Binary) -> (r: String)
    ensures
        r@ == print_expr(Expression::Binary(*b)),
    decreases *b,
{
    let mut s = String::from_str("(");
    s.append(b.op.lexeme.as_str());
    s.append(" ");
    let left = render(&b.left);
    s.append(left.as_str());
    s.append(" ");
    let right = render(&b.right);
    s.append(right.as_str());
    s.append(")");
    proof {
        assert(s@ =~= print_expr(Expression::Binary(*b)));
    }
    s
}

fn render_grouping(g: &Grouping) -> (r: String)
    ensures
        r@ == print_expr(Expression::Grouping(*g)),
    decreases *g,
{
    let mut s = String::from_str("(group ");
    let inner = render(&g.expr);
    s.append(inner.as_str());
    s.append(")");
    proof {
        assert(s@ =~= print_expr(Expression::Grouping(*g)));
    }
    s
}

fn render_literal(l: &Literal) -> (r: String)
    ensures
        r@ == print_expr(Expression::Literal(*l)),
{
    match &l.value {
        LiteralValue::Number(s) => String::from_str(s.as_str()),
        LiteralValue::Text(s) => String::from_str(s.as_str()),
    }
}

fn render_unary(u: &Unary) -> (r: String)
    ensures
        r@ == print_expr(Expression::Unary(*u)),
    decreases *u,
{
    let mut s = String::from_str("(");
    s.append(u.op.lexeme.as_str());
    s.append(" ");
    let right = render(&u.right);
    s.append(right.as_str());
    s.append(")");
    proof {
        assert(s@ =~= print_expr(Expression::Unary(*u)));
    }
    s
}

fn render(e: &Expression) -> (r: String)
    ensures
        r@ == print_expr(*e),
    decreases *e,
{
    match e {
        Expression::Binary(b) => render_binary(b),
        Expression::Grouping(g) => render_grouping(g),
        Expression::Literal(l) => render_literal(l),
        Expression::Unary(u) => render_unary(u),
    }
}

/// The printer visitor: renders a tree into its canonical parenthesized text.
pub struct AstPrinter;

impl AstPrinter {
    /// Renders a tree. Printing is a pure function of the tree: the result is
    /// exactly `print_expr`, so printing the same tree twice yields the same
    /// string.
    pub fn print(expr: &Expression) -> (r: String)
        ensures
            r@ == print_expr(*expr),
    {
        render(expr)
    }
}

impl ExprVisitor for AstPrinter {
    type Output = String;

    fn visit_binary(&mut self, expr: &Binary) -> (r: String)
        ensures
            r@ == print_expr(Expression::Binary(*expr)),
    {
        render_binary(expr)
    }

    fn visit_grouping(&mut self, expr: &Grouping) -> (r: String)
        ensures
            r@ == print_expr(Expression::Grouping(*expr)),
    {
        render_grouping(expr)
    }

    fn visit_literal(&mut self, expr: &Literal) -> (r: String)
        ensures
            r@ == print_expr(Expression::Literal(*expr)),
    {
        render_literal(expr)
    }

    fn visit_unary(&mut self, expr: &Unary) -> (r: String)
        ensures
            r@ == print_expr(Expression::Unary(*expr)),
    {
        render_unary(expr)
    }
}

/// Printing is a pure function of the tree: rendering the same tree twice
/// yields the same string.
pub proof fn lemma_print_deterministic(a: Seq<char>, b: Seq<char>, e: Expression)
    requires
        a == print_expr(e),
        b == print_expr(e),
    ensures
        a == b,
{
}

} // verus!
