use vstd::prelude::*;

verus! {

/// A parsed program: its statements in source order.
#[derive(Debug, PartialEq)]
pub struct Program<'source> {
    pub statements: Vec<Statement<'source>>,
}

/// A statement of the language.
#[derive(Debug, PartialEq)]
pub enum Statement<'source> {
    /// `let <name> = <initializer>;`
    Let(&'source str, Expression<'source>),
}

/// An operator written in front of its operand.
#[derive(Debug, PartialEq, Eq, Structural, Clone, Copy)]
pub enum PrefixOperator {
    /// `!`
    Not,
    /// `-`
    Negate,
}

/// An operator written between its operands.
#[derive(Debug, PartialEq, Eq, Structural, Clone, Copy)]
pub enum InfixOperator {
    /// `+`
    Add,
    /// `-`
    Subtract,
    /// `*`
    Multiply,
    /// `/`
    Divide,
    /// `<`
    LessThan,
    /// `>`
    GreaterThan,
    /// `==`
    Equal,
    /// `!=`
    NotEqual,
}

/// An expression of the language. Parentheses only group: they leave no
/// node of their own.
#[derive(Debug, PartialEq)]
pub enum Expression<'source> {
    Identifier(&'source str),
    Integer(i32),
    Prefix(PrefixOperator, Box<Expression<'source>>),
    Infix(Box<Expression<'source>>, InfixOperator, Box<Expression<'source>>),
}

/// A copy of an expression tree.
fn copy_expression<'source>(e: &Expression<'source>) -> (r: Expression<'source>)
    ensures
        r@ == e@,
    decreases e,
{
    match e {
        Expression::Identifier(name) => Expression::Identifier(name),
        Expression::Integer(value) => Expression::Integer(*value),
        Expression::Prefix(op, operand) => Expression::Prefix(*op, Box::new(copy_expression(operand))),
        Expression::Infix(left, op, right) => Expression::Infix(
            Box::new(copy_expression(left)),
            *op,
            Box::new(copy_expression(right)),
        ),
    }
}

impl<'source> Clone for Expression<'source> {
    fn clone(&self) -> (r: Self)
        ensures
            r@ == self@,
    {
        copy_expression(self)
    }
}

impl<'source> Clone for Statement<'source> {
    fn clone(&self) -> (r: Self)
        ensures
            r@ == self@,
    {
        match self {
            Statement::Let(name, value) => Statement::Let(name, value.clone()),
        }
    }
}

/// The model of a statement.
pub enum StatementView {
    Let(Seq<char>, ExpressionView),
}

/// The model of an expression.
pub enum ExpressionView {
    Identifier(Seq<char>),
    Integer(i32),
    Prefix(PrefixOperator, Box<ExpressionView>),
    Infix(Box<ExpressionView>, InfixOperator, Box<ExpressionView>),
}

/// The model of an expression tree.
pub open spec fn expression_view<'source>(e: Expression<'source>) -> ExpressionView
    decreases e,
{
    match e {
        Expression::Identifier(name) => ExpressionView::Identifier(name@),
        Expression::Integer(value) => ExpressionView::Integer(value),
        Expression::Prefix(op, operand) => ExpressionView::Prefix(
            op,
            Box::new(expression_view(*operand)),
        ),
        Expression::Infix(left, op, right) => ExpressionView::Infix(
            Box::new(expression_view(*left)),
            op,
            Box::new(expression_view(*right)),
        ),
    }
}

impl<'source> View for Expression<'source> {
    type V = ExpressionView;

    open spec fn view(&self) -> ExpressionView {
        expression_view(*self)
    }
}

impl<'source> View for Statement<'source> {
    type V = StatementView;

    open spec fn view(&self) -> StatementView {
        match *self {
            Statement::Let(name, value) => StatementView::Let(name@, value@),
        }
    }
}

impl<'source> View for Program<'source> {
    type V = Seq<StatementView>;

    open spec fn view(&self) -> Seq<StatementView> {
        self.statements@.map_values(|s: Statement<'source>| s@)
    }
}

impl<'source> Program<'source> {
    /// A program with no statements.
    pub fn new() -> (r: Self)
        ensures
            r@ == Seq::<StatementView>::empty(),
    {
        let r = Self { statements: Vec::new() };
        assert(r@ =~= Seq::<StatementView>::empty());
        r
    }
}

impl<'source> Default for Program<'source> {
    fn default() -> (r: Self)
        ensures
            r@ == Seq::<StatementView>::empty(),
    {
        Self::new()
    }
}

} // verus!
