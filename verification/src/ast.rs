//! The syntax tree: statements and expressions, and their mathematical views.
use vstd::prelude::*;
use crate::grammar::{alternative, left, parameters};

verus! {

/// An expression of the language.
#[allow(inconsistent_fields)]
#[derive(Debug, PartialEq, Eq)]
pub enum Expression {
    Identifier(String),
    Integer(i32),
    String(String),
    Bool(bool),
    PrefixExpression { operator: String, right_expression: Box<Expression> },
    InfixExpression {
        left_expression: Box<Expression>,
        operator: String,
        right_expression: Box<Expression>,
    },
    IfExpression {
        condition: Box<Expression>,
        consequence: Box<Statement>,
        alternative: Option<Box<Statement>>,
    },
    FunctionLiteral { parameters: Vec<Expression>, body: Box<Statement> },
    CallExpression { function: Box<Expression>, body: Vec<Expression> },
    Array(Vec<Expression>),
    /// The pairs of a hash literal, sorted by the text of their keys.
    Hashmap(Vec<(Expression, Expression)>),
    IndexExpression { array: Box<Expression>, subscript: Box<Expression> },
    /// The absent value. The parser never yields it.
    Null,
}

/// A statement of the language.
#[derive(Debug, PartialEq, Eq)]
pub enum Statement {
    LetStatement { identifier: Expression, value: Expression },
    Return(Expression),
    ExpressionStatement(Expression),
    Block(Vec<Statement>),
}

/// A program: its statements in source order.
#[derive(Debug, PartialEq, Eq)]
pub struct Program {
    pub statements: Vec<Statement>,
}

/// The mathematical value of an expression.
pub ghost enum ExprView {
    Identifier(Seq<char>),
    Integer(int),
    String(Seq<char>),
    Bool(bool),
    Prefix { operator: Seq<char>, right: Box<ExprView> },
    Infix { left: Box<ExprView>, operator: Seq<char>, right: Box<ExprView> },
    If { condition: Box<ExprView>, consequence: Box<StmtView>, alternative: Option<Box<StmtView>> },
    Function { parameters: Seq<ExprView>, body: Box<StmtView> },
    Call { function: Box<ExprView>, arguments: Seq<ExprView> },
    Array(Seq<ExprView>),
    Hashmap(Seq<(ExprView, ExprView)>),
    Index { array: Box<ExprView>, subscript: Box<ExprView> },
    Null,
}

/// The mathematical value of a statement.
pub ghost enum StmtView {
    Let { identifier: ExprView, value: ExprView },
    Return(ExprView),
    Expression(ExprView),
    Block(Seq<StmtView>),
}

/// The value of an expression.
pub open spec fn expr_view(e: Expression) -> ExprView
    decreases e,
{
    match e {
        Expression::Identifier(s) => ExprView::Identifier(s@),
        Expression::Integer(i) => ExprView::Integer(i as int),
        Expression::String(s) => ExprView::String(s@),
        Expression::Bool(b) => ExprView::Bool(b),
        Expression::PrefixExpression { operator, right_expression } => ExprView::Prefix {
            operator: operator@,
            right: Box::new(expr_view(*right_expression)),
        },
        Expression::InfixExpression { left_expression, operator, right_expression } => {
            ExprView::Infix {
                left: Box::new(expr_view(*left_expression)),
                operator: operator@,
                right: Box::new(expr_view(*right_expression)),
            }
        },
        Expression::IfExpression { condition, consequence, alternative } => ExprView::If {
            condition: Box::new(expr_view(*condition)),
            consequence: Box::new(stmt_view(*consequence)),
            alternative: match alternative {
                Some(b) => Some(Box::new(stmt_view(*b))),
                None => None,
            },
        },
        Expression::FunctionLiteral { parameters, body } => ExprView::Function {
            parameters: Seq::new(
                parameters@.len(),
                |i: int|
                    if 0 <= i < parameters@.len() {
                        expr_view(parameters@[i])
                    } else {
                        ExprView::Null
                    },
            ),
            body: Box::new(stmt_view(*body)),
        },
        Expression::CallExpression { function, body } => ExprView::Call {
            function: Box::new(expr_view(*function)),
            arguments: Seq::new(
                body@.len(),
                |i: int|
                    if 0 <= i < body@.len() {
                        expr_view(body@[i])
                    } else {
                        ExprView::Null
                    },
            ),
        },
        Expression::Array(v) => ExprView::Array(
            Seq::new(
                v@.len(),
                |i: int|
                    if 0 <= i < v@.len() {
                        expr_view(v@[i])
                    } else {
                        ExprView::Null
                    },
            ),
        ),
        Expression::Hashmap(v) => ExprView::Hashmap(
            Seq::new(
                v@.len(),
                |i: int|
                    if 0 <= i < v@.len() {
                        (expr_view(v@[i].0), expr_view(v@[i].1))
                    } else {
                        (ExprView::Null, ExprView::Null)
                    },
            ),
        ),
        Expression::IndexExpression { array, subscript } => ExprView::Index {
            array: Box::new(expr_view(*array)),
            subscript: Box::new(expr_view(*subscript)),
        },
        Expression::Null => ExprView::Null,
    }
}

/// The value of a statement.
pub open spec fn stmt_view(s: Statement) -> StmtView
    decreases s,
{
    match s {
        Statement::LetStatement { identifier, value } => StmtView::Let {
            identifier: expr_view(identifier),
            value: expr_view(value),
        },
        Statement::Return(e) => StmtView::Return(expr_view(e)),
        Statement::ExpressionStatement(e) => StmtView::Expression(expr_view(e)),
        Statement::Block(v) => StmtView::Block(
            Seq::new(
                v@.len(),
                |i: int|
                    if 0 <= i < v@.len() {
                        stmt_view(v@[i])
                    } else {
                        StmtView::Block(Seq::empty())
                    },
            ),
        ),
    }
}

/// The values of a sequence of expressions.
pub open spec fn expr_views(v: Seq<Expression>) -> Seq<ExprView> {
    Seq::new(v.len(), |i: int| expr_view(v[i]))
}

/// The values of a sequence of statements.
pub open spec fn stmt_views(v: Seq<Statement>) -> Seq<StmtView> {
    Seq::new(v.len(), |i: int| stmt_view(v[i]))
}

/// The values of a sequence of key-value pairs.
pub open spec fn pair_views(v: Seq<(Expression, Expression)>) -> Seq<(ExprView, ExprView)> {
    Seq::new(v.len(), |i: int| (expr_view(v[i].0), expr_view(v[i].1)))
}

impl View for Expression {
    type V = ExprView;

    open spec fn view(&self) -> ExprView {
        expr_view(*self)
    }
}

impl View for Statement {
    type V = StmtView;

    open spec fn view(&self) -> StmtView {
        stmt_view(*self)
    }
}

impl View for Program {
    type V = Seq<StmtView>;

    open spec fn view(&self) -> Seq<StmtView> {
        stmt_views(self.statements@)
    }
}

/// The view of a list-bearing node is the list of its items' views.
pub proof fn lemma_views_unfold(e: Expression)
    ensures
        e matches Expression::Array(v) ==> e@ == ExprView::Array(expr_views(v@)),
        e matches Expression::Hashmap(v) ==> e@ == ExprView::Hashmap(pair_views(v@)),
        e matches Expression::CallExpression { function, body } ==> e@ == (ExprView::Call {
            function: Box::new(function@),
            arguments: expr_views(body@),
        }),
        e matches Expression::FunctionLiteral { parameters, body } ==> e@ == (ExprView::Function {
            parameters: expr_views(parameters@),
            body: Box::new(body@),
        }),
{
    match e {
        Expression::Array(v) => {
            assert(e@->Array_0 =~= expr_views(v@));
        },
        Expression::Hashmap(v) => {
            assert(e@->Hashmap_0 =~= pair_views(v@));
        },
        Expression::CallExpression { function, body } => {
            assert(e@->Call_arguments =~= expr_views(body@));
        },
        Expression::FunctionLiteral { parameters, body } => {
            assert(e@->Function_parameters =~= expr_views(parameters@));
        },
        _ => {},
    }
}

/// The view of a block is the list of its statements' views.
pub proof fn lemma_block_view(s: Statement)
    ensures
        s matches Statement::Block(v) ==> s@ == StmtView::Block(stmt_views(v@)),
{
    match s {
        Statement::Block(v) => {
            assert(s@->Block_0 =~= stmt_views(v@));
        },
        _ => {},
    }
}

} // verus!
