//! The display text of syntax trees: compact, without grouping parentheses.
use vstd::prelude::*;
use crate::ast::{
    expr_view, expr_views, lemma_block_view, lemma_views_unfold, pair_views, stmt_view, stmt_views,
    ExprView, Expression, Program, Statement, StmtView,
};
use crate::grammar::{alternative, done, left, parameters};
use crate::text::{int_text, render_int};

verus! {

/// The display text of an expression.
///
/// Operators are written between their operands with single spaces, a prefix
/// operator directly before its operand, and strings without quotes.
pub open spec fn expr_text(e: ExprView) -> Seq<char>
    decreases e,
{
    match e {
        ExprView::Identifier(s) => s,
        ExprView::Integer(i) => int_text(i),
        ExprView::String(s) => s,
        ExprView::Bool(b) => if b {
            "true"@
        } else {
            "false"@
        },
        ExprView::Prefix { operator, right } => operator + expr_text(*right),
        ExprView::Infix { left, operator, right } => expr_text(*left) + " "@ + operator + " "@
            + expr_text(*right),
        ExprView::If { condition, consequence, alternative } => {
            let head = "if ("@ + expr_text(*condition) + ") {"@ + stmt_text(*consequence) + "}"@;
            match alternative {
                Some(b) => head + " else {"@ + stmt_text(*b) + "}"@,
                None => head,
            }
        },
        ExprView::Function { parameters, body } => "fn ("@ + exprs_text(parameters) + ") {"@
            + stmt_text(*body) + "}"@,
        ExprView::Call { function, arguments } => expr_text(*function) + "("@ + exprs_text(
            arguments,
        ) + ")"@,
        ExprView::Array(items) => "["@ + exprs_text(items) + "]"@,
        ExprView::Hashmap(pairs) => "{"@ + pairs_text(pairs) + "}"@,
        ExprView::Index { array, subscript } => expr_text(*array) + "["@ + expr_text(*subscript)
            + "]"@,
        ExprView::Null => "null"@,
    }
}

/// The display texts of a list of expressions, separated by `", "`.
pub open spec fn exprs_text(es: Seq<ExprView>) -> Seq<char>
    decreases es,
{
    if es.len() == 0 {
        Seq::empty()
    } else if es.len() == 1 {
        expr_text(es[0])
    } else {
        exprs_text(es.drop_last()) + ", "@ + expr_text(es.last())
    }
}

/// The display texts of a list of pairs, each `key: value`, separated by `", "`.
pub open spec fn pairs_text(ps: Seq<(ExprView, ExprView)>) -> Seq<char>
    decreases ps,
{
    if ps.len() == 0 {
        Seq::empty()
    } else if ps.len() == 1 {
        expr_text(ps[0].0) + ": "@ + expr_text(ps[0].1)
    } else {
        pairs_text(ps.drop_last()) + ", "@ + expr_text(ps.last().0) + ": "@ + expr_text(
            ps.last().1,
        )
    }
}

/// The display text of a statement.
///
/// A call that stands as a statement keeps its closing `;`; no other
/// statement is written with one.
pub open spec fn stmt_text(s: StmtView) -> Seq<char>
    decreases s,
{
    match s {
        StmtView::Let { identifier, value } => "let "@ + expr_text(identifier) + " = "@
            + expr_text(value),
        StmtView::Return(e) => "return "@ + expr_text(e),
        StmtView::Expression(e) => if e is Call {
            expr_text(e) + ";"@
        } else {
            expr_text(e)
        },
        StmtView::Block(ss) => stmts_text(ss),
    }
}

/// The display texts of a list of statements, separated by single spaces.
pub open spec fn stmts_text(ss: Seq<StmtView>) -> Seq<char>
    decreases ss,
{
    if ss.len() == 0 {
        Seq::empty()
    } else if ss.len() == 1 {
        stmt_text(ss[0])
    } else {
        stmts_text(ss.drop_last()) + " "@ + stmt_text(ss.last())
    }
}

/// Writes a list of expressions, separated by `", "`.
pub fn render_expressions(v: &Vec<Expression>) -> (out: String)
    ensures
        out@ == exprs_text(expr_views(v@)),
    decreases v,
{
    broadcast use vstd::std_specs::vec::axiom_vec_index_decreases;

    let mut out = String::new();
    let mut i: usize = 0;
    while i < v.len()
        invariant
            i <= v.len(),
            out@ == exprs_text(expr_views(v@).subrange(0, i as int)),
        decreases v.len() - i,
    {
        let ghost done = expr_views(v@).subrange(0, i as int);
        let ghost next = expr_views(v@).subrange(0, i + 1);
        assert(next.drop_last() =~= done);
        assert(next.last() == expr_view(v@[i as int]));
        if i > 0 {
            out.append(", ");
        }
        let item = v[i].render();
        out.append(item.as_str());
        assert(out@ =~= exprs_text(next)) by {
            if i == 0 {
                assert(done =~= Seq::empty());
            } else if i == 1 {
                assert(done.len() == 1);
                assert(next.len() == 2);
            }
        }
        i += 1;
    }
    assert(expr_views(v@).subrange(0, i as int) =~= expr_views(v@));
    out
}

/// Writes a list of pairs, each `key: value`, separated by `", "`.
pub fn render_pairs(v: &Vec<(Expression, Expression)>) -> (out: String)
    ensures
        out@ == pairs_text(pair_views(v@)),
    decreases v,
{
    broadcast use vstd::std_specs::vec::axiom_vec_index_decreases;

    let mut out = String::new();
    let mut i: usize = 0;
    while i < v.len()
        invariant
            i <= v.len(),
            out@ == pairs_text(pair_views(v@).subrange(0, i as int)),
        decreases v.len() - i,
    {
        let ghost done = pair_views(v@).subrange(0, i as int);
        let ghost next = pair_views(v@).subrange(0, i + 1);
        assert(next.drop_last() =~= done);
        assert(next.last() == (expr_view(v@[i as int].0), expr_view(v@[i as int].1)));
        if i > 0 {
            out.append(", ");
        }
        let key = v[i].0.render();
        let value = v[i].1.render();
        out.append(key.as_str());
        out.append(": ");
        out.append(value.as_str());
        assert(out@ =~= pairs_text(next)) by {
            if i == 0 {
                assert(done =~= Seq::empty());
            } else if i == 1 {
                assert(done.len() == 1);
                assert(next.len() == 2);
            }
        }
        i += 1;
    }
    assert(pair_views(v@).subrange(0, i as int) =~= pair_views(v@));
    out
}

/// Writes a list of statements, separated by single spaces.
pub fn render_statements(v: &Vec<Statement>) -> (out: String)
    ensures
        out@ == stmts_text(stmt_views(v@)),
    decreases v,
{
    broadcast use vstd::std_specs::vec::axiom_vec_index_decreases;

    let mut out = String::new();
    let mut i: usize = 0;
    while i < v.len()
        invariant
            i <= v.len(),
            out@ == stmts_text(stmt_views(v@).subrange(0, i as int)),
        decreases v.len() - i,
    {
        let ghost done = stmt_views(v@).subrange(0, i as int);
        let ghost next = stmt_views(v@).subrange(0, i + 1);
        assert(next.drop_last() =~= done);
        assert(next.last() == stmt_view(v@[i as int]));
        if i > 0 {
            out.append(" ");
        }
        let item = v[i].render();
        out.append(item.as_str());
        assert(out@ =~= stmts_text(next)) by {
            if i == 0 {
                assert(done =~= Seq::empty());
            } else if i == 1 {
                assert(done.len() == 1);
                assert(next.len() == 2);
            }
        }
        i += 1;
    }
    assert(stmt_views(v@).subrange(0, i as int) =~= stmt_views(v@));
    out
}

impl Expression {
    /// The display text of this expression.
    pub fn render(&self) -> (out: String)
        ensures
            out@ == expr_text(self@),
        decreases self,
    {
        proof {
            lemma_views_unfold(*self);
        }
        match self {
            Expression::Identifier(s) => s.clone(),
            Expression::Integer(i) => render_int(*i),
            Expression::String(s) => s.clone(),
            Expression::Bool(b) => if *b {
                String::from_str("true")
            } else {
                String::from_str("false")
            },
            Expression::PrefixExpression { operator, right_expression } => {
                let mut out = operator.clone();
                let right = right_expression.render();
                out.append(right.as_str());
                out
            },
            Expression::InfixExpression { left_expression, operator, right_expression } => {
                let mut out = left_expression.render();
                let right = right_expression.render();
                out.append(" ");
                out.append(operator.as_str());
                out.append(" ");
                out.append(right.as_str());
                out
            },
            Expression::IfExpression { condition, consequence, alternative } => {
                let mut out = String::from_str("if (");
                let cond = condition.render();
                let cons = consequence.render();
                out.append(cond.as_str());
                out.append(") {");
                out.append(cons.as_str());
                out.append("}");
                match alternative {
                    Some(b) => {
                        let alt = b.render();
                        out.append(" else {");
                        out.append(alt.as_str());
                        out.append("}");
                    },
                    None => {},
                }
                out
            },
            Expression::FunctionLiteral { parameters, body } => {
                let mut out = String::from_str("fn (");
                let params = render_expressions(parameters);
                let block = body.render();
                out.append(params.as_str());
                out.append(") {");
                out.append(block.as_str());
                out.append("}");
                out
            },
            Expression::CallExpression { function, body } => {
                let mut out = function.render();
                let args = render_expressions(body);
                out.append("(");
                out.append(args.as_str());
                out.append(")");
                out
            },
            Expression::Array(items) => {
                let mut out = String::from_str("[");
                let inner = render_expressions(items);
                out.append(inner.as_str());
                out.append("]");
                out
            },
            Expression::Hashmap(pairs) => {
                let mut out = String::from_str("{");
                let inner = render_pairs(pairs);
                out.append(inner.as_str());
                out.append("}");
                out
            },
            Expression::IndexExpression { array, subscript } => {
                let mut out = array.render();
                let inner = subscript.render();
                out.append("[");
                out.append(inner.as_str());
                out.append("]");
                out
            },
            Expression::Null => String::from_str("null"),
        }
    }
}

impl Statement {
    /// The display text of this statement.
    pub fn render(&self) -> (out: String)
        ensures
            out@ == stmt_text(self@),
        decreases self,
    {
        proof {
            lemma_block_view(*self);
        }
        match self {
            Statement::LetStatement { identifier, value } => {
                let mut out = String::from_str("let ");
                let name = identifier.render();
                let val = value.render();
                out.append(name.as_str());
                out.append(" = ");
                out.append(val.as_str());
                out
            },
            Statement::Return(e) => {
                let mut out = String::from_str("return ");
                let val = e.render();
                out.append(val.as_str());
                out
            },
            Statement::ExpressionStatement(e) => {
                let mut out = e.render();
                match e {
                    Expression::CallExpression { .. } => {
                        out.append(";");
                    },
                    _ => {},
                }
                out
            },
            Statement::Block(v) => render_statements(v),
        }
    }
}

impl Program {
    /// The display text of the program: its statements, separated by single
    /// spaces.
    pub fn render(&self) -> (out: String)
        ensures
            out@ == stmts_text(self@),
    {
        render_statements(&self.statements)
    }
}

} // verus!
