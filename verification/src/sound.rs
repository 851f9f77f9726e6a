//! What holds of every outcome of the grammar: reading never moves the
//! cursor back, and every tree that is read has the shape of a parsed tree.
use vstd::prelude::*;
use crate::ast::{ExprView, StmtView};
use crate::grammar::{
    alternative, as_block, at, block_items, expression, extend, function_literal, hash_pairs,
    if_expression, left, let_statement, list_items, list_tail, operator_text, parameters,
    parameters_tail, prefix, program, resume, seek_terminator, statement, step,
};
use crate::pairs::insert_pair;
use crate::shape::{
    block_wf, expr_lexical, good_block, good_expr, good_exprs, good_pairs, good_stmt, good_stmts,
    is_infix_operator, lemma_insert_pair_lexical, lemma_insert_pair_wf, source_ok, stmt_lexical,
};
use crate::token::{Precedence, TokenKind, TokenView};

verus! {

/// The search for a terminator does not go back.
pub proof fn lemma_seek_forward(ts: Seq<TokenView>, p: nat)
    ensures
        seek_terminator(ts, p) >= p,
    decreases left(ts, p),
{
    if !(at(ts, p).kind == TokenKind::SEMICOLON || at(ts, p).kind == TokenKind::EOF) {
        lemma_seek_forward(ts, p + 1);
    }
}

/// Reading parameters does not move the cursor back, and every parameter
/// read is an identifier.
pub proof fn lemma_parameters_tail(ts: Seq<TokenView>, p: nat, acc: Seq<ExprView>)
    requires
        forall|i: int| 0 <= i < acc.len() ==> #[trigger] acc[i] is Identifier,
        source_ok(ts) ==> forall|i: int| 0 <= i < acc.len() ==> expr_lexical(#[trigger] acc[i]),
    ensures
        parameters_tail(ts, p, acc).end >= p,
        parameters_tail(ts, p, acc).value matches Ok(list) ==> forall|i: int|
            0 <= i < list.len() ==> #[trigger] list[i] is Identifier,
        source_ok(ts) ==> (parameters_tail(ts, p, acc).value matches Ok(list) ==> forall|i: int|
            0 <= i < list.len() ==> expr_lexical(#[trigger] list[i])),
    decreases left(ts, p),
{
    if at(ts, p + 1).kind == TokenKind::COMMA && at(ts, p + 2).kind == TokenKind::IDENT {
        lemma_parameters_tail(ts, p + 2, acc.push(ExprView::Identifier(at(ts, p + 2).literal)));
    }
}

/// Reading parameters does not move the cursor back, and every parameter
/// read is an identifier.
pub proof fn lemma_parameters(ts: Seq<TokenView>, p: nat)
    ensures
        parameters(ts, p).end >= p,
        parameters(ts, p).value matches Ok(list) ==> forall|i: int|
            0 <= i < list.len() ==> #[trigger] list[i] is Identifier,
        source_ok(ts) ==> (parameters(ts, p).value matches Ok(list) ==> forall|i: int|
            0 <= i < list.len() ==> expr_lexical(#[trigger] list[i])),
{
    if at(ts, p + 1).kind != TokenKind::RPAREN && at(ts, p + 1).kind == TokenKind::IDENT {
        lemma_parameters_tail(ts, p + 1, seq![ExprView::Identifier(at(ts, p + 1).literal)]);
    }
}

/// An expression ends at or after its start, and has parsed shape.
#[verifier::rlimit(50)]
#[verifier::spinoff_prover]
pub proof fn lemma_expression(ts: Seq<TokenView>, p: nat, min: Precedence)
    ensures
        expression(ts, p, min).end >= p,
        expression(ts, p, min).value matches Ok(e) ==> good_expr(ts, e),
    decreases left(ts, p), 2nat,
{
    lemma_prefix(ts, p);
    let head = prefix(ts, p);
    match head.value {
        Ok(e) => {
            lemma_extend(ts, resume(p, head.end), e, min);
        },
        Err(_) => {},
    }
}

/// An operand ends at or after its start, and has parsed shape.
#[verifier::rlimit(50)]
#[verifier::spinoff_prover]
pub proof fn lemma_prefix(ts: Seq<TokenView>, p: nat)
    ensures
        prefix(ts, p).end >= p,
        prefix(ts, p).value matches Ok(e) ==> good_expr(ts, e),
    decreases left(ts, p), 1nat,
{
    match at(ts, p).kind {
        TokenKind::BANG | TokenKind::MINUS => {
            lemma_expression(ts, p + 1, Precedence::PREFIX);
        },
        TokenKind::LPAREN => {
            lemma_expression(ts, p + 1, Precedence::LOWEST);
        },
        TokenKind::LBRACKET => {
            lemma_list_items(ts, p + 1, TokenKind::RBRACKET);
        },
        TokenKind::LBRACE => {
            lemma_hash_pairs(ts, p + 1, Seq::empty());
        },
        TokenKind::IF => {
            lemma_if_expression(ts, p);
        },
        TokenKind::FUNCTION => {
            lemma_function_literal(ts, p);
        },
        _ => {},
    }
}

/// An extended expression ends at or after the end of what it extends, and
/// has parsed shape if that has.
#[verifier::rlimit(50)]
#[verifier::spinoff_prover]
pub proof fn lemma_extend(ts: Seq<TokenView>, p: nat, lhs: ExprView, min: Precedence)
    requires
        good_expr(ts, lhs),
    ensures
        extend(ts, p, lhs, min).end >= p,
        extend(ts, p, lhs, min).value matches Ok(e) ==> good_expr(ts, e),
    decreases left(ts, p), 0nat,
{
    let k = at(ts, p + 1).kind;
    if !(k == TokenKind::SEMICOLON || min.level() >= k.precedence().level()) {
        if k.is_binary_operator() {
            lemma_expression(ts, p + 2, k.precedence());
            let rhs = expression(ts, p + 2, k.precedence());
            match rhs.value {
                Ok(right) => {
                    assert(is_infix_operator(operator_text(k)));
                    lemma_extend(
                        ts,
                        resume(p + 2, rhs.end),
                        ExprView::Infix {
                            left: Box::new(lhs),
                            operator: operator_text(k),
                            right: Box::new(right),
                        },
                        min,
                    );
                },
                Err(_) => {},
            }
        } else if k == TokenKind::LPAREN {
            lemma_list_items(ts, p + 2, TokenKind::RPAREN);
            let args = list_items(ts, p + 2, TokenKind::RPAREN);
            match args.value {
                Ok(list) => {
                    lemma_extend(
                        ts,
                        resume(p + 2, args.end),
                        ExprView::Call { function: Box::new(lhs), arguments: list },
                        min,
                    );
                },
                Err(_) => {},
            }
        } else {
            lemma_expression(ts, p + 2, Precedence::LOWEST);
            let sub = expression(ts, p + 2, Precedence::LOWEST);
            match sub.value {
                Ok(i) => {
                    if at(ts, sub.end + 1).kind == TokenKind::RBRACKET {
                        lemma_extend(
                            ts,
                            resume(p + 2, sub.end + 1),
                            ExprView::Index { array: Box::new(lhs), subscript: Box::new(i) },
                            min,
                        );
                    }
                },
                Err(_) => {},
            }
        }
    }
}

/// A list ends at or after its start, and its items have parsed shape.
#[verifier::rlimit(50)]
#[verifier::spinoff_prover]
pub proof fn lemma_list_items(ts: Seq<TokenView>, p: nat, close: TokenKind)
    ensures
        list_items(ts, p, close).end >= p,
        list_items(ts, p, close).value matches Ok(list) ==> good_exprs(ts, list),
    decreases left(ts, p), 5nat,
{
    if at(ts, p).kind != close {
        lemma_expression(ts, p, Precedence::LOWEST);
        let first = expression(ts, p, Precedence::LOWEST);
        match first.value {
            Ok(e) => {
                lemma_list_tail(ts, resume(p, first.end), close, seq![e]);
            },
            Err(_) => {},
        }
    }
}

/// The rest of a list ends at or after its start, and the items have parsed
/// shape if those read before have.
#[verifier::rlimit(50)]
#[verifier::spinoff_prover]
pub proof fn lemma_list_tail(ts: Seq<TokenView>, p: nat, close: TokenKind, acc: Seq<ExprView>)
    requires
        good_exprs(ts, acc),
    ensures
        list_tail(ts, p, close, acc).end >= p,
        list_tail(ts, p, close, acc).value matches Ok(list) ==> good_exprs(ts, list),
    decreases left(ts, p), 0nat,
{
    if at(ts, p + 1).kind == TokenKind::COMMA {
        lemma_expression(ts, p + 2, Precedence::LOWEST);
        let item = expression(ts, p + 2, Precedence::LOWEST);
        match item.value {
            Ok(e) => {
                lemma_list_tail(ts, resume(p + 2, item.end), close, acc.push(e));
            },
            Err(_) => {},
        }
    }
}

/// A hash literal ends at or after its start, and has parsed shape if the
/// pairs read before have.
#[verifier::rlimit(50)]
#[verifier::spinoff_prover]
pub proof fn lemma_hash_pairs(ts: Seq<TokenView>, p: nat, acc: Seq<(ExprView, ExprView)>)
    requires
        good_pairs(ts, acc),
    ensures
        hash_pairs(ts, p, acc).end >= p,
        hash_pairs(ts, p, acc).value matches Ok(e) ==> good_expr(ts, e),
    decreases left(ts, p), 5nat,
{
    if at(ts, p).kind != TokenKind::RBRACE {
        lemma_expression(ts, p, Precedence::LOWEST);
        let key = expression(ts, p, Precedence::LOWEST);
        match key.value {
            Ok(k) => {
                let q = resume(p, key.end);
                if at(ts, q + 1).kind == TokenKind::COLON {
                    lemma_expression(ts, q + 2, Precedence::LOWEST);
                    let value = expression(ts, q + 2, Precedence::LOWEST);
                    match value.value {
                        Ok(v) => {
                            let r = resume(q + 2, value.end);
                            lemma_insert_pair_wf(acc, k, v);
                            if source_ok(ts) {
                                lemma_insert_pair_lexical(acc, k, v);
                            }
                            if at(ts, r + 1).kind != TokenKind::RBRACE && at(ts, r + 1).kind
                                == TokenKind::COMMA {
                                lemma_hash_pairs(ts, r + 2, insert_pair(acc, k, v));
                            }
                        },
                        Err(_) => {},
                    }
                }
            },
            Err(_) => {},
        }
    }
}

/// A conditional ends at or after its start, and has parsed shape.
#[verifier::rlimit(50)]
#[verifier::spinoff_prover]
pub proof fn lemma_if_expression(ts: Seq<TokenView>, p: nat)
    ensures
        if_expression(ts, p).end >= p,
        if_expression(ts, p).value matches Ok(e) ==> good_expr(ts, e),
    decreases left(ts, p), 0nat,
{
    if at(ts, p + 1).kind == TokenKind::LPAREN {
        lemma_expression(ts, p + 1, Precedence::LOWEST);
        let cond = expression(ts, p + 1, Precedence::LOWEST);
        match cond.value {
            Ok(c) => {
                let q = resume(p + 1, cond.end);
                if at(ts, q + 1).kind == TokenKind::LBRACE {
                    lemma_block_items(ts, q + 2, Seq::empty());
                    let body = as_block(block_items(ts, q + 2, Seq::empty()));
                    match body.value {
                        Ok(b) => {
                            lemma_alternative(ts, resume(q + 2, body.end));
                            assert(block_wf(b));
                            assert(source_ok(ts) ==> stmt_lexical(b));
                        },
                        Err(_) => {},
                    }
                }
            },
            Err(_) => {},
        }
    }
}

/// An `else` branch ends at or after its start, and has parsed shape.
#[verifier::rlimit(50)]
#[verifier::spinoff_prover]
pub proof fn lemma_alternative(ts: Seq<TokenView>, p: nat)
    ensures
        alternative(ts, p).end >= p,
        alternative(ts, p).value matches Ok(Some(b)) ==> good_block(ts, *b),
    decreases left(ts, p), 0nat,
{
    if at(ts, p + 1).kind == TokenKind::ELSE && at(ts, p + 2).kind == TokenKind::LBRACE {
        lemma_block_items(ts, p + 3, Seq::empty());
        let body = as_block(block_items(ts, p + 3, Seq::empty()));
        if body.value is Ok {
            assert(block_wf(body.value->Ok_0));
            assert(source_ok(ts) ==> stmt_lexical(body.value->Ok_0));
        }
    }
}

/// A function literal ends at or after its start, and has parsed shape.
#[verifier::rlimit(50)]
#[verifier::spinoff_prover]
pub proof fn lemma_function_literal(ts: Seq<TokenView>, p: nat)
    ensures
        function_literal(ts, p).end >= p,
        function_literal(ts, p).value matches Ok(e) ==> good_expr(ts, e),
    decreases left(ts, p), 0nat,
{
    if at(ts, p + 1).kind == TokenKind::LPAREN {
        lemma_parameters(ts, p + 1);
        let params = parameters(ts, p + 1);
        match params.value {
            Ok(names) => {
                let q = resume(p + 1, params.end);
                if at(ts, q + 1).kind == TokenKind::LBRACE {
                    lemma_block_items(ts, q + 2, Seq::empty());
                    let body = as_block(block_items(ts, q + 2, Seq::empty()));
                    if body.value is Ok {
                        assert(block_wf(body.value->Ok_0));
            assert(source_ok(ts) ==> stmt_lexical(body.value->Ok_0));
                    }
                }
            },
            Err(_) => {},
        }
    }
}

/// The statements of a block end at or after their start, and have parsed
/// shape if those read before have.
#[verifier::rlimit(50)]
#[verifier::spinoff_prover]
pub proof fn lemma_block_items(ts: Seq<TokenView>, p: nat, acc: Seq<StmtView>)
    requires
        good_stmts(ts, acc),
    ensures
        block_items(ts, p, acc).end >= p,
        block_items(ts, p, acc).value matches Ok(list) ==> good_stmts(ts, list),
    decreases left(ts, p), 5nat,
{
    if !(at(ts, p).kind == TokenKind::RBRACE || at(ts, p).kind == TokenKind::EOF) {
        lemma_statement(ts, p);
        let s = statement(ts, p);
        match s.value {
            Ok(st) => {
                lemma_block_items(ts, step(ts, resume(p, s.end)), acc.push(st));
            },
            Err(_) => {},
        }
    }
}

/// A statement ends at or after its start, and has parsed shape.
#[verifier::rlimit(50)]
#[verifier::spinoff_prover]
pub proof fn lemma_statement(ts: Seq<TokenView>, p: nat)
    ensures
        statement(ts, p).end >= p,
        statement(ts, p).value matches Ok(s) ==> good_stmt(ts, s),
    decreases left(ts, p), 4nat,
{
    match at(ts, p).kind {
        TokenKind::LET => {
            lemma_let_statement(ts, p);
        },
        TokenKind::RETURN => {
            lemma_expression(ts, p + 1, Precedence::LOWEST);
            lemma_seek_forward(ts, expression(ts, p + 1, Precedence::LOWEST).end);
        },
        _ => {
            lemma_expression(ts, p, Precedence::LOWEST);
        },
    }
}

/// A let statement ends at or after its start, and has parsed shape.
#[verifier::rlimit(50)]
#[verifier::spinoff_prover]
pub proof fn lemma_let_statement(ts: Seq<TokenView>, p: nat)
    ensures
        let_statement(ts, p).end >= p,
        let_statement(ts, p).value matches Ok(s) ==> good_stmt(ts, s),
    decreases left(ts, p), 3nat,
{
    if at(ts, p + 1).kind == TokenKind::IDENT && at(ts, p + 2).kind == TokenKind::ASSIGN {
        lemma_expression(ts, p + 3, Precedence::LOWEST);
        let name = ExprView::Identifier(at(ts, p + 1).literal);
        if source_ok(ts) {
            assert(ts[(p + 1) as int].kind == TokenKind::IDENT);
            assert(expr_lexical(name));
        }
        let value = expression(ts, p + 3, Precedence::LOWEST);
        match value.value {
            Ok(e) => {
                let s = StmtView::Let { identifier: name, value: e };
                assert(good_stmt(ts, s));
            },
            Err(_) => {},
        }
    }
}

/// The statements of a program end at or after their start, and have parsed
/// shape if those read before have.
#[verifier::rlimit(50)]
#[verifier::spinoff_prover]
pub proof fn lemma_program(ts: Seq<TokenView>, p: nat, acc: Seq<StmtView>)
    requires
        good_stmts(ts, acc),
    ensures
        program(ts, p, acc).end >= p,
        program(ts, p, acc).value matches Ok(list) ==> good_stmts(ts, list),
    decreases left(ts, p), 5nat,
{
    if at(ts, p).kind != TokenKind::EOF {
        lemma_statement(ts, p);
        let s = statement(ts, p);
        match s.value {
            Ok(st) => {
                lemma_program(ts, step(ts, resume(p, s.end)), acc.push(st));
            },
            Err(_) => {},
        }
    }
}

} // verus!
