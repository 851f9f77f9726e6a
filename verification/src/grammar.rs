//! The grammar, as functions from a token sequence and a position to the tree
//! that is read there and the position where reading stops.
//!
//! A position `p` stands on the token `at(ts, p)`; past the end of the
//! sequence every position stands on the end-of-input marker. Each function
//! says on which token it starts and on which it ends: a construct ends on
//! its own last token, never past it.
use vstd::prelude::*;
use crate::ast::{ExprView, StmtView};
use crate::pairs::insert_pair;
use crate::text::int_value;
use crate::token::{eof_view, Precedence, TokenKind, TokenView};

verus! {

/// What reading a construct gives: the tree or the offending token, and the
/// position on which the cursor is left.
pub ghost struct Outcome<T> {
    pub value: Result<T, TokenView>,
    pub end: nat,
}

/// The token at position `p`: past the end, the end-of-input marker.
pub open spec fn at(ts: Seq<TokenView>, p: nat) -> TokenView {
    if p < ts.len() {
        ts[p as int]
    } else {
        eof_view()
    }
}

/// The position after one step forward: the cursor does not leave the end.
pub open spec fn step(ts: Seq<TokenView>, p: nat) -> nat {
    if p < ts.len() {
        p + 1
    } else {
        p
    }
}

/// The number of tokens from position `p` to the end.
pub open spec fn left(ts: Seq<TokenView>, p: nat) -> nat {
    if p < ts.len() {
        (ts.len() - p) as nat
    } else {
        0
    }
}

/// The position at which reading goes on after a construct that started at
/// `from` and ended at `end`. No construct ends before its start
/// (see `sound`), so this is `end`.
pub open spec fn resume(from: nat, end: nat) -> nat {
    if end < from {
        from
    } else {
        end
    }
}

/// Failure on token `t`, with the cursor left at `end`.
pub open spec fn fail<T>(t: TokenView, end: nat) -> Outcome<T> {
    Outcome { value: Err(t), end }
}

/// Success with `v`, with the cursor left at `end`.
pub open spec fn done<T>(v: T, end: nat) -> Outcome<T> {
    Outcome { value: Ok(v), end }
}

/// The text under which an operator is recorded in the tree.
pub open spec fn operator_text(k: TokenKind) -> Seq<char> {
    match k {
        TokenKind::BANG => "!"@,
        TokenKind::PLUS => "+"@,
        TokenKind::MINUS => "-"@,
        TokenKind::ASTERISK => "*"@,
        TokenKind::SLASH => "/"@,
        TokenKind::EQ => "=="@,
        TokenKind::NotEq => "!="@,
        TokenKind::LT => "<"@,
        _ => ">"@,
    }
}

/// The first position from `p` on that stands on a `;` or on the end of input.
pub open spec fn seek_terminator(ts: Seq<TokenView>, p: nat) -> nat
    decreases left(ts, p),
{
    if at(ts, p).kind == TokenKind::SEMICOLON || at(ts, p).kind == TokenKind::EOF {
        p
    } else {
        seek_terminator(ts, p + 1)
    }
}

/// The position after an optional `;` that follows position `p`.
pub open spec fn skip_terminator(ts: Seq<TokenView>, p: nat) -> nat {
    if at(ts, p + 1).kind == TokenKind::SEMICOLON {
        p + 1
    } else {
        p
    }
}

/// The parameters of a function literal whose `(` stands at position `p`:
/// identifiers separated by commas, up to `)`. Ends on the `)`.
pub open spec fn parameters(ts: Seq<TokenView>, p: nat) -> Outcome<Seq<ExprView>> {
    if at(ts, p + 1).kind == TokenKind::RPAREN {
        done(Seq::empty(), p + 1)
    } else if at(ts, p + 1).kind != TokenKind::IDENT {
        fail(at(ts, p + 1), p)
    } else {
        parameters_tail(ts, p + 1, seq![ExprView::Identifier(at(ts, p + 1).literal)])
    }
}

/// The parameters after the one at position `p`, added to `acc`.
pub open spec fn parameters_tail(ts: Seq<TokenView>, p: nat, acc: Seq<ExprView>) -> Outcome<
    Seq<ExprView>,
>
    decreases left(ts, p),
{
    if at(ts, p + 1).kind == TokenKind::COMMA {
        if at(ts, p + 2).kind == TokenKind::IDENT {
            parameters_tail(ts, p + 2, acc.push(ExprView::Identifier(at(ts, p + 2).literal)))
        } else {
            fail(at(ts, p + 2), p + 1)
        }
    } else if at(ts, p + 1).kind == TokenKind::RPAREN {
        done(acc, p + 1)
    } else {
        fail(at(ts, p + 1), p)
    }
}

/// A prefix operator applied to the operand that was read after it.
pub open spec fn prefixed(operator: Seq<char>, operand: Outcome<ExprView>) -> Outcome<ExprView> {
    match operand.value {
        Ok(right) => done(ExprView::Prefix { operator, right: Box::new(right) }, operand.end),
        Err(t) => fail(t, operand.end),
    }
}

/// A parenthesised expression, given what was read after `(`: the next token
/// must be `)`, which is consumed.
pub open spec fn grouped(ts: Seq<TokenView>, inner: Outcome<ExprView>) -> Outcome<ExprView> {
    match inner.value {
        Ok(e) => if at(ts, inner.end + 1).kind == TokenKind::RPAREN {
            done(e, inner.end + 1)
        } else {
            fail(at(ts, inner.end + 1), inner.end)
        },
        Err(t) => fail(t, inner.end),
    }
}

/// A binary operation, given its left operand, its operator and the right
/// operand that was read after the operator.
pub open spec fn infixed(lhs: ExprView, operator: Seq<char>, rhs: Outcome<ExprView>) -> Outcome<
    ExprView,
> {
    match rhs.value {
        Ok(right) => done(
            ExprView::Infix { left: Box::new(lhs), operator, right: Box::new(right) },
            rhs.end,
        ),
        Err(t) => fail(t, rhs.end),
    }
}

/// A call, given the callee and the arguments that were read after `(`.
pub open spec fn called(callee: ExprView, args: Outcome<Seq<ExprView>>) -> Outcome<ExprView> {
    match args.value {
        Ok(list) => done(ExprView::Call { function: Box::new(callee), arguments: list }, args.end),
        Err(t) => fail(t, args.end),
    }
}

/// A subscript, given the indexed expression and what was read after `[`:
/// the next token must be `]`, which is consumed.
pub open spec fn indexed(ts: Seq<TokenView>, target: ExprView, sub: Outcome<ExprView>) -> Outcome<
    ExprView,
> {
    match sub.value {
        Ok(i) => if at(ts, sub.end + 1).kind == TokenKind::RBRACKET {
            done(ExprView::Index { array: Box::new(target), subscript: Box::new(i) }, sub.end + 1)
        } else {
            fail(at(ts, sub.end + 1), sub.end)
        },
        Err(t) => fail(t, sub.end),
    }
}

/// An array literal, given the items that were read after `[`.
pub open spec fn as_array(items: Outcome<Seq<ExprView>>) -> Outcome<ExprView> {
    match items.value {
        Ok(list) => done(ExprView::Array(list), items.end),
        Err(t) => fail(t, items.end),
    }
}

/// A block, given the statements that were read after `{`.
pub open spec fn as_block(items: Outcome<Seq<StmtView>>) -> Outcome<StmtView> {
    match items.value {
        Ok(list) => done(StmtView::Block(list), items.end),
        Err(t) => fail(t, items.end),
    }
}

/// A return statement, given the value that was read after `return`: the
/// cursor moves on to the next `;` or to the end of input.
pub open spec fn returned(ts: Seq<TokenView>, value: Outcome<ExprView>) -> Outcome<StmtView> {
    match value.value {
        Ok(e) => done(StmtView::Return(e), seek_terminator(ts, value.end)),
        Err(t) => fail(t, value.end),
    }
}

/// An expression statement, given its expression: a `;` that follows is
/// consumed.
pub open spec fn terminated(ts: Seq<TokenView>, value: Outcome<ExprView>) -> Outcome<StmtView> {
    match value.value {
        Ok(e) => done(StmtView::Expression(e), skip_terminator(ts, value.end)),
        Err(t) => fail(t, value.end),
    }
}

/// A let statement, given the name and the value that was read after `=`: a
/// `;` that follows is consumed.
pub open spec fn bound(ts: Seq<TokenView>, name: Seq<char>, value: Outcome<ExprView>) -> Outcome<
    StmtView,
> {
    match value.value {
        Ok(e) => done(
            StmtView::Let { identifier: ExprView::Identifier(name), value: e },
            skip_terminator(ts, value.end),
        ),
        Err(t) => fail(t, value.end),
    }
}

/// The expression that starts at position `p`, extended by every operator
/// that binds more strongly than `min`.
pub open spec fn expression(ts: Seq<TokenView>, p: nat, min: Precedence) -> Outcome<ExprView>
    decreases left(ts, p), 2nat,
{
    let head = prefix(ts, p);
    match head.value {
        Ok(e) => extend(ts, resume(p, head.end), e, min),
        Err(t) => fail(t, head.end),
    }
}

/// The operand that starts at position `p`: a literal, an identifier, or a
/// construct opened by `!`, `-`, `(`, `[`, `{`, `if` or `fn`. Any other token
/// is the offending one.
pub open spec fn prefix(ts: Seq<TokenView>, p: nat) -> Outcome<ExprView>
    decreases left(ts, p), 1nat,
{
    let t = at(ts, p);
    match t.kind {
        TokenKind::IDENT => done(ExprView::Identifier(t.literal), p),
        TokenKind::STRING => done(ExprView::String(t.literal), p),
        TokenKind::INT => match int_value(t.literal) {
            Some(i) => done(ExprView::Integer(i), p),
            None => fail(t, p),
        },
        TokenKind::TRUE => done(ExprView::Bool(true), p),
        TokenKind::FALSE => done(ExprView::Bool(false), p),
        TokenKind::BANG | TokenKind::MINUS => prefixed(
            operator_text(t.kind),
            expression(ts, p + 1, Precedence::PREFIX),
        ),
        TokenKind::LPAREN => grouped(ts, expression(ts, p + 1, Precedence::LOWEST)),
        TokenKind::LBRACKET => as_array(list_items(ts, p + 1, TokenKind::RBRACKET)),
        TokenKind::LBRACE => hash_pairs(ts, p + 1, Seq::empty()),
        TokenKind::IF => if_expression(ts, p),
        TokenKind::FUNCTION => function_literal(ts, p),
        _ => fail(t, p),
    }
}

/// The expression `lhs`, which ends at position `p`, extended by the
/// operators, calls and subscripts that follow it and bind more strongly than
/// `min`. A binary operator takes as right operand what binds more strongly
/// than itself, so equal operators group to the left.
pub open spec fn extend(ts: Seq<TokenView>, p: nat, lhs: ExprView, min: Precedence) -> Outcome<
    ExprView,
>
    decreases left(ts, p), 0nat,
{
    let k = at(ts, p + 1).kind;
    if k == TokenKind::SEMICOLON || min.level() >= k.precedence().level() {
        done(lhs, p)
    } else {
        let grown = if k.is_binary_operator() {
            infixed(lhs, operator_text(k), expression(ts, p + 2, k.precedence()))
        } else if k == TokenKind::LPAREN {
            called(lhs, list_items(ts, p + 2, TokenKind::RPAREN))
        } else {
            indexed(ts, lhs, expression(ts, p + 2, Precedence::LOWEST))
        };
        match grown.value {
            Ok(e) => extend(ts, resume(p + 2, grown.end), e, min),
            Err(t) => fail(t, grown.end),
        }
    }
}

/// The expressions of a comma-separated list, read from the token after the
/// opening delimiter up to the closing delimiter `close`. Ends on `close`.
pub open spec fn list_items(ts: Seq<TokenView>, p: nat, close: TokenKind) -> Outcome<
    Seq<ExprView>,
>
    decreases left(ts, p), 5nat,
{
    if at(ts, p).kind == close {
        done(Seq::empty(), p)
    } else {
        let first = expression(ts, p, Precedence::LOWEST);
        match first.value {
            Ok(e) => list_tail(ts, resume(p, first.end), close, seq![e]),
            Err(t) => fail(t, first.end),
        }
    }
}

/// The items of a list after the one that ends at position `p`, added to
/// `acc`.
pub open spec fn list_tail(ts: Seq<TokenView>, p: nat, close: TokenKind, acc: Seq<ExprView>)
    -> Outcome<Seq<ExprView>>
    decreases left(ts, p), 0nat,
{
    if at(ts, p + 1).kind == TokenKind::COMMA {
        let item = expression(ts, p + 2, Precedence::LOWEST);
        match item.value {
            Ok(e) => list_tail(ts, resume(p + 2, item.end), close, acc.push(e)),
            Err(t) => fail(t, item.end),
        }
    } else if at(ts, p + 1).kind == close {
        done(acc, p + 1)
    } else {
        fail(at(ts, p + 1), p)
    }
}

/// The hash literal whose pairs so far are `acc`, read from the token after
/// `{` or after a comma. A pair is `key : value`; pairs are separated by
/// commas, and a comma may stand before the closing `}`. Ends on the `}`.
pub open spec fn hash_pairs(ts: Seq<TokenView>, p: nat, acc: Seq<(ExprView, ExprView)>)
    -> Outcome<ExprView>
    decreases left(ts, p), 5nat,
{
    if at(ts, p).kind == TokenKind::RBRACE {
        done(ExprView::Hashmap(acc), p)
    } else {
        let key = expression(ts, p, Precedence::LOWEST);
        match key.value {
            Ok(k) => {
                let q = resume(p, key.end);
                if at(ts, q + 1).kind != TokenKind::COLON {
                    fail(at(ts, q + 1), q)
                } else {
                    let value = expression(ts, q + 2, Precedence::LOWEST);
                    match value.value {
                        Ok(v) => {
                            let r = resume(q + 2, value.end);
                            let pairs = insert_pair(acc, k, v);
                            if at(ts, r + 1).kind == TokenKind::RBRACE {
                                done(ExprView::Hashmap(pairs), r + 1)
                            } else if at(ts, r + 1).kind == TokenKind::COMMA {
                                hash_pairs(ts, r + 2, pairs)
                            } else {
                                fail(at(ts, r + 1), r)
                            }
                        },
                        Err(t) => fail(t, value.end),
                    }
                }
            },
            Err(t) => fail(t, key.end),
        }
    }
}

/// The conditional that starts with `if` at position `p`: a condition that
/// opens with `(`, a block, and an optional `else` with its block.
pub open spec fn if_expression(ts: Seq<TokenView>, p: nat) -> Outcome<ExprView>
    decreases left(ts, p), 0nat,
{
    if at(ts, p + 1).kind != TokenKind::LPAREN {
        fail(at(ts, p + 1), p)
    } else {
        let cond = expression(ts, p + 1, Precedence::LOWEST);
        match cond.value {
            Ok(c) => {
                let q = resume(p + 1, cond.end);
                if at(ts, q + 1).kind != TokenKind::LBRACE {
                    fail(at(ts, q + 1), q)
                } else {
                    let body = as_block(block_items(ts, q + 2, Seq::empty()));
                    match body.value {
                        Ok(b) => {
                            let other = alternative(ts, resume(q + 2, body.end));
                            match other.value {
                                Ok(a) => done(
                                    ExprView::If {
                                        condition: Box::new(c),
                                        consequence: Box::new(b),
                                        alternative: a,
                                    },
                                    other.end,
                                ),
                                Err(t) => fail(t, other.end),
                            }
                        },
                        Err(t) => fail(t, body.end),
                    }
                }
            },
            Err(t) => fail(t, cond.end),
        }
    }
}

/// The optional `else` branch after the block that ends at position `p`.
pub open spec fn alternative(ts: Seq<TokenView>, p: nat) -> Outcome<Option<Box<StmtView>>>
    decreases left(ts, p), 0nat,
{
    if at(ts, p + 1).kind != TokenKind::ELSE {
        done(None, p)
    } else if at(ts, p + 2).kind != TokenKind::LBRACE {
        fail(at(ts, p + 2), p + 1)
    } else {
        let body = as_block(block_items(ts, p + 3, Seq::empty()));
        match body.value {
            Ok(b) => done(Some(Box::new(b)), body.end),
            Err(t) => fail(t, body.end),
        }
    }
}

/// The function literal that starts with `fn` at position `p`: parameters in
/// parentheses and a block.
pub open spec fn function_literal(ts: Seq<TokenView>, p: nat) -> Outcome<ExprView>
    decreases left(ts, p), 0nat,
{
    if at(ts, p + 1).kind != TokenKind::LPAREN {
        fail(at(ts, p + 1), p)
    } else {
        let params = parameters(ts, p + 1);
        match params.value {
            Ok(names) => {
                let q = resume(p + 1, params.end);
                if at(ts, q + 1).kind != TokenKind::LBRACE {
                    fail(at(ts, q + 1), q)
                } else {
                    let body = as_block(block_items(ts, q + 2, Seq::empty()));
                    match body.value {
                        Ok(b) => done(
                            ExprView::Function { parameters: names, body: Box::new(b) },
                            body.end,
                        ),
                        Err(t) => fail(t, body.end),
                    }
                }
            },
            Err(t) => fail(t, params.end),
        }
    }
}

/// The statements of a block after those in `acc`, read from position `p` up
/// to the closing `}` or the end of input, on which it ends.
pub open spec fn block_items(ts: Seq<TokenView>, p: nat, acc: Seq<StmtView>) -> Outcome<
    Seq<StmtView>,
>
    decreases left(ts, p), 5nat,
{
    if at(ts, p).kind == TokenKind::RBRACE || at(ts, p).kind == TokenKind::EOF {
        done(acc, p)
    } else {
        let s = statement(ts, p);
        match s.value {
            Ok(st) => block_items(ts, step(ts, resume(p, s.end)), acc.push(st)),
            Err(t) => fail(t, s.end),
        }
    }
}

/// The statement that starts at position `p`.
pub open spec fn statement(ts: Seq<TokenView>, p: nat) -> Outcome<StmtView>
    decreases left(ts, p), 4nat,
{
    match at(ts, p).kind {
        TokenKind::LET => let_statement(ts, p),
        TokenKind::RETURN => returned(ts, expression(ts, p + 1, Precedence::LOWEST)),
        _ => terminated(ts, expression(ts, p, Precedence::LOWEST)),
    }
}

/// The let statement that starts with `let` at position `p`: an identifier,
/// `=`, and a value.
pub open spec fn let_statement(ts: Seq<TokenView>, p: nat) -> Outcome<StmtView>
    decreases left(ts, p), 3nat,
{
    if at(ts, p + 1).kind != TokenKind::IDENT {
        fail(at(ts, p + 1), p + 1)
    } else if at(ts, p + 2).kind != TokenKind::ASSIGN {
        fail(at(ts, p + 2), p + 1)
    } else {
        bound(ts, at(ts, p + 1).literal, expression(ts, p + 3, Precedence::LOWEST))
    }
}

/// The statements of a program after those in `acc`, read from position `p`
/// up to the end of input.
pub open spec fn program(ts: Seq<TokenView>, p: nat, acc: Seq<StmtView>) -> Outcome<Seq<StmtView>>
    decreases left(ts, p), 5nat,
{
    if at(ts, p).kind == TokenKind::EOF {
        done(acc, p)
    } else {
        let s = statement(ts, p);
        match s.value {
            Ok(st) => program(ts, step(ts, resume(p, s.end)), acc.push(st)),
            Err(t) => fail(t, s.end),
        }
    }
}

} // verus!
