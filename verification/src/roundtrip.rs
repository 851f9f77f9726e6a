//! Reading the canonical tokens of a parsed tree gives that tree again.
use vstd::prelude::*;
use crate::ast::{ExprView, Expression, StmtView};
use crate::canon::{
    block_tokens, expr_tokens, infix_kind, list_tokens, mark, one, pairs_tokens, prefix_kind,
    stmt_tokens, stmts_tokens, tail_tokens,
};
use crate::grammar::{
    alternative, as_array, as_block, at, block_items, called, done, expression, extend,
    function_literal, grouped, hash_pairs, if_expression, indexed, infixed, left, let_statement,
    list_items, list_tail, operator_text, parameters, parameters_tail, prefix, prefixed, program,
    resume, seek_terminator, statement, step,
};
use crate::pairs::insert_pair;
use crate::render::expr_text;
use crate::shape::{
    block_wf, expr_wf, exprs_wf, is_infix_operator, is_prefix_operator, keys_sorted, pairs_wf,
    stmt_wf, stmts_wf,
};
use crate::text::{lemma_int_text_value, lemma_text_lt_total, text_order, TextOrder};
use crate::token::{Precedence, TokenKind, TokenView};

verus! {

/// Whether the tokens `toks` stand in `ts` from position `p` on.
#[verifier::opaque]
pub open spec fn stands(ts: Seq<TokenView>, p: nat, toks: Seq<TokenView>) -> bool {
    &&& p + toks.len() <= ts.len()
    &&& forall|i: int| 0 <= i < toks.len() ==> ts[p + i] == #[trigger] toks[i]
}

/// Whether a token of kind `k` ends the expression before it, whatever
/// binding strength is asked for.
pub open spec fn closes(k: TokenKind) -> bool {
    k == TokenKind::SEMICOLON || (k.precedence() == Precedence::LOWEST && k != TokenKind::ELSE)
}

/// Whether an expression can start with a token of kind `k`.
pub open spec fn starter(k: TokenKind) -> bool {
    matches!(
        k,
        TokenKind::IDENT | TokenKind::INT | TokenKind::STRING | TokenKind::TRUE | TokenKind::FALSE
            | TokenKind::LPAREN | TokenKind::LBRACKET | TokenKind::LBRACE | TokenKind::IF
            | TokenKind::FUNCTION
    )
}

/// Whether an expression can end with a token of kind `k`.
pub open spec fn ender(k: TokenKind) -> bool {
    matches!(
        k,
        TokenKind::IDENT | TokenKind::INT | TokenKind::STRING | TokenKind::TRUE | TokenKind::FALSE
            | TokenKind::RPAREN | TokenKind::RBRACKET | TokenKind::RBRACE
    )
}

/// Where a sequence stands, its two parts stand one after the other.
pub proof fn lemma_stands_split(ts: Seq<TokenView>, p: nat, a: Seq<TokenView>, b: Seq<TokenView>)
    requires
        stands(ts, p, a + b),
    ensures
        stands(ts, p, a),
        stands(ts, p + a.len(), b),
{
    reveal(stands);
    let ab = a + b;
    assert forall|i: int| 0 <= i < a.len() implies ts[p + i] == #[trigger] a[i] by {
        assert(ab[i] == a[i]);
    }
    assert forall|i: int| 0 <= i < b.len() implies ts[p + a.len() + i] == #[trigger] b[i] by {
        assert(ab[a.len() + i] == b[i]);
    }
}

/// Where the one-token sequence of a kind stands, the token has that kind.
pub proof fn lemma_stands_one(ts: Seq<TokenView>, p: nat, k: TokenKind)
    requires
        stands(ts, p, one(k)),
    ensures
        p < ts.len(),
        at(ts, p) == mark(k),
        at(ts, p).kind == k,
{
    reveal(stands);
    assert(one(k)[0] == mark(k));
}

/// Where a sequence stands, each of its tokens stands at its place.
pub proof fn lemma_stands_at(ts: Seq<TokenView>, p: nat, toks: Seq<TokenView>, i: int)
    requires
        stands(ts, p, toks),
        0 <= i < toks.len(),
    ensures
        p + toks.len() <= ts.len(),
        at(ts, (p + i) as nat) == toks[i],
{
    reveal(stands);
}

/// The operator of a parsed prefix operation is the text of its kind.
pub proof fn lemma_prefix_kind(op: Seq<char>)
    requires
        is_prefix_operator(op),
    ensures
        prefix_kind(op) == TokenKind::BANG || prefix_kind(op) == TokenKind::MINUS,
        operator_text(prefix_kind(op)) == op,
{
}

/// The operator of a parsed binary operation is the text of its kind.
pub proof fn lemma_infix_kind(op: Seq<char>)
    requires
        is_infix_operator(op),
    ensures
        infix_kind(op).is_binary_operator(),
        operator_text(infix_kind(op)) == op,
{
    let k = choose|k: TokenKind| k.is_binary_operator() && op == #[trigger] operator_text(k);
    assert(operator_text(k) == op);
}

/// An expression stops before a token that closes it.
pub proof fn lemma_extend_stops(ts: Seq<TokenView>, p: nat, lhs: ExprView, min: Precedence)
    requires
        closes(at(ts, p + 1).kind),
    ensures
        extend(ts, p, lhs, min) == done(lhs, p),
{
}

/// An operand before a token that closes it is the whole expression.
#[verifier::rlimit(50)]
#[verifier::spinoff_prover]
pub proof fn lemma_operand_is_whole(
    ts: Seq<TokenView>,
    p: nat,
    e: ExprView,
    end: nat,
    min: Precedence,
)
    requires
        prefix(ts, p) == done(e, end),
        end >= p,
        closes(at(ts, end + 1).kind),
    ensures
        expression(ts, p, min) == done(e, end),
{
    lemma_extend_stops(ts, end, e, min);
}

/// A sequence that ends with a non-empty part ends as that part does.
pub proof fn lemma_last(a: Seq<TokenView>, b: Seq<TokenView>)
    requires
        b.len() > 0,
    ensures
        (a + b).len() == a.len() + b.len(),
        (a + b).last() == b.last(),
{
}

/// The canonical tokens of a parsed block end with `}`.
#[verifier::rlimit(50)]
#[verifier::spinoff_prover]
pub proof fn lemma_block_ends(b: StmtView)
    requires
        block_wf(b),
    ensures
        block_tokens(b).len() >= 2,
        block_tokens(b)[0].kind == TokenKind::LBRACE,
        block_tokens(b).last().kind == TokenKind::RBRACE,
{
    let items = b->Block_0;
    lemma_last(stmts_tokens(items), one(TokenKind::RBRACE));
    lemma_last(one(TokenKind::LBRACE), stmts_tokens(items) + one(TokenKind::RBRACE));
}

/// The canonical tokens of a parsed expression start and end as an
/// expression does.
#[verifier::rlimit(50)]
pub proof fn lemma_expr_ends(e: ExprView)
    requires
        expr_wf(e),
    ensures
        expr_tokens(e).len() > 0,
        starter(expr_tokens(e)[0].kind),
        ender(expr_tokens(e).last().kind),
{
    match e {
        ExprView::If { condition, consequence, alternative } => {
            assert(block_wf(*consequence));
            lemma_block_ends(*consequence);
            let tail = match alternative {
                Some(b) => one(TokenKind::ELSE) + block_tokens(*b),
                None => Seq::empty(),
            };
            let t4 = block_tokens(*consequence) + tail;
            match alternative {
                Some(b) => {
                    assert(block_wf(*b));
                    lemma_block_ends(*b);
                    lemma_last(one(TokenKind::ELSE), block_tokens(*b));
                    lemma_last(block_tokens(*consequence), tail);
                },
                None => {
                    assert(t4 =~= block_tokens(*consequence));
                },
            }
            let t3 = one(TokenKind::RPAREN) + t4;
            lemma_last(one(TokenKind::RPAREN), t4);
            let t2 = expr_tokens(*condition) + t3;
            lemma_last(expr_tokens(*condition), t3);
            let t1 = one(TokenKind::LPAREN) + t2;
            lemma_last(one(TokenKind::LPAREN), t2);
            lemma_last(one(TokenKind::IF), t1);
        },
        ExprView::Function { parameters, body } => {
            assert(block_wf(*body));
            lemma_block_ends(*body);
            let t3 = one(TokenKind::RPAREN) + block_tokens(*body);
            lemma_last(one(TokenKind::RPAREN), block_tokens(*body));
            let t2 = list_tokens(parameters) + t3;
            lemma_last(list_tokens(parameters), t3);
            let t1 = one(TokenKind::LPAREN) + t2;
            lemma_last(one(TokenKind::LPAREN), t2);
            lemma_last(one(TokenKind::FUNCTION), t1);
        },
        ExprView::Prefix { operator, right } => {
            let t2 = expr_tokens(*right) + one(TokenKind::RPAREN);
            lemma_last(expr_tokens(*right), one(TokenKind::RPAREN));
            let t1 = one(prefix_kind(operator)) + t2;
            lemma_last(one(prefix_kind(operator)), t2);
            lemma_last(one(TokenKind::LPAREN), t1);
        },
        ExprView::Infix { left, operator, right } => {
            let t3 = expr_tokens(*right) + one(TokenKind::RPAREN);
            lemma_last(expr_tokens(*right), one(TokenKind::RPAREN));
            let t2 = one(infix_kind(operator)) + t3;
            lemma_last(one(infix_kind(operator)), t3);
            let t1 = expr_tokens(*left) + t2;
            lemma_last(expr_tokens(*left), t2);
            lemma_last(one(TokenKind::LPAREN), t1);
        },
        ExprView::Call { function, arguments } => {
            let t4 = one(TokenKind::RPAREN) + one(TokenKind::RPAREN);
            lemma_last(one(TokenKind::RPAREN), one(TokenKind::RPAREN));
            let t3 = list_tokens(arguments) + t4;
            lemma_last(list_tokens(arguments), t4);
            let t2 = one(TokenKind::LPAREN) + t3;
            lemma_last(one(TokenKind::LPAREN), t3);
            let t1 = expr_tokens(*function) + t2;
            lemma_last(expr_tokens(*function), t2);
            lemma_last(one(TokenKind::LPAREN), t1);
        },
        ExprView::Index { array, subscript } => {
            let t4 = one(TokenKind::RBRACKET) + one(TokenKind::RPAREN);
            lemma_last(one(TokenKind::RBRACKET), one(TokenKind::RPAREN));
            let t3 = expr_tokens(*subscript) + t4;
            lemma_last(expr_tokens(*subscript), t4);
            let t2 = one(TokenKind::LBRACKET) + t3;
            lemma_last(one(TokenKind::LBRACKET), t3);
            let t1 = expr_tokens(*array) + t2;
            lemma_last(expr_tokens(*array), t2);
            lemma_last(one(TokenKind::LPAREN), t1);
        },
        ExprView::Array(items) => {
            lemma_last(list_tokens(items), one(TokenKind::RBRACKET));
            lemma_last(one(TokenKind::LBRACKET), list_tokens(items) + one(TokenKind::RBRACKET));
        },
        ExprView::Hashmap(pairs) => {
            lemma_last(pairs_tokens(pairs), one(TokenKind::RBRACE));
            lemma_last(one(TokenKind::LBRACE), pairs_tokens(pairs) + one(TokenKind::RBRACE));
        },
        _ => {},
    }
}

/// The canonical tokens of a parsed statement start as a statement does and
/// end with `;`.
#[verifier::rlimit(50)]
#[verifier::spinoff_prover]
pub proof fn lemma_stmt_ends(s: StmtView)
    requires
        stmt_wf(s),
    ensures
        stmt_tokens(s).len() > 0,
        stmt_tokens(s).last().kind == TokenKind::SEMICOLON,
        stmt_tokens(s)[0].kind == TokenKind::LET || stmt_tokens(s)[0].kind == TokenKind::RETURN
            || starter(stmt_tokens(s)[0].kind),
        s is Expression ==> starter(stmt_tokens(s)[0].kind),
{
    match s {
        StmtView::Expression(e) => {
            lemma_expr_ends(e);
            lemma_last(expr_tokens(e), one(TokenKind::SEMICOLON));
        },
        StmtView::Return(e) => {
            lemma_last(expr_tokens(e), one(TokenKind::SEMICOLON));
            lemma_last(one(TokenKind::RETURN), expr_tokens(e) + one(TokenKind::SEMICOLON));
        },
        StmtView::Let { identifier, value } => {
            let t3 = expr_tokens(value) + one(TokenKind::SEMICOLON);
            lemma_last(expr_tokens(value), one(TokenKind::SEMICOLON));
            let t2 = one(TokenKind::ASSIGN) + t3;
            lemma_last(one(TokenKind::ASSIGN), t3);
            let t1 = expr_tokens(identifier) + t2;
            lemma_last(expr_tokens(identifier), t2);
            lemma_last(one(TokenKind::LET), t1);
        },
        _ => {},
    }
}

/// A pair whose key text comes after the key texts of all pairs goes to
/// their end.
pub proof fn lemma_insert_last(ps: Seq<(ExprView, ExprView)>, key: ExprView, value: ExprView)
    requires
        keys_sorted(ps.push((key, value))),
    ensures
        insert_pair(ps, key, value) == ps.push((key, value)),
{
    let text = expr_text(key);
    let all = ps.push((key, value));
    assert forall|j: int| 0 <= j < ps.len() implies text_order(
        expr_text(#[trigger] ps[j].0),
        text,
    ) == TextOrder::Before by {
        assert(all[j] == ps[j]);
        assert(all[ps.len() as int].0 == key);
        lemma_text_lt_total(expr_text(ps[j].0), text);
    }
    crate::pairs::lemma_slot_found(ps, text, ps.len());
    assert(ps.insert(ps.len() as int, (key, value)) =~= ps.push((key, value)));
}

/// Reading the names of parameters that stand after position `p`, each
/// behind a `,` and the last before `)`, gives them.
#[verifier::rlimit(50)]
#[verifier::spinoff_prover]
pub proof fn lemma_names_tail(ts: Seq<TokenView>, p: nat, acc: Seq<ExprView>, names: Seq<ExprView>)
    requires
        forall|i: int| 0 <= i < names.len() ==> #[trigger] names[i] is Identifier,
        stands(ts, p + 1, tail_tokens(names)),
        at(ts, p + 1 + tail_tokens(names).len()).kind == TokenKind::RPAREN,
    ensures
        parameters_tail(ts, p, acc) == done(acc + names, p + 1 + tail_tokens(names).len()),
    decreases names.len(),
{
    if names.len() == 0 {
        assert(acc + names =~= acc);
    } else {
        let rest = names.drop_first();
        let n0 = names[0];
        lemma_stands_split(
            ts,
            p + 1,
            one(TokenKind::COMMA),
            expr_tokens(n0) + tail_tokens(rest),
        );
        lemma_stands_one(ts, p + 1, TokenKind::COMMA);
        lemma_stands_split(ts, p + 2, expr_tokens(n0), tail_tokens(rest));
        lemma_stands_at(ts, p + 2, expr_tokens(n0), 0);
        assert(n0 == ExprView::Identifier(at(ts, p + 2).literal));
        assert forall|i: int| 0 <= i < rest.len() implies #[trigger] rest[i] is Identifier by {
            assert(rest[i] == names[i + 1]);
        }
        lemma_names_tail(ts, p + 2, acc.push(n0), rest);
        assert(acc.push(n0) + rest =~= acc + names);
    }
}

/// Reading the parameters whose names stand between `(` at position `p` and
/// `)` gives them.
#[verifier::rlimit(50)]
#[verifier::spinoff_prover]
pub proof fn lemma_names(ts: Seq<TokenView>, p: nat, names: Seq<ExprView>)
    requires
        forall|i: int| 0 <= i < names.len() ==> #[trigger] names[i] is Identifier,
        stands(ts, p + 1, list_tokens(names)),
        at(ts, p + 1 + list_tokens(names).len()).kind == TokenKind::RPAREN,
    ensures
        parameters(ts, p) == done(names, p + 1 + list_tokens(names).len()),
{
    if names.len() == 0 {
        assert(names =~= Seq::empty());
    } else {
        let rest = names.drop_first();
        let n0 = names[0];
        lemma_stands_split(ts, p + 1, expr_tokens(n0), tail_tokens(rest));
        lemma_stands_at(ts, p + 1, expr_tokens(n0), 0);
        assert(n0 == ExprView::Identifier(at(ts, p + 1).literal));
        assert forall|i: int| 0 <= i < rest.len() implies #[trigger] rest[i] is Identifier by {
            assert(rest[i] == names[i + 1]);
        }
        lemma_names_tail(ts, p + 1, seq![n0], rest);
        assert(seq![n0] + rest =~= names);
    }
}

/// `lemma_operand` for a prefix operation.
#[verifier::rlimit(50)]
#[verifier::spinoff_prover]
proof fn lemma_operand_prefix(ts: Seq<TokenView>, p: nat, e: ExprView)
    requires
        expr_wf(e),
        e is Prefix,
        stands(ts, p, expr_tokens(e)),
        at(ts, p + expr_tokens(e).len()).kind != TokenKind::ELSE,
    ensures
        expr_tokens(e).len() > 0,
        prefix(ts, p) == done(e, (p + expr_tokens(e).len() - 1) as nat),
    decreases e, 0nat,
{
    lemma_expr_ends(e);
    lemma_stands_at(ts, p, expr_tokens(e), 0);
    match e {
        ExprView::Prefix { operator, right } => {
            let k = prefix_kind(operator);
            lemma_prefix_kind(operator);
            let t2 = expr_tokens(*right) + one(TokenKind::RPAREN);
            let t1 = one(k) + t2;
            lemma_stands_split(ts, p, one(TokenKind::LPAREN), t1);
            lemma_stands_split(ts, p + 1, one(k), t2);
            lemma_stands_split(ts, p + 2, expr_tokens(*right), one(TokenKind::RPAREN));
            let nr = expr_tokens(*right).len();
            lemma_stands_one(ts, p, TokenKind::LPAREN);
            lemma_stands_one(ts, p + 1, k);
            lemma_stands_one(ts, p + 2 + nr, TokenKind::RPAREN);
            lemma_whole(ts, p + 2, *right, Precedence::PREFIX);
            let inner = prefixed(operator_text(k), expression(ts, p + 2, Precedence::PREFIX));
            assert(prefix(ts, p + 1) == inner);
            assert(inner == done(e, p + 1 + nr));
            lemma_operand_is_whole(ts, p + 1, e, p + 1 + nr, Precedence::LOWEST);
            assert(prefix(ts, p) == grouped(ts, expression(ts, p + 1, Precedence::LOWEST)));
        },
        _ => {},
    }
}

/// `lemma_operand` for a binary operation.
#[verifier::rlimit(50)]
#[verifier::spinoff_prover]
proof fn lemma_operand_infix(ts: Seq<TokenView>, p: nat, e: ExprView)
    requires
        expr_wf(e),
        e is Infix,
        stands(ts, p, expr_tokens(e)),
        at(ts, p + expr_tokens(e).len()).kind != TokenKind::ELSE,
    ensures
        expr_tokens(e).len() > 0,
        prefix(ts, p) == done(e, (p + expr_tokens(e).len() - 1) as nat),
    decreases e, 0nat,
{
    lemma_expr_ends(e);
    lemma_stands_at(ts, p, expr_tokens(e), 0);
    match e {
        ExprView::Infix { left, operator, right } => {
            let k = infix_kind(operator);
            lemma_infix_kind(operator);
            let t3 = expr_tokens(*right) + one(TokenKind::RPAREN);
            let t2 = one(k) + t3;
            let t1 = expr_tokens(*left) + t2;
            let nl = expr_tokens(*left).len();
            let nr = expr_tokens(*right).len();
            lemma_stands_split(ts, p, one(TokenKind::LPAREN), t1);
            lemma_stands_split(ts, p + 1, expr_tokens(*left), t2);
            lemma_stands_split(ts, p + 1 + nl, one(k), t3);
            lemma_stands_split(ts, p + 2 + nl, expr_tokens(*right), one(TokenKind::RPAREN));
            lemma_stands_one(ts, p, TokenKind::LPAREN);
            lemma_stands_one(ts, p + 1 + nl, k);
            lemma_stands_one(ts, p + 2 + nl + nr, TokenKind::RPAREN);
            lemma_operand(ts, p + 1, *left);
            lemma_whole(ts, p + 2 + nl, *right, k.precedence());
            let q = (p + nl) as nat;
            let r = (p + 1 + nl + nr) as nat;
            assert(prefix(ts, p + 1) == done(*left, q));
            let grown = infixed(*left, operator_text(k), expression(ts, q + 2, k.precedence()));
            assert(grown == done(e, r));
            lemma_extend_stops(ts, r, e, Precedence::LOWEST);
            assert(extend(ts, q, *left, Precedence::LOWEST) == done(e, r));
            assert(expression(ts, p + 1, Precedence::LOWEST) == done(e, r));
            assert(prefix(ts, p) == grouped(ts, expression(ts, p + 1, Precedence::LOWEST)));
        },
        _ => {},
    }
}

/// `lemma_operand` for a call.
#[verifier::rlimit(50)]
#[verifier::spinoff_prover]
proof fn lemma_operand_call(ts: Seq<TokenView>, p: nat, e: ExprView)
    requires
        expr_wf(e),
        e is Call,
        stands(ts, p, expr_tokens(e)),
        at(ts, p + expr_tokens(e).len()).kind != TokenKind::ELSE,
    ensures
        expr_tokens(e).len() > 0,
        prefix(ts, p) == done(e, (p + expr_tokens(e).len() - 1) as nat),
    decreases e, 0nat,
{
    lemma_expr_ends(e);
    lemma_stands_at(ts, p, expr_tokens(e), 0);
    match e {
        ExprView::Call { function, arguments } => {
            let t4 = one(TokenKind::RPAREN) + one(TokenKind::RPAREN);
            let t3 = list_tokens(arguments) + t4;
            let t2 = one(TokenKind::LPAREN) + t3;
            let t1 = expr_tokens(*function) + t2;
            let nf = expr_tokens(*function).len();
            let na = list_tokens(arguments).len();
            lemma_stands_split(ts, p, one(TokenKind::LPAREN), t1);
            lemma_stands_split(ts, p + 1, expr_tokens(*function), t2);
            lemma_stands_split(ts, p + 1 + nf, one(TokenKind::LPAREN), t3);
            lemma_stands_split(ts, p + 2 + nf, list_tokens(arguments), t4);
            lemma_stands_split(
                ts,
                p + 2 + nf + na,
                one(TokenKind::RPAREN),
                one(TokenKind::RPAREN),
            );
            lemma_stands_one(ts, p, TokenKind::LPAREN);
            lemma_stands_one(ts, p + 1 + nf, TokenKind::LPAREN);
            lemma_stands_one(ts, p + 2 + nf + na, TokenKind::RPAREN);
            lemma_stands_one(ts, p + 3 + nf + na, TokenKind::RPAREN);
            lemma_operand(ts, p + 1, *function);
            lemma_list(ts, p + 2 + nf, TokenKind::RPAREN, arguments);
            let q = (p + nf) as nat;
            let r = (p + 2 + nf + na) as nat;
            assert(prefix(ts, p + 1) == done(*function, q));
            let grown = called(*function, list_items(ts, q + 2, TokenKind::RPAREN));
            assert(grown == done(e, r));
            lemma_extend_stops(ts, r, e, Precedence::LOWEST);
            assert(extend(ts, q, *function, Precedence::LOWEST) == done(e, r));
            assert(expression(ts, p + 1, Precedence::LOWEST) == done(e, r));
            assert(prefix(ts, p) == grouped(ts, expression(ts, p + 1, Precedence::LOWEST)));
        },
        _ => {},
    }
}

/// `lemma_operand` for a subscript.
#[verifier::rlimit(50)]
#[verifier::spinoff_prover]
proof fn lemma_operand_index(ts: Seq<TokenView>, p: nat, e: ExprView)
    requires
        expr_wf(e),
        e is Index,
        stands(ts, p, expr_tokens(e)),
        at(ts, p + expr_tokens(e).len()).kind != TokenKind::ELSE,
    ensures
        expr_tokens(e).len() > 0,
        prefix(ts, p) == done(e, (p + expr_tokens(e).len() - 1) as nat),
    decreases e, 0nat,
{
    lemma_expr_ends(e);
    lemma_stands_at(ts, p, expr_tokens(e), 0);
    match e {
        ExprView::Index { array, subscript } => {
            let t4 = one(TokenKind::RBRACKET) + one(TokenKind::RPAREN);
            let t3 = expr_tokens(*subscript) + t4;
            let t2 = one(TokenKind::LBRACKET) + t3;
            let t1 = expr_tokens(*array) + t2;
            let na = expr_tokens(*array).len();
            let ni = expr_tokens(*subscript).len();
            lemma_stands_split(ts, p, one(TokenKind::LPAREN), t1);
            lemma_stands_split(ts, p + 1, expr_tokens(*array), t2);
            lemma_stands_split(ts, p + 1 + na, one(TokenKind::LBRACKET), t3);
            lemma_stands_split(ts, p + 2 + na, expr_tokens(*subscript), t4);
            lemma_stands_split(
                ts,
                p + 2 + na + ni,
                one(TokenKind::RBRACKET),
                one(TokenKind::RPAREN),
            );
            lemma_stands_one(ts, p, TokenKind::LPAREN);
            lemma_stands_one(ts, p + 1 + na, TokenKind::LBRACKET);
            lemma_stands_one(ts, p + 2 + na + ni, TokenKind::RBRACKET);
            lemma_stands_one(ts, p + 3 + na + ni, TokenKind::RPAREN);
            lemma_operand(ts, p + 1, *array);
            lemma_whole(ts, p + 2 + na, *subscript, Precedence::LOWEST);
            let q = (p + na) as nat;
            let r = (p + 2 + na + ni) as nat;
            assert(prefix(ts, p + 1) == done(*array, q));
            let grown = indexed(ts, *array, expression(ts, q + 2, Precedence::LOWEST));
            assert(grown == done(e, r));
            lemma_extend_stops(ts, r, e, Precedence::LOWEST);
            assert(extend(ts, q, *array, Precedence::LOWEST) == done(e, r));
            assert(expression(ts, p + 1, Precedence::LOWEST) == done(e, r));
            assert(prefix(ts, p) == grouped(ts, expression(ts, p + 1, Precedence::LOWEST)));
        },
        _ => {},
    }
}

/// `lemma_operand` for an array literal.
#[verifier::rlimit(50)]
#[verifier::spinoff_prover]
proof fn lemma_operand_array(ts: Seq<TokenView>, p: nat, e: ExprView)
    requires
        expr_wf(e),
        e is Array,
        stands(ts, p, expr_tokens(e)),
        at(ts, p + expr_tokens(e).len()).kind != TokenKind::ELSE,
    ensures
        expr_tokens(e).len() > 0,
        prefix(ts, p) == done(e, (p + expr_tokens(e).len() - 1) as nat),
    decreases e, 0nat,
{
    lemma_expr_ends(e);
    lemma_stands_at(ts, p, expr_tokens(e), 0);
    match e {
        ExprView::Array(items) => {
            let t1 = list_tokens(items) + one(TokenKind::RBRACKET);
            let nl = list_tokens(items).len();
            lemma_stands_split(ts, p, one(TokenKind::LBRACKET), t1);
            lemma_stands_split(ts, p + 1, list_tokens(items), one(TokenKind::RBRACKET));
            lemma_stands_one(ts, p, TokenKind::LBRACKET);
            lemma_stands_one(ts, p + 1 + nl, TokenKind::RBRACKET);
            lemma_list(ts, p + 1, TokenKind::RBRACKET, items);
            assert(prefix(ts, p) == as_array(list_items(ts, p + 1, TokenKind::RBRACKET)));
        },
        _ => {},
    }
}

/// `lemma_operand` for a hash literal.
#[verifier::rlimit(50)]
#[verifier::spinoff_prover]
proof fn lemma_operand_hash(ts: Seq<TokenView>, p: nat, e: ExprView)
    requires
        expr_wf(e),
        e is Hashmap,
        stands(ts, p, expr_tokens(e)),
        at(ts, p + expr_tokens(e).len()).kind != TokenKind::ELSE,
    ensures
        expr_tokens(e).len() > 0,
        prefix(ts, p) == done(e, (p + expr_tokens(e).len() - 1) as nat),
    decreases e, 0nat,
{
    lemma_expr_ends(e);
    lemma_stands_at(ts, p, expr_tokens(e), 0);
    match e {
        ExprView::Hashmap(pairs) => {
            let t1 = pairs_tokens(pairs) + one(TokenKind::RBRACE);
            let np = pairs_tokens(pairs).len();
            lemma_stands_split(ts, p, one(TokenKind::LBRACE), t1);
            lemma_stands_split(ts, p + 1, pairs_tokens(pairs), one(TokenKind::RBRACE));
            lemma_stands_one(ts, p, TokenKind::LBRACE);
            lemma_stands_one(ts, p + 1 + np, TokenKind::RBRACE);
            assert(prefix(ts, p) == hash_pairs(ts, p + 1, Seq::empty()));
            if pairs.len() == 0 {
                assert(pairs =~= Seq::empty());
            } else {
                assert(Seq::<(ExprView, ExprView)>::empty() + pairs =~= pairs);
                lemma_pairs(ts, p + 1, Seq::empty(), pairs);
            }
        },
        _ => {},
    }
}

/// `lemma_operand` for a conditional.
#[verifier::rlimit(50)]
#[verifier::spinoff_prover]
proof fn lemma_operand_if(ts: Seq<TokenView>, p: nat, e: ExprView)
    requires
        expr_wf(e),
        e is If,
        stands(ts, p, expr_tokens(e)),
        at(ts, p + expr_tokens(e).len()).kind != TokenKind::ELSE,
    ensures
        expr_tokens(e).len() > 0,
        prefix(ts, p) == done(e, (p + expr_tokens(e).len() - 1) as nat),
    decreases e, 0nat,
{
    lemma_expr_ends(e);
    lemma_stands_at(ts, p, expr_tokens(e), 0);
    match e {
        ExprView::If { condition, consequence, alternative } => {
            let tail = match alternative {
                Some(b) => one(TokenKind::ELSE) + block_tokens(*b),
                None => Seq::empty(),
            };
            let t4 = block_tokens(*consequence) + tail;
            let t3 = one(TokenKind::RPAREN) + t4;
            let t2 = expr_tokens(*condition) + t3;
            let t1 = one(TokenKind::LPAREN) + t2;
            let nc = expr_tokens(*condition).len();
            let nb = block_tokens(*consequence).len();
            assert(block_wf(*consequence));
            lemma_block_ends(*consequence);
            lemma_stands_split(ts, p, one(TokenKind::IF), t1);
            lemma_stands_split(ts, p + 1, one(TokenKind::LPAREN), t2);
            lemma_stands_split(ts, p + 2, expr_tokens(*condition), t3);
            lemma_stands_split(ts, p + 2 + nc, one(TokenKind::RPAREN), t4);
            lemma_stands_split(ts, p + 3 + nc, block_tokens(*consequence), tail);
            lemma_stands_one(ts, p, TokenKind::IF);
            lemma_stands_one(ts, p + 1, TokenKind::LPAREN);
            lemma_stands_one(ts, p + 2 + nc, TokenKind::RPAREN);
            lemma_stands_at(ts, (p + 3 + nc) as nat, block_tokens(*consequence), 0);
            lemma_whole(ts, p + 2, *condition, Precedence::LOWEST);
            let q = (p + 2 + nc) as nat;
            assert(prefix(ts, p + 1) == grouped(ts, expression(ts, p + 2, Precedence::LOWEST)));
            assert(prefix(ts, p + 1) == done(*condition, q));
            lemma_operand_is_whole(ts, p + 1, *condition, q, Precedence::LOWEST);
            lemma_block(ts, q + 1, *consequence);
            let r = (q + nb) as nat;
            assert(as_block(block_items(ts, q + 2, Seq::empty())) == done(*consequence, r));
            match alternative {
                Some(b) => {
                    assert(block_wf(*b));
                    lemma_block_ends(*b);
                    let nb2 = block_tokens(*b).len();
                    lemma_stands_split(ts, r + 1, one(TokenKind::ELSE), block_tokens(*b));
                    lemma_stands_one(ts, r + 1, TokenKind::ELSE);
                    lemma_stands_at(ts, (r + 2) as nat, block_tokens(*b), 0);
                    lemma_block(ts, r + 2, *b);
                    assert(crate::grammar::alternative(ts, r) == done(
                        Some(b),
                        (r + 1 + nb2) as nat,
                    ));
                },
                None => {
                    assert(t4 =~= block_tokens(*consequence));
                    assert(crate::grammar::alternative(ts, r) == done(None::<Box<StmtView>>, r));
                },
            }
            assert(prefix(ts, p) == if_expression(ts, p));
        },
        _ => {},
    }
}

/// `lemma_operand` for a function literal.
#[verifier::rlimit(50)]
#[verifier::spinoff_prover]
proof fn lemma_operand_function(ts: Seq<TokenView>, p: nat, e: ExprView)
    requires
        expr_wf(e),
        e is Function,
        stands(ts, p, expr_tokens(e)),
        at(ts, p + expr_tokens(e).len()).kind != TokenKind::ELSE,
    ensures
        expr_tokens(e).len() > 0,
        prefix(ts, p) == done(e, (p + expr_tokens(e).len() - 1) as nat),
    decreases e, 0nat,
{
    lemma_expr_ends(e);
    lemma_stands_at(ts, p, expr_tokens(e), 0);
    match e {
        ExprView::Function { parameters, body } => {
            let t3 = one(TokenKind::RPAREN) + block_tokens(*body);
            let t2 = list_tokens(parameters) + t3;
            let t1 = one(TokenKind::LPAREN) + t2;
            let np = list_tokens(parameters).len();
            assert(block_wf(*body));
            lemma_block_ends(*body);
            lemma_stands_split(ts, p, one(TokenKind::FUNCTION), t1);
            lemma_stands_split(ts, p + 1, one(TokenKind::LPAREN), t2);
            lemma_stands_split(ts, p + 2, list_tokens(parameters), t3);
            lemma_stands_split(ts, p + 2 + np, one(TokenKind::RPAREN), block_tokens(*body));
            lemma_stands_one(ts, p, TokenKind::FUNCTION);
            lemma_stands_one(ts, p + 1, TokenKind::LPAREN);
            lemma_stands_one(ts, p + 2 + np, TokenKind::RPAREN);
            lemma_stands_at(ts, (p + 3 + np) as nat, block_tokens(*body), 0);
            lemma_names(ts, p + 1, parameters);
            lemma_block(ts, p + 3 + np, *body);
            assert(prefix(ts, p) == function_literal(ts, p));
        },
        _ => {},
    }
}

/// Reading an operand where the canonical tokens of a parsed expression
/// stand gives that expression, and ends on the last of them.
#[verifier::rlimit(50)]
#[verifier::spinoff_prover]
pub proof fn lemma_operand(ts: Seq<TokenView>, p: nat, e: ExprView)
    requires
        expr_wf(e),
        stands(ts, p, expr_tokens(e)),
        at(ts, p + expr_tokens(e).len()).kind != TokenKind::ELSE,
    ensures
        expr_tokens(e).len() > 0,
        prefix(ts, p) == done(e, (p + expr_tokens(e).len() - 1) as nat),
    decreases e, 1nat,
{
    lemma_expr_ends(e);
    lemma_stands_at(ts, p, expr_tokens(e), 0);
    match e {
        ExprView::Identifier(_) => {},
        ExprView::Integer(i) => {
            lemma_int_text_value(i);
        },
        ExprView::String(_) => {},
        ExprView::Bool(_) => {},
        ExprView::Prefix { .. } => {
            lemma_operand_prefix(ts, p, e);
        },
        ExprView::Infix { .. } => {
            lemma_operand_infix(ts, p, e);
        },
        ExprView::Call { .. } => {
            lemma_operand_call(ts, p, e);
        },
        ExprView::Index { .. } => {
            lemma_operand_index(ts, p, e);
        },
        ExprView::Array(_) => {
            lemma_operand_array(ts, p, e);
        },
        ExprView::Hashmap(_) => {
            lemma_operand_hash(ts, p, e);
        },
        ExprView::If { .. } => {
            lemma_operand_if(ts, p, e);
        },
        ExprView::Function { .. } => {
            lemma_operand_function(ts, p, e);
        },
        ExprView::Null => {},
    }
}

/// Reading an expression where the canonical tokens of a parsed expression
/// stand before a token that closes it gives that expression, and ends on
/// the last of them.
#[verifier::rlimit(50)]
#[verifier::spinoff_prover]
pub proof fn lemma_whole(ts: Seq<TokenView>, p: nat, e: ExprView, min: Precedence)
    requires
        expr_wf(e),
        stands(ts, p, expr_tokens(e)),
        closes(at(ts, p + expr_tokens(e).len()).kind),
    ensures
        expr_tokens(e).len() > 0,
        expression(ts, p, min) == done(e, (p + expr_tokens(e).len() - 1) as nat),
    decreases e, 2nat,
{
    lemma_operand(ts, p, e);
    lemma_operand_is_whole(ts, p, e, (p + expr_tokens(e).len() - 1) as nat, min);
}

/// Reading the items of a list whose canonical tokens stand before the
/// closing delimiter gives them, and ends on the delimiter.
#[verifier::rlimit(50)]
#[verifier::spinoff_prover]
pub proof fn lemma_list(ts: Seq<TokenView>, p: nat, close: TokenKind, es: Seq<ExprView>)
    requires
        exprs_wf(es),
        stands(ts, p, list_tokens(es)),
        at(ts, p + list_tokens(es).len()).kind == close,
        close == TokenKind::RPAREN || close == TokenKind::RBRACKET,
    ensures
        list_items(ts, p, close) == done(es, p + list_tokens(es).len()),
    decreases es, 1nat,
{
    if es.len() == 0 {
        assert(es =~= Seq::empty());
    } else {
        let rest = es.drop_first();
        let n0 = expr_tokens(es[0]).len();
        lemma_stands_split(ts, p, expr_tokens(es[0]), tail_tokens(rest));
        lemma_expr_ends(es[0]);
        lemma_stands_at(ts, p, expr_tokens(es[0]), 0);
        assert(exprs_wf(rest)) by {
            assert forall|i: int| 0 <= i < rest.len() implies expr_wf(#[trigger] rest[i]) by {
                assert(rest[i] == es[i + 1]);
            }
        }
        if rest.len() > 0 {
            lemma_stands_split(
                ts,
                p + n0,
                one(TokenKind::COMMA),
                expr_tokens(rest[0]) + tail_tokens(rest.drop_first()),
            );
            lemma_stands_one(ts, p + n0, TokenKind::COMMA);
        } else {
            assert(tail_tokens(rest) =~= Seq::empty());
        }
        lemma_whole(ts, p, es[0], Precedence::LOWEST);
        lemma_tail(ts, (p + n0 - 1) as nat, close, seq![es[0]], rest);
        assert(seq![es[0]] + rest =~= es);
    }
}

/// Reading the items of a list after the one that ends at position `p`,
/// where their canonical tokens stand before the closing delimiter, gives
/// them, and ends on the delimiter.
#[verifier::rlimit(50)]
#[verifier::spinoff_prover]
pub proof fn lemma_tail(
    ts: Seq<TokenView>,
    p: nat,
    close: TokenKind,
    acc: Seq<ExprView>,
    es: Seq<ExprView>,
)
    requires
        exprs_wf(es),
        stands(ts, p + 1, tail_tokens(es)),
        at(ts, p + 1 + tail_tokens(es).len()).kind == close,
        close == TokenKind::RPAREN || close == TokenKind::RBRACKET,
    ensures
        list_tail(ts, p, close, acc) == done(acc + es, p + 1 + tail_tokens(es).len()),
    decreases es, 0nat,
{
    if es.len() == 0 {
        assert(acc + es =~= acc);
    } else {
        let rest = es.drop_first();
        let n0 = expr_tokens(es[0]).len();
        let t1 = expr_tokens(es[0]) + tail_tokens(rest);
        lemma_stands_split(ts, p + 1, one(TokenKind::COMMA), t1);
        lemma_stands_one(ts, p + 1, TokenKind::COMMA);
        lemma_stands_split(ts, p + 2, expr_tokens(es[0]), tail_tokens(rest));
        assert(exprs_wf(rest)) by {
            assert forall|i: int| 0 <= i < rest.len() implies expr_wf(#[trigger] rest[i]) by {
                assert(rest[i] == es[i + 1]);
            }
        }
        if rest.len() > 0 {
            lemma_stands_split(
                ts,
                p + 2 + n0,
                one(TokenKind::COMMA),
                expr_tokens(rest[0]) + tail_tokens(rest.drop_first()),
            );
            lemma_stands_one(ts, p + 2 + n0, TokenKind::COMMA);
        } else {
            assert(tail_tokens(rest) =~= Seq::empty());
        }
        lemma_whole(ts, p + 2, es[0], Precedence::LOWEST);
        lemma_tail(ts, (p + 1 + n0) as nat, close, acc.push(es[0]), rest);
        assert(acc.push(es[0]) + rest =~= acc + es);
    }
}

/// Reading the pairs of a hash literal whose canonical tokens stand before
/// the closing `}` gives the pairs read before and them, and ends on the
/// `}`.
#[verifier::rlimit(50)]
#[verifier::spinoff_prover]
pub proof fn lemma_pairs(
    ts: Seq<TokenView>,
    p: nat,
    acc: Seq<(ExprView, ExprView)>,
    ps: Seq<(ExprView, ExprView)>,
)
    requires
        ps.len() > 0,
        pairs_wf(acc + ps),
        stands(ts, p, pairs_tokens(ps)),
        at(ts, p + pairs_tokens(ps).len()).kind == TokenKind::RBRACE,
    ensures
        hash_pairs(ts, p, acc) == done(ExprView::Hashmap(acc + ps), p + pairs_tokens(ps).len()),
    decreases ps, 0nat,
{
    let all = acc + ps;
    let key = ps[0].0;
    let value = ps[0].1;
    assert(all[acc.len() as int] == ps[0]);
    assert(expr_wf(key) && expr_wf(value));
    let rest = ps.drop_first();
    let more = if ps.len() == 1 {
        Seq::empty()
    } else {
        one(TokenKind::COMMA) + pairs_tokens(rest)
    };
    let t2 = expr_tokens(value) + more;
    let t1 = one(TokenKind::COLON) + t2;
    let nk = expr_tokens(key).len();
    let nv = expr_tokens(value).len();
    lemma_stands_split(ts, p, expr_tokens(key), t1);
    lemma_stands_split(ts, p + nk, one(TokenKind::COLON), t2);
    lemma_stands_split(ts, p + nk + 1, expr_tokens(value), more);
    lemma_stands_one(ts, p + nk, TokenKind::COLON);
    lemma_expr_ends(key);
    lemma_stands_at(ts, p, expr_tokens(key), 0);
    let r = (p + nk + nv) as nat;
    if ps.len() == 1 {
        assert(more =~= Seq::empty());
    } else {
        lemma_stands_split(ts, r + 1, one(TokenKind::COMMA), pairs_tokens(rest));
        lemma_stands_one(ts, r + 1, TokenKind::COMMA);
    }
    lemma_whole(ts, p, key, Precedence::LOWEST);
    lemma_whole(ts, p + nk + 1, value, Precedence::LOWEST);
    let next = acc.push(ps[0]);
    assert(keys_sorted(next)) by {
        assert forall|i: int, j: int| 0 <= i < j < next.len() implies crate::text::text_lt(
            expr_text(#[trigger] next[i].0),
            expr_text(#[trigger] next[j].0),
        ) by {
            assert(next[i] == all[i]);
            assert(next[j] == all[j]);
        }
    }
    lemma_insert_last(acc, key, value);
    assert(insert_pair(acc, key, value) == next);
    if ps.len() == 1 {
        assert(next =~= acc + ps);
    } else {
        assert(next + rest =~= acc + ps);
        lemma_pairs(ts, r + 2, next, rest);
    }
}

/// Reading a block where the canonical tokens of a parsed block stand gives
/// that block, and ends on its `}`.
#[verifier::rlimit(50)]
#[verifier::spinoff_prover]
pub proof fn lemma_block(ts: Seq<TokenView>, p: nat, b: StmtView)
    requires
        block_wf(b),
        stands(ts, p, block_tokens(b)),
    ensures
        block_tokens(b).len() >= 2,
        as_block(block_items(ts, p + 1, Seq::empty())) == done(
            b,
            (p + block_tokens(b).len() - 1) as nat,
        ),
    decreases b, 1nat,
{
    let items = b->Block_0;
    let t1 = stmts_tokens(items) + one(TokenKind::RBRACE);
    let ns = stmts_tokens(items).len();
    lemma_block_ends(b);
    lemma_stands_split(ts, p, one(TokenKind::LBRACE), t1);
    lemma_stands_split(ts, p + 1, stmts_tokens(items), one(TokenKind::RBRACE));
    lemma_stands_one(ts, p + 1 + ns, TokenKind::RBRACE);
    lemma_stmts(ts, p + 1, Seq::empty(), items, TokenKind::RBRACE);
    assert(Seq::<StmtView>::empty() + items =~= items);
}

/// Reading the statements of a block where the canonical tokens of parsed
/// statements stand before `}` gives the statements read before and them,
/// and ends on the `}`. With the end of input in place of `}`, so does
/// reading the statements of a program.
#[verifier::rlimit(50)]
#[verifier::spinoff_prover]
pub proof fn lemma_stmts(
    ts: Seq<TokenView>,
    p: nat,
    acc: Seq<StmtView>,
    ss: Seq<StmtView>,
    close: TokenKind,
)
    requires
        stmts_wf(ss),
        stands(ts, p, stmts_tokens(ss)),
        at(ts, p + stmts_tokens(ss).len()).kind == close,
        close == TokenKind::RBRACE || close == TokenKind::EOF,
    ensures
        close == TokenKind::RBRACE ==> block_items(ts, p, acc) == done(
            acc + ss,
            p + stmts_tokens(ss).len(),
        ),
        close == TokenKind::EOF ==> program(ts, p, acc) == done(
            acc + ss,
            p + stmts_tokens(ss).len(),
        ),
    decreases ss, 1nat,
{
    if ss.len() == 0 {
        assert(acc + ss =~= acc);
    } else {
        let rest = ss.drop_first();
        let n0 = stmt_tokens(ss[0]).len();
        lemma_stands_split(ts, p, stmt_tokens(ss[0]), stmts_tokens(rest));
        lemma_stmt_ends(ss[0]);
        lemma_stands_at(ts, p, stmt_tokens(ss[0]), 0);
        assert(stmts_wf(rest)) by {
            assert forall|i: int| 0 <= i < rest.len() implies stmt_wf(#[trigger] rest[i]) by {
                assert(rest[i] == ss[i + 1]);
            }
        }
        lemma_stmt(ts, p, ss[0]);
        let q = (p + n0 - 1) as nat;
        assert(statement(ts, p) == done(ss[0], q));
        assert(step(ts, resume(p, q)) == p + n0);
        lemma_stmts(ts, p + n0, acc.push(ss[0]), rest, close);
        assert(acc.push(ss[0]) + rest =~= acc + ss);
    }
}

/// `lemma_stmt` for a let statement.
#[verifier::rlimit(50)]
#[verifier::spinoff_prover]
proof fn lemma_stmt_let(ts: Seq<TokenView>, p: nat, s: StmtView)
    requires
        stmt_wf(s),
        s is Let,
        stands(ts, p, stmt_tokens(s)),
    ensures
        stmt_tokens(s).len() > 0,
        statement(ts, p) == done(s, (p + stmt_tokens(s).len() - 1) as nat),
    decreases s, 0nat,
{
    lemma_stmt_ends(s);
    lemma_stands_at(ts, p, stmt_tokens(s), 0);
    match s {
        StmtView::Let { identifier, value } => {
            let t3 = expr_tokens(value) + one(TokenKind::SEMICOLON);
            let t2 = one(TokenKind::ASSIGN) + t3;
            let t1 = expr_tokens(identifier) + t2;
            let nv = expr_tokens(value).len();
            lemma_stands_split(ts, p, one(TokenKind::LET), t1);
            lemma_stands_split(ts, p + 1, expr_tokens(identifier), t2);
            lemma_stands_split(ts, p + 2, one(TokenKind::ASSIGN), t3);
            lemma_stands_split(ts, p + 3, expr_tokens(value), one(TokenKind::SEMICOLON));
            lemma_stands_one(ts, p, TokenKind::LET);
            lemma_stands_one(ts, p + 2, TokenKind::ASSIGN);
            lemma_stands_one(ts, p + 3 + nv, TokenKind::SEMICOLON);
            lemma_stands_at(ts, (p + 1) as nat, expr_tokens(identifier), 0);
            lemma_whole(ts, p + 3, value, Precedence::LOWEST);
            assert(statement(ts, p) == let_statement(ts, p));
        },
        _ => {},
    }
}

/// `lemma_stmt` for a return statement.
#[verifier::rlimit(50)]
#[verifier::spinoff_prover]
proof fn lemma_stmt_return(ts: Seq<TokenView>, p: nat, s: StmtView)
    requires
        stmt_wf(s),
        s is Return,
        stands(ts, p, stmt_tokens(s)),
    ensures
        stmt_tokens(s).len() > 0,
        statement(ts, p) == done(s, (p + stmt_tokens(s).len() - 1) as nat),
    decreases s, 0nat,
{
    lemma_stmt_ends(s);
    lemma_stands_at(ts, p, stmt_tokens(s), 0);
    match s {
        StmtView::Return(e) => {
            let t1 = expr_tokens(e) + one(TokenKind::SEMICOLON);
            let ne = expr_tokens(e).len();
            lemma_stands_split(ts, p, one(TokenKind::RETURN), t1);
            lemma_stands_split(ts, p + 1, expr_tokens(e), one(TokenKind::SEMICOLON));
            lemma_stands_one(ts, p, TokenKind::RETURN);
            lemma_stands_one(ts, p + 1 + ne, TokenKind::SEMICOLON);
            lemma_expr_ends(e);
            lemma_whole(ts, p + 1, e, Precedence::LOWEST);
            let q = (p + ne) as nat;
            lemma_stands_at(ts, p + 1, expr_tokens(e), ne - 1);
            assert(seek_terminator(ts, q + 1) == q + 1);
            assert(seek_terminator(ts, q) == q + 1);
        },
        _ => {},
    }
}

/// `lemma_stmt` for an expression statement.
#[verifier::rlimit(50)]
#[verifier::spinoff_prover]
proof fn lemma_stmt_expression(ts: Seq<TokenView>, p: nat, s: StmtView)
    requires
        stmt_wf(s),
        s is Expression,
        stands(ts, p, stmt_tokens(s)),
    ensures
        stmt_tokens(s).len() > 0,
        statement(ts, p) == done(s, (p + stmt_tokens(s).len() - 1) as nat),
    decreases s, 0nat,
{
    lemma_stmt_ends(s);
    lemma_stands_at(ts, p, stmt_tokens(s), 0);
    match s {
        StmtView::Expression(e) => {
            let ne = expr_tokens(e).len();
            lemma_stands_split(ts, p, expr_tokens(e), one(TokenKind::SEMICOLON));
            lemma_stands_one(ts, p + ne, TokenKind::SEMICOLON);
            lemma_whole(ts, p, e, Precedence::LOWEST);
        },
        _ => {},
    }
}

/// Reading a statement where the canonical tokens of a parsed statement
/// stand gives that statement, and ends on its `;`.
#[verifier::rlimit(50)]
#[verifier::spinoff_prover]
pub proof fn lemma_stmt(ts: Seq<TokenView>, p: nat, s: StmtView)
    requires
        stmt_wf(s),
        stands(ts, p, stmt_tokens(s)),
    ensures
        stmt_tokens(s).len() > 0,
        statement(ts, p) == done(s, (p + stmt_tokens(s).len() - 1) as nat),
    decreases s, 1nat,
{
    match s {
        StmtView::Let { .. } => {
            lemma_stmt_let(ts, p, s);
        },
        StmtView::Return(_) => {
            lemma_stmt_return(ts, p, s);
        },
        StmtView::Expression(_) => {
            lemma_stmt_expression(ts, p, s);
        },
        StmtView::Block(_) => {},
    }
}

/// Reading the canonical tokens of a parsed program gives that program.
pub proof fn theorem_canonical_tokens_parse_back(ss: Seq<StmtView>)
    requires
        stmts_wf(ss),
    ensures
        program(stmts_tokens(ss), 0, Seq::empty()) == done(ss, stmts_tokens(ss).len()),
{
    let ts = stmts_tokens(ss);
    assert(stands(ts, 0, ts)) by {
        reveal(stands);
    }
    lemma_stmts(ts, 0, Seq::empty(), ss, TokenKind::EOF);
    assert(Seq::<StmtView>::empty() + ss =~= ss);
}

/// Whatever tokens a program was read from, reading the canonical tokens of
/// the program that was read gives the same program again.
pub proof fn theorem_reparse(ts: Seq<TokenView>)
    ensures
        program(ts, 0, Seq::empty()).value matches Ok(ss) ==> program(
            stmts_tokens(ss),
            0,
            Seq::empty(),
        ) == done(ss, stmts_tokens(ss).len()),
{
    crate::sound::lemma_program(ts, 0, Seq::empty());
    match program(ts, 0, Seq::empty()).value {
        Ok(ss) => {
            theorem_canonical_tokens_parse_back(ss);
        },
        Err(_) => {},
    }
}

} // verus!
