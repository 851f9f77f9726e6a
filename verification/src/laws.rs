//! What holds of lexer, parser and canonical text together.
use vstd::prelude::*;
use crate::ast::ExprView;
use crate::canon::{expr_tokens, one, stmts_tokens};
use crate::grammar::{done, expression, extend, infixed, left, operator_text, prefix, program};
use crate::lexer::tokens_of;
use crate::pairs::insert_pair;
use crate::relex::{lemma_stmts_tokens_writable, lemma_tokens_source_ok, theorem_lex_written_tokens};
use crate::render::expr_text;
use crate::roundtrip::{
    lemma_extend_stops, lemma_operand, lemma_stands_one, lemma_stands_split, lemma_whole, stands,
    theorem_canonical_tokens_parse_back,
};
use crate::shape::{expr_wf, keys_sorted, lemma_insert_pair_ordered};
use crate::sound::lemma_program;
use crate::source::tokens_text;
use crate::text::lemma_text_lt_total;
use crate::token::{Precedence, TokenKind, TokenView};

verus! {

/// The canonical text of a parsed program is read as the same program.
///
/// If the tokens of a text `cs` are read as a program, then lexing the
/// canonical text of that program gives its canonical tokens, and reading
/// those gives the program again, up to their end. So writing the canonical
/// text, reading it and writing it again gives the same text.
pub proof fn theorem_canonical_text_roundtrip(cs: Seq<char>)
    ensures
        program(tokens_of(cs), 0, Seq::empty()).value matches Ok(ss) ==> {
            let text = tokens_text(stmts_tokens(ss));
            &&& tokens_of(text) == stmts_tokens(ss)
            &&& program(tokens_of(text), 0, Seq::empty()) == done(ss, stmts_tokens(ss).len())
        },
{
    let ts = tokens_of(cs);
    lemma_tokens_source_ok(cs, 0);
    lemma_program(ts, 0, Seq::empty());
    match program(ts, 0, Seq::empty()).value {
        Ok(ss) => {
            lemma_stmts_tokens_writable(ss);
            theorem_lex_written_tokens(stmts_tokens(ss));
            theorem_canonical_tokens_parse_back(ss);
        },
        Err(_) => {},
    }
}

/// The binary operation of `left` and `right` under the operator of kind `k`.
pub open spec fn binary(left: ExprView, k: TokenKind, right: ExprView) -> ExprView {
    ExprView::Infix { left: Box::new(left), operator: operator_text(k), right: Box::new(right) }
}

/// Of two binary operators in a row, the second takes the middle operand if
/// and only if it binds more strongly than the first.
///
/// For parsed expressions `a`, `b`, `c` in canonical form and binary
/// operators `k1`, `k2`, the tokens `a k1 b k2 c` are read as
/// `a k1 (b k2 c)` if `k2` binds more strongly than `k1`, and as
/// `(a k1 b) k2 c` if not: operators of equal strength group to the left.
#[verifier::rlimit(50)]
pub proof fn theorem_binding_strength(
    a: ExprView,
    k1: TokenKind,
    b: ExprView,
    k2: TokenKind,
    c: ExprView,
)
    requires
        expr_wf(a),
        expr_wf(b),
        expr_wf(c),
        k1.is_binary_operator(),
        k2.is_binary_operator(),
    ensures
        ({
            let ts = expr_tokens(a) + (one(k1) + (expr_tokens(b) + (one(k2) + expr_tokens(c))));
            expression(ts, 0, Precedence::LOWEST).value == Ok::<ExprView, TokenView>(
                if k1.precedence().level() < k2.precedence().level() {
                    binary(a, k1, binary(b, k2, c))
                } else {
                    binary(binary(a, k1, b), k2, c)
                },
            )
        }),
{
    let t3 = one(k2) + expr_tokens(c);
    let t2 = expr_tokens(b) + t3;
    let t1 = one(k1) + t2;
    let ts = expr_tokens(a) + t1;
    let na = expr_tokens(a).len();
    let nb = expr_tokens(b).len();
    let nc = expr_tokens(c).len();
    assert(stands(ts, 0, ts)) by {
        reveal(stands);
    }
    lemma_stands_split(ts, 0, expr_tokens(a), t1);
    lemma_stands_split(ts, na, one(k1), t2);
    lemma_stands_split(ts, na + 1, expr_tokens(b), t3);
    lemma_stands_split(ts, na + 1 + nb, one(k2), expr_tokens(c));
    lemma_stands_one(ts, na, k1);
    lemma_stands_one(ts, na + 1 + nb, k2);
    assert(ts.len() == na + nb + nc + 2);
    lemma_operand(ts, 0, a);
    lemma_operand(ts, na + 1, b);
    lemma_whole(ts, na + 2 + nb, c, k2.precedence());
    let qa = (na - 1) as nat;
    let qb = (na + nb) as nat;
    let end = (na + nb + nc + 1) as nat;
    assert(prefix(ts, 0) == done(a, qa));
    assert(prefix(ts, na + 1) == done(b, qb));
    assert(expression(ts, qb + 2, k2.precedence()) == done(c, end));
    if k1.precedence().level() < k2.precedence().level() {
        let inner = binary(b, k2, c);
        let whole = binary(a, k1, inner);
        lemma_extend_stops(ts, end, inner, k1.precedence());
        assert(infixed(b, operator_text(k2), expression(ts, qb + 2, k2.precedence())) == done(
            inner,
            end,
        ));
        assert(extend(ts, qb, b, k1.precedence()) == done(inner, end));
        assert(expression(ts, qa + 2, k1.precedence()) == done(inner, end));
        lemma_extend_stops(ts, end, whole, Precedence::LOWEST);
        assert(infixed(a, operator_text(k1), expression(ts, qa + 2, k1.precedence())) == done(
            whole,
            end,
        ));
        assert(extend(ts, qa, a, Precedence::LOWEST) == done(whole, end));
        assert(expression(ts, 0, Precedence::LOWEST) == done(whole, end));
    } else {
        let first = binary(a, k1, b);
        let whole = binary(first, k2, c);
        assert(extend(ts, qb, b, k1.precedence()) == done(b, qb));
        assert(expression(ts, qa + 2, k1.precedence()) == done(b, qb));
        assert(infixed(a, operator_text(k1), expression(ts, qa + 2, k1.precedence())) == done(
            first,
            qb,
        ));
        lemma_extend_stops(ts, end, whole, Precedence::LOWEST);
        assert(infixed(first, operator_text(k2), expression(ts, qb + 2, k2.precedence()))
            == done(whole, end));
        assert(extend(ts, qb, first, Precedence::LOWEST) == done(whole, end));
        assert(extend(ts, qa, a, Precedence::LOWEST) == done(whole, end));
        assert(expression(ts, 0, Precedence::LOWEST) == done(whole, end));
    }
}

/// The pairs of a hash literal do not depend on the order in which pairs
/// with different key texts are added.
pub proof fn theorem_hash_order(
    ps: Seq<(ExprView, ExprView)>,
    k1: ExprView,
    v1: ExprView,
    k2: ExprView,
    v2: ExprView,
)
    requires
        keys_sorted(ps),
        expr_text(k1) != expr_text(k2),
    ensures
        insert_pair(insert_pair(ps, k1, v1), k2, v2) == insert_pair(
            insert_pair(ps, k2, v2),
            k1,
            v1,
        ),
{
    lemma_text_lt_total(expr_text(k1), expr_text(k2));
    if crate::text::text_lt(expr_text(k1), expr_text(k2)) {
        lemma_insert_pair_ordered(ps, k1, v1, k2, v2);
    } else {
        lemma_insert_pair_ordered(ps, k2, v2, k1, v1);
    }
}

} // verus!
